use hobkey::drivers::pci::class_codes::program_interfaces::SATAInterface;
use hobkey::drivers::pci::class_codes::{
    bridge, msc, networkcontroller, BridgeType, ClassCodeRegister, MassStorageType, NetworkType,
};
use hobkey::drivers::pci::pci_communication::{PciAddressError, PciDeviceAddress};
use hobkey::drivers::pci::PciType;

#[test]
fn device_number_out_of_range() {
    assert!(matches!(
        PciDeviceAddress::new(0, 32, 0),
        Err(PciAddressError::DeviceOutOfRange(32))
    ));
}

#[test]
fn function_number_out_of_range() {
    assert!(matches!(
        PciDeviceAddress::new(0, 3, 8),
        Err(PciAddressError::FunctionOutOfRange(8))
    ));
}

#[test]
fn config_address_packs_fields() {
    let a = PciDeviceAddress::new(0x12, 0x1f, 0x7).ok().unwrap();
    assert_eq!(a.format_address(true, 0x0c), Ok(0x8012_ff0c));
    assert_eq!(a.format_address(false, 0x08), Ok(0x0012_ff08));
}

#[test]
fn config_address_requires_aligned_register() {
    let a = PciDeviceAddress::new(1, 2, 3).ok().unwrap();
    assert_eq!(a.format_address(true, 0x0d), Err(PciAddressError::RegisterAlignment(0x0d)));
    assert_eq!(a.format_address(true, 0x02), Err(PciAddressError::RegisterAlignment(0x02)));
}

#[test]
fn distinct_registers_get_distinct_words() {
    let a = PciDeviceAddress::new(1, 2, 3).ok().unwrap();
    let b = PciDeviceAddress::new(1, 2, 4).ok().unwrap();
    assert_ne!(a.format_address(true, 0), b.format_address(true, 0));
    assert_ne!(a.format_address(true, 4), a.format_address(true, 8));
}

#[test]
fn absent_device_reads_all_ones() {
    assert!(!PciDeviceAddress::device_exists(0xffff_ffff));
    assert!(!PciDeviceAddress::device_exists(0x1234_ffff));
    assert!(PciDeviceAddress::device_exists(0x1234_8086));
}

#[test]
fn multi_function_bit() {
    assert!(PciDeviceAddress::is_multi_function(0x0080_0000));
    assert!(!PciDeviceAddress::is_multi_function(0x0000_0000));
    assert!(!PciDeviceAddress::is_multi_function(0x0040_0000));
}

#[test]
fn class_register_fields() {
    let r = ClassCodeRegister::from(0x0106_0102u32);
    assert_eq!(r.class_code, 0x01);
    assert_eq!(r.subclass_code, 0x06);
    assert_eq!(r.prog_if, 0x01);
    assert_eq!(r._revision_id, 0x02);
}

#[test]
fn sata_ahci_controller() {
    assert_eq!(
        PciDeviceAddress::get_device_type(0x0106_0100),
        PciType::MassStorageController(MassStorageType::SATA(SATAInterface::AHCI))
    );
    assert_eq!(msc(0x06, 0x01), MassStorageType::SATA(SATAInterface::AHCI));
}

#[test]
fn ethernet_controller() {
    assert_eq!(
        PciDeviceAddress::get_device_type(0x0200_0000),
        PciType::NetworkController(NetworkType::Ethernet)
    );
    assert_eq!(networkcontroller(0x80), NetworkType::Other);
}

#[test]
fn host_bridge_and_fixed_classes() {
    assert_eq!(bridge(0x00, 0x00), BridgeType::Host);
    assert_eq!(
        PciDeviceAddress::get_device_type(0x0604_0000),
        PciType::Bridge(BridgeType::PciToPci)
    );
    assert_eq!(PciDeviceAddress::get_device_type(0x4000_0000), PciType::CoProcessor);
    assert_eq!(PciDeviceAddress::get_device_type(0xff00_0000), PciType::Unassigned);
}

#[test]
fn known_and_unknown_class_codes() {
    assert!(ClassCodeRegister::from(0x0106_0100u32).is_known());
    assert!(ClassCodeRegister::from(0x0c03_3000u32).is_known());
    assert!(!ClassCodeRegister::from(0x0199_0000u32).is_known());
    assert!(!ClassCodeRegister::from(0x0106_0300u32).is_known());
    assert!(!ClassCodeRegister::from(0x2000_0000u32).is_known());
    assert!(ClassCodeRegister::from(0xff12_3456u32).is_known());
}
