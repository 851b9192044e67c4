use hobkey::drivers::ethernet::e1000::E1000;
use hobkey::drivers::serial::{Serial, SerialError, COM0};
use hobkey::helpers::{atou, get_temp_addr, map_phy_temp};
use hobkey::idt::{InterruptDescriptor64, GATE_INTERRUPT, GATE_PRESENT};
use hobkey::memory::paging::PageTableManager;
use hobkey::process::Process;

#[test]
fn serial_init_sequence() {
    let w = Serial::init_writes(COM0);
    assert_eq!(
        w,
        vec![
            (0x3f9, 0x00),
            (0x3fb, 0x80),
            (0x3f8, 0x03),
            (0x3f9, 0x00),
            (0x3fb, 0x03),
            (0x3fa, 0xc7),
            (0x3fc, 0x0b),
            (0x3fc, 0x1e),
            (0x3f8, 0xae),
        ]
    );
}

#[test]
fn serial_highest_port() {
    assert_eq!(Serial::init_writes(0xfffb)[6], (0xffff, 0x0b));
    assert_eq!(Serial::initialize_port(0xfffb, 0xae), Ok((0xffff, 0x0f)));
}

#[test]
fn serial_loopback_check() {
    assert_eq!(Serial::initialize_port(COM0, 0xae), Ok((0x3fc, 0x0f)));
    assert_eq!(Serial::initialize_port(COM0, 0x00), Err(SerialError::Faulty));
}

#[test]
fn serial_construction_follows_initialisation() {
    assert_eq!(Serial::new(COM0, Ok(())).ok().unwrap().port, COM0);
    assert!(matches!(Serial::new(COM0, Err(SerialError::Faulty)), Err(SerialError::Faulty)));
    assert_eq!(Serial::new_uninit(0x2f8).port, 0x2f8);
}

#[test]
fn serial_line_status_bits() {
    assert!(Serial::data_ready(0x01));
    assert!(!Serial::data_ready(0x60));
    assert!(Serial::tx_empty(0x20));
    assert!(!Serial::tx_empty(0x01));
}

#[test]
fn interrupt_gate_splits_the_handler_address() {
    let d = InterruptDescriptor64::new(0x1234_5678_9abc_def0, GATE_PRESENT | GATE_INTERRUPT);
    assert_eq!(d._offset_1, 0xdef0);
    assert_eq!(d._offset_2, 0x9abc);
    assert_eq!(d._offset_3, 0x1234_5678);
    assert_eq!(d._type_attributes, 0x8e);
    assert_eq!(d._selector, 0x08);
    assert_eq!(d._ist, 0);
    assert_eq!(d._zero, 0);
}

#[test]
fn atou_weights_from_the_second_last_byte() {
    assert_eq!(atou(b"12\0", 8), Some(2 * 8 + 1 * 64));
    assert_eq!(atou(b"ff ", 16), Some(15 * 16 + 15 * 256));
    assert_eq!(atou(b"A0", 16), Some(10 * 16));
    assert_eq!(atou(b"7", 10), Some(0));
    assert_eq!(atou(b"", 10), Some(0));
}

#[test]
fn atou_refuses_large_bases() {
    assert_eq!(atou(b"12\0", 17), None);
}

#[test]
fn temp_mapping_without_manager_uses_direct_map() {
    let mut none: Option<PageTableManager> = None;
    assert_eq!(map_phy_temp(0x5000, &mut none, false, 0xffff_8000_0000_0000, 48), Ok(0xffff_8000_0000_5000));
    assert_eq!(get_temp_addr(&none, false, 48), 0);
}

#[test]
fn temp_mapping_with_manager_moves_the_window() {
    let ptm = PageTableManager::from_parts(0x1000, 0xffff_ffff_9000_0000, 0, 0, 0);
    let mut some = Some(ptm);
    assert_eq!(map_phy_temp(0x5000, &mut some, false, 0, 48), Ok(0xffff_ffff_9000_0000));
    assert_eq!(get_temp_addr(&some, false, 48), 0x5000);
    assert_eq!(get_temp_addr(&some, true, 48), 0);
}

#[test]
fn process_has_id_zero_and_its_address_space() {
    let ptm = PageTableManager::from_parts(0x1000, 0x2000, 0x3000, 0x4000, 0x5000);
    let mut p = Process::new(ptm);
    assert_eq!(p.id(), 0);
    assert_eq!(p.ptm_mut().phy_addr, 0x1000);
    p.ptm_mut().mmap_end = 0x6000;
    assert_eq!(p.ptm_mut().mmap_end, 0x6000);
}

#[test]
fn network_controller_record() {
    let nic = E1000 { io_base: 0xc000, eeprom_exists: true, mac_buffer: [0x52, 0x54, 0, 0x12, 0x34, 0x56] };
    assert_eq!(nic.io_base, 0xc000);
    assert!(nic.eeprom_exists);
    assert_eq!(nic.mac_buffer[0], 0x52);
}
