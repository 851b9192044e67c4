//! Turns PCI class codes into device kinds.
use vstd::prelude::*;

pub mod program_interfaces;

use program_interfaces::{
    ATAInterface, IDEInterface, NonVolatileMemoryInterface, SATAInterface, SerialSCSIInterface,
    USBInterface, VGACompatInteface,
};

verus! {

pub const UNCLASSIFIED: u8 = 0;
pub const MASS_STORAGE_CONTROLLER: u8 = 0x01;
pub const NETWORK_CONTROLLER: u8 = 0x02;
pub const DISPLAY_CONTROLLER: u8 = 0x03;
pub const MUTLIMEDIA_CONTROLLER: u8 = 0x04;
pub const MEMORY_CONTROLLER: u8 = 0x05;
pub const BRIDGE: u8 = 0x06;
pub const SIMPLE_COM_CONTROLLER: u8 = 0x07;
pub const BASE_SYS_PERIPHERAL: u8 = 0x08;
pub const INPUT_DEVICE_CONTROLLER: u8 = 0x09;
pub const DOCKING_STATION: u8 = 0x0A;
pub const PROCESSOR: u8 = 0x0b;
pub const SERIAL_BUS_CONTROLLER: u8 = 0x0c;
pub const WIRELESS_CONTROLLER: u8 = 0x0d;
pub const INTELLIGENT_CONTROLLER: u8 = 0x0e;
pub const SATELLITE_COM_CONTROLLER: u8 = 0x0f;
pub const ENCRYPTION_CONTROLLER: u8 = 0x10;
pub const SIGNAL_PROCESSING_CONTROLLER: u8 = 0x11;
pub const PROCESSING_ACCELERATOR: u8 = 0x12;
pub const NON_ESSENTIAL_INSTRUMENTATION: u8 = 0x13;
pub const CO_PROCESSOR: u8 = 0x40;
pub const UNASSIGNED: u8 = 0xff;

#[derive(Clone, Copy, Debug, PartialEq, Eq, Structural)]
pub enum UnclassifiedType {
    NonVGA,
    VGA,
}

#[derive(Clone, Copy, Debug, PartialEq, Eq, Structural)]
pub enum MassStorageType {
    SCSIBus,
    IDE(IDEInterface),
    FloppyDisk,
    IPIBus,
    RAID,
    ATA(ATAInterface),
    SATA(SATAInterface),
    SerialSCSI(SerialSCSIInterface),
    NonVolatileMemory(NonVolatileMemoryInterface),
    Other,
}

#[derive(Clone, Copy, Debug, PartialEq, Eq, Structural)]
pub enum NetworkType {
    Ethernet,
    TokenRing,
    FFDI,
    ATM,
    ISDN,
    WorldFip,
    PICMG,
    Infiniband,
    Fabric,
    Other,
}

#[derive(Clone, Copy, Debug, PartialEq, Eq, Structural)]
pub enum DisplayType {
    VGACompatible(VGACompatInteface),
    XGA,
    ThreeD,
    Other,
}

#[derive(Clone, Copy, Debug, PartialEq, Eq, Structural)]
pub enum MultiMediaType {
    Video,
    AudioController,
    ComputerTelephony,
    AudioDevice,
    Other,
}

#[derive(Clone, Copy, Debug, PartialEq, Eq, Structural)]
pub enum MemoryControllerType {
    RAM,
    Flash,
    Other,
}

#[derive(Clone, Copy, Debug, PartialEq, Eq, Structural)]
pub enum BridgeType {
    Host,
    ISA,
    EISA,
    MCA,
    PciToPci,
    PCMCIA,
    NuBus,
    CardBus,
    RACEway,
    InfibandPciBridge,
    Other,
}

#[derive(Clone, Copy, Debug, PartialEq, Eq, Structural)]
pub enum SimpleComType {
    Serial,
    Parallel,
    MultiportSerial,
    Modem,
    GPIB,
    SmartCard,
    Other,
}

#[derive(Clone, Copy, Debug, PartialEq, Eq, Structural)]
pub enum BasePeripheralType {
    PIC,
    DMA,
    Timer,
    RTC,
    PCIHotPlug,
    SDHost,
    IOMMU,
    Other,
}

#[derive(Clone, Copy, Debug, PartialEq, Eq, Structural)]
pub enum InputDeviceType {
    Keyboard,
    DigitizerPen,
    Mouse,
    Scanner,
    GamePort,
    Other,
}

#[derive(Clone, Copy, Debug, PartialEq, Eq, Structural)]
pub enum DockingStationType {
    Generic,
    Other,
}

#[derive(Clone, Copy, Debug, PartialEq, Eq, Structural)]
pub enum ProcessorType {
    P386,
    P486,
    Pentium,
    PentiumPro,
    Alpha,
    PowerPC,
    MIPS,
    CoProcessor,
    Other,
}

#[derive(Clone, Copy, Debug, PartialEq, Eq, Structural)]
pub enum SerialBusType {
    FireWire,
    ACCESSBus,
    SSA,
    USB(USBInterface),
    FibreChannel,
    SMBus,
    InfiniBand,
    IPMIInterface,
    SERCOSInterface,
    CANbus,
    Other,
}

#[allow(non_camel_case_types)]
#[derive(Clone, Copy, Debug, PartialEq, Eq, Structural)]
pub enum WirelessType {
    iRDACompatible,
    ConsumerIR,
    RF,
    Bluetooth,
    Broadband,
    Ethernet_802_1a,
    Ethernet_802_1b,
    Other,
}

#[derive(Clone, Copy, Debug, PartialEq, Eq, Structural)]
pub enum SatelliteComType {
    TV,
    Audio,
    Voice,
    Data,
}

#[derive(Clone, Copy, Debug, PartialEq, Eq, Structural)]
pub enum EncryptionType {
    NetCodec,
    EntertainmentCodec,
    Other,
}

#[derive(Clone, Copy, Debug, PartialEq, Eq, Structural)]
pub enum SignalProcessingType {
    DPIOModules,
    PerformanceCounters,
    CommSynchronizer,
    SignalProcessingManagement,
    Other,
}

/// What a PCI device is, decoded from its class code register.
#[derive(Clone, Copy, Debug, PartialEq, Eq, Structural)]
pub enum PciType {
    Unclassified(UnclassifiedType),
    MassStorageController(MassStorageType),
    NetworkController(NetworkType),
    DisplayController(DisplayType),
    MutlimediaController(MultiMediaType),
    MemoryController(MemoryControllerType),
    Bridge(BridgeType),
    SimpleComController(SimpleComType),
    BaseSysPeripheral(BasePeripheralType),
    InputDeviceController(InputDeviceType),
    DockingStation(DockingStationType),
    Processor(ProcessorType),
    SerialBusController(SerialBusType),
    WirelessController(WirelessType),
    IntelligentController,
    SatelliteComController(SatelliteComType),
    EncryptionController(EncryptionType),
    SignalProcessingController(SignalProcessingType),
    ProcessingAccelerator,
    NonEssentialInstrumentation,
    CoProcessor,
    Unassigned,
}

/// Table behind `unclassified`: `None` for a subclass it does not know.
pub open spec fn unclassified_table(subclass: u8) -> Option<UnclassifiedType> {
    match subclass {
        0x00 => Some(UnclassifiedType::NonVGA),
        0x01 => Some(UnclassifiedType::VGA),
        _ => None,
    }
}

/// Kind of an unclassified device, from its subclass.
pub fn unclassified(subclass: u8) -> (r: UnclassifiedType)
    requires
        unclassified_table(subclass) is Some,
    ensures
        Some(r) == unclassified_table(subclass),
{
    match subclass {
        0x00 => UnclassifiedType::NonVGA,
        0x01 => UnclassifiedType::VGA,
        _ => {
            proof {
                assert(false);
            }
            UnclassifiedType::NonVGA
        },
    }
}

/// Table behind `networkcontroller`: `None` for a subclass it does not know.
pub open spec fn networkcontroller_table(subclass: u8) -> Option<NetworkType> {
    match subclass {
        0x00 => Some(NetworkType::Ethernet),
        0x01 => Some(NetworkType::TokenRing),
        0x02 => Some(NetworkType::FFDI),
        0x03 => Some(NetworkType::ATM),
        0x04 => Some(NetworkType::ISDN),
        0x05 => Some(NetworkType::WorldFip),
        0x06 => Some(NetworkType::PICMG),
        0x07 => Some(NetworkType::Infiniband),
        0x08 => Some(NetworkType::Fabric),
        0x80 => Some(NetworkType::Other),
        _ => None,
    }
}

/// Kind of a network controller, from its subclass.
pub fn networkcontroller(subclass: u8) -> (r: NetworkType)
    requires
        networkcontroller_table(subclass) is Some,
    ensures
        Some(r) == networkcontroller_table(subclass),
{
    match subclass {
        0x00 => NetworkType::Ethernet,
        0x01 => NetworkType::TokenRing,
        0x02 => NetworkType::FFDI,
        0x03 => NetworkType::ATM,
        0x04 => NetworkType::ISDN,
        0x05 => NetworkType::WorldFip,
        0x06 => NetworkType::PICMG,
        0x07 => NetworkType::Infiniband,
        0x08 => NetworkType::Fabric,
        0x80 => NetworkType::Other,
        _ => {
            proof {
                assert(false);
            }
            NetworkType::Ethernet
        },
    }
}

/// Table behind `multimedia`: `None` for a subclass it does not know.
pub open spec fn multimedia_table(subclass: u8) -> Option<MultiMediaType> {
    match subclass {
        0x00 => Some(MultiMediaType::Video),
        0x01 => Some(MultiMediaType::AudioController),
        0x02 => Some(MultiMediaType::ComputerTelephony),
        0x03 => Some(MultiMediaType::AudioDevice),
        0x80 => Some(MultiMediaType::Other),
        _ => None,
    }
}

/// Kind of a multimedia controller, from its subclass.
pub fn multimedia(subclass: u8) -> (r: MultiMediaType)
    requires
        multimedia_table(subclass) is Some,
    ensures
        Some(r) == multimedia_table(subclass),
{
    match subclass {
        0x00 => MultiMediaType::Video,
        0x01 => MultiMediaType::AudioController,
        0x02 => MultiMediaType::ComputerTelephony,
        0x03 => MultiMediaType::AudioDevice,
        0x80 => MultiMediaType::Other,
        _ => {
            proof {
                assert(false);
            }
            MultiMediaType::Video
        },
    }
}

/// Table behind `memory`: `None` for a subclass it does not know.
pub open spec fn memory_table(subclass: u8) -> Option<MemoryControllerType> {
    match subclass {
        0x00 => Some(MemoryControllerType::RAM),
        0x01 => Some(MemoryControllerType::Flash),
        0x80 => Some(MemoryControllerType::Other),
        _ => None,
    }
}

/// Kind of a memory controller, from its subclass.
pub fn memory(subclass: u8) -> (r: MemoryControllerType)
    requires
        memory_table(subclass) is Some,
    ensures
        Some(r) == memory_table(subclass),
{
    match subclass {
        0x00 => MemoryControllerType::RAM,
        0x01 => MemoryControllerType::Flash,
        0x80 => MemoryControllerType::Other,
        _ => {
            proof {
                assert(false);
            }
            MemoryControllerType::RAM
        },
    }
}

/// Table behind `simplecom`: `None` for a subclass it does not know.
pub open spec fn simplecom_table(subclass: u8) -> Option<SimpleComType> {
    match subclass {
        0x00 => Some(SimpleComType::Serial),
        0x01 => Some(SimpleComType::Parallel),
        0x02 => Some(SimpleComType::MultiportSerial),
        0x03 => Some(SimpleComType::Modem),
        0x04 => Some(SimpleComType::GPIB),
        0x05 => Some(SimpleComType::SmartCard),
        0x80 => Some(SimpleComType::Other),
        _ => None,
    }
}

/// Kind of a simple communication controller, from its subclass.
pub fn simplecom(subclass: u8) -> (r: SimpleComType)
    requires
        simplecom_table(subclass) is Some,
    ensures
        Some(r) == simplecom_table(subclass),
{
    match subclass {
        0x00 => SimpleComType::Serial,
        0x01 => SimpleComType::Parallel,
        0x02 => SimpleComType::MultiportSerial,
        0x03 => SimpleComType::Modem,
        0x04 => SimpleComType::GPIB,
        0x05 => SimpleComType::SmartCard,
        0x80 => SimpleComType::Other,
        _ => {
            proof {
                assert(false);
            }
            SimpleComType::Serial
        },
    }
}

/// Table behind `baseperipheral`: `None` for a subclass it does not know.
pub open spec fn baseperipheral_table(subclass: u8) -> Option<BasePeripheralType> {
    match subclass {
        0x00 => Some(BasePeripheralType::PIC),
        0x01 => Some(BasePeripheralType::DMA),
        0x02 => Some(BasePeripheralType::Timer),
        0x03 => Some(BasePeripheralType::RTC),
        0x04 => Some(BasePeripheralType::PCIHotPlug),
        0x05 => Some(BasePeripheralType::SDHost),
        0x06 => Some(BasePeripheralType::IOMMU),
        0x80 => Some(BasePeripheralType::Other),
        _ => None,
    }
}

/// Kind of a base system peripheral, from its subclass.
pub fn baseperipheral(subclass: u8) -> (r: BasePeripheralType)
    requires
        baseperipheral_table(subclass) is Some,
    ensures
        Some(r) == baseperipheral_table(subclass),
{
    match subclass {
        0x00 => BasePeripheralType::PIC,
        0x01 => BasePeripheralType::DMA,
        0x02 => BasePeripheralType::Timer,
        0x03 => BasePeripheralType::RTC,
        0x04 => BasePeripheralType::PCIHotPlug,
        0x05 => BasePeripheralType::SDHost,
        0x06 => BasePeripheralType::IOMMU,
        0x80 => BasePeripheralType::Other,
        _ => {
            proof {
                assert(false);
            }
            BasePeripheralType::PIC
        },
    }
}

/// Table behind `inputdevice`: `None` for a subclass it does not know.
pub open spec fn inputdevice_table(subclass: u8) -> Option<InputDeviceType> {
    match subclass {
        0x00 => Some(InputDeviceType::Keyboard),
        0x01 => Some(InputDeviceType::DigitizerPen),
        0x02 => Some(InputDeviceType::Mouse),
        0x03 => Some(InputDeviceType::Scanner),
        0x04 => Some(InputDeviceType::GamePort),
        0x80 => Some(InputDeviceType::Other),
        _ => None,
    }
}

/// Kind of an input device controller, from its subclass.
pub fn inputdevice(subclass: u8) -> (r: InputDeviceType)
    requires
        inputdevice_table(subclass) is Some,
    ensures
        Some(r) == inputdevice_table(subclass),
{
    match subclass {
        0x00 => InputDeviceType::Keyboard,
        0x01 => InputDeviceType::DigitizerPen,
        0x02 => InputDeviceType::Mouse,
        0x03 => InputDeviceType::Scanner,
        0x04 => InputDeviceType::GamePort,
        0x80 => InputDeviceType::Other,
        _ => {
            proof {
                assert(false);
            }
            InputDeviceType::Keyboard
        },
    }
}

/// Table behind `dockingstation`: `None` for a subclass it does not know.
pub open spec fn dockingstation_table(subclass: u8) -> Option<DockingStationType> {
    match subclass {
        0x00 => Some(DockingStationType::Generic),
        0x80 => Some(DockingStationType::Other),
        _ => None,
    }
}

/// Kind of a docking station, from its subclass.
pub fn dockingstation(subclass: u8) -> (r: DockingStationType)
    requires
        dockingstation_table(subclass) is Some,
    ensures
        Some(r) == dockingstation_table(subclass),
{
    match subclass {
        0x00 => DockingStationType::Generic,
        0x80 => DockingStationType::Other,
        _ => {
            proof {
                assert(false);
            }
            DockingStationType::Generic
        },
    }
}

/// Table behind `processor`: `None` for a subclass it does not know.
pub open spec fn processor_table(subclass: u8) -> Option<ProcessorType> {
    match subclass {
        0x00 => Some(ProcessorType::P386),
        0x01 => Some(ProcessorType::P486),
        0x02 => Some(ProcessorType::Pentium),
        0x03 => Some(ProcessorType::PentiumPro),
        0x10 => Some(ProcessorType::Alpha),
        0x20 => Some(ProcessorType::PowerPC),
        0x30 => Some(ProcessorType::MIPS),
        0x40 => Some(ProcessorType::CoProcessor),
        0x80 => Some(ProcessorType::Other),
        _ => None,
    }
}

/// Kind of a processor, from its subclass.
pub fn processor(subclass: u8) -> (r: ProcessorType)
    requires
        processor_table(subclass) is Some,
    ensures
        Some(r) == processor_table(subclass),
{
    match subclass {
        0x00 => ProcessorType::P386,
        0x01 => ProcessorType::P486,
        0x02 => ProcessorType::Pentium,
        0x03 => ProcessorType::PentiumPro,
        0x10 => ProcessorType::Alpha,
        0x20 => ProcessorType::PowerPC,
        0x30 => ProcessorType::MIPS,
        0x40 => ProcessorType::CoProcessor,
        0x80 => ProcessorType::Other,
        _ => {
            proof {
                assert(false);
            }
            ProcessorType::P386
        },
    }
}

/// Table behind `wirelesscontroller`: `None` for a subclass it does not know.
pub open spec fn wirelesscontroller_table(subclass: u8) -> Option<WirelessType> {
    match subclass {
        0x00 => Some(WirelessType::iRDACompatible),
        0x01 => Some(WirelessType::ConsumerIR),
        0x10 => Some(WirelessType::RF),
        0x11 => Some(WirelessType::Bluetooth),
        0x12 => Some(WirelessType::Broadband),
        0x20 => Some(WirelessType::Ethernet_802_1a),
        0x21 => Some(WirelessType::Ethernet_802_1b),
        0x80 => Some(WirelessType::Other),
        _ => None,
    }
}

/// Kind of a wireless controller, from its subclass.
pub fn wirelesscontroller(subclass: u8) -> (r: WirelessType)
    requires
        wirelesscontroller_table(subclass) is Some,
    ensures
        Some(r) == wirelesscontroller_table(subclass),
{
    match subclass {
        0x00 => WirelessType::iRDACompatible,
        0x01 => WirelessType::ConsumerIR,
        0x10 => WirelessType::RF,
        0x11 => WirelessType::Bluetooth,
        0x12 => WirelessType::Broadband,
        0x20 => WirelessType::Ethernet_802_1a,
        0x21 => WirelessType::Ethernet_802_1b,
        0x80 => WirelessType::Other,
        _ => {
            proof {
                assert(false);
            }
            WirelessType::iRDACompatible
        },
    }
}

/// Table behind `satelitecom`: `None` for a subclass it does not know.
pub open spec fn satelitecom_table(subclass: u8) -> Option<SatelliteComType> {
    match subclass {
        0x01 => Some(SatelliteComType::TV),
        0x02 => Some(SatelliteComType::Audio),
        0x03 => Some(SatelliteComType::Voice),
        0x04 => Some(SatelliteComType::Data),
        _ => None,
    }
}

/// Kind of a satellite communication controller, from its subclass.
pub fn satelitecom(subclass: u8) -> (r: SatelliteComType)
    requires
        satelitecom_table(subclass) is Some,
    ensures
        Some(r) == satelitecom_table(subclass),
{
    match subclass {
        0x01 => SatelliteComType::TV,
        0x02 => SatelliteComType::Audio,
        0x03 => SatelliteComType::Voice,
        0x04 => SatelliteComType::Data,
        _ => {
            proof {
                assert(false);
            }
            SatelliteComType::TV
        },
    }
}

/// Table behind `encryptioncontroller`: `None` for a subclass it does not know.
pub open spec fn encryptioncontroller_table(subclass: u8) -> Option<EncryptionType> {
    match subclass {
        0x00 => Some(EncryptionType::NetCodec),
        0x10 => Some(EncryptionType::EntertainmentCodec),
        0x80 => Some(EncryptionType::Other),
        _ => None,
    }
}

/// Kind of an encryption controller, from its subclass.
pub fn encryptioncontroller(subclass: u8) -> (r: EncryptionType)
    requires
        encryptioncontroller_table(subclass) is Some,
    ensures
        Some(r) == encryptioncontroller_table(subclass),
{
    match subclass {
        0x00 => EncryptionType::NetCodec,
        0x10 => EncryptionType::EntertainmentCodec,
        0x80 => EncryptionType::Other,
        _ => {
            proof {
                assert(false);
            }
            EncryptionType::NetCodec
        },
    }
}

/// Table behind `signalprocessingcontroller`: `None` for a subclass it does not know.
pub open spec fn signalprocessingcontroller_table(subclass: u8) -> Option<SignalProcessingType> {
    match subclass {
        0x00 => Some(SignalProcessingType::DPIOModules),
        0x01 => Some(SignalProcessingType::PerformanceCounters),
        0x10 => Some(SignalProcessingType::CommSynchronizer),
        0x20 => Some(SignalProcessingType::SignalProcessingManagement),
        0x80 => Some(SignalProcessingType::Other),
        _ => None,
    }
}

/// Kind of a signal processing controller, from its subclass.
pub fn signalprocessingcontroller(subclass: u8) -> (r: SignalProcessingType)
    requires
        signalprocessingcontroller_table(subclass) is Some,
    ensures
        Some(r) == signalprocessingcontroller_table(subclass),
{
    match subclass {
        0x00 => SignalProcessingType::DPIOModules,
        0x01 => SignalProcessingType::PerformanceCounters,
        0x10 => SignalProcessingType::CommSynchronizer,
        0x20 => SignalProcessingType::SignalProcessingManagement,
        0x80 => SignalProcessingType::Other,
        _ => {
            proof {
                assert(false);
            }
            SignalProcessingType::DPIOModules
        },
    }
}

/// Table behind `bridge`: `None` for a subclass it does not know.
pub open spec fn bridge_table(subclass: u8) -> Option<BridgeType> {
    match subclass {
        0x00 => Some(BridgeType::Host),
        0x01 => Some(BridgeType::ISA),
        0x02 => Some(BridgeType::EISA),
        0x03 => Some(BridgeType::MCA),
        0x04 => Some(BridgeType::PciToPci),
        0x05 => Some(BridgeType::PCMCIA),
        0x06 => Some(BridgeType::NuBus),
        0x07 => Some(BridgeType::CardBus),
        0x08 => Some(BridgeType::RACEway),
        0x09 => Some(BridgeType::PciToPci),
        0x0a => Some(BridgeType::InfibandPciBridge),
        0x80 => Some(BridgeType::Other),
        _ => None,
    }
}

/// Kind of a bridge, from its subclass; subclasses 4 and 9 are both PCI-to-PCI bridges.
pub fn bridge(subclass: u8, _prog_if: u8) -> (r: BridgeType)
    requires
        bridge_table(subclass) is Some,
    ensures
        Some(r) == bridge_table(subclass),
{
    match subclass {
        0x00 => BridgeType::Host,
        0x01 => BridgeType::ISA,
        0x02 => BridgeType::EISA,
        0x03 => BridgeType::MCA,
        0x04 => BridgeType::PciToPci,
        0x05 => BridgeType::PCMCIA,
        0x06 => BridgeType::NuBus,
        0x07 => BridgeType::CardBus,
        0x08 => BridgeType::RACEway,
        0x09 => BridgeType::PciToPci,
        0x0a => BridgeType::InfibandPciBridge,
        0x80 => BridgeType::Other,
        _ => {
            proof {
                assert(false);
            }
            BridgeType::Host
        },
    }
}

/// Table behind `msc`: `None` for a subclass or interface it does not know.
pub open spec fn msc_table(subclass: u8, prog_if: u8) -> Option<MassStorageType> {
    match subclass {
        0x00 => Some(MassStorageType::SCSIBus),
        0x01 => match prog_if {
            0x00 => Some(MassStorageType::IDE(IDEInterface::ISACompatOnly)),
            0x05 => Some(MassStorageType::IDE(IDEInterface::PCINativeOnly)),
            0x0A => Some(MassStorageType::IDE(IDEInterface::ISACompatBothPCI)),
            0x0F => Some(MassStorageType::IDE(IDEInterface::PCINativeBothISA)),
            0x80 => Some(MassStorageType::IDE(IDEInterface::ISACompatOnlyBusMastering)),
            0x85 => Some(MassStorageType::IDE(IDEInterface::PCINativeOnlyBusMastering)),
            0x8A => Some(MassStorageType::IDE(IDEInterface::ISACompatBothPCIBusMastering)),
            0x8F => Some(MassStorageType::IDE(IDEInterface::PCINativeBothISABusMastering)),
            _ => None,
        },
        0x02 => Some(MassStorageType::FloppyDisk),
        0x03 => Some(MassStorageType::IPIBus),
        0x04 => Some(MassStorageType::RAID),
        0x05 => match prog_if {
            0x20 => Some(MassStorageType::ATA(ATAInterface::SingleDMA)),
            0x30 => Some(MassStorageType::ATA(ATAInterface::ChainedDMA)),
            _ => None,
        },
        0x06 => match prog_if {
            0x00 => Some(MassStorageType::SATA(SATAInterface::VendorSpecific)),
            0x01 => Some(MassStorageType::SATA(SATAInterface::AHCI)),
            0x02 => Some(MassStorageType::SATA(SATAInterface::SerialStorage)),
            _ => None,
        },
        0x07 => match prog_if {
            0x00 => Some(MassStorageType::SerialSCSI(SerialSCSIInterface::SAS)),
            0x01 => Some(MassStorageType::SerialSCSI(SerialSCSIInterface::SerialStorage)),
            _ => None,
        },
        0x08 => match prog_if {
            0x01 => Some(MassStorageType::NonVolatileMemory(NonVolatileMemoryInterface::NVMHCI)),
            0x02 => Some(MassStorageType::NonVolatileMemory(NonVolatileMemoryInterface::NVME)),
            _ => None,
        },
        0x80 => Some(MassStorageType::Other),
        _ => None,
    }
}

/// Kind of a mass storage controller, from its subclass and, for IDE, ATA,
/// SATA, serial SCSI and non-volatile memory, its programming interface.
pub fn msc(subclass: u8, prog_if: u8) -> (r: MassStorageType)
    requires
        msc_table(subclass, prog_if) is Some,
    ensures
        Some(r) == msc_table(subclass, prog_if),
{
    match subclass {
        0x00 => MassStorageType::SCSIBus,
        0x01 => MassStorageType::IDE(
            match prog_if {
                0x00 => IDEInterface::ISACompatOnly,
                0x05 => IDEInterface::PCINativeOnly,
                0x0A => IDEInterface::ISACompatBothPCI,
                0x0F => IDEInterface::PCINativeBothISA,
                0x80 => IDEInterface::ISACompatOnlyBusMastering,
                0x85 => IDEInterface::PCINativeOnlyBusMastering,
                0x8A => IDEInterface::ISACompatBothPCIBusMastering,
                0x8F => IDEInterface::PCINativeBothISABusMastering,
                _ => {
                    proof {
                        assert(false);
                    }
                    IDEInterface::ISACompatOnly
                },
            },
        ),
        0x02 => MassStorageType::FloppyDisk,
        0x03 => MassStorageType::IPIBus,
        0x04 => MassStorageType::RAID,
        0x05 => MassStorageType::ATA(
            match prog_if {
                0x20 => ATAInterface::SingleDMA,
                0x30 => ATAInterface::ChainedDMA,
                _ => {
                    proof {
                        assert(false);
                    }
                    ATAInterface::SingleDMA
                },
            },
        ),
        0x06 => MassStorageType::SATA(
            match prog_if {
                0x00 => SATAInterface::VendorSpecific,
                0x01 => SATAInterface::AHCI,
                0x02 => SATAInterface::SerialStorage,
                _ => {
                    proof {
                        assert(false);
                    }
                    SATAInterface::VendorSpecific
                },
            },
        ),
        0x07 => MassStorageType::SerialSCSI(
            match prog_if {
                0x00 => SerialSCSIInterface::SAS,
                0x01 => SerialSCSIInterface::SerialStorage,
                _ => {
                    proof {
                        assert(false);
                    }
                    SerialSCSIInterface::SAS
                },
            },
        ),
        0x08 => MassStorageType::NonVolatileMemory(
            match prog_if {
                0x01 => NonVolatileMemoryInterface::NVMHCI,
                0x02 => NonVolatileMemoryInterface::NVME,
                _ => {
                    proof {
                        assert(false);
                    }
                    NonVolatileMemoryInterface::NVMHCI
                },
            },
        ),
        0x80 => MassStorageType::Other,
        _ => {
            proof {
                assert(false);
            }
            MassStorageType::Other
        },
    }
}

/// Table behind `displaycontroller`.
pub open spec fn displaycontroller_table(subclass: u8, prog_if: u8) -> Option<DisplayType> {
    if subclass == 0x00 {
        if prog_if == 0x00 {
            Some(DisplayType::VGACompatible(VGACompatInteface::VGA))
        } else if prog_if == 0x01 {
            Some(DisplayType::VGACompatible(VGACompatInteface::Compat8514))
        } else {
            None
        }
    } else if subclass == 0x01 {
        Some(DisplayType::XGA)
    } else if subclass == 0x02 {
        Some(DisplayType::ThreeD)
    } else if subclass == 0x80 {
        Some(DisplayType::Other)
    } else {
        None
    }
}

/// Kind of a display controller, from its subclass and, for VGA compatible
/// ones, its programming interface.
pub fn displaycontroller(subclass: u8, prog_if: u8) -> (r: DisplayType)
    requires
        displaycontroller_table(subclass, prog_if) is Some,
    ensures
        Some(r) == displaycontroller_table(subclass, prog_if),
{
    match (subclass, prog_if) {
        (0x00, 0x00) => DisplayType::VGACompatible(VGACompatInteface::VGA),
        (0x00, 0x01) => DisplayType::VGACompatible(VGACompatInteface::Compat8514),
        (0x01, _) => DisplayType::XGA,
        (0x02, _) => DisplayType::ThreeD,
        (0x80, _) => DisplayType::Other,
        _ => {
            proof {
                assert(false);
            }
            DisplayType::Other
        },
    }
}

/// Table behind `serialbus`.
pub open spec fn serialbus_table(subclass: u8, prog_if: u8) -> Option<SerialBusType> {
    match subclass {
        0x00 => Some(SerialBusType::FireWire),
        0x01 => Some(SerialBusType::ACCESSBus),
        0x02 => Some(SerialBusType::SSA),
        0x03 => match prog_if {
            0x00 => Some(SerialBusType::USB(USBInterface::UHCI)),
            0x10 => Some(SerialBusType::USB(USBInterface::OHCI)),
            0x20 => Some(SerialBusType::USB(USBInterface::EHCI)),
            0x30 => Some(SerialBusType::USB(USBInterface::XHCI)),
            0x80 => Some(SerialBusType::USB(USBInterface::Unspecified)),
            0xFE => Some(SerialBusType::USB(USBInterface::USBDevice)),
            _ => None,
        },
        0x04 => Some(SerialBusType::FibreChannel),
        0x05 => Some(SerialBusType::SMBus),
        0x06 => Some(SerialBusType::InfiniBand),
        0x07 => Some(SerialBusType::IPMIInterface),
        0x08 => Some(SerialBusType::SERCOSInterface),
        0x09 => Some(SerialBusType::CANbus),
        0x80 => Some(SerialBusType::Other),
        _ => None,
    }
}

/// Kind of a serial bus controller, from its subclass and, for USB, its
/// programming interface.
pub fn serialbus(subclass: u8, prog_if: u8) -> (r: SerialBusType)
    requires
        serialbus_table(subclass, prog_if) is Some,
    ensures
        Some(r) == serialbus_table(subclass, prog_if),
{
    match (subclass, prog_if) {
        (0x00, _) => SerialBusType::FireWire,
        (0x01, _) => SerialBusType::ACCESSBus,
        (0x02, _) => SerialBusType::SSA,
        (0x03, 0x00) => SerialBusType::USB(USBInterface::UHCI),
        (0x03, 0x10) => SerialBusType::USB(USBInterface::OHCI),
        (0x03, 0x20) => SerialBusType::USB(USBInterface::EHCI),
        (0x03, 0x30) => SerialBusType::USB(USBInterface::XHCI),
        (0x03, 0x80) => SerialBusType::USB(USBInterface::Unspecified),
        (0x03, 0xFE) => SerialBusType::USB(USBInterface::USBDevice),
        (0x04, _) => SerialBusType::FibreChannel,
        (0x05, _) => SerialBusType::SMBus,
        (0x06, _) => SerialBusType::InfiniBand,
        (0x07, _) => SerialBusType::IPMIInterface,
        (0x08, _) => SerialBusType::SERCOSInterface,
        (0x09, _) => SerialBusType::CANbus,
        (0x80, _) => SerialBusType::Other,
        _ => {
            proof {
                assert(false);
            }
            SerialBusType::Other
        },
    }
}


/// The class code register of a device's configuration space.
#[derive(Clone, Copy, Debug, PartialEq, Eq, Structural)]
pub struct ClassCodeRegister {
    pub class_code: u8,
    pub subclass_code: u8,
    pub prog_if: u8,
    pub _revision_id: u8,
}

/// The register's fields, from the high byte of the 32-bit value down.
pub open spec fn class_code_register_of(value: u32) -> ClassCodeRegister {
    ClassCodeRegister {
        class_code: (value >> 24u32) as u8,
        subclass_code: (value >> 16u32) as u8,
        prog_if: (value >> 8u32) as u8,
        _revision_id: value as u8,
    }
}

impl From<u32> for ClassCodeRegister {
    fn from(value: u32) -> (r: Self) {
        Self {
            class_code: (value >> 24u32) as u8,
            subclass_code: (value >> 16u32) as u8,
            prog_if: (value >> 8u32) as u8,
            _revision_id: value as u8,
        }
    }
}

impl vstd::std_specs::convert::FromSpecImpl<u32> for ClassCodeRegister {
    open spec fn obeys_from_spec() -> bool {
        true
    }

    open spec fn from_spec(value: u32) -> Self {
        class_code_register_of(value)
    }
}

impl ClassCodeRegister {
    /// Whether the register names a class, subclass and programming
    /// interface that `parse` knows.
    pub fn is_known(&self) -> (r: bool)
        ensures
            r == parse_table(*self) is Some,
    {
        if self.class_code == UNCLASSIFIED {
            (self.subclass_code == 0x00 || self.subclass_code == 0x01)
        } else if self.class_code == MASS_STORAGE_CONTROLLER {
            (self.subclass_code == 0x00 || (self.subclass_code == 0x01 && (self.prog_if == 0x00 || self.prog_if == 0x05 || self.prog_if == 0x0A || self.prog_if == 0x0F || self.prog_if == 0x80 || self.prog_if == 0x85 || self.prog_if == 0x8A || self.prog_if == 0x8F)) || self.subclass_code == 0x02 || self.subclass_code == 0x03 || self.subclass_code == 0x04 || (self.subclass_code == 0x05 && (self.prog_if == 0x20 || self.prog_if == 0x30)) || (self.subclass_code == 0x06 && (self.prog_if == 0x00 || self.prog_if == 0x01 || self.prog_if == 0x02)) || (self.subclass_code == 0x07 && (self.prog_if == 0x00 || self.prog_if == 0x01)) || (self.subclass_code == 0x08 && (self.prog_if == 0x01 || self.prog_if == 0x02)) || self.subclass_code == 0x80)
        } else if self.class_code == NETWORK_CONTROLLER {
            (self.subclass_code <= 0x08 || self.subclass_code == 0x80)
        } else if self.class_code == DISPLAY_CONTROLLER {
            ((self.subclass_code == 0x00 && (self.prog_if == 0x00 || self.prog_if == 0x01)) || self.subclass_code == 0x01 || self.subclass_code == 0x02 || self.subclass_code == 0x80)
        } else if self.class_code == MUTLIMEDIA_CONTROLLER {
            (self.subclass_code <= 0x03 || self.subclass_code == 0x80)
        } else if self.class_code == MEMORY_CONTROLLER {
            (self.subclass_code <= 0x01 || self.subclass_code == 0x80)
        } else if self.class_code == BRIDGE {
            (self.subclass_code <= 0x0a || self.subclass_code == 0x80)
        } else if self.class_code == SIMPLE_COM_CONTROLLER {
            (self.subclass_code <= 0x05 || self.subclass_code == 0x80)
        } else if self.class_code == BASE_SYS_PERIPHERAL {
            (self.subclass_code <= 0x06 || self.subclass_code == 0x80)
        } else if self.class_code == INPUT_DEVICE_CONTROLLER {
            (self.subclass_code <= 0x04 || self.subclass_code == 0x80)
        } else if self.class_code == DOCKING_STATION {
            (self.subclass_code == 0x00 || self.subclass_code == 0x80)
        } else if self.class_code == PROCESSOR {
            (self.subclass_code == 0x00 || self.subclass_code == 0x01 || self.subclass_code == 0x02 || self.subclass_code == 0x03 || self.subclass_code == 0x10 || self.subclass_code == 0x20 || self.subclass_code == 0x30 || self.subclass_code == 0x40 || self.subclass_code == 0x80)
        } else if self.class_code == SERIAL_BUS_CONTROLLER {
            (self.subclass_code <= 0x02 || (self.subclass_code == 0x03 && (self.prog_if == 0x00 || self.prog_if == 0x10 || self.prog_if == 0x20 || self.prog_if == 0x30 || self.prog_if == 0x80 || self.prog_if == 0xFE)) || (0x04 <= self.subclass_code && self.subclass_code <= 0x09) || self.subclass_code == 0x80)
        } else if self.class_code == WIRELESS_CONTROLLER {
            (self.subclass_code == 0x00 || self.subclass_code == 0x01 || self.subclass_code == 0x10 || self.subclass_code == 0x11 || self.subclass_code == 0x12 || self.subclass_code == 0x20 || self.subclass_code == 0x21 || self.subclass_code == 0x80)
        } else if self.class_code == INTELLIGENT_CONTROLLER {
            true
        } else if self.class_code == SATELLITE_COM_CONTROLLER {
            (0x01 <= self.subclass_code && self.subclass_code <= 0x04)
        } else if self.class_code == ENCRYPTION_CONTROLLER {
            (self.subclass_code == 0x00 || self.subclass_code == 0x10 || self.subclass_code == 0x80)
        } else if self.class_code == SIGNAL_PROCESSING_CONTROLLER {
            (self.subclass_code == 0x00 || self.subclass_code == 0x01 || self.subclass_code == 0x10 || self.subclass_code == 0x20 || self.subclass_code == 0x80)
        } else if self.class_code == PROCESSING_ACCELERATOR {
            true
        } else if self.class_code == NON_ESSENTIAL_INSTRUMENTATION {
            true
        } else if self.class_code == CO_PROCESSOR {
            true
        } else if self.class_code == UNASSIGNED {
            true
        } else {
            false
        }
    }

    /// What the device is; the class, subclass and interface must be known.
    pub fn parse(self) -> (r: PciType)
        requires
            parse_table(self) is Some,
        ensures
            Some(r) == parse_table(self),
    {
        if self.class_code == UNCLASSIFIED {
            PciType::Unclassified(unclassified(self.subclass_code))
        } else if self.class_code == MASS_STORAGE_CONTROLLER {
            PciType::MassStorageController(msc(self.subclass_code, self.prog_if))
        } else if self.class_code == NETWORK_CONTROLLER {
            PciType::NetworkController(networkcontroller(self.subclass_code))
        } else if self.class_code == DISPLAY_CONTROLLER {
            PciType::DisplayController(displaycontroller(self.subclass_code, self.prog_if))
        } else if self.class_code == MUTLIMEDIA_CONTROLLER {
            PciType::MutlimediaController(multimedia(self.subclass_code))
        } else if self.class_code == MEMORY_CONTROLLER {
            PciType::MemoryController(memory(self.subclass_code))
        } else if self.class_code == BRIDGE {
            PciType::Bridge(bridge(self.subclass_code, self.prog_if))
        } else if self.class_code == SIMPLE_COM_CONTROLLER {
            PciType::SimpleComController(simplecom(self.subclass_code))
        } else if self.class_code == BASE_SYS_PERIPHERAL {
            PciType::BaseSysPeripheral(baseperipheral(self.subclass_code))
        } else if self.class_code == INPUT_DEVICE_CONTROLLER {
            PciType::InputDeviceController(inputdevice(self.subclass_code))
        } else if self.class_code == DOCKING_STATION {
            PciType::DockingStation(dockingstation(self.subclass_code))
        } else if self.class_code == PROCESSOR {
            PciType::Processor(processor(self.subclass_code))
        } else if self.class_code == SERIAL_BUS_CONTROLLER {
            PciType::SerialBusController(serialbus(self.subclass_code, self.prog_if))
        } else if self.class_code == WIRELESS_CONTROLLER {
            PciType::WirelessController(wirelesscontroller(self.subclass_code))
        } else if self.class_code == INTELLIGENT_CONTROLLER {
            PciType::IntelligentController
        } else if self.class_code == SATELLITE_COM_CONTROLLER {
            PciType::SatelliteComController(satelitecom(self.subclass_code))
        } else if self.class_code == ENCRYPTION_CONTROLLER {
            PciType::EncryptionController(encryptioncontroller(self.subclass_code))
        } else if self.class_code == SIGNAL_PROCESSING_CONTROLLER {
            PciType::SignalProcessingController(signalprocessingcontroller(self.subclass_code))
        } else if self.class_code == PROCESSING_ACCELERATOR {
            PciType::ProcessingAccelerator
        } else if self.class_code == NON_ESSENTIAL_INSTRUMENTATION {
            PciType::NonEssentialInstrumentation
        } else if self.class_code == CO_PROCESSOR {
            PciType::CoProcessor
        } else if self.class_code == UNASSIGNED {
            PciType::Unassigned
        } else {
            proof {
                assert(false);
            }
            PciType::Unassigned
        }
    }
}

/// Table behind `ClassCodeRegister::parse`: `None` for a class, subclass or
/// interface it does not know.
pub open spec fn parse_table(r: ClassCodeRegister) -> Option<PciType> {
    if r.class_code == UNCLASSIFIED {
        match unclassified_table(r.subclass_code) {
            Some(t) => Some(PciType::Unclassified(t)),
            None => None,
        }
    } else if r.class_code == MASS_STORAGE_CONTROLLER {
        match msc_table(r.subclass_code, r.prog_if) {
            Some(t) => Some(PciType::MassStorageController(t)),
            None => None,
        }
    } else if r.class_code == NETWORK_CONTROLLER {
        match networkcontroller_table(r.subclass_code) {
            Some(t) => Some(PciType::NetworkController(t)),
            None => None,
        }
    } else if r.class_code == DISPLAY_CONTROLLER {
        match displaycontroller_table(r.subclass_code, r.prog_if) {
            Some(t) => Some(PciType::DisplayController(t)),
            None => None,
        }
    } else if r.class_code == MUTLIMEDIA_CONTROLLER {
        match multimedia_table(r.subclass_code) {
            Some(t) => Some(PciType::MutlimediaController(t)),
            None => None,
        }
    } else if r.class_code == MEMORY_CONTROLLER {
        match memory_table(r.subclass_code) {
            Some(t) => Some(PciType::MemoryController(t)),
            None => None,
        }
    } else if r.class_code == BRIDGE {
        match bridge_table(r.subclass_code) {
            Some(t) => Some(PciType::Bridge(t)),
            None => None,
        }
    } else if r.class_code == SIMPLE_COM_CONTROLLER {
        match simplecom_table(r.subclass_code) {
            Some(t) => Some(PciType::SimpleComController(t)),
            None => None,
        }
    } else if r.class_code == BASE_SYS_PERIPHERAL {
        match baseperipheral_table(r.subclass_code) {
            Some(t) => Some(PciType::BaseSysPeripheral(t)),
            None => None,
        }
    } else if r.class_code == INPUT_DEVICE_CONTROLLER {
        match inputdevice_table(r.subclass_code) {
            Some(t) => Some(PciType::InputDeviceController(t)),
            None => None,
        }
    } else if r.class_code == DOCKING_STATION {
        match dockingstation_table(r.subclass_code) {
            Some(t) => Some(PciType::DockingStation(t)),
            None => None,
        }
    } else if r.class_code == PROCESSOR {
        match processor_table(r.subclass_code) {
            Some(t) => Some(PciType::Processor(t)),
            None => None,
        }
    } else if r.class_code == SERIAL_BUS_CONTROLLER {
        match serialbus_table(r.subclass_code, r.prog_if) {
            Some(t) => Some(PciType::SerialBusController(t)),
            None => None,
        }
    } else if r.class_code == WIRELESS_CONTROLLER {
        match wirelesscontroller_table(r.subclass_code) {
            Some(t) => Some(PciType::WirelessController(t)),
            None => None,
        }
    } else if r.class_code == INTELLIGENT_CONTROLLER {
        Some(PciType::IntelligentController)
    } else if r.class_code == SATELLITE_COM_CONTROLLER {
        match satelitecom_table(r.subclass_code) {
            Some(t) => Some(PciType::SatelliteComController(t)),
            None => None,
        }
    } else if r.class_code == ENCRYPTION_CONTROLLER {
        match encryptioncontroller_table(r.subclass_code) {
            Some(t) => Some(PciType::EncryptionController(t)),
            None => None,
        }
    } else if r.class_code == SIGNAL_PROCESSING_CONTROLLER {
        match signalprocessingcontroller_table(r.subclass_code) {
            Some(t) => Some(PciType::SignalProcessingController(t)),
            None => None,
        }
    } else if r.class_code == PROCESSING_ACCELERATOR {
        Some(PciType::ProcessingAccelerator)
    } else if r.class_code == NON_ESSENTIAL_INSTRUMENTATION {
        Some(PciType::NonEssentialInstrumentation)
    } else if r.class_code == CO_PROCESSOR {
        Some(PciType::CoProcessor)
    } else if r.class_code == UNASSIGNED {
        Some(PciType::Unassigned)
    } else {
        None
    }
}

/// USB controllers (class 0x0c, subclass 0x03) decode by their programming
/// interface as the PCI class code list assigns it: 0x00 is UHCI, 0x10 OHCI,
/// 0x20 EHCI, 0x30 XHCI, 0x80 an unspecified interface and 0xFE a USB
/// device; any other interface is unknown.
pub proof fn law_usb_interfaces(reg: u32)
    requires
        (reg >> 24u32) as u8 == 0x0c,
        (reg >> 16u32) as u8 == 0x03,
    ensures
        ({
            let p = (reg >> 8u32) as u8;
            let t = parse_table(class_code_register_of(reg));
            &&& p == 0x00 ==> t == Some(
                PciType::SerialBusController(SerialBusType::USB(USBInterface::UHCI)),
            )
            &&& p == 0x10 ==> t == Some(
                PciType::SerialBusController(SerialBusType::USB(USBInterface::OHCI)),
            )
            &&& p == 0x20 ==> t == Some(
                PciType::SerialBusController(SerialBusType::USB(USBInterface::EHCI)),
            )
            &&& p == 0x30 ==> t == Some(
                PciType::SerialBusController(SerialBusType::USB(USBInterface::XHCI)),
            )
            &&& p == 0x80 ==> t == Some(
                PciType::SerialBusController(SerialBusType::USB(USBInterface::Unspecified)),
            )
            &&& p == 0xFE ==> t == Some(
                PciType::SerialBusController(SerialBusType::USB(USBInterface::USBDevice)),
            )
            &&& !(p == 0x00 || p == 0x10 || p == 0x20 || p == 0x30 || p == 0x80 || p == 0xFE)
                ==> t is None
        }),
{
}

/// Two USB controllers with different programming interfaces that both
/// decode are told apart: they decode to different device types.
pub proof fn law_usb_interfaces_distinct(a: ClassCodeRegister, b: ClassCodeRegister)
    requires
        a.class_code == 0x0c,
        b.class_code == 0x0c,
        a.subclass_code == 0x03,
        b.subclass_code == 0x03,
        a.prog_if != b.prog_if,
        parse_table(a) is Some,
        parse_table(b) is Some,
    ensures
        parse_table(a) != parse_table(b),
{
}

} // verus!
