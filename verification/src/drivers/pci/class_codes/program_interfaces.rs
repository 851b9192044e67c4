//! Programming interfaces of the PCI device kinds that have several.
use vstd::prelude::*;

verus! {

#[derive(Clone, Copy, Debug, PartialEq, Eq, Structural)]
pub enum IDEInterface {
    ISACompatOnly,
    PCINativeOnly,
    ISACompatBothPCI,
    PCINativeBothISA,
    ISACompatOnlyBusMastering,
    PCINativeOnlyBusMastering,
    ISACompatBothPCIBusMastering,
    PCINativeBothISABusMastering,
}

#[derive(Clone, Copy, Debug, PartialEq, Eq, Structural)]
pub enum ATAInterface {
    SingleDMA,
    ChainedDMA,
}

#[derive(Clone, Copy, Debug, PartialEq, Eq, Structural)]
pub enum SATAInterface {
    VendorSpecific,
    AHCI,
    SerialStorage,
}

#[derive(Clone, Copy, Debug, PartialEq, Eq, Structural)]
pub enum SerialSCSIInterface {
    SAS,
    SerialStorage,
}

#[derive(Clone, Copy, Debug, PartialEq, Eq, Structural)]
pub enum NonVolatileMemoryInterface {
    NVMHCI,
    NVME,
}

#[derive(Clone, Copy, Debug, PartialEq, Eq, Structural)]
pub enum VGACompatInteface {
    VGA,
    Compat8514,
}

#[derive(Clone, Copy, Debug, PartialEq, Eq, Structural)]
pub enum USBInterface {
    UHCI,
    OHCI,
    EHCI,
    XHCI,
    Unspecified,
    USBDevice,
}

} // verus!
