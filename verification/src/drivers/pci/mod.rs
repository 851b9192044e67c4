//! PCI devices: their addresses and their class codes.
pub mod class_codes;
pub mod pci_communication;

pub use class_codes::PciType;
