use vstd::prelude::*;

use crate::drivers::acpi::{ACPISDTHeader, AcpiTable, SDT_HEADER_SIZE};
use crate::io::psf::{le_u32, read_u32};

verus! {

/// I/O port of the first programmable interrupt controller.
pub const PIC1: usize = 0x20;

/// I/O port of the second programmable interrupt controller.
pub const PIC2: usize = 0xa0;

/// Task priority register, read and write.
pub const TPR_OFFSET: usize = 0x080;

/// Processor priority register, read only.
pub const PPR_OFFSET: usize = 0x0a;

/// Spurious interrupt vector register, read and write.
pub const SIVR_OFFSET: usize = 0x0f0;

/// End of interrupt register, write only.
pub const EOI_OFFSET: usize = 0x0b0;

/// Timer initial count, read and write.
pub const ICNT_OFFSET: usize = 0x380;

/// Timer current count, read only.
pub const CCNT_OFFSET: usize = 0x390;

/// Timer divide configuration: only bits 0, 1 and 3 are used.
pub const DCNF_OFFSET: usize = 0x3e0;

/// Timer entry of the local vector table: the vector the timer raises.
pub const TIVR_OFFSET: usize = 0x320;

/// Multiple APIC description table: its header, the local APIC's address
/// and flags.
pub struct MADT {
    pub header: ACPISDTHeader,
    pub local_apic: u32,
    pub flags: u32,
}

impl AcpiTable for MADT {
}

impl MADT {
    /// The table at the start of `bytes`.
    pub fn from_bytes(bytes: &[u8]) -> (r: Self)
        requires
            bytes@.len() >= SDT_HEADER_SIZE + 8,
        ensures
            r.header.parsed_from(bytes@),
            r.local_apic == le_u32(bytes@, 36),
            r.flags == le_u32(bytes@, 40),
    {
        MADT {
            header: ACPISDTHeader::from_bytes(bytes),
            local_apic: read_u32(bytes, SDT_HEADER_SIZE),
            flags: read_u32(bytes, SDT_HEADER_SIZE + 4),
        }
    }
}

/// A local APIC, by the address its registers are mapped at.
pub struct Apic {
    pub address: usize,
}

impl Apic {
    /// Address of the spurious interrupt vector register.
    pub fn get_sivr(&self) -> (r: usize)
        requires
            self.address + SIVR_OFFSET <= usize::MAX,
        ensures
            r == self.address + SIVR_OFFSET,
    {
        self.address + SIVR_OFFSET
    }

    /// Address of the task priority register.
    pub fn get_tpr(&self) -> (r: usize)
        requires
            self.address + TPR_OFFSET <= usize::MAX,
        ensures
            r == self.address + TPR_OFFSET,
    {
        self.address + TPR_OFFSET
    }

    /// Address of the timer's local vector table entry.
    pub fn get_tivr(&self) -> (r: usize)
        requires
            self.address + TIVR_OFFSET <= usize::MAX,
        ensures
            r == self.address + TIVR_OFFSET,
    {
        self.address + TIVR_OFFSET
    }

    /// Address of the timer's divide configuration register.
    pub fn get_dcnf(&self) -> (r: usize)
        requires
            self.address + DCNF_OFFSET <= usize::MAX,
        ensures
            r == self.address + DCNF_OFFSET,
    {
        self.address + DCNF_OFFSET
    }

    /// Address of the timer's initial count register.
    pub fn get_icnt(&self) -> (r: usize)
        requires
            self.address + ICNT_OFFSET <= usize::MAX,
        ensures
            r == self.address + ICNT_OFFSET,
    {
        self.address + ICNT_OFFSET
    }
}

} // verus!
