use vstd::prelude::*;

verus! {

/// An interrupt gate.
pub const GATE_INTERRUPT: u8 = 0x0E;

/// A trap gate.
pub const GATE_TRAP: u8 = 0x0F;

/// The present bit of a gate.
pub const GATE_PRESENT: u8 = 0x80;

/// One entry of the interrupt descriptor table.
pub struct InterruptDescriptor64 {
    /// offset bits 0..15
    pub _offset_1: u16,
    /// a code segment selector in GDT or LDT
    pub _selector: u16,
    /// bits 0..2 holds Interrupt Stack Table offset, rest of bits zero.
    pub _ist: u8,
    /// gate type, dpl, and p fields
    pub _type_attributes: u8,
    /// offset bits 16..31
    pub _offset_2: u16,
    /// offset bits 32..63
    pub _offset_3: u32,
    /// reserved
    pub _zero: u32,
}

impl InterruptDescriptor64 {
    /// A gate of type `inttype` to the handler at `callback`, in the kernel
    /// code segment.
    pub fn new(callback: u64, inttype: u8) -> (r: Self)
        ensures
            r._offset_1 == callback % 0x10000,
            r._offset_2 == (callback / 0x10000) % 0x10000,
            r._offset_3 == callback / 0x1_0000_0000,
            r._type_attributes == inttype,
            r._selector == 0x08,
            r._ist == 0,
            r._zero == 0,
    {
        proof {
            assert((0xFFFF & callback) as u16 == callback % 0x10000) by (bit_vector);
            assert((0xFFFF & (callback >> 16u64)) as u16 == (callback / 0x10000) % 0x10000)
                by (bit_vector);
            assert((0xFFFFFFFF & (callback >> 32u64)) as u32 == callback / 0x1_0000_0000)
                by (bit_vector);
        }
        InterruptDescriptor64 {
            _offset_1: (0xFFFF & callback) as u16,
            _offset_2: (0xFFFF & (callback >> 16u64)) as u16,
            _offset_3: (0xFFFFFFFF & (callback >> 32u64)) as u32,
            _type_attributes: inttype,
            _selector: 0x08,
            _ist: 0,
            _zero: 0,
        }
    }
}

} // verus!
