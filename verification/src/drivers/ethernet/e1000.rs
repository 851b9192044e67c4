use vstd::prelude::*;

verus! {

/// Receive descriptors in the ring.
pub const COUNT_RX_DESC: usize = 32;

/// Transmit descriptors in the ring.
pub const COUNT_TX_DESC: usize = 8;

/// A receive descriptor as the controller lays it out.
pub struct RxDescriptor {
    pub addr: u64,
    pub len: u16,
    pub checksum: u16,
    pub status: u8,
    pub errors: u8,
    pub special: u16,
}

/// A transmit descriptor as the controller lays it out.
pub struct TxDescriptor {
    pub addr: u64,
    pub length: u16,
    pub cso: u8,
    pub cmd: u8,
    pub status: u8,
    pub css: u8,
    pub special: u16,
}

/// An Intel 8254x network controller: its I/O base, whether it has an
/// EEPROM, and its MAC address.
pub struct E1000 {
    pub io_base: u16,
    pub eeprom_exists: bool,
    pub mac_buffer: [u8; 6],
}

} // verus!
