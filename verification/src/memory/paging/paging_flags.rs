//! Flag bits of a page table entry.
use vstd::prelude::*;

verus! {

/// Present; must be 1 to reference a paging table
pub const PAGING_PRESENT: u64 = 1;

/// Read/write; if 0, writes may not be allowed (see Section 4.6)
pub const PAGING_RW: u64 = 2;

/// User/supervisor; if 0, user-mode accesses are not allowed (see Section 4.6)
pub const PAGING_USER: u64 = 4;

/// Page-level write-through; indirectly determines memory type (see Section 4.9.2)
pub const PAGING_PWT: u64 = 8;

/// Page-level cache disable; indirectly determines memory type (see Section 4.9.2)
pub const PAGING_PCD: u64 = 16;

/// Accessed; indicates whether this entry has been used (see Section 4.8)
pub const PAGING_ACCESSED: u64 = 32;

/// For ordinary paging, ignored; for HLAT paging, restart (see Section 4.8)
pub const PAGING_R: u64 = 2048;

} // verus!
