use vstd::prelude::*;

pub mod paging_flags;

use crate::memory::mmap::{is_first_fit, released, taken, MmapTracker};
use crate::memory::phys::{read_word, PhysicalMemory};
use crate::memory::pmm::{fresh_pop, pop_mem, PhysicalAddress, PmmError, PMM};
use crate::memory::{
    get_containing_page, lemma_round_up, next_multiple_of_u64, next_multiple_of_usize, page_floor,
    round_up, MemoryRange, PAGE_SIZE, PS_USIZE,
};

verus! {

/// Number of entries in one page table.
pub const TABLE_ENTRY_COUNT: usize = 512;

/// A virtual address.
pub type VirtualAddress = u64;

/// First address of the higher half of the virtual address space.
pub const HIGHER_HALF_ADDR: VirtualAddress = 0xffff_8000_0000_0000;

/// Start of the kernel image in virtual memory.
pub const KERNEL_START: VirtualAddress = 0xffffffff80000000;


/// The four levels of the page table hierarchy, from the root down.
pub enum TableLayer {
    PML4,
    PDPT,
    PDT,
    PT,
}

/// Depth of a table level: 0 for the root, 3 for the last level.
pub open spec fn layer_depth(layer: TableLayer) -> int {
    match layer {
        TableLayer::PML4 => 0,
        TableLayer::PDPT => 1,
        TableLayer::PDT => 2,
        TableLayer::PT => 3,
    }
}

impl TableLayer {
    /// Depth of the level: 0 for the root, 3 for the last level.
    pub fn depth(self) -> (r: usize)
        ensures
            r == layer_depth(self),
    {
        match self {
            TableLayer::PML4 => 0,
            TableLayer::PDPT => 1,
            TableLayer::PDT => 2,
            TableLayer::PT => 3,
        }
    }
}

/// Mask of the physical address bits of an entry, for a machine with
/// `max_phy_bit` physical address bits.
pub open spec fn phy_mask(max_phy_bit: u8) -> u64 {
    (((1u64 << ((max_phy_bit - 1) as u64)) - 1) as u64) ^ 0x7ffu64
}

/// A machine's physical address width that the entry encoding can handle:
/// at least the twelve bits of a page offset.
pub open spec fn valid_phy_bits(max_phy_bit: u8) -> bool {
    12 <= max_phy_bit <= 64
}

/// Index into the table of `depth` that `virt` selects.
pub open spec fn table_index(virt: u64, depth: int) -> u64 {
    (virt >> ((39 - 9 * depth) as u64)) & 0x1ff
}

/// Splits a virtual address into its four table indices and its page offset.
pub fn split_virtual(virt: VirtualAddress) -> (r: ([u16; 4], u16))
    ensures
        r.0@.len() == 4,
        forall|d: int| 0 <= d < 4 ==> r.0@[d] == table_index(virt, d),
        r.1 == virt & 0x7ff,
        forall|d: int| 0 <= d < 4 ==> r.0@[d] < 512,
{
    let a = ((virt >> 39u64) as u16) & 0x1ff;
    let b = ((virt >> 30u64) as u16) & 0x1ff;
    let c = ((virt >> 21u64) as u16) & 0x1ff;
    let d = ((virt >> 12u64) as u16) & 0x1ff;
    let o = (virt as u16) & 0x7ff;
    proof {
        assert(((virt >> 39u64) as u16) & 0x1ff == (virt >> 39u64) & 0x1ff) by (bit_vector);
        assert(((virt >> 30u64) as u16) & 0x1ff == (virt >> 30u64) & 0x1ff) by (bit_vector);
        assert(((virt >> 21u64) as u16) & 0x1ff == (virt >> 21u64) & 0x1ff) by (bit_vector);
        assert(((virt >> 12u64) as u16) & 0x1ff == (virt >> 12u64) & 0x1ff) by (bit_vector);
        assert((virt as u16) & 0x7ff == virt & 0x7ff) by (bit_vector);
        assert(a & 0x1ff < 512) by (bit_vector);
    }
    let r = ([a, b, c, d], o);
    proof {
        assert(table_index(virt, 0) == (virt >> 39u64) & 0x1ff);
        assert(table_index(virt, 1) == (virt >> 30u64) & 0x1ff);
        assert(table_index(virt, 2) == (virt >> 21u64) & 0x1ff);
        assert(table_index(virt, 3) == (virt >> 12u64) & 0x1ff);
        assert(((virt >> 30u64) as u16) & 0x1ff < 512) by (bit_vector);
        assert(((virt >> 21u64) as u16) & 0x1ff < 512) by (bit_vector);
        assert(((virt >> 12u64) as u16) & 0x1ff < 512) by (bit_vector);
        assert(((virt >> 39u64) as u16) & 0x1ff < 512) by (bit_vector);
    }
    r
}

/// The virtual address made of four table indices and a page offset.
pub open spec fn join_indexes(i0: u64, i1: u64, i2: u64, i3: u64, off: u64) -> u64 {
    (i0 << 39u64) | (i1 << 30u64) | (i2 << 21u64) | (i3 << 12u64) | off
}

/// Puts four table indices and a page offset back together into a virtual address.
pub fn from_indexes(indexes: ([u16; 4], u16)) -> (r: VirtualAddress)
    ensures
        r == join_indexes(
            indexes.0@[0] as u64,
            indexes.0@[1] as u64,
            indexes.0@[2] as u64,
            indexes.0@[3] as u64,
            indexes.1 as u64,
        ),
{
    ((indexes.0[0] as u64) << 39u64) | ((indexes.0[1] as u64) << 30u64) | ((indexes.0[2] as u64)
        << 21u64) | ((indexes.0[3] as u64) << 12u64) | (indexes.1 as u64)
}

/// Splitting an address and joining the parts gives back the address with the
/// sign extension bits and bit 11 cleared: the page offset keeps only its low
/// eleven bits.
pub proof fn law_join_split(virt: u64)
    ensures
        join_indexes(
            table_index(virt, 0),
            table_index(virt, 1),
            table_index(virt, 2),
            table_index(virt, 3),
            virt & 0x7ff,
        ) == virt & 0x0000_ffff_ffff_f7ff,
{
    assert(((virt >> 39u64) & 0x1ff) << 39u64 | ((virt >> 30u64) & 0x1ff) << 30u64 | ((virt
        >> 21u64) & 0x1ff) << 21u64 | ((virt >> 12u64) & 0x1ff) << 12u64 | (virt & 0x7ff) == virt
        & 0x0000_ffff_ffff_f7ff) by (bit_vector);
}

/// Joining four indices below 512 and an offset below 0x800, then splitting
/// the address, gives back the same parts.
pub proof fn law_split_join(i0: u64, i1: u64, i2: u64, i3: u64, off: u64)
    requires
        i0 < 512,
        i1 < 512,
        i2 < 512,
        i3 < 512,
        off < 0x800,
    ensures
        ({
            let v = join_indexes(i0, i1, i2, i3, off);
            &&& table_index(v, 0) == i0
            &&& table_index(v, 1) == i1
            &&& table_index(v, 2) == i2
            &&& table_index(v, 3) == i3
            &&& v & 0x7ff == off
        }),
{
    let v = join_indexes(i0, i1, i2, i3, off);
    assert(table_index(v, 0) == (v >> 39u64) & 0x1ff);
    assert(table_index(v, 1) == (v >> 30u64) & 0x1ff);
    assert(table_index(v, 2) == (v >> 21u64) & 0x1ff);
    assert(table_index(v, 3) == (v >> 12u64) & 0x1ff);
    assert(i0 < 512 && i1 < 512 && i2 < 512 && i3 < 512 && off < 0x800 ==> {
        let w = (i0 << 39u64) | (i1 << 30u64) | (i2 << 21u64) | (i3 << 12u64) | off;
        &&& (w >> 39u64) & 0x1ff == i0
        &&& (w >> 30u64) & 0x1ff == i1
        &&& (w >> 21u64) & 0x1ff == i2
        &&& (w >> 12u64) & 0x1ff == i3
        &&& w & 0x7ff == off
    }) by (bit_vector);
}

/// The start of the first page at or after `addr`.
pub fn next_page(addr: u64) -> (r: u64)
    requires
        round_up(addr as int, PAGE_SIZE as int) <= u64::MAX,
    ensures
        r == round_up(addr as int, PAGE_SIZE as int),
{
    next_multiple_of_u64(addr, PAGE_SIZE)
}

impl From<TableEntry> for u64 {
    fn from(value: TableEntry) -> (r: Self) {
        value.0
    }
}

impl vstd::std_specs::convert::FromSpecImpl<TableEntry> for u64 {
    open spec fn obeys_from_spec() -> bool {
        true
    }

    open spec fn from_spec(value: TableEntry) -> Self {
        value.0
    }
}

impl From<u64> for TableEntry {
    fn from(value: u64) -> (r: Self) {
        TableEntry(value)
    }
}

impl vstd::std_specs::convert::FromSpecImpl<u64> for TableEntry {
    open spec fn obeys_from_spec() -> bool {
        true
    }

    open spec fn from_spec(value: u64) -> Self {
        TableEntry(value)
    }
}

impl From<TableLayer> for usize {
    fn from(value: TableLayer) -> (r: Self) {
        value.depth()
    }
}

impl vstd::std_specs::convert::FromSpecImpl<TableLayer> for usize {
    open spec fn obeys_from_spec() -> bool {
        true
    }

    open spec fn from_spec(value: TableLayer) -> Self {
        layer_depth(value) as usize
    }
}

/// `i` with every bit from `max_phy_bit - 1` up set when bit `max_phy_bit`
/// is set; unchanged otherwise.
#[allow(dead_code)]
fn sign_extend(i: VirtualAddress, max_phy_bit: u8) -> (r: VirtualAddress)
    requires
        1 <= max_phy_bit < 64,
    ensures
        r == if i & (1u64 << max_phy_bit) != 0 {
            i | (u64::MAX ^ (((1u64 << ((max_phy_bit - 1) as u64)) - 1) as u64))
        } else {
            i
        },
{
    let sign = i & (1u64 << max_phy_bit);
    if sign != 0 {
        proof {
            let s = (max_phy_bit - 1) as u64;
            assert(s < 63 ==> (1u64 << s) >= 1) by (bit_vector);
        }
        let mask = u64::MAX ^ ((1u64 << (max_phy_bit - 1)) - 1);
        i | mask
    } else {
        i
    }
}

/// One entry of a page table: a physical address and flag bits.
#[derive(Clone, Copy)]
pub struct TableEntry(pub u64);

impl TableEntry {
    /// Mask of the physical address bits of an entry, for a machine with
    /// `max_phy_bit` physical address bits.
    pub fn generate_phy_mask(max_phy_bit: u8) -> (r: u64)
        requires
            valid_phy_bits(max_phy_bit),
        ensures
            r == phy_mask(max_phy_bit),
    {
        let shift = (max_phy_bit - 1) as u64;
        proof {
            assert(shift < 64 ==> (1u64 << shift) >= 1) by (bit_vector);
        }
        let upper = (1u64 << shift) - 1;
        proof {
            assert(1u64 << 11u64 == 2048) by (bit_vector);
        }
        let lower: u64 = (1u64 << 11u64) - 1;
        upper ^ lower
    }

    /// An entry pointing at page number `phy`, writable when `rw`.
    pub fn new(phy: PhysicalAddress, rw: bool, max_phy_bit: u8) -> (r: TableEntry)
        requires
            valid_phy_bits(max_phy_bit),
        ensures
            r.0 == ((if rw { 1u64 } else { 0u64 }) << 1u64) | ((phy << 12u64) & phy_mask(
                max_phy_bit,
            )),
    {
        let phy_mask = Self::generate_phy_mask(max_phy_bit);
        let mut val: u64 = 0;
        let rw_bit: u64 = if rw { 1 } else { 0 };
        val = val | (rw_bit << 1u64);
        val = val | ((phy << 12u64) & phy_mask);
        proof {
            assert(0u64 | (rw_bit << 1u64) == rw_bit << 1u64) by (bit_vector);
        }
        TableEntry(val)
    }

    /// The physical address the entry holds.
    pub fn get_pointer(&self, max_phy_bit: u8) -> (r: PhysicalAddress)
        requires
            valid_phy_bits(max_phy_bit),
        ensures
            r == self.0 & phy_mask(max_phy_bit),
    {
        let phy_mask = Self::generate_phy_mask(max_phy_bit);
        self.0 & phy_mask
    }

    /// Replaces the physical address the entry holds, keeping its flags.
    pub fn set_pointer(&mut self, ptr: PhysicalAddress, max_phy_bit: u8)
        requires
            valid_phy_bits(max_phy_bit),
        ensures
            final(self).0 == (old(self).0 & !phy_mask(max_phy_bit)) | (ptr & phy_mask(
                max_phy_bit,
            )),
    {
        let phy_mask = Self::generate_phy_mask(max_phy_bit);
        self.0 = self.0 & !phy_mask;
        self.0 = self.0 | (ptr & phy_mask);
    }

    /// The flag bits of the entry: everything outside the address bits.
    pub fn get_flags(&self, max_phy_bit: u8) -> (r: u64)
        requires
            valid_phy_bits(max_phy_bit),
        ensures
            r == self.0 & !phy_mask(max_phy_bit),
    {
        let phy_mask = Self::generate_phy_mask(max_phy_bit);
        self.0 & !phy_mask
    }

    /// Replaces the flag bits of the entry, keeping its address; the bits of
    /// `flags` are or-ed in as given.
    pub fn set_flags(&mut self, flags: u64, max_phy_bit: u8)
        requires
            valid_phy_bits(max_phy_bit),
        ensures
            final(self).0 == (old(self).0 & phy_mask(max_phy_bit)) | flags,
    {
        let phy_mask = Self::generate_phy_mask(max_phy_bit);
        self.0 = self.0 & phy_mask;
        self.0 = self.0 | flags;
    }

    /// Makes the entry present: a present entry only gets `flags`; any other
    /// entry is pointed at a fresh page, the last of `frames` (0 when none is
    /// left), and gets `flags`.
    pub fn check_and_alloc(&mut self, flags: u64, frames: &mut Vec<PhysicalAddress>, b: u8)
        requires
            valid_phy_bits(b),
        ensures
            (final(self).0, final(frames)@) == checked_entry(old(self).0, old(frames)@, flags, b),
    {
        let present = (self.0 & paging_flags::PAGING_PRESENT) != 0;
        if present {
            self.set_flags(flags, b);
        } else {
            let page = match frames.pop() {
                Some(p) => p,
                None => 0,
            };
            self.set_pointer(page, b);
            self.set_flags(flags, b);
        }
    }

    /// Whether the present bit is set.
    pub fn is_present(&self) -> (r: bool)
        ensures
            r == (self.0 & paging_flags::PAGING_PRESENT != 0),
    {
        (self.0 & paging_flags::PAGING_PRESENT) != 0
    }
}

/// Physical address bits never reach the top bit of an entry.
pub proof fn lemma_mask_bound(x: u64, max_phy_bit: u8)
    requires
        valid_phy_bits(max_phy_bit),
    ensures
        x & phy_mask(max_phy_bit) <= 0x7fff_ffff_ffff_ffff,
        phy_mask(max_phy_bit) <= 0x7fff_ffff_ffff_ffff,
{
    let s = (max_phy_bit - 1) as u64;
    assert(s < 64 ==> x & ((((1u64 << s) - 1) as u64) ^ 0x7ffu64) <= 0x7fff_ffff_ffff_ffff)
        by (bit_vector);
    assert(s < 64 ==> (((1u64 << s) - 1) as u64) ^ 0x7ffu64 <= 0x7fff_ffff_ffff_ffff)
        by (bit_vector);
}

/// Why a page table operation failed.
#[derive(Debug, Clone, Copy, PartialEq, Eq, Structural)]
pub enum PtmError {
    NoMapping(VirtualAddress),
    InvalidRange,
    IncorrectPageSize,
    UnallignedPage,
    PmmError(PmmError),
    PtmNotReady,
}

/// Address of the entry that `virt` selects in the table at `table` of depth `depth`.
pub open spec fn entry_addr(table: u64, virt: u64, depth: int) -> u64 {
    (table + 8 * table_index(virt, depth)) as u64
}

/// The table of depth `depth` that the walk for `virt` from the root table
/// `root` reaches; `None` when an entry on the way holds no address.
pub open spec fn table_at(m: Map<u64, u64>, root: u64, virt: u64, depth: nat, b: u8) -> Option<u64>
    decreases depth,
{
    if depth == 0 {
        Some(root)
    } else {
        match table_at(m, root, virt, (depth - 1) as nat, b) {
            None => None,
            Some(t) => {
                let p = read_word(m, entry_addr(t, virt, depth - 1)) & phy_mask(b);
                if p == 0 {
                    None
                } else {
                    Some(p)
                }
            },
        }
    }
}

/// What `crawl` returns: the address of the entry for `virt` in the table of
/// depth `depth`, or `NoMapping` when the walk stops early.
pub open spec fn crawl_result(m: Map<u64, u64>, root: u64, virt: u64, depth: nat, b: u8) -> Result<
    u64,
    PtmError,
> {
    match table_at(m, root, virt, depth, b) {
        Some(t) => Ok(entry_addr(t, virt, depth as int)),
        None => Err(PtmError::NoMapping(virt)),
    }
}

/// An entry after `check_and_alloc`, with the pages still to hand out: a
/// present entry gets the new flags; any other entry points to the last
/// page of `frames` (0 when none is left) and gets the new flags.
pub open spec fn checked_entry(e: u64, frames: Seq<u64>, flags: u64, b: u8) -> (u64, Seq<u64>) {
    if e & paging_flags::PAGING_PRESENT != 0 {
        ((e & phy_mask(b)) | flags, frames)
    } else {
        let page = if frames.len() > 0 {
            frames.last()
        } else {
            0
        };
        let rest = if frames.len() > 0 {
            frames.drop_last()
        } else {
            frames
        };
        ((((e & !phy_mask(b)) | (page & phy_mask(b))) & phy_mask(b)) | flags, rest)
    }
}

/// Memory, pages left and entry address after `crawl_alloc` has gone from
/// depth `depth` down to depth `last`, starting in the table at `table`.
pub open spec fn alloc_walk(
    m: Map<u64, u64>,
    frames: Seq<u64>,
    table: u64,
    virt: u64,
    depth: nat,
    last: nat,
    flags: u64,
    b: u8,
) -> (Map<u64, u64>, Seq<u64>, u64)
    decreases last - depth,
{
    if depth >= last {
        (m, frames, entry_addr(table, virt, depth as int))
    } else {
        let ea = entry_addr(table, virt, depth as int);
        let (e, rest) = checked_entry(read_word(m, ea), frames, flags, b);
        alloc_walk(m.insert(ea, e), rest, e & phy_mask(b), virt, depth + 1, last, flags, b)
    }
}

/// The entry of the window once it shows the table at `t`: the table's
/// address, writable and present.
pub open spec fn window_on(t: u64, b: u8) -> u64 {
    (t & phy_mask(b)) | (paging_flags::PAGING_RW | paging_flags::PAGING_PRESENT)
}

/// The last table the walk for `virt` reaches going down to depth `depth`:
/// the table there, or the deepest one before the walk stopped.
pub open spec fn last_table(m: Map<u64, u64>, root: u64, virt: u64, depth: nat, b: u8) -> u64
    decreases depth,
{
    if depth == 0 {
        root
    } else {
        match table_at(m, root, virt, depth, b) {
            Some(t) => t,
            None => last_table(m, root, virt, (depth - 1) as nat, b),
        }
    }
}

/// The table `crawl_alloc` ends in, going from depth `depth` down to depth
/// `last`, starting in the table at `table`.
pub open spec fn alloc_last(
    m: Map<u64, u64>,
    frames: Seq<u64>,
    table: u64,
    virt: u64,
    depth: nat,
    last: nat,
    flags: u64,
    b: u8,
) -> u64
    decreases last - depth,
{
    if depth >= last {
        table
    } else {
        let ea = entry_addr(table, virt, depth as int);
        let (e, rest) = checked_entry(read_word(m, ea), frames, flags, b);
        alloc_last(m.insert(ea, e), rest, e & phy_mask(b), virt, depth + 1, last, flags, b)
    }
}

/// Memory and pages left after `map` put `phy` with `flags` at `virt`.
pub open spec fn map_effect(
    m: Map<u64, u64>,
    frames: Seq<u64>,
    root: u64,
    phy: u64,
    virt: u64,
    flags: u64,
    b: u8,
) -> (Map<u64, u64>, Seq<u64>) {
    let (m1, f1, ea) = alloc_walk(m, frames, root, virt, 0, 3, flags, b);
    let e = read_word(m1, ea);
    (m1.insert(ea, (((e & !phy_mask(b)) | (phy & phy_mask(b))) & phy_mask(b)) | flags), f1)
}

/// What `get_physical` returns for `virt`.
pub open spec fn physical_of(m: Map<u64, u64>, root: u64, virt: u64, b: u8) -> Result<
    u64,
    PtmError,
> {
    match crawl_result(m, root, virt, 3, b) {
        Ok(ea) => Ok(read_word(m, ea) & phy_mask(b)),
        Err(e) => Err(e),
    }
}

/// Memory after `unmap` cleared the flags of the entry at `ea`.
pub open spec fn cleared_entry(m: Map<u64, u64>, ea: u64, b: u8) -> Map<u64, u64> {
    m.insert(ea, read_word(m, ea) & phy_mask(b))
}

/// Memory, pages to give back and outcome after `unmap` of `virt`.
pub open spec fn unmap_effect(m: Map<u64, u64>, root: u64, virt: u64, free_phy: bool, b: u8) -> (
    Map<u64, u64>,
    Seq<u64>,
    Result<(), PtmError>,
) {
    match crawl_result(m, root, virt, 3, b) {
        Ok(ea) => (
            cleared_entry(m, ea, b),
            if free_phy {
                seq![read_word(m, ea) & phy_mask(b)]
            } else {
                seq![]
            },
            Ok(()),
        ),
        Err(e) => (m, seq![], Err(e)),
    }
}

/// Memory, pages to give back and outcome after unmapping `count` pages from
/// `start` on, one page after the other, stopping at the first failure.
pub open spec fn unmap_pages(m: Map<u64, u64>, root: u64, start: u64, count: nat, free_phy: bool, b: u8) -> (
    Map<u64, u64>,
    Seq<u64>,
    Result<(), PtmError>,
)
    decreases count,
{
    if count == 0 {
        (m, seq![], Ok(()))
    } else {
        let (m1, f1, r1) = unmap_pages(m, root, start, (count - 1) as nat, free_phy, b);
        if r1 is Err {
            (m1, f1, r1)
        } else {
            let (m2, f2, r2) = unmap_effect(
                m1,
                root,
                (start + (count - 1) * PAGE_SIZE) as u64,
                free_phy,
                b,
            );
            (m2, f1 + f2, r2)
        }
    }
}

/// Memory and pages left after mapping `count` pages, the `k`-th physical
/// page `phy + k * PAGE_SIZE` at the `k`-th virtual page `virt + k * PAGE_SIZE`.
pub open spec fn map_pages(
    m: Map<u64, u64>,
    frames: Seq<u64>,
    root: u64,
    phy: u64,
    virt: u64,
    count: nat,
    flags: u64,
    b: u8,
) -> (Map<u64, u64>, Seq<u64>)
    decreases count,
{
    if count == 0 {
        (m, frames)
    } else {
        let (m1, f1) = map_pages(m, frames, root, phy, virt, (count - 1) as nat, flags, b);
        map_effect(
            m1,
            f1,
            root,
            (phy + (count - 1) * PAGE_SIZE) as u64,
            (virt + (count - 1) * PAGE_SIZE) as u64,
            flags,
            b,
        )
    }
}

/// The table the window shows after mapping `count` pages as `map_pages`
/// does: the last table of the last page's walk; `None` for no page.
pub open spec fn map_pages_last(
    m: Map<u64, u64>,
    frames: Seq<u64>,
    root: u64,
    phy: u64,
    virt: u64,
    count: nat,
    flags: u64,
    b: u8,
) -> Option<u64> {
    if count == 0 {
        None
    } else {
        let (m1, f1) = map_pages(m, frames, root, phy, virt, (count - 1) as nat, flags, b);
        Some(alloc_last(m1, f1, root, (virt + (count - 1) * PAGE_SIZE) as u64, 0, 3, flags, b))
    }
}

/// The table the window shows after unmapping as `unmap_pages` does: the
/// last table reached by the walk of the last page tried; `None` for no page.
pub open spec fn unmap_pages_last(
    m: Map<u64, u64>,
    root: u64,
    start: u64,
    count: nat,
    free_phy: bool,
    b: u8,
) -> Option<u64>
    decreases count,
{
    if count == 0 {
        None
    } else {
        let (m1, f1, r1) = unmap_pages(m, root, start, (count - 1) as nat, free_phy, b);
        if r1 is Err {
            unmap_pages_last(m, root, start, (count - 1) as nat, free_phy, b)
        } else {
            Some(last_table(m1, root, (start + (count - 1) * PAGE_SIZE) as u64, 3, b))
        }
    }
}

/// The table the window shows after backing `count` pages as `mmap_pages`
/// does: the last table of the last page's walk; `None` for no page.
pub open spec fn mmap_pages_last(
    m: Map<u64, u64>,
    frames: Seq<u64>,
    pmm: PMM,
    root: u64,
    start: u64,
    count: nat,
    flags: u64,
    b: u8,
) -> Option<u64> {
    if count == 0 {
        None
    } else {
        let (m1, f1, p1) = mmap_pages(m, frames, pmm, root, start, (count - 1) as nat, flags, b);
        let m2 = pop_mem(m1, p1.spec_head(), p1.spec_available());
        Some(alloc_last(m2, f1, root, (start + (count - 1) * PAGE_SIZE) as u64, 0, 3, flags, b))
    }
}

/// Number of addresses in the inclusive range `start..=end`.
pub open spec fn inclusive_count(start: u64, end: u64) -> int {
    if start <= end {
        end - start + 1
    } else {
        0
    }
}

/// Outcome of the checks `map_range` makes before mapping anything.
pub open spec fn map_range_check(phy: (u64, u64), virt: (u64, u64)) -> Result<(), PtmError> {
    if inclusive_count(phy.0, phy.1) != inclusive_count(virt.0, virt.1) {
        Err(PtmError::InvalidRange)
    } else if (phy.1 - phy.0) % (PAGE_SIZE as int) != 0 {
        Err(PtmError::IncorrectPageSize)
    } else if phy.0 % PAGE_SIZE != 0 {
        Err(PtmError::UnallignedPage)
    } else {
        Ok(())
    }
}

/// Outcome of the checks `unmap_range` makes before unmapping anything.
pub open spec fn unmap_range_check(virt: (u64, u64)) -> Result<(), PtmError> {
    if (virt.1 - virt.0) % (PAGE_SIZE as int) != 0 {
        Err(PtmError::IncorrectPageSize)
    } else if virt.0 % PAGE_SIZE != 0 {
        Err(PtmError::UnallignedPage)
    } else {
        Ok(())
    }
}

/// What mapping `length` bytes of physical memory from `phy_addr` does:
/// the pages that hold them, rounded out to whole pages, are mapped at the
/// first free virtual range `s` has for them, which `t` then lacks, and the
/// range's start is returned; with no such range, nothing changes and `r` is
/// `None`.
pub open spec fn into_mapping(
    s: Seq<(u64, u64)>,
    t: Seq<(u64, u64)>,
    mem0: Map<u64, u64>,
    frames0: Seq<PhysicalAddress>,
    mem1: Map<u64, u64>,
    frames1: Seq<PhysicalAddress>,
    root: PhysicalAddress,
    phy_addr: PhysicalAddress,
    length: usize,
    flags: u64,
    b: u8,
    r: Option<VirtualAddress>,
) -> bool {
    let page = page_floor(phy_addr as int);
    let len = round_up(length + (phy_addr - page), PAGE_SIZE as int);
    match r {
        None => t == s && mem1 == mem0 && frames1 == frames0 && forall|j: int|
            0 <= j < s.len() ==> crate::memory::mmap::span_len(#[trigger] s[j]) < len,
        Some(addr) => exists|i: int|
            {
                &&& #[trigger] is_first_fit(s, len as usize, i)
                &&& addr == s[i].0
                &&& t == taken(s, len as usize, i)
                &&& (mem1, frames1) == map_pages(
                    mem0,
                    frames0,
                    root,
                    page as u64,
                    addr,
                    page_steps(page as u64, (page + len) as u64),
                    flags,
                    b,
                )
            },
    }
}

/// The window's entry after `map_into` of `length` bytes from `phy_addr`
/// returned `r`, starting from the manager `p`: unchanged when nothing was
/// mapped, else showing the last table of the last page's walk.
pub open spec fn into_window(
    p: PageTableManager,
    mem0: Map<u64, u64>,
    frames0: Seq<PhysicalAddress>,
    phy_addr: PhysicalAddress,
    length: usize,
    flags: u64,
    use_hhdm: bool,
    b: u8,
    r: Option<VirtualAddress>,
) -> u64 {
    let page = page_floor(phy_addr as int);
    let len = round_up(length + (phy_addr - page), PAGE_SIZE as int);
    match r {
        None => p.spec_tmp_entry(),
        Some(addr) => p.moved_opt(
            use_hhdm,
            map_pages_last(
                mem0,
                frames0,
                p.root(),
                page as u64,
                addr,
                page_steps(page as u64, (page + len) as u64),
                flags,
                b,
            ),
            b,
        ).spec_tmp_entry(),
    }
}

/// The physical memory from `phy_addr`, `length` bytes long and rounded out
/// to whole pages, lies within the address space.
pub open spec fn into_fits(phy_addr: PhysicalAddress, length: usize) -> bool {
    let page = page_floor(phy_addr as int);
    let len = round_up(length + (phy_addr - page), PAGE_SIZE as int);
    &&& len <= usize::MAX
    &&& page + len <= u64::MAX
}

/// Number of pages in the inclusive range `start..=end` taken a page at a time.
pub open spec fn page_steps(start: u64, end: u64) -> nat {
    ((end - start) / (PAGE_SIZE as int) + 1) as nat
}

/// The page the physical memory manager hands out next, taken from the end of
/// `frames` (0 when none is left), and the pages left.
pub open spec fn pop_frame(frames: Seq<u64>) -> (u64, Seq<u64>) {
    if frames.len() > 0 {
        (frames.last(), frames.drop_last())
    } else {
        (0, frames)
    }
}

/// Memory, pages left and manager after `mmap` backed `count` pages from
/// `start` on: for each page a page is taken from the physical memory
/// manager `pmm`, then mapped.
pub open spec fn mmap_pages(
    m: Map<u64, u64>,
    frames: Seq<u64>,
    pmm: PMM,
    root: u64,
    start: u64,
    count: nat,
    flags: u64,
    b: u8,
) -> (Map<u64, u64>, Seq<u64>, PMM)
    decreases count,
{
    if count == 0 {
        (m, frames, pmm)
    } else {
        let (m1, f1, p1) = mmap_pages(m, frames, pmm, root, start, (count - 1) as nat, flags, b);
        let m2 = pop_mem(m1, p1.spec_head(), p1.spec_available());
        let (m3, f3) = map_effect(
            m2,
            f1,
            root,
            p1.next_page(),
            (start + (count - 1) * PAGE_SIZE) as u64,
            flags,
            b,
        );
        (m3, f3, p1.popped(m1))
    }
}

/// The manager can hand out each of the `count` pages `mmap` takes.
pub open spec fn mmap_can_pop(
    m: Map<u64, u64>,
    frames: Seq<u64>,
    pmm: PMM,
    root: u64,
    start: u64,
    count: nat,
    flags: u64,
    b: u8,
) -> bool
    decreases count,
{
    count == 0 || {
        let (m1, f1, p1) = mmap_pages(m, frames, pmm, root, start, (count - 1) as nat, flags, b);
        &&& mmap_can_pop(m, frames, pmm, root, start, (count - 1) as nat, flags, b)
        &&& p1.can_pop(m1)
    }
}

/// Each page `mmap` takes, up to the `count`-th, is handed out as
/// `pop_page` promises: page aligned, taken out of the free runs and cleared,
/// whenever the manager knew its head run.
pub open spec fn mmap_fresh(
    m: Map<u64, u64>,
    frames: Seq<u64>,
    pmm: PMM,
    root: u64,
    start: u64,
    count: nat,
    flags: u64,
    b: u8,
) -> bool {
    forall|k: nat|
        k < count ==> {
            let (m1, f1, p1) = #[trigger] mmap_pages(m, frames, pmm, root, start, k, flags, b);
            fresh_pop(p1, m1)
        }
}


/// One piece of a page table dump, in the order it is written: the tables
/// form nested lists of entries, and each entry of a table above the last
/// level holds the table it points to.
#[derive(Clone, Copy, Debug, PartialEq, Eq, Structural)]
pub enum DumpToken {
    /// A table starts.
    Open,
    /// A table ends.
    Close,
    /// Between two entries of a table.
    Comma,
    /// An entry starts.
    EntryOpen,
    /// The fields of an entry: its flag bits, the address it holds and the
    /// depth of its table.
    Entry { flags: u64, address: u64, depth: usize },
    /// The table an entry points to follows.
    LayerKey,
    /// An entry ends.
    EntryClose,
}

/// Where the window shows the physical page `x` once pointed at it.
pub open spec fn window_at(x: u64, use_hhdm: bool, hhdm: u64, tmp: u64) -> u64 {
    if use_hhdm {
        (x + hhdm) as u64
    } else {
        tmp
    }
}

/// The dump of the table at `table`, seen through the window at `layer`, of
/// depth `depth`: nothing when the window is at address 0.
pub open spec fn dump_layer(
    m: Map<u64, u64>,
    layer: u64,
    table: u64,
    depth: int,
    b: u8,
    use_hhdm: bool,
    hhdm: u64,
    tmp: u64,
) -> Seq<DumpToken>
    decreases 4 - depth, 514int,
{
    if layer == 0 || depth < 0 || depth > 3 {
        seq![]
    } else {
        seq![DumpToken::Open] + dump_entries(m, table, depth, 0, false, b, use_hhdm, hhdm, tmp)
            + seq![DumpToken::Close]
    }
}

/// The dump of the entries of the table at `table` from the `i`th on;
/// `prev` says whether an entry came before. Entries that hold no address
/// are left out.
pub open spec fn dump_entries(
    m: Map<u64, u64>,
    table: u64,
    depth: int,
    i: int,
    prev: bool,
    b: u8,
    use_hhdm: bool,
    hhdm: u64,
    tmp: u64,
) -> Seq<DumpToken>
    decreases 4 - depth, 513 - i,
{
    if i < 0 || i >= 512 || depth < 0 || depth > 3 {
        seq![]
    } else {
        let e = read_word(m, (table + 8 * i) as u64);
        let p = e & phy_mask(b);
        if p == 0 {
            dump_entries(m, table, depth, i + 1, prev, b, use_hhdm, hhdm, tmp)
        } else {
            (if prev {
                seq![DumpToken::Comma]
            } else {
                seq![]
            }) + seq![
                DumpToken::EntryOpen,
                DumpToken::Entry { flags: e & !phy_mask(b), address: p, depth: depth as usize },
            ] + (if depth < 3 {
                seq![DumpToken::LayerKey] + dump_layer(
                    m,
                    window_at(p, use_hhdm, hhdm, tmp),
                    p,
                    depth + 1,
                    b,
                    use_hhdm,
                    hhdm,
                    tmp,
                )
            } else {
                seq![]
            }) + seq![DumpToken::EntryClose] + dump_entries(
                m,
                table,
                depth,
                i + 1,
                true,
                b,
                use_hhdm,
                hhdm,
                tmp,
            )
        }
    }
}

/// Pointing the window at a page leaves an entry that names the page with
/// the flags of a present, writable page; pointing it back at the page it
/// names gives the same entry.
proof fn lemma_window_entry(e: u64, x: u64, b: u8)
    requires
        valid_phy_bits(b),
    ensures
        ((((e & !phy_mask(b)) | (x & phy_mask(b))) & phy_mask(b)) | 3) == (x & phy_mask(b)) | 3,
        (((x & phy_mask(b)) | 3) & phy_mask(b)) == x & phy_mask(b),
        (x & phy_mask(b)) & phy_mask(b) == x & phy_mask(b),
        paging_flags::PAGING_RW | paging_flags::PAGING_PRESENT == 3,
{
    assert(paging_flags::PAGING_RW | paging_flags::PAGING_PRESENT == 3) by (bit_vector);
    assert((x & phy_mask(b)) & phy_mask(b) == x & phy_mask(b)) by (bit_vector);
    let s = (b - 1) as u64;
    assert(11 <= s < 64 ==> ((((e & !((((1u64 << s) - 1) as u64) ^ 0x7ffu64)) | (x & ((((1u64
        << s) - 1) as u64) ^ 0x7ffu64))) & ((((1u64 << s) - 1) as u64) ^ 0x7ffu64)) | 3) == (x
        & ((((1u64 << s) - 1) as u64) ^ 0x7ffu64)) | 3) by (bit_vector);
    assert(11 <= s < 64 ==> (((x & ((((1u64 << s) - 1) as u64) ^ 0x7ffu64)) | 3) & ((((1u64
        << s) - 1) as u64) ^ 0x7ffu64)) == x & ((((1u64 << s) - 1) as u64) ^ 0x7ffu64))
        by (bit_vector);
}

/// Manages one address space: its root table, the window used to reach
/// physical pages, and the virtual ranges free for `mmap`. Once the
/// bootloader's direct map is no longer used (`use_hhdm` false), every walk
/// through the tables shows each table it reaches through the window and
/// leaves the window showing the last one.
pub struct PageTableManager {
    pub phy_addr: PhysicalAddress,
    pub tmp_address: VirtualAddress,
    pub tmp_entry_address: VirtualAddress,
    pub tmp_entry: TableEntry,
    pub mmap_start: VirtualAddress,
    pub mmap_end: VirtualAddress,
    pub mmap_tracker: Option<MmapTracker>,
}

impl PageTableManager {
    /// Physical address of the root table.
    pub open spec fn root(&self) -> u64 {
        self.phy_addr
    }

    /// Virtual address of the window through which one physical page at a time is reached.
    pub open spec fn spec_tmp_address(&self) -> u64 {
        self.tmp_address
    }

    /// Virtual address of the entry that maps the window.
    pub open spec fn spec_tmp_entry_address(&self) -> u64 {
        self.tmp_entry_address
    }

    /// The entry that maps the window.
    pub open spec fn spec_tmp_entry(&self) -> u64 {
        self.tmp_entry.0
    }

    /// A manager for the address space whose root table is at `phy_addr`.
    pub fn from_parts(
        phy_addr: PhysicalAddress,
        tmp_address: VirtualAddress,
        tmp_entry_address: VirtualAddress,
        mmap_start: VirtualAddress,
        mmap_end: VirtualAddress,
    ) -> (r: Self)
        ensures
            r.root() == phy_addr,
            r.spec_tmp_address() == tmp_address,
            r.spec_tmp_entry_address() == tmp_entry_address,
            r.spec_tmp_entry() == 0,
            r.mmap_start == mmap_start,
            r.mmap_end == mmap_end,
            r.mmap_tracker is None,
    {
        PageTableManager {
            phy_addr,
            tmp_address,
            tmp_entry_address,
            tmp_entry: TableEntry(0),
            mmap_start,
            mmap_end,
            mmap_tracker: None,
        }
    }

    /// The root table sits where entry addresses cannot overflow.
    pub open spec fn root_ok(&self) -> bool {
        self.root() <= 0x7fff_ffff_ffff_ffff
    }

    /// The manager once a walk has shown the table at `t` through the
    /// window: the window's entry points there, unless the bootloader's direct
    /// map is in use (`use_hhdm`), where tables are reached without the window.
    pub open spec fn moved(self, use_hhdm: bool, t: u64, b: u8) -> Self {
        if use_hhdm {
            self
        } else {
            PageTableManager { tmp_entry: TableEntry(window_on(t, b)), ..self }
        }
    }

    /// The manager after a sequence of walks, the last of which showed `t`;
    /// unchanged when there was none.
    pub open spec fn moved_opt(self, use_hhdm: bool, t: Option<u64>, b: u8) -> Self {
        match t {
            Some(x) => self.moved(use_hhdm, x, b),
            None => self,
        }
    }

    /// Shows the table at `table` through the window, as a walk does with
    /// each table it reaches; the direct map needs no window.
    fn show_table(&mut self, table: PhysicalAddress, use_hhdm: bool, b: u8)
        requires
            valid_phy_bits(b),
        ensures
            *final(self) == old(self).moved(use_hhdm, table, b),
    {
        if !use_hhdm {
            let mut pte = self.tmp_entry;
            pte.set_pointer(table, b);
            pte.set_flags(paging_flags::PAGING_RW | paging_flags::PAGING_PRESENT, b);
            self.tmp_entry = pte;
            proof {
                let e = old(self).tmp_entry.0;
                let m = phy_mask(b);
                assert((((e & !m) | (table & m)) & m) | 3u64 == (table & m) | 3u64) by (bit_vector);
                assert(paging_flags::PAGING_RW | paging_flags::PAGING_PRESENT == 3u64) by (bit_vector);
                assert(self.tmp_entry == TableEntry(window_on(table, b)));
            }
        }
    }

    /// Address of the entry for `virt` in the table of depth `layer`; fails
    /// with `NoMapping` when an entry on the way holds no address.
    /// Each table the walk reaches is shown through the window, which is
    /// left showing the last one.
    pub fn crawl(
        &mut self,
        mem: &PhysicalMemory,
        virt: VirtualAddress,
        layer: TableLayer,
        use_hhdm: bool,
        b: u8,
    ) -> (r: Result<u64, PtmError>)
        requires
            valid_phy_bits(b),
            old(self).root_ok(),
        ensures
            r == crawl_result(mem@, old(self).root(), virt, layer_depth(layer) as nat, b),
            *final(self) == old(self).moved(
                use_hhdm,
                last_table(mem@, old(self).root(), virt, layer_depth(layer) as nat, b),
                b,
            ),
    {
        let (indexes, _) = split_virtual(virt);
        let mut table = self.phy_addr;
        let l = layer.depth();
        self.show_table(table, use_hhdm, b);
        let mut i: usize = 0;
        while i < l
            invariant
                0 <= i <= l <= 3,
                valid_phy_bits(b),
                table <= 0x7fff_ffff_ffff_ffff,
                forall|d: int| 0 <= d < 4 ==> indexes@[d] == table_index(virt, d),
                forall|d: int| 0 <= d < 4 ==> indexes@[d] < 512,
                table_at(mem@, self.root(), virt, i as nat, b) == Some(table),
                self.root() == old(self).root(),
                *self == old(self).moved(use_hhdm, table, b),
                table == last_table(mem@, self.root(), virt, i as nat, b),
                self.root_ok(),
                l == layer_depth(layer),
            decreases l - i,
        {
            let current = TableEntry(mem.read(table + 8 * (indexes[i] as u64)));
            let phy = current.get_pointer(b);
            proof {
                lemma_mask_bound(current.0, b);
            }
            if phy == 0 {
                proof {
                    assert(entry_addr(table, virt, i as int) == table + 8 * (indexes[i as int] as u64));
                    assert(table_at(mem@, self.root(), virt, (i + 1) as nat, b) is None);
                    lemma_table_at_stuck(mem@, self.root(), virt, (i + 1) as nat, l as nat, b);
                    lemma_last_table_stuck(mem@, self.root(), virt, i as nat, l as nat, b);
                }
                return Err(PtmError::NoMapping(virt));
            }
            table = phy;
            self.show_table(table, use_hhdm, b);
            i = i + 1;
        }
        Ok(table + 8 * (indexes[l] as u64))
    }

    /// Address of the entry for `virt` in the table of depth `layer`, making
    /// every entry on the way present: a missing table is taken from the end
    /// of `frames` (address 0 when none is left), and every entry on the way
    /// gets `flags`.
    pub fn crawl_alloc(
        &mut self,
        mem: &mut PhysicalMemory,
        frames: &mut Vec<PhysicalAddress>,
        virt: VirtualAddress,
        table_layer: TableLayer,
        flags: u64,
        use_hhdm: bool,
        b: u8,
    ) -> (r: u64)
        requires
            valid_phy_bits(b),
            old(self).root_ok(),
        ensures
            *final(self) == old(self).moved(
                use_hhdm,
                alloc_last(
                    old(mem)@,
                    old(frames)@,
                    old(self).root(),
                    virt,
                    0,
                    layer_depth(table_layer) as nat,
                    flags,
                    b,
                ),
                b,
            ),
            (final(mem)@, final(frames)@, r) == alloc_walk(
                old(mem)@,
                old(frames)@,
                old(self).root(),
                virt,
                0,
                layer_depth(table_layer) as nat,
                flags,
                b,
            ),
    {
        let (indexes, _) = split_virtual(virt);
        let mut table = self.phy_addr;
        let l = table_layer.depth();
        let ghost goal = alloc_walk(mem@, frames@, self.root(), virt, 0, l as nat, flags, b);
        let ghost goal_last = alloc_last(mem@, frames@, self.root(), virt, 0, l as nat, flags, b);
        self.show_table(table, use_hhdm, b);
        let mut i: usize = 0;
        while i < l
            invariant
                0 <= i <= l <= 3,
                valid_phy_bits(b),
                table <= 0x7fff_ffff_ffff_ffff,
                forall|d: int| 0 <= d < 4 ==> indexes@[d] == table_index(virt, d),
                forall|d: int| 0 <= d < 4 ==> indexes@[d] < 512,
                goal == alloc_walk(mem@, frames@, table, virt, i as nat, l as nat, flags, b),
                goal_last == alloc_last(mem@, frames@, table, virt, i as nat, l as nat, flags, b),
                *self == old(self).moved(use_hhdm, table, b),
            decreases l - i,
        {
            let ea = table + 8 * (indexes[i] as u64);
            let mut entry = TableEntry(mem.read(ea));
            entry.check_and_alloc(flags, frames, b);
            mem.write(ea, entry.0);
            table = entry.get_pointer(b);
            proof {
                lemma_mask_bound(entry.0, b);
            }
            self.show_table(table, use_hhdm, b);
            i = i + 1;
        }
        table + 8 * (indexes[l] as u64)
    }

    /// Maps the page at `phy_addr` at `virt_addr` with `flags`, creating the
    /// tables on the way as `crawl_alloc` does.
    pub fn map(
        &mut self,
        mem: &mut PhysicalMemory,
        frames: &mut Vec<PhysicalAddress>,
        phy_addr: PhysicalAddress,
        virt_addr: VirtualAddress,
        flags: u64,
        use_hhdm: bool,
        b: u8,
    ) -> (r: Result<(), PtmError>)
        requires
            valid_phy_bits(b),
            old(self).root_ok(),
        ensures
            r is Ok,
            *final(self) == old(self).moved(
                use_hhdm,
                alloc_last(old(mem)@, old(frames)@, old(self).root(), virt_addr, 0, 3, flags, b),
                b,
            ),
            (final(mem)@, final(frames)@) == map_effect(
                old(mem)@,
                old(frames)@,
                old(self).root(),
                phy_addr,
                virt_addr,
                flags,
                b,
            ),
    {
        let pentry = self.crawl_alloc(mem, frames, virt_addr, TableLayer::PT, flags, use_hhdm, b);
        let mut entry = TableEntry(mem.read(pentry));
        entry.set_pointer(phy_addr, b);
        entry.set_flags(flags, b);
        mem.write(pentry, entry.0);
        Ok(())
    }

    /// Clears the flags of the entry for `virt_addr`; when `free_phy`, the
    /// page it held goes to `freed`, to be given back to the physical memory
    /// manager.
    pub fn unmap(
        &mut self,
        mem: &mut PhysicalMemory,
        virt_addr: VirtualAddress,
        free_phy: bool,
        freed: &mut Vec<PhysicalAddress>,
        use_hhdm: bool,
        b: u8,
    ) -> (r: Result<(), PtmError>)
        requires
            valid_phy_bits(b),
            old(self).root_ok(),
        ensures
            *final(self) == old(self).moved(
                use_hhdm,
                last_table(old(mem)@, old(self).root(), virt_addr, 3, b),
                b,
            ),
            ({
                let (m2, f2, r2) = unmap_effect(old(mem)@, old(self).root(), virt_addr, free_phy, b);
                &&& final(mem)@ == m2
                &&& final(freed)@ == old(freed)@ + f2
                &&& r == r2
            }),
    {
        match self.crawl(mem, virt_addr, TableLayer::PT, use_hhdm, b) {
            Ok(entry_addr) => {
                let mut entry = TableEntry(mem.read(entry_addr));
                let ret = entry.get_pointer(b);
                entry.set_flags(0, b);
                mem.write(entry_addr, entry.0);
                proof {
                    let e = read_word(old(mem)@, entry_addr);
                    assert((e & phy_mask(b)) | 0 == e & phy_mask(b)) by (bit_vector);
                }
                if free_phy {
                    freed.push(ret);
                    proof {
                        assert(freed@ =~= old(freed)@ + seq![ret]);
                    }
                } else {
                    proof {
                        assert(freed@ =~= old(freed)@ + Seq::<u64>::empty());
                    }
                }
                Ok(())
            },
            Err(e) => {
                proof {
                    assert(freed@ =~= old(freed)@ + Seq::<u64>::empty());
                }
                Err(e)
            },
        }
    }

    /// Unmaps every page of `virt.0..=virt.1`, which must span whole pages
    /// from a page start; stops at the first page without a mapping.
    pub fn unmap_range(
        &mut self,
        mem: &mut PhysicalMemory,
        virt: (VirtualAddress, VirtualAddress),
        free_phy: bool,
        freed: &mut Vec<PhysicalAddress>,
        use_hhdm: bool,
        b: u8,
    ) -> (r: Result<(), PtmError>)
        requires
            valid_phy_bits(b),
            old(self).root_ok(),
            virt.0 <= virt.1,
        ensures
            unmap_range_check(virt) is Err ==> *final(self) == *old(self),
            unmap_range_check(virt) is Ok ==> *final(self) == old(self).moved_opt(
                use_hhdm,
                unmap_pages_last(
                    old(mem)@,
                    old(self).root(),
                    virt.0,
                    page_steps(virt.0, virt.1),
                    free_phy,
                    b,
                ),
                b,
            ),
            unmap_range_check(virt) is Err ==> r == unmap_range_check(virt) && final(mem)@ == old(
                mem,
            )@ && final(freed)@ == old(freed)@,
            unmap_range_check(virt) is Ok ==> {
                let (m2, f2, r2) = unmap_pages(
                    old(mem)@,
                    old(self).root(),
                    virt.0,
                    page_steps(virt.0, virt.1),
                    free_phy,
                    b,
                );
                &&& final(mem)@ == m2
                &&& final(freed)@ == old(freed)@ + f2
                &&& r == r2
            },
    {
        if (virt.1 - virt.0) % PAGE_SIZE != 0 {
            return Err(PtmError::IncorrectPageSize);
        } else if (virt.0 % PAGE_SIZE) != 0 {
            return Err(PtmError::UnallignedPage);
        }
        let ghost m0 = mem@;
        let ghost fr0 = freed@;
        let ghost n = page_steps(virt.0, virt.1);
        let mut pg = virt.0;
        let mut k: u64 = 0;
        proof {
            assert(fr0 =~= fr0 + Seq::<u64>::empty());
        }
        loop
            invariant
                valid_phy_bits(b),
                self.root_ok(),
                virt.0 <= virt.1,
                (virt.1 - virt.0) % 4096 == 0,
                n == page_steps(virt.0, virt.1),
                self.root() == old(self).root(),
                *self == old(self).moved_opt(
                    use_hhdm,
                    unmap_pages_last(m0, old(self).root(), virt.0, k as nat, free_phy, b),
                    b,
                ),
                m0 == old(mem)@,
                fr0 == old(freed)@,
                unmap_range_check(virt) is Ok,
                k < n,
                pg == virt.0 + k * PAGE_SIZE,
                pg <= virt.1,
                ({
                    let (m1, f1, r1) = unmap_pages(m0, self.root(), virt.0, k as nat, free_phy, b);
                    &&& r1 is Ok
                    &&& mem@ == m1
                    &&& freed@ == fr0 + f1
                }),
            decreases n - k,
        {
            let ghost before = freed@;
            let res = self.unmap(mem, pg, free_phy, freed, use_hhdm, b);
            proof {
                let (m1, f1, r1) = unmap_pages(m0, self.root(), virt.0, k as nat, free_phy, b);
                assert(unmap_pages_last(m0, self.root(), virt.0, (k + 1) as nat, free_phy, b) == Some(
                    last_table(m1, self.root(), pg, 3, b),
                ));
                let (m2, f2, r2) = unmap_effect(m1, self.root(), pg, free_phy, b);
                assert(unmap_pages(m0, self.root(), virt.0, (k + 1) as nat, free_phy, b) == (
                    m2,
                    f1 + f2,
                    r2,
                ));
                assert(fr0 + f1 + f2 =~= fr0 + (f1 + f2));
            }
            match res {
                Ok(_) => {},
                Err(e) => {
                    proof {
                        lemma_unmap_pages_stuck(m0, self.root(), virt.0, (k + 1) as nat, n, free_phy, b);
                        lemma_unmap_pages_last_stuck(m0, self.root(), virt.0, (k + 1) as nat, n, free_phy, b);
                    }
                    return Err(e);
                },
            }
            if virt.1 - pg < PAGE_SIZE {
                proof {
                    assert(k + 1 == n) by (nonlinear_arith)
                        requires
                            pg == virt.0 + k * 4096,
                            pg <= virt.1,
                            virt.1 - pg < 4096,
                            (virt.1 - virt.0) % 4096 == 0,
                            n == (virt.1 - virt.0) / 4096 + 1,
                    ;
                }
                return Ok(());
            }
            proof {
                assert(k + 1 < n) by (nonlinear_arith)
                    requires
                        pg == virt.0 + k * 4096,
                        virt.1 - pg >= 4096,
                        n == (virt.1 - virt.0) / 4096 + 1,
                ;
            }
            pg = pg + PAGE_SIZE;
            k = k + 1;
        }
    }

    /// Maps the pages of `phy.0..=phy.1` one to one onto the pages from
    /// `virt.0` on. Both ranges must hold as many addresses, and the physical
    /// one must span whole pages from a page start.
    pub fn map_range(
        &mut self,
        mem: &mut PhysicalMemory,
        frames: &mut Vec<PhysicalAddress>,
        phy: (PhysicalAddress, PhysicalAddress),
        virt: (VirtualAddress, VirtualAddress),
        flags: u64,
        use_hhdm: bool,
        b: u8,
    ) -> (r: Result<(), PtmError>)
        requires
            valid_phy_bits(b),
            old(self).root_ok(),
            phy.0 <= phy.1 || virt.0 <= virt.1,
        ensures
            r is Err ==> *final(self) == *old(self),
            r is Ok ==> *final(self) == old(self).moved_opt(
                use_hhdm,
                map_pages_last(
                    old(mem)@,
                    old(frames)@,
                    old(self).root(),
                    phy.0,
                    virt.0,
                    page_steps(phy.0, phy.1),
                    flags,
                    b,
                ),
                b,
            ),
            r == map_range_check(phy, virt),
            r is Err ==> final(mem)@ == old(mem)@ && final(frames)@ == old(frames)@,
            r is Ok ==> (final(mem)@, final(frames)@) == map_pages(
                old(mem)@,
                old(frames)@,
                old(self).root(),
                phy.0,
                virt.0,
                page_steps(phy.0, phy.1),
                flags,
                b,
            ),
    {
        let phy_count: u64 = if phy.0 <= phy.1 { phy.1 - phy.0 } else { 0 };
        let virt_count: u64 = if virt.0 <= virt.1 { virt.1 - virt.0 } else { 0 };
        let same = if phy.0 <= phy.1 && virt.0 <= virt.1 {
            phy_count == virt_count
        } else {
            !(phy.0 <= phy.1) && !(virt.0 <= virt.1)
        };
        if !same {
            return Err(PtmError::InvalidRange);
        } else if (phy.1 - phy.0) % PAGE_SIZE != 0 {
            return Err(PtmError::IncorrectPageSize);
        } else if phy.0 % PAGE_SIZE != 0 {
            return Err(PtmError::UnallignedPage);
        }
        let ghost m0 = mem@;
        let ghost f0 = frames@;
        let ghost n = page_steps(phy.0, phy.1);
        let mut p = phy.0;
        let mut v = virt.0;
        let mut k: u64 = 0;
        loop
            invariant
                valid_phy_bits(b),
                self.root_ok(),
                phy.0 <= phy.1,
                virt.0 <= virt.1,
                phy.1 - phy.0 == virt.1 - virt.0,
                (phy.1 - phy.0) % 4096 == 0,
                n == page_steps(phy.0, phy.1),
                self.root() == old(self).root(),
                *self == old(self).moved_opt(
                    use_hhdm,
                    map_pages_last(m0, f0, old(self).root(), phy.0, virt.0, k as nat, flags, b),
                    b,
                ),
                m0 == old(mem)@,
                f0 == old(frames)@,
                map_range_check(phy, virt) is Ok,
                k < n,
                p == phy.0 + k * PAGE_SIZE,
                v == virt.0 + k * PAGE_SIZE,
                p <= phy.1,
                v <= virt.1,
                (mem@, frames@) == map_pages(m0, f0, self.root(), phy.0, virt.0, k as nat, flags, b),
            decreases n - k,
        {
            let _ = self.map(mem, frames, p, v, flags, use_hhdm, b);
            if phy.1 - p < PAGE_SIZE {
                proof {
                    assert(k + 1 == n) by (nonlinear_arith)
                        requires
                            p == phy.0 + k * 4096,
                            p <= phy.1,
                            phy.1 - p < 4096,
                            (phy.1 - phy.0) % 4096 == 0,
                            n == (phy.1 - phy.0) / 4096 + 1,
                    ;
                }
                return Ok(());
            }
            proof {
                assert(k + 1 < n) by (nonlinear_arith)
                    requires
                        p == phy.0 + k * 4096,
                        phy.1 - p >= 4096,
                        n == (phy.1 - phy.0) / 4096 + 1,
                ;
            }
            p = p + PAGE_SIZE;
            v = v + PAGE_SIZE;
            k = k + 1;
        }
    }

    /// Reserves `length` bytes, rounded up to whole pages, of free virtual
    /// addresses and backs each page with a fresh, cleared page taken from
    /// `pmm`; `None` when no free range is large enough. Tables missing on
    /// the way come from `frames`.
    pub fn mmap(
        &mut self,
        mem: &mut PhysicalMemory,
        frames: &mut Vec<PhysicalAddress>,
        pmm: &mut PMM,
        length: usize,
        flags: u64,
        use_hhdm: bool,
        b: u8,
    ) -> (r: Option<VirtualAddress>)
        requires
            valid_phy_bits(b),
            old(self).root_ok(),
            old(self).mmap_tracker matches Some(t) && t.wf(),
            round_up(length as int, PAGE_SIZE as int) <= usize::MAX,
            forall|i: int|
                #[trigger] is_first_fit(
                    old(self).mmap_tracker->0@,
                    round_up(length as int, PAGE_SIZE as int) as usize,
                    i,
                ) ==> mmap_can_pop(
                    old(mem)@,
                    old(frames)@,
                    *old(pmm),
                    old(self).root(),
                    old(self).mmap_tracker->0@[i].0,
                    (round_up(length as int, PAGE_SIZE as int) as usize / PS_USIZE) as nat,
                    flags,
                    b,
                ),
        ensures
            final(self).root() == old(self).root(),
            final(self).spec_tmp_address() == old(self).spec_tmp_address(),
            final(self).mmap_tracker matches Some(t) && t.wf(),
            ({
                let s = old(self).mmap_tracker->0@;
                let t = final(self).mmap_tracker->0@;
                let pl = round_up(length as int, PAGE_SIZE as int) as usize;
                match r {
                    None => t == s && final(mem)@ == old(mem)@ && final(frames)@ == old(frames)@
                        && *final(pmm) == *old(pmm) && final(self).spec_tmp_entry() == old(self).spec_tmp_entry() && forall|j: int| 0 <= j < s.len() ==> crate::memory::mmap::span_len(
                        #[trigger] s[j],
                    ) < pl,
                    Some(addr) => exists|i: int|
                        {
                            &&& #[trigger] is_first_fit(s, pl, i)
                            &&& addr == s[i].0
                            &&& t == taken(s, pl, i)
                            &&& final(self).spec_tmp_entry() == old(self).moved_opt(
                                use_hhdm,
                                mmap_pages_last(
                                    old(mem)@,
                                    old(frames)@,
                                    *old(pmm),
                                    old(self).root(),
                                    addr,
                                    (pl / PS_USIZE) as nat,
                                    flags,
                                    b,
                                ),
                                b,
                            ).spec_tmp_entry()
                            &&& (final(mem)@, final(frames)@, *final(pmm)) == mmap_pages(
                                old(mem)@,
                                old(frames)@,
                                *old(pmm),
                                old(self).root(),
                                addr,
                                (pl / PS_USIZE) as nat,
                                flags,
                                b,
                            )
                            &&& mmap_fresh(
                                old(mem)@,
                                old(frames)@,
                                *old(pmm),
                                old(self).root(),
                                addr,
                                (pl / PS_USIZE) as nat,
                                flags,
                                b,
                            )
                        },
                }
            }),
    {
        proof {
            lemma_round_up(length as int, PAGE_SIZE as int);
        }
        let mut length = next_multiple_of_usize(length, PS_USIZE);
        proof {
            lemma_round_up(length as int, PAGE_SIZE as int);
        }
        let mut tracker = self.mmap_tracker.take().unwrap();
        let mapping = tracker.get_mapping(length);
        self.mmap_tracker = Some(tracker);
        let mapping = match mapping {
            Some(m) => m,
            None => {
                return None;
            },
        };
        let mut current = mapping.0.start;
        let ret = current;
        let ghost m0 = mem@;
        let ghost f0 = frames@;
        let ghost p0 = *pmm;
        let ghost total = length / PS_USIZE;
        let ghost s1 = *self;
        proof {
            assert(length == total * 4096) by (nonlinear_arith)
                requires
                    length % 4096 == 0,
                    total == length / 4096,
            ;
        }
        while length > 0
            invariant
                valid_phy_bits(b),
                self.root_ok(),
                self.root() == s1.root(),
                *self == s1.moved_opt(
                    use_hhdm,
                    mmap_pages_last(
                        m0,
                        f0,
                        p0,
                        s1.root(),
                        ret,
                        (total - length / PS_USIZE) as nat,
                        flags,
                        b,
                    ),
                    b,
                ),
                current == ret + (total - length / PS_USIZE) * PAGE_SIZE,
                length % PS_USIZE == 0,
                length <= total * PS_USIZE,
                current + length <= u64::MAX,
                (mem@, frames@, *pmm) == mmap_pages(
                    m0,
                    f0,
                    p0,
                    self.root(),
                    ret,
                    (total - length / PS_USIZE) as nat,
                    flags,
                    b,
                ),
                mmap_can_pop(m0, f0, p0, self.root(), ret, total as nat, flags, b),
                mmap_fresh(
                    m0,
                    f0,
                    p0,
                    self.root(),
                    ret,
                    (total - length / PS_USIZE) as nat,
                    flags,
                    b,
                ),
            decreases length,
        {
            let ghost k = (total - length / PS_USIZE) as nat;
            proof {
                lemma_mmap_can_pop_prefix(m0, f0, p0, self.root(), ret, (k + 1) as nat, total as nat, flags, b);
            }
            let pg = pmm.pop_page(mem);
            proof {
                assert forall|j: nat| j < k + 1 implies {
                    let (m1, f1, p1) = #[trigger] mmap_pages(m0, f0, p0, self.root(), ret, j, flags, b);
                    fresh_pop(p1, m1)
                } by {
                    if j < k {
                        let (m1, f1, p1) = mmap_pages(m0, f0, p0, self.root(), ret, j, flags, b);
                        assert(fresh_pop(p1, m1));
                    }
                }
            }
            let _ = self.map(mem, frames, pg, current, flags, use_hhdm, b);
            proof {
                assert((total - (length - 4096) / 4096) == (total - length / 4096) + 1) by (
                nonlinear_arith)
                    requires
                        length % 4096 == 0,
                        length > 0,
                ;
            }
            current = current + PAGE_SIZE;
            length = length - PS_USIZE;
        }
        Some(ret)
    }

    /// Unmaps the pages of `length` bytes from `addr`, rounded out to whole
    /// pages, hands their pages to `freed` and gives the range back to the
    /// tracker. One page more than the range is unmapped: the range is walked
    /// inclusively of its end.
    pub fn munmap(
        &mut self,
        mem: &mut PhysicalMemory,
        addr: VirtualAddress,
        length: usize,
        freed: &mut Vec<PhysicalAddress>,
        use_hhdm: bool,
        b: u8,
    )
        requires
            valid_phy_bits(b),
            old(self).root_ok(),
            old(self).mmap_tracker matches Some(t) && t.wf(),
            ({
                let page = page_floor(addr as int);
                let len = round_up(length + (addr - page), PAGE_SIZE as int);
                &&& page + len <= u64::MAX
                &&& unmap_pages(
                    old(mem)@,
                    old(self).root(),
                    page as u64,
                    page_steps(page as u64, (page + len) as u64),
                    true,
                    b,
                ).2 is Ok
            }),
        ensures
            final(self).root() == old(self).root(),
            final(self).mmap_tracker matches Some(t) && t.wf(),
            ({
                let page = page_floor(addr as int);
                let len = round_up(length + (addr - page), PAGE_SIZE as int);
                &&& final(self).spec_tmp_entry() == old(self).moved_opt(
                    use_hhdm,
                    unmap_pages_last(
                        old(mem)@,
                        old(self).root(),
                        page as u64,
                        page_steps(page as u64, (page + len) as u64),
                        true,
                        b,
                    ),
                    b,
                ).spec_tmp_entry()
            }),
            ({
                let page = page_floor(addr as int);
                let len = round_up(length + (addr - page), PAGE_SIZE as int);
                let (m2, f2, r2) = unmap_pages(
                    old(mem)@,
                    old(self).root(),
                    page as u64,
                    page_steps(page as u64, (page + len) as u64),
                    true,
                    b,
                );
                &&& final(mem)@ == m2
                &&& final(freed)@ == old(freed)@ + f2
                &&& final(self).mmap_tracker->0@ == released(
                    old(self).mmap_tracker->0@,
                    (page as u64, (page + len) as u64),
                )
            }),
    {
        let page = get_containing_page(addr);
        let offset = addr - page;
        proof {
            lemma_round_up(length + offset, PAGE_SIZE as int);
        }
        let length = next_multiple_of_u64(length as u64 + offset, PAGE_SIZE);
        let _ = self.unmap_range(mem, (page, page + length), true, freed, use_hhdm, b);
        proof {
            assert(unmap_range_check((page, (page + length) as u64)) is Ok) by {
                vstd::arithmetic::div_mod::lemma_mod_adds(page as int, length as int, 4096);
            }
        }
        let mut tracker = self.mmap_tracker.take().unwrap();
        tracker.release_mapping(MemoryRange(page..page + length));
        self.mmap_tracker = Some(tracker);
    }

    /// Appends the dump of the table at `table`, seen through the window at
    /// `layer`, of depth `depth`, to `out`; the window is moved to each table
    /// on the way and back.
    #[verifier::rlimit(40)]
    #[verifier::spinoff_prover]
    fn ds_recurse(
        &mut self,
        mem: &PhysicalMemory,
        layer: VirtualAddress,
        table: PhysicalAddress,
        depth: usize,
        out: &mut Vec<DumpToken>,
        use_hhdm: bool,
        hhdm: u64,
        b: u8,
    )
        requires
            valid_phy_bits(b),
            depth <= 3,
            table <= 0x7fff_ffff_ffff_ffff,
            use_hhdm ==> hhdm <= 0x8000_0000_0000_0000,
            !use_hhdm ==> old(self).spec_tmp_entry() == (old(self).spec_tmp_entry() & phy_mask(b))
                | 3,
        ensures
            *final(self) == *old(self),
            final(out)@ == old(out)@ + dump_layer(
                mem@,
                layer,
                table,
                depth as int,
                b,
                use_hhdm,
                hhdm,
                old(self).spec_tmp_address(),
            ),
        decreases 3 - depth,
    {
        if layer == 0 {
            return ;
        }
        let ghost start = out@;
        let ghost tmp = self.spec_tmp_address();
        let ghost all = dump_entries(mem@, table, depth as int, 0, false, b, use_hhdm, hhdm, tmp);
        out.push(DumpToken::Open);
        let mut previous = false;
        let mut i: usize = 0;
        while i < 512
            invariant
                0 <= i <= 512,
                valid_phy_bits(b),
                depth <= 3,
                table <= 0x7fff_ffff_ffff_ffff,
                use_hhdm ==> hhdm <= 0x8000_0000_0000_0000,
                *self == *old(self),
                tmp == self.spec_tmp_address(),
                !use_hhdm ==> self.spec_tmp_entry() == (self.spec_tmp_entry() & phy_mask(b)) | 3,
                out@ + dump_entries(mem@, table, depth as int, i as int, previous, b, use_hhdm, hhdm, tmp)
                    == start + seq![DumpToken::Open] + all,
            decreases 512 - i,
        {
            let ghost before = out@;
            let entry = TableEntry(mem.read(table + 8 * (i as u64)));
            let p = entry.get_pointer(b);
            proof {
                lemma_mask_bound(entry.0, b);
            }
            if p != 0 {
                if previous {
                    out.push(DumpToken::Comma);
                }
                out.push(DumpToken::EntryOpen);
                out.push(DumpToken::Entry { flags: entry.get_flags(b), address: p, depth });
                let old_tmp = self.get_temp(use_hhdm, b);
                let next = match self.map_temp(p, use_hhdm, hhdm, b) {
                    Ok(v) => v,
                    Err(_) => 0,
                };
                let ghost mid = out@;
                if depth != 3 {
                    out.push(DumpToken::LayerKey);
                    proof {
                        lemma_window_entry(old(self).spec_tmp_entry(), p, b);
                    }
                    self.ds_recurse(mem, next, p, depth + 1, out, use_hhdm, hhdm, b);
                }
                proof {
                    lemma_window_entry(self.spec_tmp_entry(), old_tmp, b);
                    lemma_window_entry(old(self).spec_tmp_entry(), p, b);
                    lemma_mask_bound(old(self).spec_tmp_entry(), b);
                }
                let _ = self.map_temp(old_tmp, use_hhdm, hhdm, b);
                proof {
                    lemma_window_entry(old(self).spec_tmp_entry(), old(self).spec_tmp_entry(), b);
                    assert(self.tmp_entry == old(self).tmp_entry);
                }
                out.push(DumpToken::EntryClose);
                proof {
                    let rest = dump_entries(mem@, table, depth as int, i + 1, true, b, use_hhdm, hhdm, tmp);
                    assert(out@ + rest =~= before + dump_entries(
                        mem@,
                        table,
                        depth as int,
                        i as int,
                        previous,
                        b,
                        use_hhdm,
                        hhdm,
                        tmp,
                    ));
                }
                previous = true;
            }
            i = i + 1;
        }
        out.push(DumpToken::Close);
        proof {
            assert(out@ =~= start + dump_layer(mem@, layer, table, depth as int, b, use_hhdm, hhdm, tmp));
        }
    }

    /// The dump of the page tables from the table at `top`, as the pieces
    /// to write in order; the window ends on the page it showed before.
    pub fn dump_to_serial(
        &mut self,
        mem: &PhysicalMemory,
        top: PhysicalAddress,
        use_hhdm: bool,
        hhdm: u64,
        b: u8,
    ) -> (r: Vec<DumpToken>)
        requires
            valid_phy_bits(b),
            top <= 0x7fff_ffff_ffff_ffff,
            use_hhdm ==> hhdm <= 0x8000_0000_0000_0000,
        ensures
            r@ == dump_layer(
                mem@,
                window_at(top, use_hhdm, hhdm, old(self).spec_tmp_address()),
                top,
                0,
                b,
                use_hhdm,
                hhdm,
                old(self).spec_tmp_address(),
            ),
            final(self).root() == old(self).root(),
            final(self).mmap_tracker == old(self).mmap_tracker,
            final(self).spec_tmp_address() == old(self).spec_tmp_address(),
            final(self).spec_tmp_entry_address() == old(self).spec_tmp_entry_address(),
            final(self).mmap_start == old(self).mmap_start,
            final(self).mmap_end == old(self).mmap_end,
            final(self).spec_tmp_entry() == if use_hhdm {
                old(self).spec_tmp_entry()
            } else {
                (old(self).spec_tmp_entry() & phy_mask(b)) | 3
            },
    {
        let mut out: Vec<DumpToken> = Vec::new();
        let old_tmp = self.get_temp(use_hhdm, b);
        let next = match self.map_temp(top, use_hhdm, hhdm, b) {
            Ok(v) => v,
            Err(_) => 0,
        };
        proof {
            lemma_window_entry(old(self).spec_tmp_entry(), top, b);
            lemma_window_entry(self.spec_tmp_entry(), old_tmp, b);
            lemma_window_entry(old(self).spec_tmp_entry(), old_tmp, b);
            lemma_window_entry(0, old(self).spec_tmp_entry(), b);
            lemma_mask_bound(old(self).spec_tmp_entry(), b);
        }
        self.ds_recurse(mem, next, top, 0, &mut out, use_hhdm, hhdm, b);
        let _ = self.map_temp(old_tmp, use_hhdm, hhdm, b);
        assert(out@ =~= dump_layer(
            mem@,
            window_at(top, use_hhdm, hhdm, old(self).spec_tmp_address()),
            top,
            0,
            b,
            use_hhdm,
            hhdm,
            old(self).spec_tmp_address(),
        ));
        out
    }

    /// Sets up the kernel's address space: its root table is the next free
    /// page; the kernel, from `kernel_start` (physical `kernel_start_phy`) to
    /// the page after `kernel_end`, is mapped; the page after that is the
    /// window, and the next page's table entry is made to point at the table
    /// that holds the window's entry, so that the window can be moved without
    /// mapping anything. Returns the manager and where the heap starts: the
    /// page after.
    pub fn new_bootstrap(
        mem: &mut PhysicalMemory,
        frames: &mut Vec<PhysicalAddress>,
        kernel_start: VirtualAddress,
        kernel_start_phy: PhysicalAddress,
        kernel_end: VirtualAddress,
        b: u8,
    ) -> (r: Result<(Self, VirtualAddress), PtmError>)
        requires
            valid_phy_bits(b),
            pop_frame(old(frames)@).0 <= 0x7fff_ffff_ffff_ffff,
            round_up(kernel_end as int, PAGE_SIZE as int) + 3 * PAGE_SIZE <= u64::MAX,
            kernel_start <= round_up(kernel_end as int, PAGE_SIZE as int),
            kernel_start_phy + (round_up(kernel_end as int, PAGE_SIZE as int) - kernel_start)
                <= u64::MAX,
        ensures
            ({
                let (root, f1) = pop_frame(old(frames)@);
                let kend = round_up(kernel_end as int, PAGE_SIZE as int);
                let tmp_space = (kend + PAGE_SIZE) as u64;
                let tmp_page = (kend + 2 * PAGE_SIZE) as u64;
                let klen = kend - kernel_start;
                let kphy = (kernel_start_phy, (kernel_start_phy + klen) as u64);
                let kvirt = (kernel_start, (kernel_start + klen) as u64);
                let (m1, f2) = map_pages(
                    old(mem)@,
                    f1,
                    root,
                    kernel_start_phy,
                    kernel_start,
                    page_steps(kphy.0, kphy.1),
                    paging_flags::PAGING_RW | paging_flags::PAGING_PRESENT,
                    b,
                );
                let pdt = crawl_result(m1, root, tmp_space, 2, b);
                let (m2, f3, pte) = alloc_walk(
                    m1,
                    f2,
                    root,
                    tmp_page,
                    0,
                    3,
                    paging_flags::PAGING_RW | paging_flags::PAGING_PRESENT,
                    b,
                );
                let e = read_word(m2, pte);
                let pointer = read_word(m2, pdt->Ok_0) & phy_mask(b);
                let entry = ((((e & !phy_mask(b)) | (pointer & phy_mask(b))) & phy_mask(b)) | (
                paging_flags::PAGING_RW | paging_flags::PAGING_PRESENT));
                if map_range_check(kphy, kvirt) is Err {
                    &&& r == Err::<(Self, VirtualAddress), PtmError>(
                        map_range_check(kphy, kvirt)->Err_0,
                    )
                    &&& final(mem)@ == old(mem)@
                    &&& final(frames)@ == f1
                } else if pdt is Err {
                    &&& r == Err::<(Self, VirtualAddress), PtmError>(pdt->Err_0)
                    &&& final(mem)@ == m1
                    &&& final(frames)@ == f2
                } else {
                    &&& r matches Ok((ptm, heap_base)) && {
                        &&& ptm.root() == root
                        &&& ptm.spec_tmp_address() == tmp_space
                        &&& ptm.spec_tmp_entry_address() == tmp_page + 8 * table_index(tmp_space, 3)
                        &&& ptm.spec_tmp_entry() == 0
                        &&& ptm.mmap_start == HIGHER_HALF_ADDR
                        &&& ptm.mmap_end == kernel_start
                        &&& ptm.mmap_tracker is None
                        &&& heap_base == tmp_page + PAGE_SIZE
                    }
                    &&& final(mem)@ == m2.insert(pte, entry)
                    &&& final(frames)@ == f3
                }
            }),
    {
        let phy_addr = match frames.pop() {
            Some(p) => p,
            None => 0,
        };
        proof {
            lemma_round_up(kernel_end as int, PAGE_SIZE as int);
        }
        let kend = next_page(kernel_end);
        let tmp_space = kend + PAGE_SIZE;
        let tmp_page = tmp_space + PAGE_SIZE;
        let (indexes, _) = split_virtual(tmp_space);
        let tmp_space_idx = indexes[3];
        let tmp_address = tmp_space;
        let tmp_entry_address = tmp_page + 8 * (tmp_space_idx as u64);
        let mut ptm = Self::from_parts(
            phy_addr,
            tmp_address,
            tmp_entry_address,
            HIGHER_HALF_ADDR,
            kernel_start,
        );
        let klen = kend - kernel_start;
        match ptm.map_range(
            mem,
            frames,
            (kernel_start_phy, kernel_start_phy + klen),
            (kernel_start, kernel_start + klen),
            paging_flags::PAGING_RW | paging_flags::PAGING_PRESENT,
            true,
            b,
        ) {
            Ok(_) => {},
            Err(e) => {
                return Err(e);
            },
        }
        let tmp_space_pdt = match ptm.crawl(mem, tmp_space, TableLayer::PDT, true, b) {
            Ok(p) => p,
            Err(e) => {
                return Err(e);
            },
        };
        let ptmp_page_entry = ptm.crawl_alloc(
            mem,
            frames,
            tmp_page,
            TableLayer::PT,
            paging_flags::PAGING_RW | paging_flags::PAGING_PRESENT,
            true,
            b,
        );
        let mut tmp_page_entry = TableEntry(mem.read(ptmp_page_entry));
        let ptr = TableEntry(mem.read(tmp_space_pdt)).get_pointer(b);
        tmp_page_entry.set_pointer(ptr, b);
        tmp_page_entry.set_flags(paging_flags::PAGING_RW | paging_flags::PAGING_PRESENT, b);
        mem.write(ptmp_page_entry, tmp_page_entry.0);
        let heap_base = tmp_page + PAGE_SIZE;
        Ok((ptm, heap_base))
    }

    /// Maps `length` bytes of physical memory from `phy_addr`, rounded out
    /// to whole pages, into a free virtual range; returns the start of that
    /// range, or `None` when no free range is large enough. One page more than
    /// the range is mapped: the ranges are walked inclusively of their end.
    pub fn map_into(
        &mut self,
        mem: &mut PhysicalMemory,
        frames: &mut Vec<PhysicalAddress>,
        phy_addr: PhysicalAddress,
        length: usize,
        flags: u64,
        use_hhdm: bool,
        b: u8,
    ) -> (r: Option<VirtualAddress>)
        requires
            valid_phy_bits(b),
            old(self).root_ok(),
            old(self).mmap_tracker matches Some(t) && t.wf(),
            into_fits(phy_addr, length),
        ensures
            final(self).root() == old(self).root(),
            final(self).spec_tmp_address() == old(self).spec_tmp_address(),
            final(self).spec_tmp_entry() == into_window(
                *old(self),
                old(mem)@,
                old(frames)@,
                phy_addr,
                length,
                flags,
                use_hhdm,
                b,
                r,
            ),
            final(self).mmap_tracker matches Some(t) && t.wf(),
            into_mapping(
                old(self).mmap_tracker->0@,
                final(self).mmap_tracker->0@,
                old(mem)@,
                old(frames)@,
                final(mem)@,
                final(frames)@,
                old(self).root(),
                phy_addr,
                length,
                flags,
                b,
                r,
            ),
    {
        let page = get_containing_page(phy_addr);
        let offset = phy_addr - page;
        proof {
            lemma_round_up(length + offset, PAGE_SIZE as int);
        }
        let length = next_multiple_of_usize(length + offset as usize, PS_USIZE);
        proof {
            lemma_round_up(length as int, PAGE_SIZE as int);
        }
        let mut tracker = self.mmap_tracker.take().unwrap();
        let mapping = tracker.get_mapping(length);
        self.mmap_tracker = Some(tracker);
        let mapping = match mapping {
            Some(m) => m,
            None => {
                return None;
            },
        };
        let ret = mapping.0.start;
        let res = self.map_range(
            mem,
            frames,
            (page, page + length as u64),
            (mapping.0.start, mapping.0.end),
            flags,
            use_hhdm,
            b,
        );
        proof {
            vstd::arithmetic::div_mod::lemma_mod_adds(page as int, length as int, 4096);
        }
        match res {
            Ok(_) => Some(ret),
            Err(_) => None,
        }
    }

    /// The `map` system call: maps the page at `phy_addr` at `virt_addr`
    /// and answers 0, or answers -1 without mapping anything when
    /// `phy_addr` is not page aligned.
    pub fn map_interrupt(
        &mut self,
        mem: &mut PhysicalMemory,
        frames: &mut Vec<PhysicalAddress>,
        phy_addr: PhysicalAddress,
        virt_addr: VirtualAddress,
        flags: u64,
        use_hhdm: bool,
        b: u8,
    ) -> (r: i8)
        requires
            valid_phy_bits(b),
            old(self).root_ok(),
        ensures
            phy_addr % PAGE_SIZE != 0 ==> *final(self) == *old(self),
            phy_addr % PAGE_SIZE == 0 ==> *final(self) == old(self).moved(
                use_hhdm,
                alloc_last(old(mem)@, old(frames)@, old(self).root(), virt_addr, 0, 3, flags, b),
                b,
            ),
            phy_addr % PAGE_SIZE != 0 ==> r == -1 && final(mem)@ == old(mem)@ && final(frames)@
                == old(frames)@,
            phy_addr % PAGE_SIZE == 0 ==> r == 0 && (final(mem)@, final(frames)@) == map_effect(
                old(mem)@,
                old(frames)@,
                old(self).root(),
                phy_addr,
                virt_addr,
                flags,
                b,
            ),
    {
        if phy_addr % PAGE_SIZE != 0 {
            -1
        } else {
            let _ = self.map(mem, frames, phy_addr, virt_addr, flags, use_hhdm, b);
            0
        }
    }

    /// The `unmap` system call: unmaps the page at `virt_addr`, putting the
    /// page it held into `freed` when `free_phy`, and answers 0; answers -1
    /// without unmapping anything when `virt_addr` is not page aligned.
    pub fn unmap_interrupt(
        &mut self,
        mem: &mut PhysicalMemory,
        virt_addr: VirtualAddress,
        free_phy: bool,
        freed: &mut Vec<PhysicalAddress>,
        use_hhdm: bool,
        b: u8,
    ) -> (r: i8)
        requires
            valid_phy_bits(b),
            old(self).root_ok(),
            virt_addr % PAGE_SIZE == 0 ==> unmap_effect(
                old(mem)@,
                old(self).root(),
                virt_addr,
                free_phy,
                b,
            ).2 is Ok,
        ensures
            virt_addr % PAGE_SIZE != 0 ==> *final(self) == *old(self),
            virt_addr % PAGE_SIZE == 0 ==> *final(self) == old(self).moved(
                use_hhdm,
                last_table(old(mem)@, old(self).root(), virt_addr, 3, b),
                b,
            ),
            virt_addr % PAGE_SIZE != 0 ==> r == -1 && final(mem)@ == old(mem)@ && final(freed)@
                == old(freed)@,
            virt_addr % PAGE_SIZE == 0 ==> r == 0 && ({
                let (m2, f2, _) = unmap_effect(old(mem)@, old(self).root(), virt_addr, free_phy, b);
                &&& final(mem)@ == m2
                &&& final(freed)@ == old(freed)@ + f2
            }),
    {
        if virt_addr % PAGE_SIZE != 0 {
            return -1;
        }
        let _ = self.unmap(mem, virt_addr, free_phy, freed, use_hhdm, b);
        0
    }

    /// Meant to clear the window's entry; it clears a copy of it, so the
    /// window stays as it was.
    pub fn unmap_temp(&mut self, b: u8)
        requires
            valid_phy_bits(b),
        ensures
            *final(self) == *old(self),
    {
        let mut pte = self.tmp_entry;
        pte.set_pointer(0, b);
        pte.set_flags(0, b);
    }

    /// Points the window at the physical page `phy_addr` and returns the
    /// window's virtual address; while the bootloader's direct map is in use
    /// (`use_hhdm`), returns the address of `phy_addr` in that map instead.
    pub fn map_temp(&mut self, phy_addr: PhysicalAddress, use_hhdm: bool, hhdm: u64, b: u8) -> (r:
        Result<VirtualAddress, PtmError>)
        requires
            valid_phy_bits(b),
            use_hhdm ==> phy_addr + hhdm <= u64::MAX,
        ensures
            final(self).root() == old(self).root(),
            final(self).mmap_tracker == old(self).mmap_tracker,
            final(self).spec_tmp_address() == old(self).spec_tmp_address(),
            final(self).spec_tmp_entry_address() == old(self).spec_tmp_entry_address(),
            final(self).mmap_start == old(self).mmap_start,
            final(self).mmap_end == old(self).mmap_end,
            use_hhdm ==> r == Ok::<u64, PtmError>((phy_addr + hhdm) as u64) && final(self).spec_tmp_entry() == old(self).spec_tmp_entry(),
            !use_hhdm ==> r == Ok::<u64, PtmError>(old(self).spec_tmp_address()) && final(self).spec_tmp_entry() == (((old(self).spec_tmp_entry() & !phy_mask(b)) | (phy_addr
                & phy_mask(b))) & phy_mask(b)) | (paging_flags::PAGING_RW
                | paging_flags::PAGING_PRESENT),
    {
        if use_hhdm {
            return Ok(phy_addr + hhdm);
        }
        let ret = self.tmp_address;
        let mut pte = self.tmp_entry;
        pte.set_pointer(phy_addr, b);
        pte.set_flags(paging_flags::PAGING_RW | paging_flags::PAGING_PRESENT, b);
        self.tmp_entry = pte;
        Ok(ret)
    }

    /// The physical page the window shows, 0 while the bootloader's direct
    /// map is in use.
    pub fn get_temp(&self, use_hhdm: bool, b: u8) -> (r: PhysicalAddress)
        requires
            valid_phy_bits(b),
        ensures
            r == if use_hhdm {
                0
            } else {
                self.spec_tmp_entry() & phy_mask(b)
            },
    {
        if use_hhdm {
            0
        } else {
            self.tmp_entry.get_pointer(b)
        }
    }

    /// A new address space that shares the higher half with this one: its
    /// root table is a fresh page whose higher half entry is copied from this
    /// address space's root.
    pub fn new(
        &mut self,
        mem: &mut PhysicalMemory,
        frames: &mut Vec<PhysicalAddress>,
        mmap_start: VirtualAddress,
        mmap_end: VirtualAddress,
        use_hhdm: bool,
        b: u8,
    ) -> (r: Result<Self, PtmError>)
        requires
            valid_phy_bits(b),
            old(self).root_ok(),
            pop_frame(old(frames)@).0 <= 0x7fff_ffff_ffff_ffff,
        ensures
            *final(self) == old(self).moved(use_hhdm, pop_frame(old(frames)@).0, b),
            r matches Ok(ptm) && {
                let (root, rest) = pop_frame(old(frames)@);
                &&& ptm.root() == root
                &&& ptm.spec_tmp_address() == old(self).spec_tmp_address()
                &&& ptm.spec_tmp_entry_address() == old(self).spec_tmp_entry_address()
                &&& ptm.spec_tmp_entry() == old(self).moved(use_hhdm, root, b).spec_tmp_entry()
                &&& ptm.mmap_start == mmap_start
                &&& ptm.mmap_end == mmap_end
                &&& ptm.mmap_tracker is None
                &&& final(frames)@ == rest
                &&& final(mem)@ == old(mem)@.insert(
                    entry_addr(root, HIGHER_HALF_ADDR, 0),
                    read_word(old(mem)@, entry_addr(old(self).root(), HIGHER_HALF_ADDR, 0)),
                )
            },
    {
        let p_higher_half = match self.crawl(mem, HIGHER_HALF_ADDR, TableLayer::PML4, use_hhdm, b) {
            Ok(p) => p,
            Err(e) => {
                return Err(e);
            },
        };
        let higher_half = mem.read(p_higher_half);
        let (tmp_address, tmp_entry_address) = (self.tmp_address, self.tmp_entry_address);
        let phy_addr = match frames.pop() {
            Some(p) => p,
            None => 0,
        };
        let mut ret = Self {
            phy_addr,
            tmp_address,
            tmp_entry_address,
            tmp_entry: self.tmp_entry,
            mmap_tracker: None,
            mmap_start,
            mmap_end,
        };
        let res = ret.crawl(mem, HIGHER_HALF_ADDR, TableLayer::PML4, use_hhdm, b);
        // both managers look through the same window
        self.tmp_entry = ret.tmp_entry;
        match res {
            Ok(p) => mem.write(p, higher_half),
            Err(e) => {
                return Err(e);
            },
        }
        Ok(ret)
    }

    /// The physical page mapped at `virt_addr`.
    pub fn get_physical(
        &mut self,
        mem: &PhysicalMemory,
        virt_addr: VirtualAddress,
        use_hhdm: bool,
        b: u8,
    ) -> (r: Result<PhysicalAddress, PtmError>)
        requires
            valid_phy_bits(b),
            old(self).root_ok(),
        ensures
            r == physical_of(mem@, old(self).root(), virt_addr, b),
            *final(self) == old(self).moved(
                use_hhdm,
                last_table(mem@, old(self).root(), virt_addr, 3, b),
                b,
            ),
    {
        match self.crawl(mem, virt_addr, TableLayer::PT, use_hhdm, b) {
            Ok(x) => {
                let entry = TableEntry(mem.read(x));
                Ok(entry.get_pointer(b))
            },
            Err(e) => Err(e),
        }
    }
}

/// Once unmapping a page has failed, unmapping more pages changes nothing more.
pub proof fn lemma_unmap_pages_stuck(
    m: Map<u64, u64>,
    root: u64,
    start: u64,
    d: nat,
    e: nat,
    free_phy: bool,
    b: u8,
)
    requires
        unmap_pages(m, root, start, d, free_phy, b).2 is Err,
        d <= e,
    ensures
        unmap_pages(m, root, start, e, free_phy, b) == unmap_pages(m, root, start, d, free_phy, b),
    decreases e - d,
{
    if d < e {
        lemma_unmap_pages_stuck(m, root, start, d, (e - 1) as nat, free_phy, b);
    }
}

/// Once unmapping a page has failed, the window stays where that attempt
/// left it.
pub proof fn lemma_unmap_pages_last_stuck(
    m: Map<u64, u64>,
    root: u64,
    start: u64,
    d: nat,
    e: nat,
    free_phy: bool,
    b: u8,
)
    requires
        unmap_pages(m, root, start, d, free_phy, b).2 is Err,
        d <= e,
    ensures
        unmap_pages_last(m, root, start, e, free_phy, b) == unmap_pages_last(
            m,
            root,
            start,
            d,
            free_phy,
            b,
        ),
    decreases e - d,
{
    if d < e {
        lemma_unmap_pages_last_stuck(m, root, start, d, (e - 1) as nat, free_phy, b);
        lemma_unmap_pages_stuck(m, root, start, d, (e - 1) as nat, free_phy, b);
    }
}

/// Once a walk has stopped, it stays stopped at every deeper level.
pub proof fn lemma_table_at_stuck(m: Map<u64, u64>, root: u64, virt: u64, d: nat, e: nat, b: u8)
    requires
        table_at(m, root, virt, d, b) is None,
        d <= e,
    ensures
        table_at(m, root, virt, e, b) is None,
    decreases e - d,
{
    if d < e {
        lemma_table_at_stuck(m, root, virt, d, (e - 1) as nat, b);
    }
}

/// Where the walk stops after depth `d`, the last table it reaches at any
/// deeper level is the one at `d`.
pub proof fn lemma_last_table_stuck(m: Map<u64, u64>, root: u64, virt: u64, d: nat, e: nat, b: u8)
    requires
        table_at(m, root, virt, d + 1, b) is None,
        d < e,
    ensures
        last_table(m, root, virt, e, b) == last_table(m, root, virt, d, b),
    decreases e - d,
{
    lemma_table_at_stuck(m, root, virt, d + 1, e, b);
    if e > d + 1 {
        lemma_last_table_stuck(m, root, virt, d, (e - 1) as nat, b);
    }
}

/// The tables `crawl_alloc` passes through, from depth `depth` down to depth
/// `last`, starting in the table at `table`.
pub open spec fn alloc_tables(
    m: Map<u64, u64>,
    frames: Seq<u64>,
    table: u64,
    virt: u64,
    depth: nat,
    last: nat,
    flags: u64,
    b: u8,
) -> Seq<u64>
    decreases last - depth,
{
    if depth >= last {
        seq![table]
    } else {
        let ea = entry_addr(table, virt, depth as int);
        let (e, rest) = checked_entry(read_word(m, ea), frames, flags, b);
        seq![table] + alloc_tables(
            m.insert(ea, e),
            rest,
            e & phy_mask(b),
            virt,
            depth + 1,
            last,
            flags,
            b,
        )
    }
}

/// Tables that lie on distinct pages: page aligned, pairwise different, and
/// none but the first at address 0.
pub open spec fn separate_tables(ts: Seq<u64>) -> bool {
    &&& forall|k: int| 0 <= k < ts.len() ==> ts[k] % 4096 == 0
    &&& forall|k: int| 1 <= k < ts.len() ==> ts[k] != 0
    &&& forall|i: int, j: int| 0 <= i < j < ts.len() ==> ts[i] != ts[j]
}

/// A table index is below 512.
pub proof fn lemma_table_index_bound(virt: u64, depth: int)
    requires
        0 <= depth < 4,
    ensures
        table_index(virt, depth) < 512,
{
    let s = (39 - 9 * depth) as u64;
    assert((virt >> s) & 0x1ff < 512) by (bit_vector);
}

/// Two different page aligned addresses are a page apart.
pub proof fn lemma_pages_apart(t: int, u: int)
    requires
        t % 4096 == 0,
        u % 4096 == 0,
        t != u,
    ensures
        t + 4096 <= u || u + 4096 <= t,
{
    vstd::arithmetic::div_mod::lemma_fundamental_div_mod(t, 4096);
    vstd::arithmetic::div_mod::lemma_fundamental_div_mod(u, 4096);
    let q = t / 4096;
    let w = u / 4096;
    assert(q != w);
    if q < w {
        assert(4096 * q + 4096 <= 4096 * w) by (nonlinear_arith)
            requires
                q < w,
        ;
    } else {
        assert(4096 * w + 4096 <= 4096 * q) by (nonlinear_arith)
            requires
                w < q,
        ;
    }
}

/// What `crawl_alloc` leaves in memory when the tables it passes through lie
/// on distinct pages: the entry it returns is in the last table, each entry
/// on the way points to the next table, and every other word is unchanged.
pub proof fn lemma_alloc_walk_path(
    m: Map<u64, u64>,
    frames: Seq<u64>,
    table: u64,
    virt: u64,
    depth: nat,
    flags: u64,
    b: u8,
)
    requires
        valid_phy_bits(b),
        depth <= 3,
        table <= 0x7fff_ffff_ffff_ffff,
        separate_tables(alloc_tables(m, frames, table, virt, depth, 3, flags, b)),
    ensures
        ({
            let ts = alloc_tables(m, frames, table, virt, depth, 3, flags, b);
            let (m2, f2, ea) = alloc_walk(m, frames, table, virt, depth, 3, flags, b);
            &&& ts.len() == 4 - depth
            &&& ts[0] == table
            &&& forall|k: int| 0 <= k < ts.len() ==> ts[k] <= 0x7fff_ffff_ffff_ffff
            &&& ea == entry_addr(ts.last(), virt, 3)
            &&& forall|k: int|
                #![trigger ts[k]]
                0 <= k < 3 - depth ==> read_word(m2, entry_addr(ts[k], virt, depth + k))
                    & phy_mask(b) == ts[k + 1]
            &&& forall|x: u64|
                (forall|k: int| 0 <= k < 3 - depth ==> x != entry_addr(ts[k], virt, depth + k))
                    ==> read_word(m2, x) == read_word(m, x)
        }),
    decreases 3 - depth,
{
    let ts = alloc_tables(m, frames, table, virt, depth, 3, flags, b);
    if depth < 3 {
        let ea0 = entry_addr(table, virt, depth as int);
        let (e, rest) = checked_entry(read_word(m, ea0), frames, flags, b);
        let m1 = m.insert(ea0, e);
        let t1 = e & phy_mask(b);
        lemma_mask_bound(e, b);
        let ts1 = alloc_tables(m1, rest, t1, virt, depth + 1, 3, flags, b);
        assert(ts == seq![table] + ts1);
        assert forall|k: int| 0 <= k < ts1.len() implies ts1[k] % 4096 == 0 by {
            assert(ts1[k] == ts[k + 1]);
        }
        assert forall|k: int| 1 <= k < ts1.len() implies ts1[k] != 0 by {
            assert(ts1[k] == ts[k + 1]);
        }
        assert forall|i: int, j: int| 0 <= i < j < ts1.len() implies ts1[i] != ts1[j] by {
            assert(ts1[i] == ts[i + 1]);
            assert(ts1[j] == ts[j + 1]);
        }
        lemma_alloc_walk_path(m1, rest, t1, virt, depth + 1, flags, b);
        let (m2, f2, ea) = alloc_walk(m, frames, table, virt, depth, 3, flags, b);
        assert(alloc_walk(m, frames, table, virt, depth, 3, flags, b) == alloc_walk(
            m1,
            rest,
            t1,
            virt,
            depth + 1,
            3,
            flags,
            b,
        ));
        lemma_table_index_bound(virt, depth as int);
        // the first entry lies in the first table's page, away from the others
        assert forall|k: int| 0 <= k < 3 - (depth + 1) implies ea0 != entry_addr(
            ts1[k],
            virt,
            depth + 1 + k,
        ) by {
            assert(ts1[k] == ts[k + 1]);
            lemma_pages_apart(ts[0] as int, ts[k + 1] as int);
            lemma_table_index_bound(virt, depth + 1 + k);
        }
        assert forall|k: int|
            #![trigger ts[k]]
            0 <= k < 3 - depth implies read_word(m2, entry_addr(ts[k], virt, depth + k))
                & phy_mask(b) == ts[k + 1] by {
            if k == 0 {
                assert(read_word(m2, ea0) == read_word(m1, ea0));
            } else {
                assert(ts[k] == ts1[k - 1]);
                assert(ts[k + 1] == ts1[k]);
                assert(depth + k == (depth + 1) + (k - 1));
            }
        }
        assert forall|x: u64|
            (forall|k: int| 0 <= k < 3 - depth ==> x != entry_addr(ts[k], virt, depth + k))
                implies read_word(m2, x) == read_word(m, x) by {
            assert(x != entry_addr(ts[0], virt, depth as int + 0));
            assert forall|k: int| 0 <= k < 3 - (depth + 1) implies x != entry_addr(
                ts1[k],
                virt,
                depth + 1 + k,
            ) by {
                assert(ts1[k] == ts[k + 1]);
                assert(depth + 1 + k == depth + (k + 1));
            }
        }
    }
}

/// Mapping a page and then asking for the page behind the same virtual
/// address gives the mapped page back, when the tables on the way lie on
/// distinct pages, the flags hold no address bit and the address has no bit
/// outside the address bits.
pub proof fn law_map_then_get_physical(
    m: Map<u64, u64>,
    frames: Seq<u64>,
    root: u64,
    phy: u64,
    virt: u64,
    flags: u64,
    b: u8,
)
    requires
        valid_phy_bits(b),
        root <= 0x7fff_ffff_ffff_ffff,
        separate_tables(alloc_tables(m, frames, root, virt, 0, 3, flags, b)),
        flags & phy_mask(b) == 0,
        phy & phy_mask(b) == phy,
    ensures
        physical_of(map_effect(m, frames, root, phy, virt, flags, b).0, root, virt, b) == Ok::<
            u64,
            PtmError,
        >(phy),
{
    let ts = alloc_tables(m, frames, root, virt, 0, 3, flags, b);
    lemma_alloc_walk_path(m, frames, root, virt, 0, flags, b);
    let (m1, f1, ea) = alloc_walk(m, frames, root, virt, 0, 3, flags, b);
    let e = read_word(m1, ea);
    let mask = phy_mask(b);
    let ne = (((e & !mask) | (phy & mask)) & mask) | flags;
    let mf = m1.insert(ea, ne);
    assert(map_effect(m, frames, root, phy, virt, flags, b).0 == mf);
    lemma_table_index_bound(virt, 3);
    assert forall|k: int| 0 <= k < 3 implies entry_addr(ts[k], virt, k) != ea by {
        lemma_pages_apart(ts[k] as int, ts[3] as int);
        lemma_table_index_bound(virt, k);
    }
    assert forall|k: nat| k <= 3 implies table_at(mf, root, virt, k, b) == Some(ts[k as int]) by {
        lemma_table_at_path(mf, m1, root, virt, k, b, ts);
    }
    assert(ne & mask == phy) by {
        assert(flags & mask == 0 && phy & mask == phy ==> ((((e & !mask) | (phy & mask)) & mask)
            | flags) & mask == phy) by (bit_vector);
    }
}

/// Memory whose words on the walk for `v` keep their address bits leads the
/// walk to the same tables.
proof fn lemma_walk_frame(m: Map<u64, u64>, m2: Map<u64, u64>, root: u64, v: u64, d: nat, b: u8)
    requires
        d <= 3,
        forall|j: nat|
            #![trigger table_at(m, root, v, j, b)]
            j < d ==> match table_at(m, root, v, j, b) {
                None => true,
                Some(t) => read_word(m2, entry_addr(t, v, j as int)) & phy_mask(b) == read_word(
                    m,
                    entry_addr(t, v, j as int),
                ) & phy_mask(b),
            },
    ensures
        table_at(m2, root, v, d, b) == table_at(m, root, v, d, b),
    decreases d,
{
    if d > 0 {
        lemma_walk_frame(m, m2, root, v, (d - 1) as nat, b);
        assert(table_at(m, root, v, (d - 1) as nat, b) == table_at(m, root, v, (d - 1) as nat, b));
    }
}

/// Whether mapping a page at `virt` leaves the walk for `v` alone: the
/// walk for `v` does not read the entry that mapping writes last, and every
/// entry on the way to it that the walk for `v` reads already points where
/// the mapping goes.
pub open spec fn keeps_walk(
    m: Map<u64, u64>,
    frames: Seq<u64>,
    root: u64,
    virt: u64,
    flags: u64,
    b: u8,
    v: u64,
) -> bool {
    let ts = alloc_tables(m, frames, root, virt, 0, 3, flags, b);
    forall|j: nat|
        #![trigger table_at(m, root, v, j, b)]
        j <= 3 ==> match table_at(m, root, v, j, b) {
            None => true,
            Some(t) => {
                let x = entry_addr(t, v, j as int);
                &&& x != entry_addr(ts[3], virt, 3)
                &&& forall|k: int|
                    0 <= k < 3 && x == entry_addr(ts[k], virt, k) ==> read_word(m, x) & phy_mask(b)
                        == ts[k + 1]
            },
        }
}

/// Mapping a page at `virt` leaves what any address `v` whose walk it keeps
/// translates to unchanged.
pub proof fn law_map_keeps_other_walks(
    m: Map<u64, u64>,
    frames: Seq<u64>,
    root: u64,
    phy: u64,
    virt: u64,
    flags: u64,
    b: u8,
    v: u64,
)
    requires
        valid_phy_bits(b),
        root <= 0x7fff_ffff_ffff_ffff,
        separate_tables(alloc_tables(m, frames, root, virt, 0, 3, flags, b)),
        keeps_walk(m, frames, root, virt, flags, b, v),
    ensures
        physical_of(map_effect(m, frames, root, phy, virt, flags, b).0, root, v, b) == physical_of(
            m,
            root,
            v,
            b,
        ),
{
    let ts = alloc_tables(m, frames, root, virt, 0, 3, flags, b);
    lemma_alloc_walk_path(m, frames, root, virt, 0, flags, b);
    let (m1, f1, ea) = alloc_walk(m, frames, root, virt, 0, 3, flags, b);
    let e = read_word(m1, ea);
    let mask = phy_mask(b);
    let ne = (((e & !mask) | (phy & mask)) & mask) | flags;
    let mf = m1.insert(ea, ne);
    assert(map_effect(m, frames, root, phy, virt, flags, b).0 == mf);
    assert forall|j: nat| j <= 3 implies match #[trigger] table_at(m, root, v, j, b) {
        None => true,
        Some(t) => read_word(mf, entry_addr(t, v, j as int)) & phy_mask(b) == read_word(
            m,
            entry_addr(t, v, j as int),
        ) & phy_mask(b),
    } by {
        match table_at(m, root, v, j, b) {
            None => {},
            Some(t) => {
                let x = entry_addr(t, v, j as int);
                assert(x != ea);
                if exists|k: int| 0 <= k < 3 && x == entry_addr(ts[k], virt, k) {
                    let k = choose|k: int| 0 <= k < 3 && x == entry_addr(ts[k], virt, k);
                    assert(read_word(m1, entry_addr(ts[k], virt, k)) & mask == ts[k + 1]);
                } else {
                    assert(read_word(m1, x) == read_word(m, x));
                }
            },
        }
    }
    lemma_walk_frame(m, mf, root, v, 3, b);
}

/// Whether the walks of `map_pages` lie apart: each page's mapping finds its
/// tables on distinct pages and keeps the walks of the pages mapped before.
pub open spec fn pages_apart(
    m: Map<u64, u64>,
    frames: Seq<u64>,
    root: u64,
    phy: u64,
    virt: u64,
    count: nat,
    flags: u64,
    b: u8,
) -> bool
    decreases count,
{
    if count == 0 {
        true
    } else {
        let (m1, f1) = map_pages(m, frames, root, phy, virt, (count - 1) as nat, flags, b);
        let last = (virt + (count - 1) * PAGE_SIZE) as u64;
        &&& pages_apart(m, frames, root, phy, virt, (count - 1) as nat, flags, b)
        &&& separate_tables(alloc_tables(m1, f1, root, last, 0, 3, flags, b))
        &&& forall|k: int|
            0 <= k < count - 1 ==> #[trigger] keeps_walk(
                m1,
                f1,
                root,
                last,
                flags,
                b,
                (virt + k * PAGE_SIZE) as u64,
            )
    }
}

/// Mapping `count` pages maps each of them: the `k`-th virtual page then
/// translates to the `k`-th physical page, when the walks lie apart, the
/// flags hold no address bit and the physical pages have no bit outside the
/// address bits.
pub proof fn law_map_pages_maps_each_page(
    m: Map<u64, u64>,
    frames: Seq<u64>,
    root: u64,
    phy: u64,
    virt: u64,
    count: nat,
    flags: u64,
    b: u8,
)
    requires
        valid_phy_bits(b),
        root <= 0x7fff_ffff_ffff_ffff,
        flags & phy_mask(b) == 0,
        forall|k: int|
            0 <= k < count ==> #[trigger] ((phy + k * PAGE_SIZE) as u64) & phy_mask(b) == (phy + k
                * PAGE_SIZE) as u64,
        pages_apart(m, frames, root, phy, virt, count, flags, b),
    ensures
        forall|k: int|
            0 <= k < count ==> physical_of(
                map_pages(m, frames, root, phy, virt, count, flags, b).0,
                root,
                #[trigger] ((virt + k * PAGE_SIZE) as u64),
                b,
            ) == Ok::<u64, PtmError>((phy + k * PAGE_SIZE) as u64),
    decreases count,
{
    if count > 0 {
        let c1 = (count - 1) as nat;
        law_map_pages_maps_each_page(m, frames, root, phy, virt, c1, flags, b);
        let (m1, f1) = map_pages(m, frames, root, phy, virt, c1, flags, b);
        let last = (virt + c1 * PAGE_SIZE) as u64;
        let lp = (phy + c1 * PAGE_SIZE) as u64;
        assert(lp & phy_mask(b) == lp);
        law_map_then_get_physical(m1, f1, root, lp, last, flags, b);
        assert forall|k: int| 0 <= k < count implies physical_of(
            map_pages(m, frames, root, phy, virt, count, flags, b).0,
            root,
            #[trigger] ((virt + k * PAGE_SIZE) as u64),
            b,
        ) == Ok::<u64, PtmError>((phy + k * PAGE_SIZE) as u64) by {
            if k < c1 {
                assert(keeps_walk(m1, f1, root, last, flags, b, (virt + k * PAGE_SIZE) as u64));
                law_map_keeps_other_walks(
                    m1,
                    f1,
                    root,
                    lp,
                    last,
                    flags,
                    b,
                    (virt + k * PAGE_SIZE) as u64,
                );
                assert(((phy + k * PAGE_SIZE) as u64) & phy_mask(b) == (phy + k * PAGE_SIZE) as u64);
            }
        }
    }
}

/// A manager that can hand out `n` pages for `mmap` can hand out the first `k`.
pub proof fn lemma_mmap_can_pop_prefix(
    m: Map<u64, u64>,
    frames: Seq<u64>,
    pmm: PMM,
    root: u64,
    start: u64,
    k: nat,
    n: nat,
    flags: u64,
    b: u8,
)
    requires
        mmap_can_pop(m, frames, pmm, root, start, n, flags, b),
        k <= n,
    ensures
        mmap_can_pop(m, frames, pmm, root, start, k, flags, b),
    decreases n - k,
{
    if k < n {
        lemma_mmap_can_pop_prefix(m, frames, pmm, root, start, k, (n - 1) as nat, flags, b);
    }
}

/// The page `mmap_pages` takes for its `k`-th page.
pub open spec fn mmap_frame(
    m: Map<u64, u64>,
    frames: Seq<u64>,
    pmm: PMM,
    root: u64,
    start: u64,
    k: nat,
    flags: u64,
    b: u8,
) -> u64 {
    mmap_pages(m, frames, pmm, root, start, k, flags, b).2.next_page()
}

/// Whether taking a page for `mmap` on memory `m1`, giving `m2`, leaves the
/// words the walk for `v` reads as they were.
pub open spec fn pop_keeps_walk(m1: Map<u64, u64>, m2: Map<u64, u64>, root: u64, v: u64, b: u8) -> bool {
    forall|j: nat|
        #![trigger table_at(m1, root, v, j, b)]
        j <= 3 ==> match table_at(m1, root, v, j, b) {
            None => true,
            Some(t) => read_word(m2, entry_addr(t, v, j as int)) == read_word(
                m1,
                entry_addr(t, v, j as int),
            ),
        }
}

/// Whether the walks of `mmap_pages` lie apart: each page taken has no bit
/// outside the address bits, taking it leaves the walks of the pages mapped
/// before alone, and each page's mapping finds its tables on distinct pages
/// and keeps the walks of the pages mapped before.
pub open spec fn mmap_apart(
    m: Map<u64, u64>,
    frames: Seq<u64>,
    pmm: PMM,
    root: u64,
    start: u64,
    count: nat,
    flags: u64,
    b: u8,
) -> bool
    decreases count,
{
    if count == 0 {
        true
    } else {
        let (m1, f1, p1) = mmap_pages(m, frames, pmm, root, start, (count - 1) as nat, flags, b);
        let m2 = pop_mem(m1, p1.spec_head(), p1.spec_available());
        let pg = p1.next_page();
        let last = (start + (count - 1) * PAGE_SIZE) as u64;
        &&& mmap_apart(m, frames, pmm, root, start, (count - 1) as nat, flags, b)
        &&& pg & phy_mask(b) == pg
        &&& separate_tables(alloc_tables(m2, f1, root, last, 0, 3, flags, b))
        &&& forall|k: int|
            0 <= k < count - 1 ==> #[trigger] keeps_walk(
                m2,
                f1,
                root,
                last,
                flags,
                b,
                (start + k * PAGE_SIZE) as u64,
            ) && pop_keeps_walk(m1, m2, root, (start + k * PAGE_SIZE) as u64, b)
    }
}

/// Backing `count` pages with pages taken from the physical memory manager
/// maps each of them: the `k`-th virtual page then translates to the page
/// taken for it, when the walks lie apart and the flags hold no address bit.
#[verifier::rlimit(30)]
pub proof fn law_mmap_pages_backs_each_page(
    m: Map<u64, u64>,
    frames: Seq<u64>,
    pmm: PMM,
    root: u64,
    start: u64,
    count: nat,
    flags: u64,
    b: u8,
)
    requires
        valid_phy_bits(b),
        root <= 0x7fff_ffff_ffff_ffff,
        flags & phy_mask(b) == 0,
        mmap_apart(m, frames, pmm, root, start, count, flags, b),
    ensures
        forall|k: nat|
            k < count ==> physical_of(
                mmap_pages(m, frames, pmm, root, start, count, flags, b).0,
                root,
                #[trigger] ((start + k * PAGE_SIZE) as u64),
                b,
            ) == Ok::<u64, PtmError>(mmap_frame(m, frames, pmm, root, start, k, flags, b)),
    decreases count,
{
    if count > 0 {
        let c1 = (count - 1) as nat;
        law_mmap_pages_backs_each_page(m, frames, pmm, root, start, c1, flags, b);
        let (m1, f1, p1) = mmap_pages(m, frames, pmm, root, start, c1, flags, b);
        let m2 = pop_mem(m1, p1.spec_head(), p1.spec_available());
        let pg = p1.next_page();
        let last = (start + c1 * PAGE_SIZE) as u64;
        law_map_then_get_physical(m2, f1, root, pg, last, flags, b);
        assert forall|k: nat| k < count implies physical_of(
            mmap_pages(m, frames, pmm, root, start, count, flags, b).0,
            root,
            #[trigger] ((start + k * PAGE_SIZE) as u64),
            b,
        ) == Ok::<u64, PtmError>(mmap_frame(m, frames, pmm, root, start, k, flags, b)) by {
            if k < c1 {
                let ki = k as int;
                let v = (start + ki * PAGE_SIZE) as u64;
                assert(0 <= ki < count - 1);
                assert(keeps_walk(m2, f1, root, last, flags, b, (start + ki * PAGE_SIZE) as u64));
                assert(pop_keeps_walk(m1, m2, root, v, b));
                assert forall|j: nat| j <= 3 implies match #[trigger] table_at(m1, root, v, j, b) {
                    None => true,
                    Some(t) => read_word(m2, entry_addr(t, v, j as int)) & phy_mask(b) == read_word(
                        m1,
                        entry_addr(t, v, j as int),
                    ) & phy_mask(b),
                } by {}
                lemma_walk_frame(m1, m2, root, v, 3, b);
                assert(physical_of(m2, root, v, b) == physical_of(m1, root, v, b));
                law_map_keeps_other_walks(m2, f1, root, pg, last, flags, b, v);
            }
        }
    }
}

/// Unmapping, with its page given back, a page that `map` mapped to `phy`
/// gives back exactly `phy` and succeeds.
pub proof fn law_unmap_frees_mapped_page(
    m: Map<u64, u64>,
    frames: Seq<u64>,
    root: u64,
    phy: u64,
    virt: u64,
    flags: u64,
    b: u8,
)
    requires
        valid_phy_bits(b),
        root <= 0x7fff_ffff_ffff_ffff,
        separate_tables(alloc_tables(m, frames, root, virt, 0, 3, flags, b)),
        flags & phy_mask(b) == 0,
        phy & phy_mask(b) == phy,
    ensures
        ({
            let m1 = map_effect(m, frames, root, phy, virt, flags, b).0;
            let (_, freed, r) = unmap_effect(m1, root, virt, true, b);
            &&& r is Ok
            &&& freed == seq![phy]
        }),
{
    law_map_then_get_physical(m, frames, root, phy, virt, flags, b);
}

/// Walking memory that holds the path of `ts` reaches each table of it.
proof fn lemma_table_at_path(
    mf: Map<u64, u64>,
    m1: Map<u64, u64>,
    root: u64,
    virt: u64,
    k: nat,
    b: u8,
    ts: Seq<u64>,
)
    requires
        k <= 3,
        ts.len() == 4,
        ts[0] == root,
        forall|j: int| 1 <= j < 4 ==> ts[j] != 0,
        forall|j: int|
            #![trigger ts[j]]
            0 <= j < 3 ==> read_word(m1, entry_addr(ts[j], virt, j)) & phy_mask(b) == ts[j + 1],
        forall|j: int| 0 <= j < 3 ==> read_word(mf, entry_addr(ts[j], virt, j)) == read_word(
            m1,
            entry_addr(ts[j], virt, j),
        ),
    ensures
        table_at(mf, root, virt, k, b) == Some(ts[k as int]),
    decreases k,
{
    if k > 0 {
        lemma_table_at_path(mf, m1, root, virt, (k - 1) as nat, b, ts);
        let j = k - 1;
        assert(read_word(m1, entry_addr(ts[j], virt, j)) & phy_mask(b) == ts[j + 1]);
    }
}

/// After the window is pointed at `phy`, the window shows `phy`'s address
/// bits: what `get_temp` returns after `map_temp` (for machines with at least
/// twelve physical address bits, so that the window's flags hold no address
/// bit).
pub proof fn law_get_temp_after_map_temp(e: u64, phy: u64, b: u8)
    requires
        12 <= b <= 64,
    ensures
        ((((e & !phy_mask(b)) | (phy & phy_mask(b))) & phy_mask(b)) | (paging_flags::PAGING_RW
            | paging_flags::PAGING_PRESENT)) & phy_mask(b) == phy & phy_mask(b),
{
    let sh = (b - 1) as u64;
    let mask = phy_mask(b);
    assert(11 <= sh < 64 ==> ((((1u64 << sh) - 1) as u64) ^ 0x7ffu64) & 3 == 0) by (bit_vector);
    assert(mask & 3 == 0 ==> ((((e & !mask) | (phy & mask)) & mask) | 3) & mask == phy & mask)
        by (bit_vector);
    assert(paging_flags::PAGING_RW | paging_flags::PAGING_PRESENT == 3) by (bit_vector);
    assert(mask & 3 == 0);
}

/// Setting the address of an entry keeps its flags, and reading the address
/// back gives the address bits of what was set.
pub proof fn law_set_pointer_then_read(e: u64, ptr: u64, mask: u64)
    ensures
        ((e & !mask) | (ptr & mask)) & mask == ptr & mask,
        ((e & !mask) | (ptr & mask)) & !mask == e & !mask,
{
    assert(((e & !mask) | (ptr & mask)) & mask == ptr & mask) by (bit_vector);
    assert(((e & !mask) | (ptr & mask)) & !mask == e & !mask) by (bit_vector);
}

/// Setting flags that hold no address bit keeps the address of an entry, and
/// reading the flags back gives what was set.
pub proof fn law_set_flags_then_read(e: u64, flags: u64, mask: u64)
    requires
        flags & mask == 0,
    ensures
        ((e & mask) | flags) & mask == e & mask,
        ((e & mask) | flags) & !mask == flags,
{
    assert(flags & mask == 0 ==> ((e & mask) | flags) & mask == e & mask) by (bit_vector);
    assert(flags & mask == 0 ==> ((e & mask) | flags) & !mask == flags) by (bit_vector);
}

} // verus!
