use vstd::prelude::*;
use vstd::string::StringSliceAdditionalSpecFns;

use crate::io::psf::{le_u32, read_u32};
use crate::memory::paging::paging_flags::{PAGING_PRESENT, PAGING_RW};
use crate::memory::paging::{
    into_fits, into_mapping, into_window, phy_mask, valid_phy_bits, PageTableManager, VirtualAddress,
};
use crate::memory::phys::PhysicalMemory;
use crate::memory::pmm::PhysicalAddress;
use crate::ustar::{copy_array, le_u64, read_u64};

verus! {

/// Bytes in the header every ACPI system description table starts with.
pub const SDT_HEADER_SIZE: usize = 36;

/// Bytes in the extended root system description pointer.
pub const XSDP_SIZE: usize = 36;

/// A table that an XSDT entry can point to.
pub trait AcpiTable {
}

/// Header of an ACPI system description table.
#[derive(Clone, Copy)]
pub struct ACPISDTHeader {
    pub signature: [u8; 4],
    pub length: u32,
    pub revision: u8,
    pub checksum: u8,
    pub oem_id: [u8; 6],
    pub oem_table_id: [u8; 8],
    pub oem_revision: u32,
    pub creator_id: u32,
    pub creator_revision: u32,
}

/// Sum of the bytes of `s`.
pub open spec fn byte_sum(s: Seq<u8>) -> int
    decreases s.len(),
{
    if s.len() == 0 {
        0
    } else {
        byte_sum(s.drop_last()) + s.last()
    }
}

/// The table held at the start of `t` sums to zero, modulo 256, over the
/// length its header gives.
pub open spec fn checksum_ok(t: Seq<u8>) -> bool {
    byte_sum(t.subrange(0, le_u32(t, 4) as int)) % 256 == 0
}

/// `t` holds a whole table: its header's length field and the bytes it
/// counts.
pub open spec fn holds_table(t: Seq<u8>) -> bool {
    &&& t.len() >= 8
    &&& le_u32(t, 4) <= t.len()
}

impl ACPISDTHeader {
    /// The header is the one the first 36 bytes of `s` hold.
    pub open spec fn parsed_from(&self, s: Seq<u8>) -> bool {
        &&& self.signature@ == s.subrange(0, 4)
        &&& self.length == le_u32(s, 4)
        &&& self.revision == s[8]
        &&& self.checksum == s[9]
        &&& self.oem_id@ == s.subrange(10, 16)
        &&& self.oem_table_id@ == s.subrange(16, 24)
        &&& self.oem_revision == le_u32(s, 24)
        &&& self.creator_id == le_u32(s, 28)
        &&& self.creator_revision == le_u32(s, 32)
    }

    /// The header at the start of `bytes`.
    pub fn from_bytes(bytes: &[u8]) -> (r: Self)
        requires
            bytes@.len() >= SDT_HEADER_SIZE,
        ensures
            r.parsed_from(bytes@),
    {
        ACPISDTHeader {
            signature: copy_array::<4>(bytes, 0),
            length: read_u32(bytes, 4),
            revision: bytes[8],
            checksum: bytes[9],
            oem_id: copy_array::<6>(bytes, 10),
            oem_table_id: copy_array::<8>(bytes, 16),
            oem_revision: read_u32(bytes, 24),
            creator_id: read_u32(bytes, 28),
            creator_revision: read_u32(bytes, 32),
        }
    }

    /// Whether the table that `table` starts with sums to zero, modulo 256,
    /// over the length its header gives.
    pub fn validate_checksum(table: &[u8]) -> (r: bool)
        requires
            holds_table(table@),
        ensures
            r == checksum_ok(table@),
    {
        let len = read_u32(table, 4) as usize;
        let mut sum: u8 = 0;
        let mut i: usize = 0;
        while i < len
            invariant
                0 <= i <= len,
                len == le_u32(table@, 4),
                len <= table@.len(),
                sum == byte_sum(table@.subrange(0, i as int)) % 256,
            decreases len - i,
        {
            proof {
                assert(table@.subrange(0, i + 1).drop_last() =~= table@.subrange(0, i as int));
            }
            sum = ((sum as u16 + table[i] as u16) % 256) as u8;
            i = i + 1;
        }
        sum == 0
    }
}

/// Extended root system description pointer: where the XSDT is.
#[derive(Clone, Copy)]
pub struct Xsdp {
    pub signature: [u8; 8],
    pub checksum: u8,
    pub oem_id: [u8; 6],
    pub revision: u8,
    pub rsdt_address: u32,
    pub length: u32,
    pub xsdt_address: u64,
    pub extended_checksum: u8,
    pub reserved: [u8; 3],
}

impl Xsdp {
    /// The pointer is the one the first 36 bytes of `s` hold.
    pub open spec fn parsed_from(&self, s: Seq<u8>) -> bool {
        &&& self.signature@ == s.subrange(0, 8)
        &&& self.checksum == s[8]
        &&& self.oem_id@ == s.subrange(9, 15)
        &&& self.revision == s[15]
        &&& self.rsdt_address == le_u32(s, 16)
        &&& self.length == le_u32(s, 20)
        &&& self.xsdt_address == le_u64(s, 24)
        &&& self.extended_checksum == s[32]
        &&& self.reserved@ == s.subrange(33, 36)
    }

    /// The pointer at the start of `bytes`.
    pub fn from_bytes(bytes: &[u8]) -> (r: Self)
        requires
            bytes@.len() >= XSDP_SIZE,
        ensures
            r.parsed_from(bytes@),
    {
        Xsdp {
            signature: copy_array::<8>(bytes, 0),
            checksum: bytes[8],
            oem_id: copy_array::<6>(bytes, 9),
            revision: bytes[15],
            rsdt_address: read_u32(bytes, 16),
            length: read_u32(bytes, 20),
            xsdt_address: read_u64(bytes, 24),
            extended_checksum: bytes[32],
            reserved: copy_array::<3>(bytes, 33),
        }
    }
}

/// Extended system description table: a header, then the physical addresses
/// of the other tables.
pub struct Xsdt {
    pub header: ACPISDTHeader,
    pub first_entry: PhysicalAddress,
}

/// The `i`th table address of the XSDT held in `s`.
pub open spec fn xsdt_entry(s: Seq<u8>, i: int) -> u64 {
    le_u64(s, SDT_HEADER_SIZE + 8 * i)
}

/// The table `t` has signature `sig` and a valid checksum.
pub open spec fn table_matches(t: Seq<u8>, sig: Seq<u8>) -> bool {
    t.subrange(0, 4) == sig && checksum_ok(t)
}

/// Index of the first of `tables` that matches `sig`, or their number when
/// none does.
pub open spec fn first_match(tables: Seq<Vec<u8>>, sig: Seq<u8>) -> int
    decreases tables.len(),
{
    if tables.len() == 0 {
        0
    } else if table_matches(tables[0]@, sig) {
        0
    } else {
        1 + first_match(tables.drop_first(), sig)
    }
}

proof fn lemma_first_match(tables: Seq<Vec<u8>>, sig: Seq<u8>, i: int)
    requires
        0 <= i <= tables.len(),
        forall|k: int| 0 <= k < i ==> !table_matches(#[trigger] tables[k]@, sig),
        i == tables.len() || table_matches(tables[i]@, sig),
    ensures
        first_match(tables, sig) == i,
    decreases tables.len(),
{
    if tables.len() > 0 && i > 0 {
        assert(!table_matches(tables[0]@, sig));
        let t = tables.drop_first();
        assert forall|k: int| 0 <= k < i - 1 implies !table_matches(#[trigger] t[k]@, sig) by {
            assert(t[k] == tables[k + 1]);
        }
        lemma_first_match(t, sig, i - 1);
    }
}

/// When none of the first `i` tables matches, the first match is not
/// among them.
proof fn lemma_first_match_beyond(tables: Seq<Vec<u8>>, sig: Seq<u8>, i: int)
    requires
        0 <= i <= tables.len(),
        forall|k: int| 0 <= k < i ==> !table_matches(#[trigger] tables[k]@, sig),
    ensures
        i <= first_match(tables, sig) <= tables.len(),
    decreases tables.len(),
{
    if tables.len() > 0 {
        let t = tables.drop_first();
        if i > 0 {
            assert(!table_matches(tables[0]@, sig));
            assert forall|k: int| 0 <= k < i - 1 implies !table_matches(#[trigger] t[k]@, sig) by {
                assert(t[k] == tables[k + 1]);
            }
            lemma_first_match_beyond(t, sig, i - 1);
        } else {
            lemma_first_match_beyond(t, sig, 0);
        }
    }
}

/// The pointer `x` taken as a table's address: zero is none.
pub open spec fn non_null(x: Option<VirtualAddress>) -> Option<VirtualAddress> {
    match x {
        Some(0) => None,
        _ => x,
    }
}

impl Xsdt {
    /// The XSDT whose first 44 bytes `bytes` holds: its header and first
    /// table address.
    pub fn from_bytes(bytes: &[u8]) -> (r: Self)
        requires
            bytes@.len() >= SDT_HEADER_SIZE + 8,
        ensures
            r.header.parsed_from(bytes@),
            r.first_entry == xsdt_entry(bytes@, 0),
    {
        Xsdt { header: ACPISDTHeader::from_bytes(bytes), first_entry: read_u64(bytes, SDT_HEADER_SIZE) }
    }

    /// Number of table addresses the XSDT holds.
    pub fn entry_count(&self) -> (r: usize)
        requires
            self.header.length >= SDT_HEADER_SIZE,
        ensures
            r == (self.header.length - SDT_HEADER_SIZE) / 8,
    {
        (self.header.length as usize - SDT_HEADER_SIZE) / 8
    }

    /// Maps the XSDT that `xsdp` points to, `length` bytes long as its header
    /// says, and returns where; `None` when it could not be mapped.
    pub fn new(
        xsdp: &Xsdp,
        length: u32,
        ptm: &mut PageTableManager,
        mem: &mut PhysicalMemory,
        frames: &mut Vec<PhysicalAddress>,
        use_hhdm: bool,
        b: u8,
    ) -> (r: Option<VirtualAddress>)
        requires
            valid_phy_bits(b),
            old(ptm).root_ok(),
            old(ptm).mmap_tracker matches Some(t) && t.wf(),
            into_fits(xsdp.xsdt_address, length as usize),
        ensures
            final(ptm).root() == old(ptm).root(),
            final(ptm).mmap_tracker matches Some(t) && t.wf(),
            exists|raw: Option<VirtualAddress>|
                {
                    &&& final(ptm).spec_tmp_entry() == into_window(
                        *old(ptm),
                        old(mem)@,
                        old(frames)@,
                        xsdp.xsdt_address,
                        length as usize,
                        PAGING_RW | PAGING_PRESENT,
                        use_hhdm,
                        b,
                        raw,
                    )
                    &&& into_mapping(
                        old(ptm).mmap_tracker->0@,
                        final(ptm).mmap_tracker->0@,
                        old(mem)@,
                        old(frames)@,
                        final(mem)@,
                        final(frames)@,
                        old(ptm).root(),
                        xsdp.xsdt_address,
                        length as usize,
                        PAGING_RW | PAGING_PRESENT,
                        b,
                        raw,
                    )
                    &&& r == non_null(raw)
                },
    {
        let raw = ptm.map_into(
            mem,
            frames,
            xsdp.xsdt_address,
            length as usize,
            PAGING_RW | PAGING_PRESENT,
            use_hhdm,
            b,
        );
        let r = match raw {
            Some(0) => None,
            _ => raw,
        };
        assert(r == non_null(raw));
        r
    }

    /// One step of the search for the table with signature `signature`: given
    /// the bytes of the table that entry `i` of the XSDT held in `xsdt`
    /// points to, `Some` of that entry's address and the table's length when
    /// the table matches (its signature is `signature` and its checksum is
    /// valid), so that it is the one to map; `None` when the search goes on
    /// with the next entry.
    pub fn find_table_step(&self, xsdt: &[u8], i: usize, table: &[u8], signature: &str) -> (r:
        Option<(PhysicalAddress, usize)>)
        requires
            xsdt@.len() >= SDT_HEADER_SIZE + 8 * i + 8,
            holds_table(table@),
        ensures
            table_matches(table@, signature.spec_bytes()) ==> r == Some(
                (xsdt_entry(xsdt@, i as int), le_u32(table@, 4) as usize),
            ),
            !table_matches(table@, signature.spec_bytes()) ==> r is None,
    {
        let sig_bytes = signature.as_bytes();
        let header = ACPISDTHeader::from_bytes_prefix(table);
        if header.signature.len() == sig_bytes.len() && signature_eq(&header.signature, sig_bytes) {
            if ACPISDTHeader::validate_checksum(table) {
                let n = xsdt.len();
                assert(SDT_HEADER_SIZE + 8 * i + 8 <= n);
                let entry_phy = read_u64(xsdt, SDT_HEADER_SIZE + 8 * i);
                return Some((entry_phy, header.length as usize));
            }
        }
        None
    }

    /// Finds the table with signature `signature` among those the XSDT held
    /// in `xsdt` points to, whose bytes `tables` holds in the same order: the
    /// first whose signature matches and whose checksum is valid is mapped,
    /// and where it was mapped is returned. `None` when no table matches or
    /// the match could not be mapped. The tables after the match are not
    /// read, and need not be held.
    #[verifier::loop_isolation(false)]
    pub fn find_table(
        &self,
        xsdt: &[u8],
        tables: &Vec<Vec<u8>>,
        signature: &str,
        ptm: &mut PageTableManager,
        mem: &mut PhysicalMemory,
        frames: &mut Vec<PhysicalAddress>,
        use_hhdm: bool,
        b: u8,
    ) -> (r: Option<VirtualAddress>)
        requires
            self.header.length >= SDT_HEADER_SIZE,
            xsdt@.len() >= SDT_HEADER_SIZE + 8 * ((self.header.length - SDT_HEADER_SIZE) / 8),
            tables@.len() == (self.header.length - SDT_HEADER_SIZE) / 8,
            forall|i: int|
                0 <= i < tables@.len() && i <= first_match(tables@, signature.spec_bytes())
                    ==> holds_table(#[trigger] tables@[i]@),
            valid_phy_bits(b),
            old(ptm).root_ok(),
            old(ptm).mmap_tracker matches Some(t) && t.wf(),
            ({
                let k = first_match(tables@, signature.spec_bytes());
                k < tables@.len() ==> into_fits(xsdt_entry(xsdt@, k), le_u32(tables@[k]@, 4) as usize)
            }),
        ensures
            final(ptm).root() == old(ptm).root(),
            final(ptm).spec_tmp_entry() == old(ptm).moved(
                use_hhdm,
                old(ptm).spec_tmp_entry(),
                b,
            ).spec_tmp_entry(),
            final(ptm).mmap_tracker matches Some(t) && t.wf(),
            ({
                let k = first_match(tables@, signature.spec_bytes());
                &&& k == tables@.len() ==> r is None && *final(ptm) == old(ptm).moved(
                    use_hhdm,
                    old(ptm).spec_tmp_entry(),
                    b,
                ) && final(mem)@
                    == old(mem)@ && final(frames)@ == old(frames)@
                &&& k < tables@.len() ==> exists|raw: Option<VirtualAddress>|
                    {
                        &&& into_mapping(
                            old(ptm).mmap_tracker->0@,
                            final(ptm).mmap_tracker->0@,
                            old(mem)@,
                            old(frames)@,
                            final(mem)@,
                            final(frames)@,
                            old(ptm).root(),
                            xsdt_entry(xsdt@, k),
                            le_u32(tables@[k]@, 4) as usize,
                            PAGING_RW | PAGING_PRESENT,
                            b,
                            raw,
                        )
                        &&& r == non_null(raw)
                    }
            }),
    {
        let entry_count = self.entry_count();
        let ghost sig = signature.spec_bytes();
        let old_temp = ptm.get_temp(use_hhdm, b);
        let mut i: usize = 0;
        while i < entry_count
            invariant
                0 <= i <= entry_count,
                entry_count == tables@.len(),
                forall|k: int| 0 <= k < i ==> !table_matches(#[trigger] tables@[k]@, sig),
                *ptm == *old(ptm),
                mem@ == old(mem)@,
                frames@ == old(frames)@,
            decreases entry_count - i,
        {
            proof {
                lemma_first_match_beyond(tables@, sig, i as int);
            }
            let table = &tables[i];
            match self.find_table_step(xsdt, i, table.as_slice(), signature) {
                Some((entry_phy, length)) => {
                    proof {
                        lemma_first_match(tables@, sig, i as int);
                    }
                    let raw = ptm.map_into(
                        mem,
                        frames,
                        entry_phy,
                        length,
                        PAGING_RW | PAGING_PRESENT,
                        use_hhdm,
                        b,
                    );
                    let r = match raw {
                        Some(0) => None,
                        _ => raw,
                    };
                    assert(r == non_null(raw));
                    Self::restore_window(ptm, old_temp, use_hhdm, Ghost(old(ptm).spec_tmp_entry()), b);
                    return r;
                },
                None => {},
            }
            i = i + 1;
        }
        proof {
            lemma_first_match(tables@, sig, i as int);
        }
        Self::restore_window(ptm, old_temp, use_hhdm, Ghost(old(ptm).spec_tmp_entry()), b);
        None
    }

    /// Points the window back at `old_temp`, the page it showed when the
    /// search began, whose entry was `e`.
    fn restore_window(
        ptm: &mut PageTableManager,
        old_temp: PhysicalAddress,
        use_hhdm: bool,
        Ghost(e): Ghost<u64>,
        b: u8,
    )
        requires
            valid_phy_bits(b),
            !use_hhdm ==> old_temp == e & phy_mask(b),
        ensures
            *final(ptm) == old(ptm).moved(use_hhdm, e, b),
    {
        if !use_hhdm {
            let _ = ptm.map_temp(old_temp, use_hhdm, 0, b);
            proof {
                let x = old(ptm).spec_tmp_entry();
                let m = phy_mask(b);
                assert((((x & !m) | ((e & m) & m)) & m) | 3u64 == (e & m) | 3u64) by (bit_vector);
                assert(PAGING_RW | PAGING_PRESENT == 3u64) by (bit_vector);
                assert(ptm.tmp_entry.0 == crate::memory::paging::window_on(e, b));
                assert(ptm.tmp_entry == crate::memory::paging::TableEntry(
                    crate::memory::paging::window_on(e, b),
                ));
            }
        }
    }
}

/// Whether the four bytes `a` equal `b`, which has four bytes too.
fn signature_eq(a: &[u8; 4], b: &[u8]) -> (r: bool)
    requires
        b@.len() == 4,
    ensures
        r == (a@ == b@),
{
    let r = a[0] == b[0] && a[1] == b[1] && a[2] == b[2] && a[3] == b[3];
    proof {
        if r {
            assert(a@ =~= b@);
        }
    }
    r
}

impl ACPISDTHeader {
    /// The signature and length at the start of `bytes`, the rest of the
    /// header read where `bytes` is long enough and zero beyond.
    fn from_bytes_prefix(bytes: &[u8]) -> (r: Self)
        requires
            bytes@.len() >= 8,
        ensures
            r.signature@ == bytes@.subrange(0, 4),
            r.length == le_u32(bytes@, 4),
    {
        if bytes.len() >= SDT_HEADER_SIZE {
            Self::from_bytes(bytes)
        } else {
            ACPISDTHeader {
                signature: copy_array::<4>(bytes, 0),
                length: read_u32(bytes, 4),
                revision: 0,
                checksum: 0,
                oem_id: [0u8; 6],
                oem_table_id: [0u8; 8],
                oem_revision: 0,
                creator_id: 0,
                creator_revision: 0,
            }
        }
    }
}

} // verus!
