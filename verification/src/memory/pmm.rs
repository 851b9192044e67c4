use vstd::prelude::*;

use crate::memory::phys::{read_word, PhysicalMemory};
use crate::memory::PAGE_SIZE;

verus! {

/// A physical address.
pub type PhysicalAddress = u64;

/// Header kept at the start of each run of free pages: the address of the
/// next run and the length in bytes of this one.
#[derive(Clone, Copy)]
pub struct PmmNode {
    pub next: u64,
    pub length: u64,
}

/// Kinds of memory map entries the bootloader reports.
#[derive(Clone, Copy, PartialEq, Eq, Structural)]
pub enum EntryType {
    Usable,
    Reserved,
    AcpiReclaimable,
    AcpiNvs,
    BadMemory,
    BootloaderReclaimable,
    ExecutableAndModules,
    Framebuffer,
}

/// One entry of the bootloader's memory map.
#[derive(Clone, Copy)]
pub struct MemoryMapEntry {
    pub base: u64,
    pub length: u64,
    pub entry_type: EntryType,
}

/// Why the physical memory manager refused a request.
#[derive(Debug, Clone, Copy, PartialEq, Eq, Structural)]
pub enum PmmError {
    NonReclaimable,
}

/// The physical memory manager: a list of runs of free pages whose headers
/// live in the free pages themselves (at a run's start: the address of the
/// next run, then the run's length in bytes).
pub struct PMM {
    head: u64,
    available_mem: u64,
    reclaimed: bool,
    /// The runs of free pages it knows of: start and length in bytes.
    runs: Ghost<Map<u64, u64>>,
}

/// The run header stored at `a`.
pub open spec fn node_at(m: Map<u64, u64>, a: u64) -> PmmNode {
    PmmNode { next: read_word(m, a), length: read_word(m, (a + 8) as u64) }
}

/// Memory once the run header `n` is stored at `a`.
pub open spec fn write_node(m: Map<u64, u64>, a: u64, n: PmmNode) -> Map<u64, u64> {
    m.insert(a, n.next).insert((a + 8) as u64, n.length)
}

/// Memory once the first `k` words of the page at `p` are zero.
pub open spec fn zero_fill(m: Map<u64, u64>, p: u64, k: nat) -> Map<u64, u64>
    decreases k,
{
    if k == 0 {
        m
    } else {
        zero_fill(m, p, (k - 1) as nat).insert((p + 8 * (k - 1)) as u64, 0)
    }
}

/// Every word of the page at `p` reads as zero.
pub open spec fn zeroed(m: Map<u64, u64>, p: u64) -> bool {
    forall|w: int| 0 <= w < 512 ==> #[trigger] read_word(m, (p + 8 * w) as u64) == 0
}

/// The address `p` lies in one of the runs.
pub open spec fn in_runs(runs: Map<u64, u64>, p: u64) -> bool {
    exists|b: u64| #[trigger] runs.contains_key(b) && b <= p < b + runs[b]
}

/// The page at `p` shares no address with any of the runs.
pub open spec fn page_apart(runs: Map<u64, u64>, p: u64) -> bool {
    forall|b: u64| #[trigger] runs.contains_key(b) ==> p + PAGE_SIZE <= b || b + runs[b] <= p
}

/// The runs are whole, page aligned, non-empty, fit in the address space,
/// share no address, and their headers in `m` hold their lengths.
pub open spec fn runs_ok(runs: Map<u64, u64>, m: Map<u64, u64>) -> bool {
    &&& forall|b: u64|
        #[trigger] runs.contains_key(b) ==> {
            &&& b % PAGE_SIZE == 0
            &&& runs[b] % PAGE_SIZE == 0
            &&& runs[b] >= PAGE_SIZE
            &&& b + runs[b] <= u64::MAX
            &&& node_at(m, b).length == runs[b]
        }
    &&& forall|b: u64, c: u64|
        #[trigger] runs.contains_key(b) && #[trigger] runs.contains_key(c) && b != c ==> b
            + runs[b] <= c || c + runs[c] <= b
}

/// The usable entries of a memory map, in order.
pub open spec fn usable_entries(s: Seq<MemoryMapEntry>) -> Seq<MemoryMapEntry>
    decreases s.len(),
{
    if s.len() == 0 {
        seq![]
    } else if s.last().entry_type == EntryType::Usable {
        usable_entries(s.drop_last()).push(s.last())
    } else {
        usable_entries(s.drop_last())
    }
}

/// The header `init` leaves at the start of the `i`-th usable entry `u[i]`:
/// each run points to the next one, and the last points back to the one
/// before it.
pub open spec fn init_node(u: Seq<MemoryMapEntry>, i: int) -> PmmNode {
    PmmNode {
        next: if i + 1 < u.len() {
            u[i + 1].base
        } else if u.len() >= 2 {
            u[u.len() - 2].base
        } else {
            0
        },
        length: u[i].length,
    }
}

/// Number of pages a run of `length` bytes is made of, counting a partial page.
pub open spec fn page_count(length: u64) -> nat {
    ((length as int + PAGE_SIZE - 1) / (PAGE_SIZE as int)) as nat
}

/// The pages of one memory map entry.
pub open spec fn entry_pages(e: MemoryMapEntry) -> Seq<u64> {
    Seq::new(page_count(e.length), |k: int| (e.base + k * PAGE_SIZE) as u64)
}

/// The pages of all bootloader reclaimable entries, in order.
pub open spec fn reclaimable_pages(s: Seq<MemoryMapEntry>) -> Seq<u64>
    decreases s.len(),
{
    if s.len() == 0 {
        seq![]
    } else if s.last().entry_type == EntryType::BootloaderReclaimable {
        reclaimable_pages(s.drop_last()) + entry_pages(s.last())
    } else {
        reclaimable_pages(s.drop_last())
    }
}

/// Every page of the entry has an address that fits in 64 bits.
pub open spec fn pages_fit(e: MemoryMapEntry) -> bool {
    e.length > 0 ==> e.base + (page_count(e.length) - 1) * PAGE_SIZE <= u64::MAX
}

/// The run headers `init` stores, for the first `k` usable entries.
pub open spec fn init_mem(m: Map<u64, u64>, u: Seq<MemoryMapEntry>, k: nat) -> Map<u64, u64>
    decreases k,
{
    if k == 0 {
        m
    } else {
        write_node(init_mem(m, u, (k - 1) as nat), u[k - 1].base, init_node(u, k - 1))
    }
}

/// The runs of the first `k` usable entries.
pub open spec fn runs_of(u: Seq<MemoryMapEntry>, k: nat) -> Map<u64, u64>
    decreases k,
{
    if k == 0 {
        Map::empty()
    } else {
        runs_of(u, (k - 1) as nat).insert(u[k - 1].base, u[k - 1].length)
    }
}

/// The usable entries are whole, page aligned, non-empty runs that fit in
/// the address space and share no address, as the bootloader reports them.
pub open spec fn entries_ok(u: Seq<MemoryMapEntry>) -> bool {
    &&& forall|i: int|
        0 <= i < u.len() ==> {
            &&& #[trigger] u[i].base % PAGE_SIZE == 0
            &&& u[i].length % PAGE_SIZE == 0
            &&& u[i].length >= PAGE_SIZE
            &&& u[i].base + u[i].length <= u64::MAX
        }
    &&& forall|i: int, j: int|
        0 <= i < j < u.len() ==> #[trigger] u[i].base + u[i].length <= #[trigger] u[j].base
            || u[j].base + u[j].length <= u[i].base
}

/// The runs of the first `k` whole, disjoint entries are those entries.
proof fn lemma_runs_of(u: Seq<MemoryMapEntry>, k: nat)
    requires
        entries_ok(u),
        k <= u.len(),
    ensures
        forall|b: u64|
            #[trigger] runs_of(u, k).contains_key(b) ==> exists|i: int|
                0 <= i < k && #[trigger] u[i].base == b,
        forall|i: int| 0 <= i < k ==> #[trigger] runs_of(u, k).contains_key(u[i].base),
        forall|i: int| 0 <= i < k ==> runs_of(u, k)[#[trigger] u[i].base] == u[i].length,
    decreases k,
{
    if k > 0 {
        lemma_runs_of(u, (k - 1) as nat);
        let l = k - 1;
        assert forall|b: u64| #[trigger] runs_of(u, k).contains_key(b) implies exists|i: int|
            0 <= i < k && #[trigger] u[i].base == b by {
            if b == u[l].base {
                assert(u[l].base == b);
            } else {
                assert(runs_of(u, l as nat).contains_key(b));
                let i = choose|i: int| 0 <= i < l && #[trigger] u[i].base == b;
                assert(u[i].base == b);
            }
        }
        assert forall|i: int| 0 <= i < k implies runs_of(u, k)[#[trigger] u[i].base] == u[i].length by {
            if i < l {
                assert(u[i].base != u[l].base) by {
                    assert(u[i].base + u[i].length <= u[l].base || u[l].base + u[l].length
                        <= u[i].base);
                }
            }
        }
    }
}

/// The headers `init` stores for whole, disjoint entries give their runs.
proof fn lemma_init_runs(m: Map<u64, u64>, u: Seq<MemoryMapEntry>, k: nat)
    requires
        entries_ok(u),
        k <= u.len(),
    ensures
        runs_ok(runs_of(u, k), init_mem(m, u, k)),
    decreases k,
{
    if k > 0 {
        let l = k - 1;
        lemma_init_runs(m, u, l as nat);
        lemma_runs_of(u, l as nat);
        lemma_runs_of(u, k);
        let r0 = runs_of(u, l as nat);
        let m0 = init_mem(m, u, l as nat);
        let r1 = runs_of(u, k);
        let m1 = init_mem(m, u, k);
        let bl = u[l].base;
        assert(u[l].base % PAGE_SIZE == 0);
        assert forall|b: u64| #[trigger] r1.contains_key(b) implies {
            &&& b % PAGE_SIZE == 0
            &&& r1[b] % PAGE_SIZE == 0
            &&& r1[b] >= PAGE_SIZE
            &&& b + r1[b] <= u64::MAX
            &&& node_at(m1, b).length == r1[b]
        } by {
            let i = choose|i: int| 0 <= i < k && #[trigger] u[i].base == b;
            assert(u[i].base % PAGE_SIZE == 0);
            if i < l {
                assert(r0.contains_key(b));
                assert(u[i].base + u[i].length <= u[l].base || u[l].base + u[l].length
                    <= u[i].base);
                assert(b != bl && (b + 8) as u64 != bl && b != (bl + 8) as u64 && (b + 8) as u64
                    != (bl + 8) as u64);
            }
        }
        assert forall|b: u64, c: u64|
            #[trigger] r1.contains_key(b) && #[trigger] r1.contains_key(c) && b != c implies b
            + r1[b] <= c || c + r1[c] <= b by {
            let i = choose|i: int| 0 <= i < k && #[trigger] u[i].base == b;
            let j = choose|j: int| 0 <= j < k && #[trigger] u[j].base == c;
            assert(i != j);
            if i < j {
                assert(u[i].base + u[i].length <= u[j].base || u[j].base + u[j].length
                    <= u[i].base);
            } else {
                assert(u[j].base + u[j].length <= u[i].base || u[i].base + u[i].length
                    <= u[j].base);
            }
        }
    }
}

/// The first `k` words of the page at `p` read as zero after `zero_fill`;
/// every address outside them reads as before.
proof fn lemma_zero_fill(m: Map<u64, u64>, p: u64, k: nat)
    requires
        p + 8 * k <= u64::MAX,
    ensures
        forall|w: int| 0 <= w < k ==> #[trigger] read_word(zero_fill(m, p, k), (p + 8 * w) as u64) == 0,
        forall|a: u64| a < p || a >= p + 8 * k ==> #[trigger] read_word(zero_fill(m, p, k), a) == read_word(m, a),
    decreases k,
{
    if k > 0 {
        let l = (k - 1) as nat;
        lemma_zero_fill(m, p, l);
        let z = zero_fill(m, p, l);
        assert forall|w: int| 0 <= w < k implies #[trigger] read_word(zero_fill(m, p, k), (p + 8
            * w) as u64) == 0 by {
            if w < l {
                assert(read_word(z, (p + 8 * w) as u64) == 0);
            }
        }
        assert forall|a: u64| a < p || a >= p + 8 * k implies #[trigger] read_word(
            zero_fill(m, p, k),
            a,
        ) == read_word(m, a) by {
            assert(a != (p + 8 * l) as u64);
            assert(read_word(z, a) == read_word(m, a));
        }
    }
}

impl PMM {
    /// Address of the first run of free pages.
    pub closed spec fn spec_head(&self) -> u64 {
        self.head
    }

    /// Bytes of free memory.
    pub closed spec fn spec_available(&self) -> u64 {
        self.available_mem
    }

    /// Whether the bootloader's memory has been reclaimed.
    pub closed spec fn spec_reclaimed(&self) -> bool {
        self.reclaimed
    }

    /// The runs of free pages the manager knows of: start and length.
    pub closed spec fn runs(&self) -> Map<u64, u64> {
        self.runs@
    }

    /// The free memory is counted in whole pages, and the runs it knows of
    /// are whole, disjoint and described by their headers in `m`.
    pub open spec fn wf(&self, m: Map<u64, u64>) -> bool {
        &&& self.spec_available() % PAGE_SIZE == 0
        &&& runs_ok(self.runs(), m)
    }

    /// A manager with no memory.
    pub fn new() -> (r: Self)
        ensures
            r.spec_head() == 0,
            r.spec_available() == 0,
            !r.spec_reclaimed(),
            r.runs() == Map::<u64, u64>::empty(),
            forall|m: Map<u64, u64>| r.wf(m),
    {
        Self { head: 0, available_mem: 0, reclaimed: false, runs: Ghost(Map::empty()) }
    }

    /// Builds the manager from the bootloader's memory map, storing in `mem`
    /// the run header at the start of each usable entry.
    pub fn init(entries: &Vec<MemoryMapEntry>, mem: &mut PhysicalMemory) -> (r: PMM)
        requires
            usable_entries(entries@).len() >= 1,
            entries@.len() * PAGE_SIZE <= u64::MAX,
        ensures
            ({
                let u = usable_entries(entries@);
                &&& r.spec_head() == u.last().base
                &&& r.spec_available() == u.len() * PAGE_SIZE
                &&& !r.spec_reclaimed()
                &&& r.runs() == runs_of(u, u.len())
                &&& r.runs().contains_key(r.spec_head())
                &&& final(mem)@ == init_mem(old(mem)@, u, u.len())
                &&& entries_ok(u) ==> r.wf(final(mem)@)
            }),
    {
        let mut usable: Vec<MemoryMapEntry> = Vec::new();
        let mut avail: u64 = 0;
        let mut i: usize = 0;
        while i < entries.len()
            invariant
                0 <= i <= entries@.len(),
                usable@ == usable_entries(entries@.subrange(0, i as int)),
                avail == usable@.len() * PAGE_SIZE,
                usable@.len() <= i,
                entries@.len() * PAGE_SIZE <= u64::MAX,
            decreases entries@.len() - i,
        {
            let e = entries[i];
            proof {
                assert(entries@.subrange(0, i + 1).drop_last() =~= entries@.subrange(0, i as int));
                assert(entries@.subrange(0, i + 1).last() == e);
            }
            if e.entry_type == EntryType::Usable {
                avail = avail + PAGE_SIZE;
                usable.push(e);
            }
            i = i + 1;
        }
        proof {
            assert(entries@.subrange(0, entries@.len() as int) =~= entries@);
        }
        let ghost u = usable@;
        let ghost m0 = mem@;
        let n = usable.len();
        let mut j: usize = 0;
        while j < n
            invariant
                u == usable@,
                n == u.len(),
                0 <= j <= n,
                mem@ == init_mem(m0, u, j as nat),
            decreases n - j,
        {
            let next = if j + 1 < n {
                usable[j + 1].base
            } else if n >= 2 {
                usable[n - 2].base
            } else {
                0
            };
            let base = usable[j].base;
            mem.write(base, next);
            mem.write(base.wrapping_add(8), usable[j].length);
            proof {
                assert(init_node(u, j as int) == PmmNode { next, length: usable[j as int].length });
                if base + 8 > u64::MAX {
                    assert(((base + 8 - 0x1_0000_0000_0000_0000int) as u64) == ((base + 8) as u64))
                        by (bit_vector);
                }
                assert(base.wrapping_add(8) == (base + 8) as u64);
            }
            j = j + 1;
        }
        let head = usable[n - 1].base;
        proof {
            if entries_ok(u) {
                lemma_init_runs(m0, u, n as nat);
            }
            assert(runs_of(u, n as nat).contains_key(u[n - 1].base));
        }
        PMM { head, available_mem: avail, reclaimed: false, runs: Ghost(runs_of(u, n as nat)) }
    }
    /// Marks the bootloader's memory as reclaimed and returns its pages, which
    /// the caller hands to `push_page` one by one; refuses a second time.
    pub fn reclaim_bootloader(&mut self, entries: &Vec<MemoryMapEntry>) -> (r: Result<
        Vec<PhysicalAddress>,
        PmmError,
    >)
        requires
            forall|i: int| 0 <= i < entries@.len() ==> pages_fit(#[trigger] entries@[i]),
        ensures
            final(self).spec_head() == old(self).spec_head(),
            final(self).spec_available() == old(self).spec_available(),
            final(self).spec_reclaimed(),
            final(self).runs() == old(self).runs(),
            old(self).spec_reclaimed() ==> r is Err,
            !old(self).spec_reclaimed() ==> (r matches Ok(pages) && pages@ == reclaimable_pages(
                entries@,
            )),
    {
        if self.reclaimed {
            return Err(PmmError::NonReclaimable);
        }
        self.reclaimed = true;
        let mut pages: Vec<PhysicalAddress> = Vec::new();
        let mut i: usize = 0;
        while i < entries.len()
            invariant
                0 <= i <= entries@.len(),
                pages@ == reclaimable_pages(entries@.subrange(0, i as int)),
                forall|k: int| 0 <= k < entries@.len() ==> pages_fit(#[trigger] entries@[k]),
            decreases entries@.len() - i,
        {
            let e = entries[i];
            proof {
                assert(entries@.subrange(0, i + 1).drop_last() =~= entries@.subrange(0, i as int));
                assert(entries@.subrange(0, i + 1).last() == e);
                assert(pages_fit(entries@[i as int]));
            }
            if e.entry_type == EntryType::BootloaderReclaimable {
                let ghost before = pages@;
                let mut offset: u64 = 0;
                let ghost mut k: int = 0;
                while offset < e.length
                    invariant
                        pages_fit(e),
                        0 <= k <= page_count(e.length),
                        offset < e.length ==> offset == k * PAGE_SIZE && k < page_count(
                            e.length,
                        ),
                        offset >= e.length ==> k == page_count(e.length),
                        offset == 0 ==> k == 0,
                        pages@ == before + entry_pages(e).subrange(0, k),
                    decreases e.length - offset,
                {
                    proof {
                        assert(e.base + k * PAGE_SIZE <= u64::MAX) by (nonlinear_arith)
                            requires
                                k < page_count(e.length),
                                e.length > 0,
                                e.base + (page_count(e.length) - 1) * PAGE_SIZE <= u64::MAX,
                        ;
                    }
                    pages.push(e.base + offset);
                    proof {
                        assert(entry_pages(e).subrange(0, k + 1) =~= entry_pages(e).subrange(
                            0,
                            k,
                        ).push((e.base + k * PAGE_SIZE) as u64));
                    }
                    if e.length - offset <= PAGE_SIZE {
                        proof {
                            assert(k + 1 == page_count(e.length)) by (nonlinear_arith)
                                requires
                                    offset == k * 4096,
                                    offset < e.length,
                                    e.length - offset <= 4096,
                                    page_count(e.length) == (e.length + 4095) / 4096,
                            ;
                        }
                        offset = e.length;
                    } else {
                        offset = offset + PAGE_SIZE;
                        proof {
                            assert(k + 1 < page_count(e.length)) by (nonlinear_arith)
                                requires
                                    offset == (k + 1) * 4096,
                                    offset < e.length,
                                    page_count(e.length) == (e.length + 4095) / 4096,
                            ;
                        }
                    }
                    proof {
                        k = k + 1;
                    }
                }
                proof {
                    if e.length == 0 {
                        assert(page_count(e.length) == 0);
                    }
                    assert(entry_pages(e).subrange(0, k) =~= entry_pages(e));
                }
            }
            i = i + 1;
        }
        proof {
            assert(entries@.subrange(0, entries@.len() as int) =~= entries@);
        }
        Ok(pages)
    }

    /// The page `pop_page` hands out: the start of the head run, or 0 when no
    /// memory is left.
    pub open spec fn next_page(&self) -> u64 {
        if self.spec_available() == 0 {
            0
        } else {
            self.spec_head()
        }
    }

    /// `pop_page` can run on memory `m`: at least a page is free, the head
    /// run's header counts at least a page, and the page fits in the address
    /// space.
    pub open spec fn can_pop(&self, m: Map<u64, u64>) -> bool {
        self.spec_available() > 0 ==> {
            &&& self.spec_available() >= PAGE_SIZE
            &&& node_at(m, self.spec_head()).length >= PAGE_SIZE
            &&& self.spec_head() + PAGE_SIZE <= u64::MAX
        }
    }

    /// The manager after `pop_page` on memory `m`: the head run loses its
    /// first page, and once empty gives way to the run its header names.
    pub closed spec fn popped(self, m: Map<u64, u64>) -> PMM {
        let n = node_at(m, self.head);
        let (h2, page, w) = pop_effect(self.head, self.available_mem, n);
        if self.available_mem == 0 {
            self
        } else {
            PMM {
                head: h2,
                available_mem: (self.available_mem - PAGE_SIZE) as u64,
                reclaimed: self.reclaimed,
                runs: Ghost(
                    if n.length > PAGE_SIZE {
                        self.runs@.remove(self.head).insert(
                            (self.head + PAGE_SIZE) as u64,
                            (n.length - PAGE_SIZE) as u64,
                        )
                    } else {
                        self.runs@.remove(self.head)
                    },
                ),
            }
        }
    }

    /// The parts of the manager `popped` changes, as the other spec
    /// functions see them.
    pub proof fn lemma_popped(self, m: Map<u64, u64>)
        ensures
            ({
                let n = node_at(m, self.spec_head());
                let (h2, page, w) = pop_effect(self.spec_head(), self.spec_available(), n);
                let p = self.popped(m);
                &&& self.spec_available() == 0 ==> p == self
                &&& self.spec_available() > 0 ==> {
                    &&& p.spec_head() == h2
                    &&& p.spec_available() == (self.spec_available() - PAGE_SIZE) as u64
                    &&& p.spec_reclaimed() == self.spec_reclaimed()
                    &&& p.runs() == if n.length > PAGE_SIZE {
                        self.runs().remove(self.spec_head()).insert(
                            (self.spec_head() + PAGE_SIZE) as u64,
                            (n.length - PAGE_SIZE) as u64,
                        )
                    } else {
                        self.runs().remove(self.spec_head())
                    }
                }
            }),
    {
        let n = node_at(m, self.head);
        let p = self.popped(m);
        if self.available_mem > 0 {
            if n.length > PAGE_SIZE {
                assert(p.runs@ == self.runs@.remove(self.head).insert(
                    (self.head + PAGE_SIZE) as u64,
                    (n.length - PAGE_SIZE) as u64,
                ));
            } else {
                assert(p.runs@ == self.runs@.remove(self.head));
            }
        }
    }

    /// Takes the first free page, filled with zeroes: 0, with nothing
    /// changed, when no memory is left. The page is the start of the head run,
    /// which shrinks by one page from its start (its header moving one page
    /// up) or, once empty, gives way to the run its header names next.
    pub fn pop_page(&mut self, mem: &mut PhysicalMemory) -> (r: PhysicalAddress)
        requires
            old(self).can_pop(old(mem)@),
        ensures
            r == old(self).next_page(),
            *final(self) == old(self).popped(old(mem)@),
            final(mem)@ == pop_mem(old(mem)@, old(self).spec_head(), old(self).spec_available()),
            fresh_pop(*old(self), old(mem)@),
    {
        proof {
            self.lemma_popped(mem@);
            if self.wf(mem@) && self.spec_available() > 0 && self.runs().contains_key(self.spec_head()) {
                law_pop_hands_out_fresh_page(*self, mem@);
            }
        }
        if self.available_mem == 0 {
            return 0;
        }
        let ghost m0 = mem@;
        let ghost r0 = self.runs@;
        let ret = self.head;
        let next = mem.read(ret);
        let length = mem.read(ret + 8);
        let mut head = PmmNode { next, length };
        head.length = head.length - PAGE_SIZE;
        if head.length != 0 {
            self.head = self.head + PAGE_SIZE;
            let h = self.head;
            let len_at = h.wrapping_add(8);
            proof {
                if h + 8 > u64::MAX {
                    assert(((h + 8 - 0x1_0000_0000_0000_0000int) as u64) == ((h + 8) as u64))
                        by (bit_vector);
                }
            }
            mem.write(h, head.next);
            mem.write(len_at, head.length);
            proof {
                self.runs@ = r0.remove(ret).insert((ret + PAGE_SIZE) as u64, (length - PAGE_SIZE) as u64);
            }
        } else {
            self.head = next;
            proof {
                self.runs@ = r0.remove(ret);
            }
        }
        let ghost m1 = mem@;
        let mut w: u64 = 0;
        while w < 512
            invariant
                0 <= w <= 512,
                ret + 4096 <= u64::MAX,
                mem@ == zero_fill(m1, ret, w as nat),
            decreases 512 - w,
        {
            mem.write(ret + 8 * w, 0);
            w = w + 1;
        }
        self.available_mem = self.available_mem - PAGE_SIZE;
        ret
    }

    /// Gives a page back, reading the head run's header from `mem` and
    /// storing the header that changes. A page right below the head run, or
    /// right after its end, joins that run; any other page becomes a new run
    /// at the head. A whole page that no run holds then lies in a run.
    pub fn push_page(&mut self, page: PhysicalAddress, mem: &mut PhysicalMemory)
        requires
            old(self).wf(old(mem)@),
            page + PAGE_SIZE <= u64::MAX,
            old(self).spec_head() + node_at(old(mem)@, old(self).spec_head()).length <= u64::MAX,
            node_at(old(mem)@, old(self).spec_head()).length + PAGE_SIZE <= u64::MAX,
            old(self).spec_available() + PAGE_SIZE <= u64::MAX,
        ensures
            ({
                let h = old(self).spec_head();
                let n = node_at(old(mem)@, h);
                let (h2, w) = push_effect(h, page, n);
                &&& final(self).spec_head() == h2
                &&& final(self).spec_reclaimed() == old(self).spec_reclaimed()
                &&& final(self).spec_available() == old(self).spec_available() + PAGE_SIZE
                &&& final(mem)@ == write_node(old(mem)@, w.0, w.1)
                &&& final(self).runs() == push_runs(old(self).runs(), h, page, n)
                &&& push_fits(old(self).runs(), h, page, n) ==> {
                    &&& final(self).wf(final(mem)@)
                    &&& in_runs(final(self).runs(), page)
                    &&& final(self).runs().contains_key(final(self).spec_head())
                }
            }),
    {
        let ghost r0 = self.runs@;
        let ghost m0 = mem@;
        let h0 = self.head;
        let len_at = h0.wrapping_add(8);
        proof {
            if h0 + 8 > u64::MAX {
                assert(((h0 + 8 - 0x1_0000_0000_0000_0000int) as u64) == ((h0 + 8) as u64))
                    by (bit_vector);
            }
        }
        let old_head = PmmNode { next: mem.read(self.head), length: mem.read(len_at) };
        let at;
        let node;
        if page + PAGE_SIZE == self.head {
            at = page;
            node = PmmNode { next: old_head.next, length: old_head.length + PAGE_SIZE };
            self.head = page;
        } else if self.head + old_head.length == page {
            at = self.head;
            node = PmmNode { next: old_head.next, length: old_head.length + PAGE_SIZE };
        } else {
            at = page;
            node = PmmNode { next: self.head, length: PAGE_SIZE };
            self.head = page;
        }
        mem.write(at, node.next);
        mem.write(at.wrapping_add(8), node.length);
        self.available_mem = self.available_mem + PAGE_SIZE;
        proof {
            if at + 8 > u64::MAX {
                assert(((at + 8 - 0x1_0000_0000_0000_0000int) as u64) == ((at + 8) as u64))
                    by (bit_vector);
            }
            assert(at.wrapping_add(8) == (at + 8) as u64);
            self.runs@ = push_runs(r0, old(self).spec_head(), page, old_head);
            if push_fits(r0, old(self).spec_head(), page, old_head) {
                lemma_push_runs(r0, m0, old(self).spec_head(), page, old_head, self.available_mem);
            }
        }
    }

    /// Address of the first run of free pages.
    pub fn head(&self) -> (r: u64)
        ensures
            r == self.spec_head(),
    {
        self.head
    }

    /// Bytes of free memory.
    pub fn get_avaiable_memory(&self) -> (r: u64)
        ensures
            r == self.spec_available(),
    {
        self.available_mem
    }
}

/// The runs after `push_page` gave back `page` to a manager whose head run
/// starts at `head` with header `n`.
pub open spec fn push_runs(runs: Map<u64, u64>, head: u64, page: u64, n: PmmNode) -> Map<u64, u64> {
    if page + PAGE_SIZE == head {
        runs.remove(head).insert(page, (n.length + PAGE_SIZE) as u64)
    } else if head + n.length == page {
        runs.insert(head, (n.length + PAGE_SIZE) as u64)
    } else {
        runs.insert(page, PAGE_SIZE)
    }
}

/// Giving back `page` keeps the runs whole and disjoint: the page is a whole
/// page that no run holds, and where it joins the head run, that run is one
/// the manager knows of.
pub open spec fn push_fits(runs: Map<u64, u64>, head: u64, page: u64, n: PmmNode) -> bool {
    &&& page % PAGE_SIZE == 0
    &&& page + PAGE_SIZE <= u64::MAX
    &&& page_apart(runs, page)
    &&& (page + PAGE_SIZE == head || head + n.length == page) ==> runs.contains_key(head)
}

proof fn lemma_push_runs(runs: Map<u64, u64>, m: Map<u64, u64>, head: u64, page: u64, n: PmmNode, avail: u64)
    requires
        runs_ok(runs, m),
        push_fits(runs, head, page, n),
        n == node_at(m, head),
        head + n.length <= u64::MAX,
        n.length + PAGE_SIZE <= u64::MAX,
    ensures
        ({
            let (h2, w) = push_effect(head, page, n);
            let r1 = push_runs(runs, head, page, n);
            &&& runs_ok(r1, write_node(m, w.0, w.1))
            &&& in_runs(r1, page)
            &&& r1.contains_key(h2)
        }),
{
    let (h2, w) = push_effect(head, page, n);
    let r1 = push_runs(runs, head, page, n);
    let m1 = write_node(m, w.0, w.1);
    let a = w.0;
    assert forall|b: u64| #[trigger] r1.contains_key(b) && b != a implies runs.contains_key(b) && b
        + runs[b] <= a || a + r1[a] <= b by {
        assert(runs.contains_key(b));
        if page + PAGE_SIZE == head {
            assert(b != head);
            assert(head + runs[head] <= b || b + runs[b] <= head);
        } else if head + n.length == page {
            assert(head + runs[head] <= b || b + runs[b] <= head);
        }
    }
    assert forall|b: u64| #[trigger] r1.contains_key(b) implies {
        &&& b % PAGE_SIZE == 0
        &&& r1[b] % PAGE_SIZE == 0
        &&& r1[b] >= PAGE_SIZE
        &&& b + r1[b] <= u64::MAX
        &&& node_at(m1, b).length == r1[b]
    } by {
        if b != a {
            assert(runs.contains_key(b));
            assert(r1[b] == runs[b]);
            assert(b + runs[b] <= a || a + r1[a] <= b);
        }
    }
    assert forall|b: u64, c: u64|
        #[trigger] r1.contains_key(b) && #[trigger] r1.contains_key(c) && b != c implies b + r1[b]
        <= c || c + r1[c] <= b by {
        if b != a && c != a {
            assert(runs.contains_key(b) && runs.contains_key(c));
        } else if b == a {
            assert(runs.contains_key(c));
        } else {
            assert(runs.contains_key(b));
        }
    }
    assert(r1.contains_key(a) && a <= page < a + r1[a]);
}

/// New head, page handed out and header to store of `pop_page` on a
/// manager whose head run starts at `head` with header `n`, with `avail`
/// bytes free.
pub open spec fn pop_effect(head: u64, avail: u64, n: PmmNode) -> (u64, u64, Option<(u64, PmmNode)>) {
    if avail == 0 {
        (head, 0, None)
    } else if n.length > PAGE_SIZE {
        (
            (head + PAGE_SIZE) as u64,
            head,
            Some(
                (
                    (head + PAGE_SIZE) as u64,
                    PmmNode { next: n.next, length: (n.length - PAGE_SIZE) as u64 },
                ),
            ),
        )
    } else {
        (n.next, head, None)
    }
}

/// Memory after `pop_page` on a manager whose head run starts at `head`,
/// with `avail` bytes free: the moved header stored, the page handed out
/// cleared.
pub open spec fn pop_mem(m: Map<u64, u64>, head: u64, avail: u64) -> Map<u64, u64> {
    let (h2, page, w) = pop_effect(head, avail, node_at(m, head));
    if avail == 0 {
        m
    } else {
        zero_fill(
            match w {
                Some((a, x)) => write_node(m, a, x),
                None => m,
            },
            page,
            512,
        )
    }
}

/// What `pop_page` promises of a manager `p` that knows its head run, on
/// memory `m` that holds its runs: the page it hands out is page aligned, lay
/// in a free run and lies in none afterwards, reads as zero, and the runs stay
/// whole, disjoint and described by their headers.
pub open spec fn fresh_pop(p: PMM, m: Map<u64, u64>) -> bool {
    p.wf(m) && p.spec_available() > 0 && p.runs().contains_key(p.spec_head()) ==> {
        let r = p.spec_head();
        let p2 = p.popped(m);
        let m2 = pop_mem(m, r, p.spec_available());
        &&& r % PAGE_SIZE == 0
        &&& in_runs(p.runs(), r)
        &&& page_apart(p2.runs(), r)
        &&& zeroed(m2, r)
        &&& p2.wf(m2)
    }
}

/// A manager that knows its head run hands out a whole free page, cleared,
/// which no run holds afterwards, and keeps its runs whole and disjoint.
pub proof fn law_pop_hands_out_fresh_page(p: PMM, m: Map<u64, u64>)
    requires
        p.wf(m),
        p.spec_available() > 0,
        p.runs().contains_key(p.spec_head()),
    ensures
        fresh_pop(p, m),
{
    p.lemma_popped(m);
    let ret = p.spec_head();
    let r0 = p.runs();
    let len = r0[ret];
    let n = node_at(m, ret);
    let (h2, page, w) = pop_effect(ret, p.spec_available(), n);
    let m1 = match w {
        Some((a, x)) => write_node(m, a, x),
        None => m,
    };
    let m2 = pop_mem(m, ret, p.spec_available());
    let p2 = p.popped(m);
    let r1 = p2.runs();
    assert(n.length == len);
    lemma_zero_fill(m1, ret, 512);
    assert forall|b: u64| #[trigger] r1.contains_key(b) implies ret + PAGE_SIZE <= b || b + r1[b]
        <= ret by {
        if b != (ret + PAGE_SIZE) as u64 || len == PAGE_SIZE {
            assert(r0.contains_key(b) && b != ret);
        }
    }
    assert forall|b: u64| #[trigger] r1.contains_key(b) implies {
        &&& b % PAGE_SIZE == 0
        &&& r1[b] % PAGE_SIZE == 0
        &&& r1[b] >= PAGE_SIZE
        &&& b + r1[b] <= u64::MAX
        &&& node_at(m2, b).length == r1[b]
    } by {
        if b != (ret + PAGE_SIZE) as u64 || len == PAGE_SIZE {
            assert(r0.contains_key(b) && b != ret);
            assert(ret + len <= b || b + r0[b] <= ret);
            assert(read_word(m2, (b + 8) as u64) == read_word(m1, (b + 8) as u64));
        } else {
            assert(read_word(m2, (b + 8) as u64) == read_word(m1, (b + 8) as u64));
        }
    }
    assert forall|b: u64, c: u64|
        #[trigger] r1.contains_key(b) && #[trigger] r1.contains_key(c) && b != c implies b + r1[b]
        <= c || c + r1[c] <= b by {
        if b == (ret + PAGE_SIZE) as u64 && len != PAGE_SIZE {
            assert(r0.contains_key(c) && c != ret);
        } else if c == (ret + PAGE_SIZE) as u64 && len != PAGE_SIZE {
            assert(r0.contains_key(b) && b != ret);
        } else {
            assert(r0.contains_key(b) && r0.contains_key(c));
        }
    }
    assert(in_runs(r0, ret));
    assert forall|k: int| 0 <= k < 512 implies #[trigger] read_word(m2, (ret + 8 * k) as u64) == 0 by {}
}

/// New head and header write of `push_page` giving back `page` to a manager
/// whose head run starts at `head` with header `n`.
pub open spec fn push_effect(head: u64, page: u64, n: PmmNode) -> (u64, (u64, PmmNode)) {
    if page + PAGE_SIZE == head {
        (page, (page, PmmNode { next: n.next, length: (n.length + PAGE_SIZE) as u64 }))
    } else if head + n.length == page {
        (head, (head, PmmNode { next: n.next, length: (n.length + PAGE_SIZE) as u64 }))
    } else {
        (page, (page, PmmNode { next: head, length: PAGE_SIZE }))
    }
}

/// Popping a page right after pushing one hands the pushed page back and
/// restores the head, unless the page was joined to the end of the head run.
/// When the page joined the head run from below, the header pop stores is the
/// old head header again.
pub proof fn law_pop_undoes_push(head: u64, avail: u64, page: u64, n: PmmNode)
    requires
        n.length > 0,
        page + PAGE_SIZE <= u64::MAX,
        head + n.length <= u64::MAX,
        n.length + PAGE_SIZE <= u64::MAX,
        avail + PAGE_SIZE <= u64::MAX,
        !(page + PAGE_SIZE != head && head + n.length == page),
    ensures
        ({
            let (h1, w) = push_effect(head, page, n);
            let (h2, r, w2) = pop_effect(h1, (avail + PAGE_SIZE) as u64, w.1);
            &&& w.0 == h1
            &&& r == page
            &&& h2 == head
            &&& page + PAGE_SIZE == head ==> w2 == Some((head, n))
        }),
{
}

} // verus!
