use vstd::prelude::*;

pub mod heap_alloc;
pub mod mmap;
pub mod paging;
pub mod phys;
pub mod pmm;

verus! {

/// Size of one page of memory, in bytes.
pub const PAGE_SIZE: u64 = 4096;

/// `PAGE_SIZE` as a `usize`.
pub const PS_USIZE: usize = 4096;

/// Start address of the page that contains `addr`.
pub open spec fn page_floor(addr: int) -> int {
    addr - addr % (PAGE_SIZE as int)
}

/// Smallest multiple of `m` that is at least `x`.
pub open spec fn round_up(x: int, m: int) -> int {
    if x % m == 0 {
        x
    } else {
        x + (m - x % m)
    }
}

/// `round_up` gives a multiple of `m` within `m` above `x`.
pub proof fn lemma_round_up(x: int, m: int)
    requires
        x >= 0,
        m > 0,
    ensures
        round_up(x, m) % m == 0,
        x <= round_up(x, m) < x + m,
        round_up(x, m) == m * ((x + m - 1) / m),
{
    vstd::arithmetic::div_mod::lemma_fundamental_div_mod(x, m);
    vstd::arithmetic::div_mod::lemma_mod_bound(x, m);
    let q = x / m;
    assert(m * q == q * m) by (nonlinear_arith);
    assert((q + 1) * m == q * m + m) by (nonlinear_arith);
    if x % m == 0 {
        vstd::arithmetic::div_mod::lemma_mod_multiples_basic(q, m);
        assert((x + m - 1) / m == q) by {
            vstd::arithmetic::div_mod::lemma_fundamental_div_mod_converse(x + m - 1, m, q, m - 1);
        }
        assert(m * q == q * m) by (nonlinear_arith);
    } else {
        assert(round_up(x, m) == (q + 1) * m) by (nonlinear_arith)
            requires
                x == m * q + x % m,
                round_up(x, m) == x + (m - x % m),
        ;
        vstd::arithmetic::div_mod::lemma_mod_multiples_basic(q + 1, m);
        assert((x + m - 1) / m == q + 1) by {
            vstd::arithmetic::div_mod::lemma_fundamental_div_mod_converse(
                x + m - 1,
                m,
                q + 1,
                x % m - 1,
            );
        }
        assert(m * (q + 1) == (q + 1) * m) by (nonlinear_arith);
    }
}

/// `x` rounded up to a multiple of `m`, as `next_multiple_of` does.
pub fn next_multiple_of_u64(x: u64, m: u64) -> (r: u64)
    requires
        m > 0,
        round_up(x as int, m as int) <= u64::MAX,
    ensures
        r == round_up(x as int, m as int),
        r % m == 0,
        x <= r < x + m,
{
    proof {
        lemma_round_up(x as int, m as int);
    }
    if x % m == 0 {
        x
    } else {
        x + (m - x % m)
    }
}

/// `x` rounded up to a multiple of `m`, as `next_multiple_of` does.
pub fn next_multiple_of_usize(x: usize, m: usize) -> (r: usize)
    requires
        m > 0,
        round_up(x as int, m as int) <= usize::MAX,
    ensures
        r == round_up(x as int, m as int),
        r % m == 0,
        x <= r < x + m,
{
    proof {
        lemma_round_up(x as int, m as int);
    }
    if x % m == 0 {
        x
    } else {
        x + (m - x % m)
    }
}

/// A half open range of addresses, `0.start .. 0.end`.
pub struct MemoryRange(pub core::ops::Range<u64>);

impl From<core::ops::Range<u64>> for MemoryRange {
    fn from(value: core::ops::Range<u64>) -> (r: Self) {
        MemoryRange(value.start..value.end)
    }
}

impl vstd::std_specs::convert::FromSpecImpl<core::ops::Range<u64>> for MemoryRange {
    open spec fn obeys_from_spec() -> bool {
        true
    }

    open spec fn from_spec(value: core::ops::Range<u64>) -> Self {
        MemoryRange(value)
    }
}

impl From<MemoryRange> for core::ops::Range<u64> {
    fn from(value: MemoryRange) -> (r: Self) {
        value.0.start..value.0.end
    }
}

impl vstd::std_specs::convert::FromSpecImpl<MemoryRange> for core::ops::Range<u64> {
    open spec fn obeys_from_spec() -> bool {
        true
    }

    open spec fn from_spec(value: MemoryRange) -> Self {
        value.0
    }
}

impl MemoryRange {
    /// The range as a pair of integers.
    pub open spec fn bounds(&self) -> (int, int) {
        (self.0.start as int, self.0.end as int)
    }

    /// Copy of the range.
    pub fn copy(&self) -> (r: Self)
        ensures
            r.0.start == self.0.start,
            r.0.end == self.0.end,
    {
        MemoryRange(self.0.start..self.0.end)
    }

    /// Number of addresses in the range.
    pub fn len(&self) -> (r: usize)
        requires
            self.0.start <= self.0.end,
        ensures
            r == (self.0.end - self.0.start) as usize,
    {
        (self.0.end - self.0.start) as usize
    }

    /// Joins `self` with `rhs` when `rhs` begins where `self` ends.
    ///
    /// Returns: None if rhs.start != self.end
    pub fn append(&self, rhs: &Self) -> (r: Option<Self>)
        ensures
            r is None <==> rhs.0.start != self.0.end,
            r matches Some(m) ==> m.0.start == self.0.start && m.0.end == rhs.0.end,
    {
        if rhs.0.start != self.0.end {
            None
        } else {
            Some(MemoryRange(self.0.start..rhs.0.end))
        }
    }

    /// Splits off the first `length` addresses of the range.
    pub fn shrink(&self, length: usize) -> (r: Option<(Self, Self)>)
        requires
            self.0.start <= self.0.end,
        ensures
            r is None <==> ((self.0.end - self.0.start) as usize) < length,
            r matches Some((a, b)) ==> {
                &&& a.0.start == self.0.start
                &&& a.0.end == self.0.start + length
                &&& b.0.start == self.0.start + length
                &&& b.0.end == self.0.end
            },
    {
        if self.len() >= length {
            let new_start = self.0.start + length as u64;
            Some((MemoryRange(self.0.start..new_start), MemoryRange(new_start..self.0.end)))
        } else {
            None
        }
    }
}

/// Gets the page that addr is inside of
pub fn get_containing_page(addr: u64) -> (page: u64)
    ensures
        page == page_floor(addr as int),
        page % PAGE_SIZE == 0,
        page <= addr < page + PAGE_SIZE,
{
    if addr & (PAGE_SIZE - 1) == 0 {
        proof {
            assert(addr & 4095u64 == 0u64 ==> addr % 4096 == 0) by (bit_vector);
        }
        return addr;
    }
    let mask = !(addr & (PAGE_SIZE - 1));
    let page = addr & mask;
    proof {
        assert(addr & !(addr & 4095u64) == (addr - addr % 4096) as u64) by (bit_vector);
    }
    page
}

} // verus!
