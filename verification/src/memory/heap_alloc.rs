use vstd::prelude::*;

use vstd::hash_map::HashMapWithView;

use crate::memory::{lemma_round_up, next_multiple_of_usize, round_up, PS_USIZE};

verus! {

broadcast use vstd::std_specs::hash::group_hash_axioms;

/// Size in bytes of a free list node: two links and the block's metadata.
pub const NODE_SIZE: usize = 40;

/// Alignment of a free list node.
pub const NODE_ALIGN: usize = 8;

/// `a` is a power of two.
pub open spec fn is_pow2(a: int) -> bool
    decreases a,
{
    if a <= 0 {
        false
    } else if a == 1 {
        true
    } else {
        a % 2 == 0 && is_pow2(a / 2)
    }
}

/// Whether `a` is a power of two.
pub fn is_power_of_two(a: usize) -> (r: bool)
    ensures
        r == is_pow2(a as int),
{
    if a == 0 {
        return false;
    }
    let mut x = a;
    while x > 1 && x % 2 == 0
        invariant
            x > 0,
            is_pow2(x as int) == is_pow2(a as int),
        decreases x,
    {
        x = x / 2;
    }
    x == 1
}

/// Size and alignment of a memory request: the alignment is a power of two
/// and the size, rounded up to it, fits in an `isize`.
#[derive(Clone, Copy, Debug, PartialEq, Eq, Structural)]
pub struct Layout {
    size: usize,
    align: usize,
}

/// A size and alignment that make a layout.
pub open spec fn valid_layout(size: usize, align: usize) -> bool {
    is_pow2(align as int) && round_up(size as int, align as int) <= isize::MAX
}

impl Layout {
    /// The alignment is a power of two and the size, rounded up to it, fits
    /// in an `isize`.
    pub closed spec fn wf(&self) -> bool {
        valid_layout(self.size, self.align)
    }

    /// The requested size.
    pub closed spec fn spec_size(&self) -> usize {
        self.size
    }

    /// The requested alignment.
    pub closed spec fn spec_align(&self) -> usize {
        self.align
    }

    /// The layout of `size` bytes aligned to `align`, or `None` when those
    /// make no layout.
    pub fn from_size_align(size: usize, align: usize) -> (r: Option<Self>)
        ensures
            valid_layout(size, align) ==> (r matches Some(l) && l.spec_size() == size
                && l.spec_align() == align && l.wf()),
            !valid_layout(size, align) ==> r is None,
    {
        if !is_power_of_two(align) {
            return None;
        }
        let rem = size % align;
        let up: u128 = if rem == 0 {
            size as u128
        } else {
            size as u128 + (align - rem) as u128
        };
        if up > isize::MAX as u128 {
            return None;
        }
        Some(Layout { size, align })
    }

    /// A layout of `size` bytes aligned to `align`.
    pub closed spec fn spec_new(size: usize, align: usize) -> Layout {
        Layout { size, align }
    }

    /// The same alignment with another size.
    pub closed spec fn spec_with_size(&self, size: usize) -> Layout {
        Layout { size, align: self.align }
    }

    /// The requested size.
    pub fn size(&self) -> (r: usize)
        ensures
            r == self.spec_size(),
    {
        self.size
    }

    /// The requested alignment.
    pub fn align(&self) -> (r: usize)
        ensures
            r == self.spec_align(),
    {
        self.align
    }
}

/// Bytes to add to `addr` to reach a multiple of `a`.
pub open spec fn align_offset(addr: int, a: int) -> int {
    (a - addr % a) % a
}

/// The alignment a block's start is padded to: its layout's, at least a node's.
pub open spec fn block_align(align: int) -> int {
    if align > NODE_ALIGN {
        align
    } else {
        NODE_ALIGN as int
    }
}

/// Bytes between a block's start and its data: padding to the block
/// alignment, then the node rounded up to the layout's alignment.
pub open spec fn extra_for(base: int, align: int) -> int {
    round_up(NODE_SIZE as int, align) + align_offset(base, block_align(align))
}

/// A power of two divides every power of two at least as large.
pub proof fn lemma_pow2_divides(a: int, b: int)
    requires
        is_pow2(a),
        is_pow2(b),
        a <= b,
    ensures
        b % a == 0,
    decreases a,
{
    if a == 1 {
        vstd::arithmetic::div_mod::lemma_small_mod(0, 1);
        vstd::arithmetic::div_mod::lemma_fundamental_div_mod(b, 1);
    } else {
        lemma_pow2_divides(a / 2, b / 2);
        let k = (b / 2) / (a / 2);
        vstd::arithmetic::div_mod::lemma_fundamental_div_mod(b / 2, a / 2);
        assert(b == k * a) by (nonlinear_arith)
            requires
                b == 2 * (b / 2),
                a == 2 * (a / 2),
                b / 2 == (a / 2) * k + (b / 2) % (a / 2),
                (b / 2) % (a / 2) == 0,
        ;
        vstd::arithmetic::div_mod::lemma_mod_multiples_basic(k, a);
    }
}

/// The block alignment of a power of two is a power of two that it divides.
proof fn lemma_block_align(a: int)
    requires
        is_pow2(a),
    ensures
        is_pow2(block_align(a)),
        block_align(a) % a == 0,
        block_align(a) % 8 == 0,
        block_align(a) >= 8,
{
    reveal_with_fuel(is_pow2, 4);
    assert(is_pow2(8));
    if a > 8 {
        lemma_pow2_divides(8, a);
        vstd::arithmetic::div_mod::lemma_mod_self_0(a);
    } else {
        lemma_pow2_divides(a, 8);
        vstd::arithmetic::div_mod::lemma_mod_self_0(8);
    }
}

proof fn lemma_align_offset(addr: int, a: int)
    requires
        addr >= 0,
        a > 0,
    ensures
        0 <= align_offset(addr, a) < a,
        (addr + align_offset(addr, a)) % a == 0,
{
    vstd::arithmetic::div_mod::lemma_fundamental_div_mod(addr, a);
    let q = addr / a;
    let r = addr % a;
    if r == 0 {
        assert(align_offset(addr, a) == 0) by {
            vstd::arithmetic::div_mod::lemma_mod_self_0(a);
        }
    } else {
        assert(align_offset(addr, a) == a - r) by {
            vstd::arithmetic::div_mod::lemma_small_mod((a - r) as nat, a as nat);
        }
        assert(addr + (a - r) == (q + 1) * a) by (nonlinear_arith)
            requires
                addr == a * q + r,
        ;
        vstd::arithmetic::div_mod::lemma_mod_multiples_basic(q + 1, a);
    }
}

/// Metadata of a heap block: where it starts and the layout it was made for.
#[derive(Clone, Copy, Debug, PartialEq, Eq, Structural)]
pub struct MetaData {
    /// where the block starts, before any alignment
    pub base: usize,
    /// requested layout, no modifications
    pub layout: Layout,
}

impl MetaData {
    /// Bytes between the block's start and its data.
    pub open spec fn spec_extra(&self) -> int {
        extra_for(self.base as int, self.layout.spec_align() as int)
    }

    /// Bytes the block spans.
    pub open spec fn spec_total(&self) -> int {
        self.layout.spec_size() + self.spec_extra()
    }

    /// Address right after the block.
    pub open spec fn spec_end(&self) -> int {
        self.base + self.spec_total()
    }

    /// Where the block's data starts.
    pub open spec fn spec_data(&self) -> int {
        self.base + self.spec_extra()
    }

    /// Where the block's node sits: right before its data.
    pub open spec fn spec_meta(&self) -> int {
        self.spec_data() - NODE_SIZE
    }

    /// Bytes of data the block can hold once its node sits right after the
    /// padding a node-aligned start needs.
    pub open spec fn spec_usable(&self) -> int {
        self.layout.spec_size() + (self.spec_extra() - NODE_SIZE - align_offset(
            self.base as int,
            NODE_ALIGN as int,
        ))
    }

    /// The block fits in the address space.
    pub open spec fn fits(&self) -> bool {
        &&& self.layout.wf()
        &&& self.base + self.spec_total() <= usize::MAX
    }

    /// Metadata for a block at `base` made for `layout`.
    pub fn new(base: usize, layout: Layout) -> (r: Self)
        ensures
            r.base == base,
            r.layout == layout,
    {
        Self { base, layout }
    }

    /// Bytes between the block's start and its data.
    pub fn extra_size(&self) -> (r: usize)
        requires
            self.layout.wf(),
            self.spec_extra() <= usize::MAX,
        ensures
            r == self.spec_extra(),
            NODE_SIZE <= r,
    {
        let a = self.layout.align();
        let m = if a > NODE_ALIGN {
            a
        } else {
            NODE_ALIGN
        };
        proof {
            lemma_align_offset(self.base as int, m as int);
            lemma_round_up(NODE_SIZE as int, a as int);
            lemma_round_up(self.layout.spec_size() as int, a as int);
        }
        let align = (m - self.base % m) % m;
        next_multiple_of_usize(NODE_SIZE, a) + align
    }

    /// Where the block's data starts.
    pub fn data_location(&self) -> (r: usize)
        requires
            self.fits(),
        ensures
            r == self.spec_data(),
    {
        self.base + self.extra_size()
    }

    /// Where the block's node sits: right before its data.
    pub fn meta_location(&self) -> (r: usize)
        requires
            self.fits(),
        ensures
            r == self.spec_meta(),
            r >= self.base,
    {
        self.data_location() - NODE_SIZE
    }

    /// Padding a node needs after `base` to be node aligned.
    pub fn default_meta_offset(base: usize) -> (r: usize)
        requires
            base + NODE_SIZE + align_offset(base as int, NODE_ALIGN as int) <= usize::MAX,
        ensures
            r == align_offset(base as int, NODE_ALIGN as int),
    {
        let temp_meta = MetaData::new(base, Layout { size: 0, align: NODE_ALIGN });
        proof {
            reveal_with_fuel(is_pow2, 4);
            lemma_round_up(0, 8);
            lemma_round_up(NODE_SIZE as int, 8);
            lemma_align_offset(base as int, 8);
        }
        temp_meta.meta_location() - base
    }

    /// Bytes of data the block can hold: its size, plus the padding its
    /// alignment made beyond what a node-aligned start needs.
    pub fn usable_size(&self) -> (r: usize)
        requires
            self.fits(),
        ensures
            r == self.spec_usable(),
    {
        proof {
            lemma_block_align(self.layout.spec_align() as int);
            lemma_align_offset_mono(self.base as int, block_align(self.layout.spec_align() as int));
            lemma_round_up(NODE_SIZE as int, self.layout.spec_align() as int);
            lemma_round_up(self.layout.spec_size() as int, self.layout.spec_align() as int);
        }
        let node_padding = Self::default_meta_offset(self.base);
        let current_padding = self.meta_location() - self.base;
        self.layout.size() + (current_padding - node_padding)
    }

    /// Bytes the block spans.
    pub fn total_size(&self) -> (r: usize)
        requires
            self.fits(),
        ensures
            r == self.spec_total(),
    {
        self.layout.size() + self.extra_size()
    }

    /// Whether the block can hold data of layout `lay`: with a stricter
    /// alignment, the block must still span the node, padding and data laid
    /// out for `lay`; otherwise its usable size must reach `lay`'s size.
    pub fn check_compatible(&self, lay: &Layout) -> (r: bool)
        requires
            self.fits(),
            lay.wf(),
            lay.spec_align() > self.layout.spec_align() ==> extra_for(
                self.base as int,
                lay.spec_align() as int,
            ) <= usize::MAX,
        ensures
            lay.spec_align() > self.layout.spec_align() ==> r == (self.spec_total() >= extra_for(
                self.base as int,
                lay.spec_align() as int,
            ) && self.spec_total() - extra_for(self.base as int, lay.spec_align() as int)
                >= lay.spec_size()),
            lay.spec_align() <= self.layout.spec_align() ==> r == (self.spec_usable()
                >= lay.spec_size()),
    {
        if lay.align() > self.layout.align() {
            let new_meta = Self::new(self.base, *lay);
            let total = self.total_size();
            let extra = new_meta.extra_size();
            match total.checked_sub(extra) {
                Some(x) => x >= lay.size(),
                None => false,
            }
        } else {
            self.usable_size() >= lay.size()
        }
    }

    /// Metadata for a fresh free block of `size` bytes at `base`: the node
    /// sits at the first node-aligned address, and the rest is data.
    pub fn new_blank(base: usize, size: usize) -> (r: Self)
        requires
            base + NODE_SIZE + align_offset(base as int, NODE_ALIGN as int) <= usize::MAX,
            size >= align_offset(base as int, NODE_ALIGN as int) + NODE_SIZE,
            valid_layout(
                (size - align_offset(base as int, NODE_ALIGN as int) - NODE_SIZE) as usize,
                NODE_ALIGN,
            ),
        ensures
            r.base == base,
            r.layout.spec_size() == size - align_offset(base as int, NODE_ALIGN as int) - NODE_SIZE,
            r.layout.spec_align() == NODE_ALIGN,
            r.layout.wf(),
    {
        let padding = Self::default_meta_offset(base);
        let total_removed = padding + NODE_SIZE;
        let layout = Layout::from_size_align(size - total_removed, NODE_ALIGN).unwrap();
        Self { base, layout }
    }
}

/// Padding to a multiple of `m`, a multiple of 8, is at least the padding to
/// a multiple of 8.
proof fn lemma_align_offset_mono(addr: int, m: int)
    requires
        addr >= 0,
        m >= 8,
        m % 8 == 0,
    ensures
        align_offset(addr, 8) <= align_offset(addr, m),
{
    lemma_align_offset(addr, m);
    lemma_align_offset(addr, 8);
    let o = align_offset(addr, m);
    // addr + o is a multiple of m, so of 8
    assert((addr + o) % 8 == 0) by {
        vstd::arithmetic::div_mod::lemma_fundamental_div_mod(addr + o, m);
        let k = (addr + o) / m;
        let j = m / 8;
        vstd::arithmetic::div_mod::lemma_fundamental_div_mod(m, 8);
        assert(addr + o == (k * j) * 8) by (nonlinear_arith)
            requires
                addr + o == m * k + (addr + o) % m,
                (addr + o) % m == 0,
                m == 8 * j + m % 8,
                m % 8 == 0,
        ;
        vstd::arithmetic::div_mod::lemma_mod_multiples_basic(k * j, 8);
    }
    // the smallest such padding is the one to 8
    let p = align_offset(addr, 8);
    if o < p {
        vstd::arithmetic::div_mod::lemma_fundamental_div_mod(addr, 8);
        vstd::arithmetic::div_mod::lemma_fundamental_div_mod(addr + o, 8);
        assert(false) by (nonlinear_arith)
            requires
                0 <= o < p < 8,
                (addr + o) % 8 == 0,
                (addr + p) % 8 == 0,
                addr == 8 * (addr / 8) + addr % 8,
                addr + o == 8 * ((addr + o) / 8) + (addr + o) % 8,
                addr + p == 8 * ((addr + p) / 8) + (addr + p) % 8,
        {
            vstd::arithmetic::div_mod::lemma_fundamental_div_mod(addr + p, 8);
        }
    }
}

/// The data of a block lies at a multiple of its layout's alignment, with
/// the node right before it and after the block's start.
pub proof fn law_data_aligned(meta: MetaData)
    requires
        meta.fits(),
    ensures
        meta.spec_data() % (meta.layout.spec_align() as int) == 0,
        meta.base <= meta.spec_meta(),
        meta.spec_meta() + NODE_SIZE == meta.spec_data(),
        meta.spec_data() + meta.layout.spec_size() == meta.base + meta.spec_total(),
{
    let a = meta.layout.spec_align();
    let m = block_align(a as int) as usize;
    lemma_block_align(a as int);
    lemma_align_offset(meta.base as int, m as int);
    lemma_round_up(NODE_SIZE as int, a as int);
    let o = align_offset(meta.base as int, m as int);
    let rn = round_up(NODE_SIZE as int, a as int);
    assert((meta.base + o + rn) % (a as int) == 0) by {
        vstd::arithmetic::div_mod::lemma_fundamental_div_mod(meta.base + o, m as int);
        vstd::arithmetic::div_mod::lemma_fundamental_div_mod(m as int, a as int);
        vstd::arithmetic::div_mod::lemma_fundamental_div_mod(rn, a as int);
        let k = (meta.base + o) / (m as int);
        let j = (m as int) / (a as int);
        let t = rn / (a as int);
        assert(meta.base + o + rn == (k * j + t) * a) by (nonlinear_arith)
            requires
                meta.base + o == m * k + (meta.base + o) % (m as int),
                (meta.base + o) % (m as int) == 0,
                m == a * j + (m as int) % (a as int),
                (m as int) % (a as int) == 0,
                rn == a * t + rn % (a as int),
                rn % (a as int) == 0,
        ;
        vstd::arithmetic::div_mod::lemma_mod_multiples_basic(k * j + t, a as int);
    }
}

/// `a` ends where `b` starts.
pub open spec fn adjacent(a: MetaData, b: MetaData) -> bool {
    a.spec_end() == b.base
}

/// `a` grown by the whole of `b`, which follows it.
pub open spec fn grown(a: MetaData, b: MetaData) -> MetaData {
    MetaData {
        base: a.base,
        layout: a.layout.spec_with_size((a.layout.spec_size() + b.spec_total()) as usize),
    }
}

/// The blocks come in address order and none overlaps a later one.
pub open spec fn ordered(s: Seq<MetaData>) -> bool {
    forall|i: int, j: int| 0 <= i < j < s.len() ==> #[trigger] s[i].spec_end() <= #[trigger] s[j].base
}

/// Every block has a valid layout and lies within `lo .. hi`.
pub open spec fn within(s: Seq<MetaData>, lo: int, hi: int) -> bool {
    forall|i: int|
        0 <= i < s.len() ==> (#[trigger] s[i]).layout.wf() && lo <= s[i].base && s[i].spec_end()
            <= hi
}

/// `b` overlaps none of the blocks of `s`.
pub open spec fn apart(s: Seq<MetaData>, b: MetaData) -> bool {
    forall|i: int|
        0 <= i < s.len() ==> (#[trigger] s[i]).spec_end() <= b.base || b.spec_end() <= s[i].base
}

/// Where a block starting at `base` goes in `s`: before the first block
/// that starts above it, or at the end.
pub open spec fn insert_index(s: Seq<MetaData>, base: usize) -> int
    decreases s.len(),
{
    if s.len() == 0 {
        0
    } else if s[0].base > base {
        0
    } else {
        1 + insert_index(s.drop_first(), base)
    }
}

/// `s` with the block at `i` grown over the next one when they touch.
pub open spec fn merge_at(s: Seq<MetaData>, i: int) -> Seq<MetaData> {
    if 0 <= i && i + 1 < s.len() && adjacent(s[i], s[i + 1]) {
        s.update(i, grown(s[i], s[i + 1])).remove(i + 1)
    } else {
        s
    }
}

/// The free list after `node` is given back: put in address order, then
/// merged with the block after it and with the block before it, when they
/// touch.
pub open spec fn free_result(s: Seq<MetaData>, node: MetaData) -> Seq<MetaData> {
    let i = insert_index(s, node.base);
    merge_at(merge_at(s.insert(i, node), i), i - 1)
}

/// Every address that a block of `s` spans.
pub open spec fn covered(s: Seq<MetaData>, x: int) -> bool {
    exists|i: int| 0 <= i < s.len() && #[trigger] s[i].base <= x < s[i].spec_end()
}

proof fn lemma_insert_index(s: Seq<MetaData>, base: usize, i: int)
    requires
        0 <= i <= s.len(),
        forall|k: int| 0 <= k < i ==> #[trigger] s[k].base <= base,
        i == s.len() || s[i].base > base,
    ensures
        insert_index(s, base) == i,
    decreases s.len(),
{
    if s.len() > 0 && i > 0 {
        assert(s[0].base <= base);
        let t = s.drop_first();
        assert forall|k: int| 0 <= k < i - 1 implies #[trigger] t[k].base <= base by {
            assert(t[k] == s[k + 1]);
        }
        lemma_insert_index(t, base, i - 1);
    }
}

/// A block has room for its node.
proof fn lemma_total_positive(b: MetaData)
    requires
        b.layout.wf(),
    ensures
        b.spec_extra() >= NODE_SIZE,
        b.spec_total() >= NODE_SIZE,
{
    lemma_round_up(NODE_SIZE as int, b.layout.spec_align() as int);
    lemma_block_align(b.layout.spec_align() as int);
    lemma_align_offset(b.base as int, block_align(b.layout.spec_align() as int));
}

/// Any size up to a quarter of the address space, with the alignment of a
/// block that lies above address zero, makes a layout.
proof fn lemma_layout_fits(b: MetaData, size: int)
    requires
        b.fits(),
        b.base > 0,
        0 <= size,
        2 * size <= isize::MAX,
    ensures
        valid_layout(size as usize, b.layout.spec_align()),
{
    let a = b.layout.spec_align() as int;
    lemma_block_align(a);
    law_data_aligned(b);
    lemma_round_up(size, a);
    lemma_round_up(NODE_SIZE as int, a);
    lemma_align_offset(b.base as int, block_align(a));
    assert(usize::MAX == 2 * isize::MAX + 1);
    // the data lies above `a` and is a multiple of it, so twice `a` fits
    if a >= NODE_SIZE {
        let d = b.spec_data();
        assert(round_up(NODE_SIZE as int, a) == a) by {
            if a > NODE_SIZE {
                vstd::arithmetic::div_mod::lemma_small_mod(NODE_SIZE as nat, a as nat);
            } else {
                vstd::arithmetic::div_mod::lemma_mod_self_0(a);
            }
        }
        assert(d > a);
        vstd::arithmetic::div_mod::lemma_fundamental_div_mod(d, a);
        let q = d / a;
        assert(q >= 2) by (nonlinear_arith)
            requires
                d == a * q + d % a,
                d % a == 0,
                d > a,
                a > 0,
        ;
        assert(2 * a <= d) by (nonlinear_arith)
            requires
                d == a * q,
                q >= 2,
                a > 0,
        ;
    }
    if size < a {
        vstd::arithmetic::div_mod::lemma_small_mod(size as nat, a as nat);
    } else if size == a {
        vstd::arithmetic::div_mod::lemma_mod_self_0(a);
    }
}

/// Putting `node` where `insert_index` says keeps the list in order when it
/// overlaps no block.
#[verifier::rlimit(30)]
proof fn lemma_insert_ordered(s: Seq<MetaData>, node: MetaData, i: int)
    requires
        ordered(s),
        apart(s, node),
        node.layout.wf(),
        0 <= i <= s.len(),
        forall|k: int| 0 <= k < i ==> #[trigger] s[k].base <= node.base,
        i == s.len() || s[i].base > node.base,
        forall|k: int| 0 <= k < s.len() ==> (#[trigger] s[k]).layout.wf(),
    ensures
        ordered(s.insert(i, node)),
{
    lemma_total_positive(node);
    let t = s.insert(i, node);
    assert forall|a: int, b: int| 0 <= a < b < t.len() implies #[trigger] t[a].spec_end()
        <= #[trigger] t[b].base by {
        if a < i && b == i {
            assert(s[a].spec_end() <= node.base || node.spec_end() <= s[a].base);
            assert(s[a].base <= node.base);
        } else if a == i && b > i {
            let k = b - 1;
            assert(t[b] == s[k]);
            lemma_total_positive(s[k]);
            if k > i {
                assert(s[i].spec_end() <= s[k].base);
                lemma_total_positive(s[i]);
            }
            assert(s[k].base > node.base);
            assert(s[k].spec_end() <= node.base || node.spec_end() <= s[k].base);
        } else if a < i && b > i {
            assert(t[a] == s[a]);
            assert(t[b] == s[b - 1]);
        } else if a > i {
            assert(t[a] == s[a - 1]);
            assert(t[b] == s[b - 1]);
        } else {
            assert(t[a] == s[a]);
            assert(t[b] == s[b]);
        }
    }
}

/// Merging two touching neighbours keeps the list in order and within its
/// bounds.
#[verifier::spinoff_prover]
#[verifier::rlimit(40)]
proof fn lemma_merge_at(s: Seq<MetaData>, i: int, lo: int, hi: int)
    requires
        ordered(s),
        within(s, lo, hi),
        lo > 0,
        2 * (hi - lo) <= isize::MAX,
        hi <= usize::MAX,
    ensures
        ordered(merge_at(s, i)),
        within(merge_at(s, i), lo, hi),
        forall|x: int| covered(merge_at(s, i), x) <==> covered(s, x),
{
    if 0 <= i && i + 1 < s.len() && adjacent(s[i], s[i + 1]) {
        let g = grown(s[i], s[i + 1]);
        lemma_total_positive(s[i + 1]);
        assert(s[i].fits());
        lemma_layout_fits(s[i], s[i].layout.spec_size() + s[i + 1].spec_total());
        assert(g.spec_extra() == s[i].spec_extra());
        assert(g.spec_end() == s[i + 1].spec_end());
        let t = s.update(i, g).remove(i + 1);
        assert forall|a: int, b: int| 0 <= a < b < t.len() implies #[trigger] t[a].spec_end()
            <= #[trigger] t[b].base by {
            if a < i {
                assert(t[a] == s[a]);
            } else if a == i {
                assert(t[a] == g);
                assert(t[b] == s[b + 1]);
            } else {
                assert(t[a] == s[a + 1]);
            }
            if b < i {
                assert(t[b] == s[b]);
            } else if b == i {
                assert(t[b] == g);
            } else {
                assert(t[b] == s[b + 1]);
            }
        }
        assert forall|a: int| 0 <= a < t.len() implies (#[trigger] t[a]).layout.wf() && lo
            <= t[a].base && t[a].spec_end() <= hi by {
            if a < i {
                assert(t[a] == s[a]);
            } else if a == i {
                assert(t[a] == g);
            } else {
                assert(t[a] == s[a + 1]);
            }
        }
        assert forall|x: int| covered(t, x) <==> covered(s, x) by {
            if covered(t, x) {
                let a = choose|a: int| 0 <= a < t.len() && #[trigger] t[a].base <= x < t[a].spec_end();
                if a < i {
                    assert(t[a] == s[a]);
                } else if a == i {
                    if x < s[i].spec_end() {
                        assert(s[i].base <= x < s[i].spec_end());
                    } else {
                        assert(s[i + 1].base <= x < s[i + 1].spec_end());
                    }
                } else {
                    assert(t[a] == s[a + 1]);
                }
            }
            if covered(s, x) {
                let a = choose|a: int| 0 <= a < s.len() && #[trigger] s[a].base <= x < s[a].spec_end();
                if a < i {
                    assert(t[a] == s[a]);
                } else if a == i || a == i + 1 {
                    assert(t[i] == g);
                    assert(t[i].base <= x < t[i].spec_end());
                } else {
                    assert(t[a - 1] == s[a]);
                }
            }
        }
    }
}

/// Index of the first block of `s` that can hold data of layout `lay`, or
/// the length of `s` when none can.
pub open spec fn first_fit(s: Seq<MetaData>, lay: Layout) -> int
    decreases s.len(),
{
    if s.len() == 0 {
        0
    } else if s[0].compatible(lay) {
        0
    } else {
        1 + first_fit(s.drop_first(), lay)
    }
}

/// The block for data of layout `lay` at the start of `b` lies within `b`.
pub open spec fn split_fits(b: MetaData, lay: Layout) -> bool {
    MetaData { base: b.base, layout: lay }.spec_total() <= b.spec_total()
}

/// The free block `b` cut for data of layout `lay`: a block for that data at
/// its start and, when what is left can hold a node and at least one byte,
/// a free block over the rest; otherwise the first block takes it all.
pub open spec fn split_parts(b: MetaData, lay: Layout) -> (MetaData, Option<MetaData>) {
    let lhs = MetaData { base: b.base, layout: lay };
    let rest = b.spec_total() - lhs.spec_total();
    let rhs_base = b.base + lhs.spec_total();
    let required = align_offset(rhs_base, NODE_ALIGN as int) + NODE_SIZE;
    if rest > required {
        (
            lhs,
            Some(
                MetaData {
                    base: rhs_base as usize,
                    layout: Layout::spec_new((rest - required) as usize, NODE_ALIGN),
                },
            ),
        )
    } else {
        (
            MetaData { base: b.base, layout: lay.spec_with_size((lay.spec_size() + rest) as usize) },
            None,
        )
    }
}

/// The free list after data of layout `lay` is taken from its first block
/// that can hold it.
pub open spec fn alloc_result(s: Seq<MetaData>, lay: Layout) -> Seq<MetaData> {
    let i = first_fit(s, lay);
    match split_parts(s[i], lay).1 {
        Some(r) => free_result(s.remove(i), r),
        None => s.remove(i),
    }
}

/// The free block a fresh page at `base` makes: its node at the first
/// node-aligned address, the rest of the page for data.
pub open spec fn blank_page(base: usize) -> MetaData {
    MetaData {
        base,
        layout: Layout::spec_new(
            (PS_USIZE - align_offset(base as int, NODE_ALIGN as int) - NODE_SIZE) as usize,
            NODE_ALIGN,
        ),
    }
}

/// What one step of an allocation gives.
pub enum AllocStep {
    /// Where the data starts.
    Done(usize),
    /// No free block can hold the data: a page must be added first.
    NeedPage,
}

proof fn lemma_first_fit(s: Seq<MetaData>, lay: Layout, i: int)
    requires
        0 <= i <= s.len(),
        forall|k: int| 0 <= k < i ==> !(#[trigger] s[k]).compatible(lay),
        i == s.len() || s[i].compatible(lay),
    ensures
        first_fit(s, lay) == i,
    decreases s.len(),
{
    if s.len() > 0 && i > 0 {
        assert(!s[0].compatible(lay));
        let t = s.drop_first();
        assert forall|k: int| 0 <= k < i - 1 implies !(#[trigger] t[k]).compatible(lay) by {
            assert(t[k] == s[k + 1]);
        }
        lemma_first_fit(t, lay, i - 1);
    }
}

/// A power of two that fits in an `isize` is at most half the size of its
/// range.
proof fn lemma_pow2_half(a: int)
    requires
        is_pow2(a),
        a <= isize::MAX,
    ensures
        2 * a <= isize::MAX + 1,
{
    reveal_with_fuel(is_pow2, 65);
    let top = isize::MAX + 1;
    if isize::MAX == 0x7fff_ffff {
        assert(is_pow2(0x8000_0000));
    } else {
        assert(isize::MAX == 0x7fff_ffff_ffff_ffff);
        assert(is_pow2(0x8000_0000_0000_0000));
    }
    lemma_pow2_divides(a, top);
    vstd::arithmetic::div_mod::lemma_fundamental_div_mod(top, a);
    let k = top / a;
    assert(2 * a <= top) by (nonlinear_arith)
        requires
            top == a * k + top % a,
            top % a == 0,
            a < top,
            a > 0,
    ;
}

/// The parts of a split tile the block.
#[verifier::rlimit(30)]
proof fn lemma_split_parts(b: MetaData, lay: Layout, lo: int, hi: int)
    requires
        b.layout.wf(),
        lo <= b.base,
        b.spec_end() <= hi,
        lo > 0,
        2 * (hi - lo) <= isize::MAX,
        hi <= usize::MAX,
        lay.wf(),
        split_fits(b, lay),
    ensures
        ({
            let (lhs, rest) = split_parts(b, lay);
            &&& lhs.base == b.base
            &&& lhs.layout.wf()
            &&& lhs.layout.spec_align() == lay.spec_align()
            &&& lhs.layout.spec_size() >= lay.spec_size()
            &&& lhs.spec_extra() == (MetaData { base: b.base, layout: lay }).spec_extra()
            &&& match rest {
                Some(r) => {
                    &&& lhs.spec_end() == r.base
                    &&& r.spec_end() == b.spec_end()
                    &&& r.layout.wf()
                    &&& lhs == (MetaData { base: b.base, layout: lay })
                },
                None => lhs.spec_end() == b.spec_end(),
            }
        }),
{
    let lhs0 = MetaData { base: b.base, layout: lay };
    let rest = b.spec_total() - lhs0.spec_total();
    let rhs_base = b.base + lhs0.spec_total();
    lemma_total_positive(lhs0);
    lemma_align_offset(rhs_base, NODE_ALIGN as int);
    if rest > align_offset(rhs_base, NODE_ALIGN as int) + NODE_SIZE {
        let r = split_parts(b, lay).1.unwrap();
        let size = rest - align_offset(rhs_base, NODE_ALIGN as int) - NODE_SIZE;
        reveal_with_fuel(is_pow2, 4);
        lemma_round_up(size, 8);
        lemma_round_up(NODE_SIZE as int, 8);
        assert(r.layout.wf());
        assert(r.spec_extra() == NODE_SIZE + align_offset(rhs_base, NODE_ALIGN as int));
    } else {
        assert(lhs0.fits());
        lemma_layout_fits(lhs0, lay.spec_size() + rest);
    }
}

/// Taking a block out of an ordered list leaves it ordered and uncovers
/// exactly its bytes.
#[verifier::rlimit(30)]
proof fn lemma_remove(s: Seq<MetaData>, i: int, lo: int, hi: int)
    requires
        ordered(s),
        within(s, lo, hi),
        0 <= i < s.len(),
    ensures
        ordered(s.remove(i)),
        within(s.remove(i), lo, hi),
        apart(s.remove(i), s[i]),
        forall|x: int|
            covered(s.remove(i), x) <==> (covered(s, x) && !(s[i].base <= x < s[i].spec_end())),
{
    let t = s.remove(i);
    assert forall|a: int, b: int| 0 <= a < b < t.len() implies #[trigger] t[a].spec_end()
        <= #[trigger] t[b].base by {
        if a < i {
            assert(t[a] == s[a]);
        } else {
            assert(t[a] == s[a + 1]);
        }
        if b < i {
            assert(t[b] == s[b]);
        } else {
            assert(t[b] == s[b + 1]);
        }
    }
    assert forall|a: int| 0 <= a < t.len() implies (#[trigger] t[a]).layout.wf() && lo <= t[a].base
        && t[a].spec_end() <= hi by {
        if a < i {
            assert(t[a] == s[a]);
        } else {
            assert(t[a] == s[a + 1]);
        }
    }
    assert forall|a: int| 0 <= a < t.len() implies (#[trigger] t[a]).spec_end() <= s[i].base
        || s[i].spec_end() <= t[a].base by {
        if a < i {
            assert(t[a] == s[a]);
        } else {
            assert(t[a] == s[a + 1]);
            lemma_total_positive(s[i]);
        }
    }
    assert forall|x: int|
        covered(t, x) <==> (covered(s, x) && !(s[i].base <= x < s[i].spec_end())) by {
        if covered(t, x) {
            let a = choose|a: int| 0 <= a < t.len() && #[trigger] t[a].base <= x < t[a].spec_end();
            if a < i {
                assert(t[a] == s[a]);
                assert(s[a].spec_end() <= s[i].base);
            } else {
                assert(t[a] == s[a + 1]);
                assert(s[i].spec_end() <= s[a + 1].base);
            }
        }
        if covered(s, x) && !(s[i].base <= x < s[i].spec_end()) {
            let a = choose|a: int| 0 <= a < s.len() && #[trigger] s[a].base <= x < s[a].spec_end();
            if a < i {
                assert(t[a] == s[a]);
            } else {
                assert(t[a - 1] == s[a]);
            }
        }
    }
}

/// Giving back a block that overlaps no free block adds exactly its bytes.
#[verifier::rlimit(30)]
proof fn lemma_free_result(s: Seq<MetaData>, node: MetaData, lo: int, hi: int)
    requires
        ordered(s),
        within(s, lo, hi),
        apart(s, node),
        node.layout.wf(),
        lo <= node.base,
        node.spec_end() <= hi,
        lo > 0,
        2 * (hi - lo) <= isize::MAX,
        hi <= usize::MAX,
    ensures
        ordered(free_result(s, node)),
        within(free_result(s, node), lo, hi),
        forall|x: int|
            covered(free_result(s, node), x) <==> (covered(s, x) || (node.base <= x
                < node.spec_end())),
{
    let i = insert_index(s, node.base);
    lemma_insert_index_props(s, node.base);
    lemma_insert_ordered(s, node, i);
    let t = s.insert(i, node);
    assert forall|k: int| 0 <= k < t.len() implies (#[trigger] t[k]).layout.wf() && lo <= t[k].base
        && t[k].spec_end() <= hi by {
        if k < i {
            assert(t[k] == s[k]);
        } else if k > i {
            assert(t[k] == s[k - 1]);
        }
    }
    assert forall|x: int| covered(t, x) <==> (covered(s, x) || (node.base <= x < node.spec_end())) by {
        if covered(t, x) {
            let a = choose|a: int| 0 <= a < t.len() && #[trigger] t[a].base <= x < t[a].spec_end();
            if a < i {
                assert(t[a] == s[a]);
            } else if a > i {
                assert(t[a] == s[a - 1]);
            }
        }
        if covered(s, x) {
            let a = choose|a: int| 0 <= a < s.len() && #[trigger] s[a].base <= x < s[a].spec_end();
            if a < i {
                assert(t[a] == s[a]);
            } else {
                assert(t[a + 1] == s[a]);
            }
        }
        if node.base <= x < node.spec_end() {
            assert(t[i] == node);
        }
    }
    lemma_merge_at(t, i, lo, hi);
    lemma_merge_at(merge_at(t, i), i - 1, lo, hi);
}

/// `insert_index` is the first index of a block that starts above `base`.
proof fn lemma_insert_index_props(s: Seq<MetaData>, base: usize)
    ensures
        0 <= insert_index(s, base) <= s.len(),
        forall|k: int| 0 <= k < insert_index(s, base) ==> #[trigger] s[k].base <= base,
        insert_index(s, base) == s.len() || s[insert_index(s, base)].base > base,
    decreases s.len(),
{
    if s.len() > 0 && s[0].base <= base {
        let t = s.drop_first();
        lemma_insert_index_props(t, base);
        assert forall|k: int| 0 <= k < insert_index(s, base) implies #[trigger] s[k].base <= base by {
            if k > 0 {
                assert(s[k] == t[k - 1]);
            }
        }
        if insert_index(s, base) < s.len() {
            assert(s[insert_index(s, base)] == t[insert_index(t, base)]);
        }
    }
}

/// `first_fit` is the first index of a block that can hold the data.
proof fn lemma_first_fit_props(s: Seq<MetaData>, lay: Layout)
    ensures
        0 <= first_fit(s, lay) <= s.len(),
        forall|k: int| 0 <= k < first_fit(s, lay) ==> !(#[trigger] s[k]).compatible(lay),
        first_fit(s, lay) == s.len() || s[first_fit(s, lay)].compatible(lay),
    decreases s.len(),
{
    if s.len() > 0 && !s[0].compatible(lay) {
        let t = s.drop_first();
        lemma_first_fit_props(t, lay);
        assert forall|k: int| 0 <= k < first_fit(s, lay) implies !(#[trigger] s[k]).compatible(lay) by {
            if k > 0 {
                assert(s[k] == t[k - 1]);
            }
        }
        if first_fit(s, lay) < s.len() {
            assert(s[first_fit(s, lay)] == t[first_fit(t, lay)]);
        }
    }
}

/// No two neighbours of the free list touch: every freed block has been
/// merged with the blocks around it.
pub open spec fn coalesced(s: Seq<MetaData>) -> bool {
    forall|i: int| 0 <= i < s.len() - 1 ==> !adjacent(#[trigger] s[i], s[i + 1])
}

/// A block grown over the block that follows it within the heap keeps its
/// start and alignment, ends where the other did, and has a valid layout.
proof fn lemma_grown(t: Seq<MetaData>, i: int, lo: int, hi: int)
    requires
        within(t, lo, hi),
        lo > 0,
        2 * (hi - lo) <= isize::MAX,
        hi <= usize::MAX,
        0 <= i,
        i + 1 < t.len(),
        adjacent(t[i], t[i + 1]),
    ensures
        grown(t[i], t[i + 1]).base == t[i].base,
        grown(t[i], t[i + 1]).layout.spec_align() == t[i].layout.spec_align(),
        grown(t[i], t[i + 1]).spec_end() == t[i + 1].spec_end(),
        grown(t[i], t[i + 1]).layout.wf(),
{
    let g = grown(t[i], t[i + 1]);
    lemma_total_positive(t[i + 1]);
    assert(t[i].fits());
    lemma_layout_fits(t[i], t[i].layout.spec_size() + t[i + 1].spec_total());
    assert(g.spec_extra() == t[i].spec_extra());
}

/// Merging at `i`, where the list was merged but for the pairs at `i - 1`
/// and `i`, leaves only the pair at `i - 1` unmerged.
#[verifier::rlimit(80)]
proof fn lemma_merge_at_coalesced(t: Seq<MetaData>, i: int, lo: int, hi: int)
    requires
        ordered(t),
        within(t, lo, hi),
        lo > 0,
        2 * (hi - lo) <= isize::MAX,
        hi <= usize::MAX,
        0 <= i < t.len(),
        forall|k: int| 0 <= k < t.len() - 1 && k != i && k != i - 1 ==> !adjacent(#[trigger] t[k], t[k + 1]),
    ensures
        forall|k: int|
            0 <= k < merge_at(t, i).len() - 1 && k != i - 1 ==> !adjacent(
                #[trigger] merge_at(t, i)[k],
                merge_at(t, i)[k + 1],
            ),
        i > 0 ==> merge_at(t, i)[i - 1] == t[i - 1],
        i < merge_at(t, i).len(),
        merge_at(t, i)[i].base == t[i].base,
        merge_at(t, i)[i].layout.spec_align() == t[i].layout.spec_align(),
        i + 1 < t.len() && !adjacent(t[i], t[i + 1]) ==> merge_at(t, i) == t,
        i + 1 < t.len() && adjacent(t[i], t[i + 1]) && i + 2 < t.len() ==> merge_at(t, i)[i].spec_end()
            == t[i + 1].spec_end(),
{
    let u = merge_at(t, i);
    if i + 1 < t.len() && adjacent(t[i], t[i + 1]) {
        lemma_grown(t, i, lo, hi);
        let g = grown(t[i], t[i + 1]);
        assert(u[i] == g);
        assert forall|k: int| 0 <= k < u.len() - 1 && k != i - 1 implies !adjacent(
            #[trigger] u[k],
            u[k + 1],
        ) by {
            if k < i - 1 {
                assert(u[k] == t[k] && u[k + 1] == t[k + 1]);
            } else if k == i {
                assert(u[k + 1] == t[k + 2]);
                assert(!adjacent(t[i + 1], t[i + 2]));
            } else {
                assert(u[k] == t[k + 1] && u[k + 1] == t[k + 2]);
            }
        }
    }
}

/// Giving a block back to a merged free list leaves it merged.
#[verifier::rlimit(80)]
proof fn lemma_free_coalesced(s: Seq<MetaData>, node: MetaData, lo: int, hi: int)
    requires
        ordered(s),
        within(s, lo, hi),
        coalesced(s),
        apart(s, node),
        node.layout.wf(),
        lo <= node.base,
        node.spec_end() <= hi,
        lo > 0,
        2 * (hi - lo) <= isize::MAX,
        hi <= usize::MAX,
    ensures
        coalesced(free_result(s, node)),
{
    let i = insert_index(s, node.base);
    lemma_insert_index_props(s, node.base);
    lemma_insert_ordered(s, node, i);
    let t = s.insert(i, node);
    assert(within(t, lo, hi)) by {
        assert forall|k: int| 0 <= k < t.len() implies (#[trigger] t[k]).layout.wf() && lo
            <= t[k].base && t[k].spec_end() <= hi by {
            if k < i {
                assert(t[k] == s[k]);
            } else if k > i {
                assert(t[k] == s[k - 1]);
            }
        }
    }
    assert forall|k: int| 0 <= k < t.len() - 1 && k != i && k != i - 1 implies !adjacent(
        #[trigger] t[k],
        t[k + 1],
    ) by {
        if k < i - 1 {
            assert(t[k] == s[k] && t[k + 1] == s[k + 1]);
        } else {
            assert(t[k] == s[k - 1] && t[k + 1] == s[k]);
        }
    }
    lemma_merge_at_coalesced(t, i, lo, hi);
    lemma_merge_at(t, i, lo, hi);
    let t1 = merge_at(t, i);
    if i > 0 {
        // the pair around `i` is not merged: the block before `node` did not
        // touch the block after it
        assert forall|k: int| 0 <= k < t1.len() - 1 && k != i - 1 && k != i - 2 implies !adjacent(
            #[trigger] t1[k],
            t1[k + 1],
        ) by {}
        if i + 1 < t.len() && adjacent(t[i], t[i + 1]) && i + 2 < t.len() {
            // the block after the grown one did not touch the one it grew over
            assert(t[i + 2] == s[i + 1]);
            assert(t[i + 1] == s[i]);
            assert(t1[i + 1] == t[i + 2]);
            assert(!adjacent(s[i], s[i + 1]));
        }
        assert(t1[i - 1] == s[i - 1]);
        lemma_merge_at_coalesced(t1, i - 1, lo, hi);
        let t2 = merge_at(t1, i - 1);
        assert forall|k: int| 0 <= k < t2.len() - 1 implies !adjacent(#[trigger] t2[k], t2[k + 1]) by {
            if k == i - 2 {
                if adjacent(t1[i - 1], t1[i]) {
                    assert(t2[i - 2] == t1[i - 2]);
                    assert(t2[i - 1].base == t1[i - 1].base);
                    assert(t1[i - 2] == s[i - 2] && t1[i - 1] == s[i - 1]);
                } else {
                    assert(t2 == t1);
                    assert(t1[i - 2] == s[i - 2] && t1[i - 1] == s[i - 1]);
                }
            } else if k == i - 1 {
                if adjacent(t1[i - 1], t1[i]) {
                    if i + 1 < t1.len() {
                        lemma_total_positive(t1[i]);
                        assert(t2[i - 1].spec_end() == t1[i].spec_end());
                        assert(t2[i] == t1[i + 1]);
                    }
                }
            }
        }
    } else {
        assert forall|k: int| 0 <= k < t1.len() - 1 implies !adjacent(#[trigger] t1[k], t1[k + 1]) by {
        }
    }
}

/// Taking data from a merged free list leaves it merged.
#[verifier::rlimit(30)]
proof fn lemma_alloc_coalesced(s: Seq<MetaData>, lay: Layout, lo: int, hi: int)
    requires
        ordered(s),
        within(s, lo, hi),
        coalesced(s),
        lo > 0,
        2 * (hi - lo) <= isize::MAX,
        hi <= usize::MAX,
        lay.wf(),
        first_fit(s, lay) < s.len(),
        split_fits(s[first_fit(s, lay)], lay),
    ensures
        coalesced(alloc_result(s, lay)),
{
    let i = first_fit(s, lay);
    let b = s[i];
    lemma_first_fit_props(s, lay);
    lemma_remove(s, i, lo, hi);
    lemma_split_parts(b, lay, lo, hi);
    let u = s.remove(i);
    assert forall|k: int| 0 <= k < u.len() - 1 implies !adjacent(#[trigger] u[k], u[k + 1]) by {
        if k < i - 1 {
            assert(u[k] == s[k] && u[k + 1] == s[k + 1]);
        } else if k == i - 1 {
            assert(u[k] == s[i - 1] && u[k + 1] == s[i + 1]);
            lemma_total_positive(s[i]);
            assert(s[i - 1].spec_end() <= s[i].base);
            assert(s[i].spec_end() <= s[i + 1].base);
        } else {
            assert(u[k] == s[k + 1] && u[k + 1] == s[k + 2]);
        }
    }
    match split_parts(b, lay).1 {
        Some(r) => {
            assert(apart(u, r)) by {
                assert forall|k: int| 0 <= k < u.len() implies (#[trigger] u[k]).spec_end() <= r.base
                    || r.spec_end() <= u[k].base by {
                    assert(u[k].spec_end() <= b.base || b.spec_end() <= u[k].base);
                }
            }
            lemma_free_coalesced(u, r, lo, hi);
        },
        None => {},
    }
}

/// The bytes a free list covers once a block spanning the page at `pg` is
/// given back: those it covered and the page's.
proof fn lemma_page_cover(s: Seq<MetaData>, t: Seq<MetaData>, meta: MetaData, pg: int, lo: int, hi: int)
    requires
        t == free_result(s, meta),
        ordered(s),
        within(s, lo, hi),
        apart(s, meta),
        meta.layout.wf(),
        lo <= meta.base,
        meta.spec_end() <= hi,
        lo > 0,
        2 * (hi - lo) <= isize::MAX,
        hi <= usize::MAX,
        meta.base == pg,
        meta.spec_end() == pg + PS_USIZE,
    ensures
        forall|x: int| covered(t, x) <==> (covered(s, x) || (pg <= x < pg + PS_USIZE)),
{
    lemma_free_result(s, meta, lo, hi);
}

/// Two allocations in a row get blocks that do not overlap: the second is
/// cut from bytes the first left free.
#[verifier::rlimit(30)]
pub proof fn law_allocations_do_not_overlap(
    s: Seq<MetaData>,
    lay1: Layout,
    lay2: Layout,
    lo: int,
    hi: int,
)
    requires
        ordered(s),
        within(s, lo, hi),
        lo > 0,
        2 * (hi - lo) <= isize::MAX,
        hi <= usize::MAX,
        lay1.wf(),
        lay2.wf(),
        first_fit(s, lay1) < s.len(),
        split_fits(s[first_fit(s, lay1)], lay1),
        first_fit(alloc_result(s, lay1), lay2) < alloc_result(s, lay1).len(),
        split_fits(alloc_result(s, lay1)[first_fit(alloc_result(s, lay1), lay2)], lay2),
    ensures
        ({
            let a = split_parts(s[first_fit(s, lay1)], lay1).0;
            let t = alloc_result(s, lay1);
            let b = split_parts(t[first_fit(t, lay2)], lay2).0;
            a.spec_end() <= b.base || b.spec_end() <= a.base
        }),
{
    let t = alloc_result(s, lay1);
    let a = split_parts(s[first_fit(s, lay1)], lay1).0;
    lemma_alloc_result(s, lay1, lo, hi);
    lemma_first_fit_props(t, lay2);
    let j = first_fit(t, lay2);
    let c = t[j];
    lemma_split_parts(c, lay2, lo, hi);
    let b = split_parts(c, lay2).0;
    lemma_total_positive(a);
    lemma_total_positive(b);
    if !(a.spec_end() <= b.base || b.spec_end() <= a.base) {
        let x = if a.base <= b.base {
            b.base as int
        } else {
            a.base as int
        };
        assert(c.base <= x < c.spec_end());
        assert(covered(t, x));
        assert(a.base <= x < a.spec_end());
    }
}

/// A list that covers no byte of `b` overlaps it nowhere.
proof fn lemma_apart_from_cover(t: Seq<MetaData>, b: MetaData)
    requires
        forall|k: int| 0 <= k < t.len() ==> (#[trigger] t[k]).layout.wf(),
        b.layout.wf(),
        forall|x: int| b.base <= x < b.spec_end() ==> !covered(t, x),
    ensures
        apart(t, b),
{
    lemma_total_positive(b);
    assert forall|k: int| 0 <= k < t.len() implies (#[trigger] t[k]).spec_end() <= b.base
        || b.spec_end() <= t[k].base by {
        if !(t[k].spec_end() <= b.base || b.spec_end() <= t[k].base) {
            lemma_total_positive(t[k]);
            let x = if t[k].base <= b.base {
                b.base as int
            } else {
                t[k].base as int
            };
            assert(t[k].base <= x < t[k].spec_end());
            assert(covered(t, x));
            assert(b.base <= x < b.spec_end());
        }
    }
}

/// Taking data of layout `lay` from the first free block that can hold it
/// keeps the list in order and within its bounds, and uncovers exactly the
/// bytes of the block the data gets.
#[verifier::rlimit(30)]
proof fn lemma_alloc_result(s: Seq<MetaData>, lay: Layout, lo: int, hi: int)
    requires
        ordered(s),
        within(s, lo, hi),
        lo > 0,
        2 * (hi - lo) <= isize::MAX,
        hi <= usize::MAX,
        lay.wf(),
        first_fit(s, lay) < s.len(),
        split_fits(s[first_fit(s, lay)], lay),
    ensures
        ({
            let b = s[first_fit(s, lay)];
            let lhs = split_parts(b, lay).0;
            let t = alloc_result(s, lay);
            &&& ordered(t)
            &&& within(t, lo, hi)
            &&& lhs.layout.wf()
            &&& lhs.base == b.base
            &&& lhs.spec_end() <= b.spec_end()
            &&& lo <= lhs.base
            &&& lhs.spec_end() <= hi
            &&& forall|x: int| covered(t, x) <==> (covered(s, x) && !(lhs.base <= x < lhs.spec_end()))
        }),
{
    let i = first_fit(s, lay);
    let b = s[i];
    lemma_first_fit_props(s, lay);
    lemma_remove(s, i, lo, hi);
    lemma_split_parts(b, lay, lo, hi);
    lemma_total_positive(b);
    let (lhs, rest) = split_parts(b, lay);
    let u = s.remove(i);
    let t = alloc_result(s, lay);
    match rest {
        Some(r) => {
            lemma_total_positive(r);
            assert(apart(u, r)) by {
                assert forall|k: int| 0 <= k < u.len() implies (#[trigger] u[k]).spec_end() <= r.base
                    || r.spec_end() <= u[k].base by {
                    assert(u[k].spec_end() <= b.base || b.spec_end() <= u[k].base);
                }
            }
            lemma_free_result(u, r, lo, hi);
            assert forall|x: int| covered(t, x) <==> (covered(s, x) && !(lhs.base <= x
                < lhs.spec_end())) by {
                if b.base <= x < b.spec_end() {
                    assert(covered(s, x)) by {
                        assert(s[i].base <= x < s[i].spec_end());
                    }
                }
            }
        },
        None => {},
    }
}

/// Giving back the block that an allocation took from a free list restores
/// exactly the bytes the free list had, and keeps it in order.
#[verifier::rlimit(30)]
pub proof fn law_dealloc_undoes_alloc(s: Seq<MetaData>, lay: Layout, lo: int, hi: int)
    requires
        ordered(s),
        within(s, lo, hi),
        lo > 0,
        2 * (hi - lo) <= isize::MAX,
        hi <= usize::MAX,
        lay.wf(),
        first_fit(s, lay) < s.len(),
        split_fits(s[first_fit(s, lay)], lay),
    ensures
        ({
            let lhs = split_parts(s[first_fit(s, lay)], lay).0;
            let t = alloc_result(s, lay);
            &&& apart(t, lhs)
            &&& ordered(free_result(t, lhs))
            &&& forall|x: int| covered(free_result(t, lhs), x) <==> covered(s, x)
        }),
{
    let i = first_fit(s, lay);
    let b = s[i];
    let lhs = split_parts(b, lay).0;
    let t = alloc_result(s, lay);
    lemma_first_fit_props(s, lay);
    lemma_alloc_result(s, lay, lo, hi);
    lemma_apart_from_cover(t, lhs);
    lemma_free_result(t, lhs, lo, hi);
    assert forall|x: int| covered(free_result(t, lhs), x) <==> covered(s, x) by {
        if covered(free_result(t, lhs), x) {
            if !covered(t, x) {
                assert(lhs.base <= x < lhs.spec_end());
                assert(s[i].base <= x < s[i].spec_end());
                assert(covered(s, x));
            } else {
                assert(covered(s, x));
            }
        }
        if covered(s, x) && !(lhs.base <= x < lhs.spec_end()) {
            assert(covered(t, x));
        }
    }
}

impl MetaData {
    /// Whether the block can hold data of layout `lay`.
    pub open spec fn compatible(&self, lay: Layout) -> bool {
        if lay.spec_align() > self.layout.spec_align() {
            let extra = extra_for(self.base as int, lay.spec_align() as int);
            self.spec_total() >= extra && self.spec_total() - extra >= lay.spec_size()
        } else {
            self.spec_usable() >= lay.spec_size()
        }
    }
}

/// Heap memory handed out in blocks that each carry a node with their
/// metadata: freed blocks are kept in a free list in address order and
/// merged with their neighbours; fresh pages extend the heap upwards.
pub struct MetaAlloc {
    /// The free blocks, in address order.
    pub free: Vec<MetaData>,
    /// The nodes written into the heap, by their address.
    pub nodes: HashMapWithView<usize, MetaData>,
    /// Where the heap starts.
    pub heap_base: usize,
    /// Bytes of the heap already taken from the page supply.
    pub offset: usize,
    /// Bytes the heap may grow to.
    pub max_size: usize,
}

/// A heap region that starts above zero, stays a page short of the top of the
/// address space, and spans less than a quarter of it.
pub open spec fn heap_fits(base: int, max_size: int) -> bool {
    &&& 0 < base
    &&& base + max_size + 2 * PS_USIZE <= usize::MAX
    &&& 2 * (max_size + PS_USIZE) <= isize::MAX
}

impl MetaAlloc {
    /// The free blocks lie in address order within the pages taken so far.
    pub open spec fn wf(&self) -> bool {
        &&& heap_fits(self.heap_base as int, self.max_size as int)
        &&& self.offset <= self.max_size + PS_USIZE
        &&& within(self.free@, self.heap_base as int, self.heap_base + self.offset)
        &&& ordered(self.free@)
    }

    /// An allocator for a heap at `base` that may grow to `max_size` bytes.
    pub fn new(base: usize, max_size: usize) -> (r: Self)
        requires
            heap_fits(base as int, max_size as int),
        ensures
            r.wf(),
            r.free@ == Seq::<MetaData>::empty(),
            r.nodes@ == Map::<usize, MetaData>::empty(),
            r.heap_base == base,
            r.offset == 0,
            r.max_size == max_size,
    {
        MetaAlloc { free: Vec::new(), nodes: HashMapWithView::new(), heap_base: base, offset: 0, max_size }
    }

    /// Where the next page of the heap goes, or `None` once the heap has
    /// reached its maximum size.
    pub fn next_page_location(&self) -> (r: Option<usize>)
        requires
            self.wf(),
        ensures
            self.offset >= self.max_size ==> r is None,
            self.offset < self.max_size ==> r == Some((self.heap_base + self.offset) as usize),
    {
        if self.offset >= self.max_size {
            None
        } else {
            Some(self.heap_base + self.offset)
        }
    }

    /// Takes the next page of the heap: `None` once the heap has reached its
    /// maximum size, or when the page could not be mapped (`mapped` is
    /// false); the page's slot is used up either way.
    pub fn get_page(&mut self, mapped: bool) -> (r: Option<usize>)
        requires
            old(self).wf(),
        ensures
            final(self).wf(),
            old(self).offset >= old(self).max_size ==> r is None && *final(self) == *old(self),
            old(self).offset < old(self).max_size ==> {
                &&& final(self).offset == old(self).offset + PS_USIZE
                &&& r == if mapped {
                    Some((old(self).heap_base + old(self).offset) as usize)
                } else {
                    None::<usize>
                }
            },
            final(self).free == old(self).free,
            final(self).nodes == old(self).nodes,
            final(self).heap_base == old(self).heap_base,
            final(self).max_size == old(self).max_size,
    {
        if self.offset >= self.max_size {
            return None;
        }
        let location = self.heap_base + self.offset;
        self.offset = self.offset + PS_USIZE;
        if !mapped {
            return None;
        }
        Some(location)
    }

    /// Adds the next page of the heap to the free list, when there is one and
    /// it was mapped (`mapped`); says whether it did.
    #[verifier::rlimit(30)]
    pub fn try_add_page(&mut self, mapped: bool) -> (r: bool)
        requires
            old(self).wf(),
        ensures
            final(self).wf(),
            r == (old(self).offset < old(self).max_size && mapped),
            old(self).offset >= old(self).max_size ==> *final(self) == *old(self),
            old(self).offset < old(self).max_size ==> final(self).offset == old(self).offset
                + PS_USIZE,
            r ==> final(self).free@ == free_result(
                old(self).free@,
                blank_page((old(self).heap_base + old(self).offset) as usize),
            ),
            r ==> final(self).nodes@ == old(self).nodes@.insert(
                blank_page((old(self).heap_base + old(self).offset) as usize).spec_meta() as usize,
                blank_page((old(self).heap_base + old(self).offset) as usize),
            ),
            !r ==> final(self).free == old(self).free && final(self).nodes == old(self).nodes,
            coalesced(old(self).free@) ==> coalesced(final(self).free@),
            forall|x: int|
                covered(final(self).free@, x) <==> (covered(old(self).free@, x) || (r
                    && old(self).heap_base + old(self).offset <= x < old(self).heap_base
                    + old(self).offset + PS_USIZE)),
            final(self).heap_base == old(self).heap_base,
            final(self).max_size == old(self).max_size,
    {
        let ghost lo = self.heap_base as int;
        match self.get_page(mapped) {
            None => {
                assert(self.free@ == old(self).free@);
                false
            },
            Some(pg) => {
                proof {
                    lemma_align_offset(pg as int, NODE_ALIGN as int);
                    reveal_with_fuel(is_pow2, 4);
                    lemma_round_up((PS_USIZE - align_offset(pg as int, 8) - NODE_SIZE) as int, 8);
                }
                let meta = MetaData::new_blank(pg, PS_USIZE);
                proof {
                    lemma_round_up(NODE_SIZE as int, 8);
                    assert(meta == blank_page(pg));
                    assert(meta.spec_end() == pg + PS_USIZE);
                    assert forall|k: int| 0 <= k < self.free@.len() implies (#[trigger] self.free@[k]).spec_end()
                        <= meta.base || meta.spec_end() <= self.free@[k].base by {
                        assert(self.free@[k].spec_end() <= pg);
                    }
                }
                assert(coalesced(self.free@) ==> coalesced(free_result(self.free@, meta))) by {
                    if coalesced(self.free@) {
                        lemma_free_coalesced(self.free@, meta, lo, self.heap_base + self.offset);
                    }
                }
                let ghost before = self.free@;
                let ghost hi = self.heap_base + self.offset;
                assert(before == old(self).free@);
                assert(pg == old(self).heap_base + old(self).offset);
                let node = self.meta_write(meta);
                let data = Self::node_to_data_ptr(meta);
                proof {
                    assert(data - NODE_SIZE == node);
                }
                self.free_block(meta);
                proof {
                    lemma_page_cover(
                        old(self).free@,
                        self.free@,
                        meta,
                        old(self).heap_base + old(self).offset,
                        lo,
                        hi,
                    );
                }
                true
            },
        }
    }

    /// Writes the node of `meta` into the heap, right before its data;
    /// returns where.
    fn meta_write(&mut self, meta: MetaData) -> (r: usize)
        requires
            meta.fits(),
        ensures
            r == meta.spec_meta(),
            final(self).nodes@ == old(self).nodes@.insert(r, meta),
            final(self).free == old(self).free,
            final(self).heap_base == old(self).heap_base,
            final(self).offset == old(self).offset,
            final(self).max_size == old(self).max_size,
    {
        let location = meta.meta_location();
        self.nodes.insert(location, meta);
        location
    }

    /// Where the data of the block with metadata `meta` starts.
    pub fn node_to_data_ptr(meta: MetaData) -> (r: usize)
        requires
            meta.fits(),
        ensures
            r == meta.spec_data(),
    {
        meta.data_location()
    }

    /// Where the node of the block whose data starts at `ptr` sits.
    pub fn raw_to_existing_node(ptr: usize) -> (r: usize)
        requires
            ptr > NODE_SIZE,
        ensures
            r == ptr - NODE_SIZE,
    {
        ptr - NODE_SIZE
    }

    /// Cuts the free block `node` for data of layout `layout` and writes the
    /// nodes of the parts.
    fn node_split(&mut self, node: MetaData, layout: Layout) -> (r: (MetaData, Option<MetaData>))
        requires
            old(self).wf(),
            node.layout.wf(),
            old(self).heap_base <= node.base,
            node.spec_end() <= old(self).heap_base + old(self).offset,
            layout.wf(),
            split_fits(node, layout),
        ensures
            r == split_parts(node, layout),
            final(self).nodes@ == match r.1 {
                Some(rhs) => old(self).nodes@.insert(r.0.spec_meta() as usize, r.0).insert(
                    rhs.spec_meta() as usize,
                    rhs,
                ),
                None => old(self).nodes@.insert(r.0.spec_meta() as usize, r.0),
            },
            final(self).free == old(self).free,
            final(self).heap_base == old(self).heap_base,
            final(self).offset == old(self).offset,
            final(self).max_size == old(self).max_size,
    {
        let ghost lo = self.heap_base as int;
        let ghost hi = self.heap_base + self.offset;
        proof {
            lemma_split_parts(node, layout, lo, hi);
            lemma_total_positive(node);
            let l0 = MetaData { base: node.base, layout };
            lemma_total_positive(l0);
            lemma_align_offset(node.base + l0.spec_total(), NODE_ALIGN as int);
        }
        let block_size = node.total_size();
        let mut lhs = MetaData::new(node.base, layout);
        let lhs_size = lhs.total_size();
        let remaining_size = block_size - lhs_size;
        let rhs_ptr = lhs.base + lhs_size;
        let required_size = MetaData::default_meta_offset(rhs_ptr) + NODE_SIZE;
        if remaining_size > required_size {
            proof {
                reveal_with_fuel(is_pow2, 4);
                lemma_round_up((remaining_size - required_size) as int, 8);
            }
            let rhs = MetaData::new(
                rhs_ptr,
                Layout::from_size_align(remaining_size - required_size, NODE_ALIGN).unwrap(),
            );
            proof {
                assert(rhs == split_parts(node, layout).1.unwrap());
            }
            let l = self.meta_write(lhs);
            let r = self.meta_write(rhs);
            (lhs, Some(rhs))
        } else {
            proof {
                lemma_layout_fits(lhs, layout.spec_size() + remaining_size);
            }
            lhs.layout = Layout::from_size_align(lhs.layout.size() + remaining_size, lhs.layout.align()).unwrap();
            let l = self.meta_write(lhs);
            (lhs, None)
        }
    }

    /// Whether the first free block that can hold data of layout `layout`,
    /// if there is one, is large enough for the block that data gets; when
    /// it is not, cutting it would underflow.
    #[verifier::rlimit(30)]
    pub fn first_fit_splits(&self, layout: Layout) -> (r: bool)
        requires
            self.wf(),
            layout.wf(),
            layout.spec_size() > 0,
        ensures
            r == (first_fit(self.free@, layout) < self.free@.len() ==> split_fits(
                self.free@[first_fit(self.free@, layout)],
                layout,
            )),
    {
        let ghost s = self.free@;
        proof {
            let a = layout.spec_align() as int;
            lemma_round_up(layout.spec_size() as int, a);
            if round_up(layout.spec_size() as int, a) < a {
                vstd::arithmetic::div_mod::lemma_small_mod(
                    round_up(layout.spec_size() as int, a) as nat,
                    a as nat,
                );
            }
            lemma_pow2_half(a);
            lemma_first_fit_props(s, layout);
        }
        let mut i: usize = 0;
        while i < self.free.len()
            invariant
                self.wf(),
                0 <= i <= s.len(),
                s == self.free@,
                layout.wf(),
                2 * layout.spec_align() <= isize::MAX + 1,
                forall|k: int| 0 <= k < i ==> !(#[trigger] s[k]).compatible(layout),
            decreases s.len() - i,
        {
            let current = self.free[i];
            proof {
                assert(s[i as int] == current);
                assert(current.fits());
                lemma_block_align(layout.spec_align() as int);
                lemma_round_up(NODE_SIZE as int, layout.spec_align() as int);
                lemma_align_offset(current.base as int, block_align(layout.spec_align() as int));
                assert(usize::MAX == 2 * isize::MAX + 1);
            }
            if current.check_compatible(&layout) {
                proof {
                    lemma_first_fit(s, layout, i as int);
                }
                let lhs = MetaData::new(current.base, layout);
                let extra = lhs.extra_size();
                let block = current.total_size();
                return extra <= block && layout.size() <= block - extra;
            }
            i = i + 1;
        }
        proof {
            lemma_first_fit(s, layout, i as int);
        }
        true
    }

    /// One step of an allocation of `layout`: takes the first free block that
    /// can hold the data, cuts it, gives the rest back and returns where the
    /// data starts; or asks for a page when no free block can hold it.
    #[verifier::rlimit(30)]
    pub fn alloc_step(&mut self, layout: Layout) -> (r: AllocStep)
        requires
            old(self).wf(),
            layout.wf(),
            layout.spec_size() > 0,
            first_fit(old(self).free@, layout) < old(self).free@.len() ==> split_fits(
                old(self).free@[first_fit(old(self).free@, layout)],
                layout,
            ),
        ensures
            final(self).wf(),
            final(self).heap_base == old(self).heap_base,
            final(self).offset == old(self).offset,
            final(self).max_size == old(self).max_size,
            coalesced(old(self).free@) ==> coalesced(final(self).free@),
            first_fit(old(self).free@, layout) == old(self).free@.len() ==> r is NeedPage
                && *final(self) == *old(self),
            first_fit(old(self).free@, layout) < old(self).free@.len() ==> {
                let b = old(self).free@[first_fit(old(self).free@, layout)];
                let lhs = split_parts(b, layout).0;
                &&& r == AllocStep::Done(lhs.spec_data() as usize)
                &&& final(self).free@ == alloc_result(old(self).free@, layout)
                &&& final(self).nodes@ == match split_parts(b, layout).1 {
                    Some(rest) => old(self).nodes@.insert(lhs.spec_meta() as usize, lhs).insert(
                        rest.spec_meta() as usize,
                        rest,
                    ),
                    None => old(self).nodes@.insert(lhs.spec_meta() as usize, lhs),
                }
                &&& final(self).nodes@[lhs.spec_meta() as usize] == lhs
                &&& lhs.spec_data() % (layout.spec_align() as int) == 0
                &&& lhs.spec_data() + layout.spec_size() <= lhs.spec_end()
                &&& b.base == lhs.base && lhs.spec_end() <= b.spec_end()
                &&& forall|x: int|
                    covered(final(self).free@, x) <==> (covered(old(self).free@, x) && !(lhs.base
                        <= x < lhs.spec_end()))
            },
    {
        let ghost s = self.free@;
        let ghost lo = self.heap_base as int;
        let ghost hi = self.heap_base + self.offset;
        proof {
            let a = layout.spec_align() as int;
            lemma_round_up(layout.spec_size() as int, a);
            if round_up(layout.spec_size() as int, a) < a {
                vstd::arithmetic::div_mod::lemma_small_mod(
                    round_up(layout.spec_size() as int, a) as nat,
                    a as nat,
                );
            }
            lemma_pow2_half(a);
            lemma_first_fit_props(s, layout);
        }
        let mut i: usize = 0;
        while i < self.free.len()
            invariant
                self.free@ == s,
                self.wf(),
                0 <= i <= s.len(),
                lo == self.heap_base,
                hi == self.heap_base + self.offset,
                layout.wf(),
                2 * layout.spec_align() <= isize::MAX + 1,
                forall|k: int| 0 <= k < i ==> !(#[trigger] s[k]).compatible(layout),
                first_fit(s, layout) < s.len() ==> split_fits(s[first_fit(s, layout)], layout),
                *self == *old(self),
            decreases s.len() - i,
        {
            let current = self.free[i];
            proof {
                assert(s[i as int] == current);
                assert(current.fits());
                lemma_block_align(layout.spec_align() as int);
                lemma_round_up(NODE_SIZE as int, layout.spec_align() as int);
                lemma_align_offset(current.base as int, block_align(layout.spec_align() as int));
                assert(usize::MAX == 2 * isize::MAX + 1);
            }
            if current.check_compatible(&layout) {
                proof {
                    lemma_first_fit(s, layout, i as int);
                    lemma_remove(s, i as int, lo, hi);
                    lemma_split_parts(current, layout, lo, hi);
                }
                let node = self.free.remove(i);
                let (ret, remaining) = self.node_split(node, layout);
                proof {
                    law_data_aligned(ret);
                    lemma_total_positive(ret);
                }
                proof {
                    lemma_alloc_result(s, layout, lo, hi);
                    if coalesced(s) {
                        lemma_alloc_coalesced(s, layout, lo, hi);
                    }
                    lemma_total_positive(node);
                    lemma_align_offset(ret.spec_end(), NODE_ALIGN as int);
                }
                match remaining {
                    Some(rem) => {
                        proof {
                            let t = self.free@;
                            assert forall|k: int| 0 <= k < t.len() implies (#[trigger] t[k]).spec_end()
                                <= rem.base || rem.spec_end() <= t[k].base by {
                                assert(t[k].spec_end() <= node.base || node.spec_end() <= t[k].base);
                            }
                        }
                        self.free_block(rem);
                    },
                    None => {},
                }
                return AllocStep::Done(Self::node_to_data_ptr(ret));
            }
            i = i + 1;
        }
        proof {
            lemma_first_fit(s, layout, i as int);
        }
        AllocStep::NeedPage
    }

    /// Gives back the block whose data starts at `ptr`, as its node in the
    /// heap describes it.
    pub fn dealloc(&mut self, ptr: usize, _layout: Layout)
        requires
            old(self).wf(),
            ptr > NODE_SIZE,
            old(self).nodes@.contains_key((ptr - NODE_SIZE) as usize),
            ({
                let m = old(self).nodes@[(ptr - NODE_SIZE) as usize];
                &&& m.layout.wf()
                &&& old(self).heap_base <= m.base
                &&& m.spec_end() <= old(self).heap_base + old(self).offset
                &&& apart(old(self).free@, m)
            }),
        ensures
            final(self).wf(),
            final(self).free@ == free_result(
                old(self).free@,
                old(self).nodes@[(ptr - NODE_SIZE) as usize],
            ),
            forall|x: int|
                covered(final(self).free@, x) <==> (covered(old(self).free@, x) || ({
                    let m = old(self).nodes@[(ptr - NODE_SIZE) as usize];
                    m.base <= x < m.spec_end()
                })),
            coalesced(old(self).free@) ==> coalesced(final(self).free@),
            final(self).nodes == old(self).nodes,
            final(self).heap_base == old(self).heap_base,
            final(self).offset == old(self).offset,
            final(self).max_size == old(self).max_size,
    {
        let node = Self::raw_to_existing_node(ptr);
        let meta = *self.nodes.get(&node).unwrap();
        proof {
            lemma_free_result(self.free@, meta, self.heap_base as int, self.heap_base + self.offset);
            if coalesced(self.free@) {
                lemma_free_coalesced(self.free@, meta, self.heap_base as int, self.heap_base + self.offset);
            }
        }
        self.free_block(meta);
    }

    /// Moves the heap to `base`.
    pub fn set_base(&mut self, base: usize)
        requires
            old(self).wf(),
            heap_fits(base as int, old(self).max_size as int),
            within(old(self).free@, base as int, base + old(self).offset),
        ensures
            final(self).wf(),
            final(self).heap_base == base,
            final(self).free == old(self).free,
            final(self).nodes == old(self).nodes,
            final(self).offset == old(self).offset,
            final(self).max_size == old(self).max_size,
    {
        self.heap_base = base;
    }

    /// Gives the block `node` back to the free list: it goes before the first
    /// free block that starts above it, then merges with its neighbours when
    /// they touch.
    #[verifier::rlimit(30)]
    fn free_block(&mut self, node: MetaData)
        requires
            old(self).wf(),
            node.layout.wf(),
            old(self).heap_base <= node.base,
            node.spec_end() <= old(self).heap_base + old(self).offset,
            apart(old(self).free@, node),
        ensures
            final(self).wf(),
            final(self).free@ == free_result(old(self).free@, node),
            final(self).nodes == old(self).nodes,
            final(self).heap_base == old(self).heap_base,
            final(self).offset == old(self).offset,
            final(self).max_size == old(self).max_size,
    {
        let ghost s = self.free@;
        let ghost lo = self.heap_base as int;
        let ghost hi = self.heap_base + self.offset;
        let mut i: usize = 0;
        while i < self.free.len() && self.free[i].base <= node.base
            invariant
                self.free@ == s,
                0 <= i <= s.len(),
                forall|k: int| 0 <= k < i ==> #[trigger] s[k].base <= node.base,
            decreases s.len() - i,
        {
            i = i + 1;
        }
        proof {
            lemma_insert_index(s, node.base, i as int);
            lemma_insert_ordered(s, node, i as int);
        }
        self.free.insert(i, node);
        let ghost t = self.free@;
        assert(within(t, lo, hi)) by {
            assert forall|k: int| 0 <= k < t.len() implies (#[trigger] t[k]).layout.wf() && lo
                <= t[k].base && t[k].spec_end() <= hi by {
                if k < i {
                    assert(t[k] == s[k]);
                } else if k > i {
                    assert(t[k] == s[k - 1]);
                }
            }
        }
        proof {
            lemma_merge_at(t, i as int, lo, hi);
        }
        if self.merge_right(i) {
            self.free.remove(i + 1);
        }
        assert(self.free@ == merge_at(t, i as int));
        let ghost t2 = self.free@;
        proof {
            lemma_merge_at(t2, i - 1, lo, hi);
        }
        if i > 0 {
            if self.merge_right(i - 1) {
                self.free.remove(i);
            }
        }
        assert(self.free@ == merge_at(t2, i - 1));
    }

    /// Grows the free block at `i` over the next one when they touch.
    fn merge_right(&mut self, i: usize) -> (r: bool)
        requires
            old(self).wf(),
            i < old(self).free.len(),
        ensures
            r == (i + 1 < old(self).free.len() && adjacent(old(self).free@[i as int], old(self).free@[i + 1])),
            r ==> final(self).free@ == old(self).free@.update(i as int, grown(old(self).free@[i as int], old(self).free@[i + 1])),
            !r ==> final(self).free@ == old(self).free@,
            final(self).nodes == old(self).nodes,
            final(self).heap_base == old(self).heap_base,
            final(self).offset == old(self).offset,
            final(self).max_size == old(self).max_size,
    {
        if i + 1 >= self.free.len() {
            return false;
        }
        let node = self.free[i];
        let right = self.free[i + 1];
        proof {
            assert(self.free@[i as int] == node);
            assert(self.free@[i + 1] == right);
        }
        let node_total = node.total_size();
        let right_total = right.total_size();
        if right.base - node.base == node_total {
            proof {
                lemma_total_positive(right);
                lemma_layout_fits(node, node.layout.spec_size() + right_total);
            }
            let layout = Layout::from_size_align(node.layout.size() + right_total, node.layout.align()).unwrap();
            let m = MetaData { base: node.base, layout };
            self.free.set(i, m);
            true
        } else {
            false
        }
    }
}

} // verus!
