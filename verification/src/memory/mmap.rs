use vstd::prelude::*;

use crate::memory::{
    lemma_round_up, next_multiple_of_usize, round_up, MemoryRange, PAGE_SIZE, PS_USIZE,
};

verus! {

/// A range `(start, end)` as integers.
pub type Span = (u64, u64);

/// The starts of the ranges increase strictly and no range ends before it starts.
pub open spec fn sorted(s: Seq<Span>) -> bool {
    &&& forall|i: int, j: int| 0 <= i < j < s.len() ==> s[i].0 < s[j].0
    &&& forall|i: int| 0 <= i < s.len() ==> s[i].0 <= s[i].1
}

/// Every range holds at least one address.
pub open spec fn nonempty(s: Seq<Span>) -> bool {
    forall|i: int| 0 <= i < s.len() ==> s[i].0 < s[i].1
}

/// No two ranges share an address (the ranges being sorted by start).
pub open spec fn disjoint(s: Seq<Span>) -> bool {
    forall|i: int, j: int| 0 <= i < j < s.len() ==> s[i].1 <= s[j].0
}

/// The addresses of one range.
pub open spec fn span_addrs(r: Span) -> Set<int> {
    Set::new(|a: int| r.0 <= a < r.1)
}

/// The addresses covered by the ranges.
pub open spec fn covered(s: Seq<Span>) -> Set<int> {
    Set::new(|a: int| exists|i: int| 0 <= i < s.len() && #[trigger] span_addrs(s[i]).contains(a))
}

/// Length of a range as the tracker measures it.
pub open spec fn span_len(r: Span) -> usize {
    (r.1 - r.0) as usize
}

/// Adds `r` to a set of ranges ordered by start: nothing changes when a range
/// with the same start is already there.
pub open spec fn sorted_insert(s: Seq<Span>, r: Span) -> Seq<Span>
    decreases s.len(),
{
    if s.len() == 0 {
        seq![r]
    } else if r.0 < s[0].0 {
        seq![r] + s
    } else if r.0 == s[0].0 {
        s
    } else {
        seq![s[0]] + sorted_insert(s.subrange(1, s.len() as int), r)
    }
}

/// Index of the first range that holds at least `len` addresses.
pub open spec fn is_first_fit(s: Seq<Span>, len: usize, i: int) -> bool {
    &&& 0 <= i < s.len()
    &&& span_len(s[i]) >= len
    &&& forall|j: int| 0 <= j < i ==> span_len(s[j]) < len
}

/// No two ranges touch or overlap: each one ends before the next begins.
pub open spec fn coalesced(s: Seq<Span>) -> bool {
    forall|i: int, j: int| 0 <= i < j < s.len() ==> s[i].1 < s[j].0
}

/// `k` is where a range starting at `x` belongs: every range before it
/// starts below `x`, the one at `k` (if any) does not.
pub open spec fn insertion_point(s: Seq<Span>, x: u64, k: int) -> bool {
    &&& 0 <= k <= s.len()
    &&& forall|j: int| 0 <= j < k ==> s[j].0 < x
    &&& k < s.len() ==> s[k].0 >= x
}

/// Whether `m`, handed back at `k`, joins the range before it.
pub open spec fn joins_left(s: Seq<Span>, m: Span, k: int) -> bool {
    k > 0 && s[k - 1].1 == m.0
}

/// Whether `m`, handed back at `k`, joins the range at `k`.
pub open spec fn joins_right(s: Seq<Span>, m: Span, k: int) -> bool {
    k < s.len() && s[k].0 == m.1
}

/// The range `m` becomes once joined with the neighbours it touches.
pub open spec fn joined(s: Seq<Span>, m: Span, k: int) -> Span {
    (
        if joins_left(s, m, k) {
            s[k - 1].0
        } else {
            m.0
        },
        if joins_right(s, m, k) {
            s[k].1
        } else {
            m.1
        },
    )
}

/// The ranges other than the neighbours that `m` joins.
pub open spec fn unjoined(s: Seq<Span>, m: Span, k: int) -> Seq<Span> {
    let lo = if joins_left(s, m, k) {
        k - 1
    } else {
        k
    };
    let hi = if joins_right(s, m, k) {
        k + 1
    } else {
        k
    };
    s.subrange(0, lo) + s.subrange(hi, s.len() as int)
}

/// `m` handed back at `k`: merged with the range before it when that one
/// ends where `m` begins, and with the range at `k` when that one begins
/// where `m` ends, then added.
pub open spec fn release_at(s: Seq<Span>, m: Span, k: int) -> Seq<Span> {
    sorted_insert(unjoined(s, m, k), joined(s, m, k))
}

/// The ranges after `m` is handed back: it is merged with its left and right
/// neighbours where they touch it.
pub open spec fn released(s: Seq<Span>, m: Span) -> Seq<Span> {
    release_at(s, m, choose|k: int| insertion_point(s, m.0, k))
}

/// The ranges left after the first fitting range, `s[i]`, gave up its first
/// `pl` addresses: what remains of it, if anything, goes back in.
pub open spec fn taken(s: Seq<Span>, pl: usize, i: int) -> Seq<Span> {
    if span_len(((s[i].0 + pl) as u64, s[i].1)) > 0 {
        sorted_insert(s.remove(i), ((s[i].0 + pl) as u64, s[i].1))
    } else {
        s.remove(i)
    }
}

/// Inserting a range whose start is new puts it at the one place that keeps
/// the starts ordered.
pub proof fn lemma_sorted_insert_fresh(s: Seq<Span>, r: Span)
    requires
        sorted(s),
        r.0 <= r.1,
        forall|j: int| 0 <= j < s.len() ==> s[j].0 != r.0,
    ensures
        exists|k: int|
            {
                &&& 0 <= k <= s.len()
                &&& sorted_insert(s, r) == s.insert(k, r)
                &&& forall|j: int| 0 <= j < k ==> s[j].0 < r.0
                &&& forall|j: int| k <= j < s.len() ==> s[j].0 > r.0
            },
        sorted(sorted_insert(s, r)),
    decreases s.len(),
{
    if s.len() == 0 {
        assert(sorted_insert(s, r) == s.insert(0, r));
    } else if r.0 < s[0].0 {
        assert(sorted_insert(s, r) =~= s.insert(0, r));
    } else {
        let t = s.subrange(1, s.len() as int);
        assert forall|j: int| 0 <= j < t.len() implies t[j].0 != r.0 by {
            assert(t[j] == s[j + 1]);
        }
        lemma_sorted_insert_fresh(t, r);
        let k = choose|k: int|
            {
                &&& 0 <= k <= t.len()
                &&& sorted_insert(t, r) == t.insert(k, r)
                &&& forall|j: int| 0 <= j < k ==> t[j].0 < r.0
                &&& forall|j: int| k <= j < t.len() ==> t[j].0 > r.0
            };
        assert(sorted_insert(s, r) =~= s.insert(k + 1, r));
        assert forall|j: int| 0 <= j < k + 1 implies s[j].0 < r.0 by {
            if j > 0 {
                assert(s[j] == t[j - 1]);
            }
        }
        assert forall|j: int| k + 1 <= j < s.len() implies s[j].0 > r.0 by {
            assert(s[j] == t[j - 1]);
        }
    }
    let k = choose|k: int|
        {
            &&& 0 <= k <= s.len()
            &&& sorted_insert(s, r) == s.insert(k, r)
            &&& forall|j: int| 0 <= j < k ==> s[j].0 < r.0
            &&& forall|j: int| k <= j < s.len() ==> s[j].0 > r.0
        };
    let u = s.insert(k, r);
    assert forall|a: int, b: int| 0 <= a < b < u.len() implies u[a].0 < u[b].0 by {
        if a < k && b < k {
        } else if a < k && b == k {
        } else if a < k {
            assert(u[b] == s[b - 1]);
        } else if a == k {
            assert(u[b] == s[b - 1]);
        } else {
            assert(u[a] == s[a - 1]);
            assert(u[b] == s[b - 1]);
        }
    }
    assert forall|a: int| 0 <= a < u.len() implies u[a].0 <= u[a].1 by {
        if a > k {
            assert(u[a] == s[a - 1]);
        }
    }
}

/// Inserting a range whose start lies strictly between those of the ranges
/// before `k` and those from `k` on puts it at `k`.
pub proof fn lemma_sorted_insert_at(s: Seq<Span>, k: int, r: Span)
    requires
        sorted(s),
        r.0 <= r.1,
        0 <= k <= s.len(),
        forall|j: int| 0 <= j < k ==> s[j].0 < r.0,
        forall|j: int| k <= j < s.len() ==> s[j].0 > r.0,
    ensures
        sorted_insert(s, r) == s.insert(k, r),
        sorted(s.insert(k, r)),
{
    lemma_sorted_insert_fresh(s, r);
    let c = choose|c: int|
        {
            &&& 0 <= c <= s.len()
            &&& sorted_insert(s, r) == s.insert(c, r)
            &&& forall|j: int| 0 <= j < c ==> s[j].0 < r.0
            &&& forall|j: int| c <= j < s.len() ==> s[j].0 > r.0
        };
    if c < k {
        assert(s[c].0 < r.0);
        assert(s[c].0 > r.0);
    }
    if c > k {
        assert(s[k].0 < r.0);
        assert(s[k].0 > r.0);
    }
}

/// Taking out the range at `i` and adding `r`, whose start lies strictly
/// between those of the neighbours of `i`, replaces the range at `i` by `r`.
pub proof fn lemma_sorted_insert_replaces(s: Seq<Span>, i: int, r: Span)
    requires
        sorted(s),
        r.0 <= r.1,
        0 <= i < s.len(),
        i > 0 ==> s[i - 1].0 < r.0,
        i + 1 < s.len() ==> r.0 < s[i + 1].0,
    ensures
        sorted_insert(s.remove(i), r) == s.update(i, r),
{
    let t = s.remove(i);
    assert forall|j: int| 0 <= j < i implies t[j].0 < r.0 by {
        assert(t[j] == s[j]);
        if j < i - 1 {
            assert(s[j].0 < s[i - 1].0);
        }
    }
    assert forall|j: int| i <= j < t.len() implies t[j].0 > r.0 by {
        assert(t[j] == s[j + 1]);
        if j > i {
            assert(s[i + 1].0 < s[j + 1].0);
        }
    }
    lemma_sorted_insert_at(t, i, r);
    assert(t.insert(i, r) =~= s.update(i, r));
}

/// For ordered ranges there is a place for every start.
pub proof fn lemma_insertion_point_exists(s: Seq<Span>, x: u64) -> (k: int)
    requires
        sorted(s),
    ensures
        insertion_point(s, x, k),
    decreases s.len(),
{
    if s.len() == 0 {
        0
    } else if s.last().0 < x {
        assert forall|j: int| 0 <= j < s.len() implies s[j].0 < x by {
            if j < s.len() - 1 {
                assert(s[j].0 < s[s.len() - 1].0);
            }
        }
        s.len() as int
    } else {
        let t = s.drop_last();
        assert(sorted(t));
        let k = lemma_insertion_point_exists(t, x);
        assert forall|j: int| 0 <= j < k implies s[j].0 < x by {
            assert(s[j] == t[j]);
        }
        if k < t.len() {
            assert(s[k] == t[k]);
        }
        k
    }
}

/// For ordered ranges the place of a start is unique, so `released` hands
/// `m` back there.
pub proof fn lemma_released_at(s: Seq<Span>, m: Span, k: int)
    requires
        sorted(s),
        insertion_point(s, m.0, k),
    ensures
        released(s, m) == release_at(s, m, k),
{
    assert(insertion_point(s, m.0, k));
    let c = choose|c: int| insertion_point(s, m.0, c);
    assert(insertion_point(s, m.0, c));
    if c < k {
        assert(s[c].0 < m.0);
    }
    if c > k {
        assert(s[k].0 < m.0);
    }
}

/// Adding a range at any position adds its addresses.
pub proof fn lemma_covered_insert(s: Seq<Span>, k: int, r: Span)
    requires
        0 <= k <= s.len(),
    ensures
        covered(s.insert(k, r)) == covered(s).union(span_addrs(r)),
{
    let u = s.insert(k, r);
    assert forall|a: int| covered(u).contains(a) <==> covered(s).union(span_addrs(r)).contains(a) by {
        if covered(u).contains(a) {
            let i = choose|i: int| 0 <= i < u.len() && #[trigger] span_addrs(u[i]).contains(a);
            if i < k {
                assert(span_addrs(s[i]).contains(a));
            } else if i > k {
                assert(u[i] == s[i - 1]);
                assert(span_addrs(s[i - 1]).contains(a));
            }
        }
        if covered(s).contains(a) {
            let i = choose|i: int| 0 <= i < s.len() && #[trigger] span_addrs(s[i]).contains(a);
            if i < k {
                assert(span_addrs(u[i]).contains(a));
            } else {
                assert(u[i + 1] == s[i]);
                assert(span_addrs(u[i + 1]).contains(a));
            }
        }
        if span_addrs(r).contains(a) {
            assert(u[k] == r);
            assert(span_addrs(u[k]).contains(a));
        }
    }
    assert(covered(u) =~= covered(s).union(span_addrs(r)));
}

/// Removing a range takes its addresses away, apart from those another range holds.
pub proof fn lemma_covered_remove(s: Seq<Span>, i: int)
    requires
        0 <= i < s.len(),
    ensures
        covered(s.remove(i)).union(span_addrs(s[i])) == covered(s),
{
    let u = s.remove(i);
    assert(s == u.insert(i, s[i]));
    lemma_covered_insert(u, i, s[i]);
}

/// Every range is short enough that its length fits in a `usize`.
pub open spec fn lengths_fit(s: Seq<Span>) -> bool {
    forall|j: int| 0 <= j < s.len() ==> s[j].1 - s[j].0 <= usize::MAX
}

/// Where no two free ranges touch, none touch after a mapping is taken.
proof fn lemma_taken_coalesced(s: Seq<Span>, pl: usize, i: int)
    requires
        sorted(s),
        nonempty(s),
        coalesced(s),
        lengths_fit(s),
        is_first_fit(s, pl, i),
    ensures
        coalesced(taken(s, pl, i)),
{
    let si = s[i];
    let rest = ((si.0 + pl) as u64, si.1);
    assert(si.0 + pl <= si.1);
    let after = taken(s, pl, i);
    if span_len(rest) > 0 {
        if i + 1 < s.len() {
            assert(si.1 < s[i + 1].0);
        }
        lemma_sorted_insert_replaces(s, i, rest);
        assert(after == s.update(i, rest));
        assert forall|a: int, b: int| 0 <= a < b < after.len() implies after[a].1 < after[b].0 by {
            if a == i {
                assert(si.1 < s[b].0);
            } else if b == i {
                assert(s[a].1 < si.0);
            }
        }
    } else {
        assert(after == s.remove(i));
        assert forall|a: int, b: int| 0 <= a < b < after.len() implies after[a].1 < after[b].0 by {
            if a < i {
                assert(after[a] == s[a]);
            } else {
                assert(after[a] == s[a + 1]);
            }
            if b < i {
                assert(after[b] == s[b]);
            } else {
                assert(after[b] == s[b + 1]);
            }
        }
    }
}

/// The addresses and shape of the ranges left after a mapping is taken.
proof fn lemma_taken_parts(s: Seq<Span>, pl: usize, i: int)
    requires
        sorted(s),
        nonempty(s),
        disjoint(s),
        lengths_fit(s),
        is_first_fit(s, pl, i),
    ensures
        ({
            let after = taken(s, pl, i);
            let m = (s[i].0, (s[i].0 + pl) as u64);
            &&& s[i].0 + pl <= s[i].1
            &&& covered(after).union(span_addrs(m)) == covered(s)
            &&& covered(after).intersect(span_addrs(m)) == Set::<int>::empty()
            &&& sorted(after)
            &&& nonempty(after)
            &&& disjoint(after)
        }),
{
    let si = s[i];
    let m = (si.0, (si.0 + pl) as u64);
    let rest = ((si.0 + pl) as u64, si.1);
    let r = s.remove(i);
    lemma_covered_remove(s, i);
    assert(sorted(r));
    assert(disjoint(r));
    assert forall|a: int| covered(r).contains(a) implies !span_addrs(si).contains(a) by {
        let j = choose|j: int| 0 <= j < r.len() && #[trigger] span_addrs(r[j]).contains(a);
        if j < i {
            assert(r[j] == s[j]);
        } else {
            assert(r[j] == s[j + 1]);
        }
    }
    let after = taken(s, pl, i);
    if span_len(rest) > 0 {
        assert forall|j: int| 0 <= j < r.len() implies r[j].0 != rest.0 by {
            if j < i {
                assert(r[j] == s[j]);
            } else {
                assert(r[j] == s[j + 1]);
            }
        }
        lemma_sorted_insert_fresh(r, rest);
        let k = choose|k: int|
            {
                &&& 0 <= k <= r.len()
                &&& sorted_insert(r, rest) == r.insert(k, rest)
                &&& forall|j: int| 0 <= j < k ==> r[j].0 < rest.0
                &&& forall|j: int| k <= j < r.len() ==> r[j].0 > rest.0
            };
        lemma_covered_insert(r, k, rest);
        assert(span_addrs(rest).union(span_addrs(m)) =~= span_addrs(si));
        assert(covered(after).union(span_addrs(m)) =~= covered(s));
        assert(covered(after).intersect(span_addrs(m)) =~= Set::<int>::empty());
        assert forall|a: int, b: int| 0 <= a < b < after.len() implies after[a].1 <= after[b].0 by {
            if b < k {
            } else if b == k {
                assert(r[a] == s[a]);
            } else if a < k {
                assert(after[b] == r[b - 1]);
            } else if a == k {
                assert(after[b] == r[b - 1]);
                assert(r[b - 1] == s[b]);
            } else {
                assert(after[a] == r[a - 1]);
                assert(after[b] == r[b - 1]);
            }
        }
        assert forall|a: int| 0 <= a < after.len() implies after[a].0 < after[a].1 by {
            if a < k {
            } else if a > k {
                assert(after[a] == r[a - 1]);
            }
        }
    } else {
        assert(span_addrs(m) =~= span_addrs(si));
        assert(covered(after).union(span_addrs(m)) =~= covered(s));
        assert(covered(after).intersect(span_addrs(m)) =~= Set::<int>::empty());
    }
}

/// Handing out a mapping takes exactly its addresses out of the free ones:
/// the handed out range and the ranges left are disjoint and together cover
/// what was free before, and the ranges left stay ordered, non-empty and
/// disjoint; where no two free ranges touched before, none touch after.
pub proof fn law_get_mapping_takes_range(s: Seq<Span>, pl: usize, i: int)
    requires
        sorted(s),
        nonempty(s),
        disjoint(s),
        lengths_fit(s),
        is_first_fit(s, pl, i),
    ensures
        ({
            let after = taken(s, pl, i);
            let m = (s[i].0, (s[i].0 + pl) as u64);
            &&& s[i].0 + pl <= s[i].1
            &&& covered(after).union(span_addrs(m)) == covered(s)
            &&& covered(after).intersect(span_addrs(m)) == Set::<int>::empty()
            &&& sorted(after)
            &&& nonempty(after)
            &&& disjoint(after)
            &&& coalesced(s) ==> coalesced(after)
        }),
{
    lemma_taken_parts(s, pl, i);
    if coalesced(s) {
        lemma_taken_coalesced(s, pl, i);
    }
}

/// Where a non-empty range that holds no free address is handed back among
/// non-empty disjoint ranges: the neighbours it joins end at its start or
/// begin at its end, the others lie apart from it, and the result is the
/// ranges before it, the joined range, and the ranges after it.
proof fn lemma_release_shape(s: Seq<Span>, m: Span, k: int)
    requires
        sorted(s),
        nonempty(s),
        disjoint(s),
        m.0 < m.1,
        covered(s).intersect(span_addrs(m)) == Set::<int>::empty(),
        insertion_point(s, m.0, k),
    ensures
        k > 0 ==> s[k - 1].1 <= m.0,
        k < s.len() ==> s[k].0 >= m.1,
        released(s, m) == unjoined(s, m, k).insert(
            if joins_left(s, m, k) {
                k - 1
            } else {
                k
            },
            joined(s, m, k),
        ),
{
    if k > 0 {
        let p = s[k - 1];
        if p.1 > m.0 {
            assert(span_addrs(p).contains(m.0 as int));
            assert(covered(s).contains(m.0 as int));
            assert(covered(s).intersect(span_addrs(m)).contains(m.0 as int));
        }
    }
    if k < s.len() {
        let q = s[k];
        if q.0 < m.1 {
            assert(span_addrs(q).contains(q.0 as int));
            assert(covered(s).contains(q.0 as int));
            assert(covered(s).intersect(span_addrs(m)).contains(q.0 as int));
        }
    }
    let l = joins_left(s, m, k);
    let r = joins_right(s, m, k);
    let lo = if l {
        k - 1
    } else {
        k
    };
    let hi = if r {
        k + 1
    } else {
        k
    };
    let e = joined(s, m, k);
    let base = unjoined(s, m, k);
    assert(base.len() == lo + s.len() - hi);
    assert forall|j: int| 0 <= j < lo implies base[j].0 < e.0 by {
        assert(base[j] == s[j]);
        if l {
            assert(s[j].0 < s[k - 1].0);
        }
    }
    assert forall|j: int| lo <= j < base.len() implies base[j].0 > e.0 by {
        assert(base[j] == s[j - lo + hi]);
        if j - lo + hi > k {
            assert(s[k].0 < s[j - lo + hi].0);
        }
    }
    lemma_sorted_insert_at(base, lo, e);
    lemma_released_at(s, m, k);
}

/// The three parts of `released(s, m)` when `m` goes back at `k`: the
/// ranges before the joined range, the joined range, the ranges after it.
proof fn lemma_release_parts(s: Seq<Span>, m: Span, k: int)
    requires
        sorted(s),
        nonempty(s),
        disjoint(s),
        m.0 < m.1,
        covered(s).intersect(span_addrs(m)) == Set::<int>::empty(),
        insertion_point(s, m.0, k),
    ensures
        ({
            let lo = if joins_left(s, m, k) {
                k - 1
            } else {
                k
            };
            let hi = if joins_right(s, m, k) {
                k + 1
            } else {
                k
            };
            let u = released(s, m);
            &&& u.len() == s.len() - (hi - lo) + 1
            &&& forall|j: int| 0 <= j < lo ==> u[j] == s[j]
            &&& u[lo] == joined(s, m, k)
            &&& forall|j: int| lo < j < u.len() ==> u[j] == s[j - lo - 1 + hi]
            &&& joined(s, m, k).0 <= m.0 && m.1 <= joined(s, m, k).1
            &&& k > 0 ==> s[k - 1].1 <= m.0
            &&& k < s.len() ==> s[k].0 >= m.1
        }),
{
    lemma_release_shape(s, m, k);
}

/// The addresses of `released(s, m)` are those of `s` and of `m`.
proof fn lemma_release_covered(s: Seq<Span>, m: Span, k: int)
    requires
        sorted(s),
        nonempty(s),
        disjoint(s),
        m.0 < m.1,
        covered(s).intersect(span_addrs(m)) == Set::<int>::empty(),
        insertion_point(s, m.0, k),
    ensures
        covered(released(s, m)) == covered(s).union(span_addrs(m)),
{
    lemma_release_parts(s, m, k);
    let l = joins_left(s, m, k);
    let r = joins_right(s, m, k);
    let lo = if l {
        k - 1
    } else {
        k
    };
    let hi = if r {
        k + 1
    } else {
        k
    };
    let u = released(s, m);
    assert forall|a: int| covered(u).contains(a) <==> covered(s).union(span_addrs(m)).contains(a) by {
        if covered(u).contains(a) {
            let j = choose|j: int| 0 <= j < u.len() && #[trigger] span_addrs(u[j]).contains(a);
            if j < lo {
                assert(span_addrs(s[j]).contains(a));
            } else if j > lo {
                assert(span_addrs(s[j - lo - 1 + hi]).contains(a));
            } else if a < m.0 {
                assert(span_addrs(s[k - 1]).contains(a));
            } else if a >= m.1 {
                assert(span_addrs(s[k]).contains(a));
            }
        }
        if covered(s).contains(a) {
            let j = choose|j: int| 0 <= j < s.len() && #[trigger] span_addrs(s[j]).contains(a);
            if j < lo {
                assert(span_addrs(u[j]).contains(a));
            } else if j >= hi {
                assert(u[j - hi + lo + 1] == s[j]);
                assert(span_addrs(u[j - hi + lo + 1]).contains(a));
            } else {
                assert(span_addrs(u[lo]).contains(a));
            }
        }
        if span_addrs(m).contains(a) {
            assert(span_addrs(u[lo]).contains(a));
        }
    }
    assert(covered(u) =~= covered(s).union(span_addrs(m)));
}

/// `released(s, m)` is ordered, non-empty and disjoint.
#[verifier::rlimit(30)]
proof fn lemma_release_apart(s: Seq<Span>, m: Span, k: int)
    requires
        sorted(s),
        nonempty(s),
        disjoint(s),
        m.0 < m.1,
        covered(s).intersect(span_addrs(m)) == Set::<int>::empty(),
        insertion_point(s, m.0, k),
    ensures
        sorted(released(s, m)),
        nonempty(released(s, m)),
        disjoint(released(s, m)),
{
    lemma_release_parts(s, m, k);
    lemma_release_shape(s, m, k);
    let l = joins_left(s, m, k);
    let r = joins_right(s, m, k);
    let lo = if l {
        k - 1
    } else {
        k
    };
    let hi = if r {
        k + 1
    } else {
        k
    };
    let u = released(s, m);
    assert forall|j: int| 0 <= j < u.len() implies u[j].0 < u[j].1 by {
        if j > lo {
            assert(u[j] == s[j - lo - 1 + hi]);
        } else if j < lo {
            assert(u[j] == s[j]);
        }
    }
    assert forall|a: int, b: int| 0 <= a < b < u.len() implies u[a].1 <= u[b].0 by {
        if b < lo {
            assert(u[a] == s[a]);
            assert(u[b] == s[b]);
        } else if b == lo {
            assert(u[a] == s[a]);
            if a < k - 1 {
                assert(s[a].1 <= s[k - 1].0);
            }
        } else if a < lo {
            assert(u[a] == s[a]);
            assert(u[b] == s[b - lo - 1 + hi]);
        } else if a == lo {
            assert(u[b] == s[b - lo - 1 + hi]);
            if r {
                assert(s[k].1 <= s[b - lo - 1 + hi].0);
            } else if b - lo - 1 + hi > k {
                assert(s[k].0 < s[b - lo - 1 + hi].0);
            }
        } else {
            assert(u[a] == s[a - lo - 1 + hi]);
            assert(u[b] == s[b - lo - 1 + hi]);
        }
    }
}

/// Where no two ranges of `s` touch, none of `released(s, m)` do.
#[verifier::rlimit(30)]
proof fn lemma_release_coalesced(s: Seq<Span>, m: Span, k: int)
    requires
        sorted(s),
        nonempty(s),
        disjoint(s),
        coalesced(s),
        m.0 < m.1,
        covered(s).intersect(span_addrs(m)) == Set::<int>::empty(),
        insertion_point(s, m.0, k),
    ensures
        coalesced(released(s, m)),
{
    lemma_release_parts(s, m, k);
    let l = joins_left(s, m, k);
    let r = joins_right(s, m, k);
    let lo = if l {
        k - 1
    } else {
        k
    };
    let hi = if r {
        k + 1
    } else {
        k
    };
    let u = released(s, m);
    assert forall|a: int, b: int| 0 <= a < b < u.len() implies u[a].1 < u[b].0 by {
        if b < lo {
            assert(u[a] == s[a]);
            assert(u[b] == s[b]);
        } else if b == lo {
            assert(u[a] == s[a]);
            if a < k - 1 {
                assert(s[a].1 < s[k - 1].0);
            }
        } else if a < lo {
            assert(u[a] == s[a]);
            assert(u[b] == s[b - lo - 1 + hi]);
        } else if a == lo {
            assert(u[b] == s[b - lo - 1 + hi]);
            if r {
                assert(s[k].1 < s[b - lo - 1 + hi].0);
            } else if b - lo - 1 + hi > k {
                assert(s[k].0 < s[b - lo - 1 + hi].0);
            }
        } else {
            assert(u[a] == s[a - lo - 1 + hi]);
            assert(u[b] == s[b - lo - 1 + hi]);
        }
    }
}

/// Handing back a non-empty range that holds no free address adds exactly
/// its addresses to the free ones, and keeps the ranges ordered, non-empty
/// and disjoint; where no two ranges touched before, none touch after.
pub proof fn law_release_returns_range(s: Seq<Span>, m: Span)
    requires
        sorted(s),
        nonempty(s),
        disjoint(s),
        m.0 < m.1,
        covered(s).intersect(span_addrs(m)) == Set::<int>::empty(),
    ensures
        covered(released(s, m)) == covered(s).union(span_addrs(m)),
        sorted(released(s, m)),
        nonempty(released(s, m)),
        disjoint(released(s, m)),
        coalesced(s) ==> coalesced(released(s, m)),
{
    let k = lemma_insertion_point_exists(s, m.0);
    lemma_release_covered(s, m, k);
    lemma_release_apart(s, m, k);
    if coalesced(s) {
        lemma_release_coalesced(s, m, k);
    }
}

/// Handing back the range that `get_mapping` handed out restores the free
/// ranges exactly, when no two of them touched before.
pub proof fn law_release_undoes_get_mapping(s: Seq<Span>, pl: usize, i: int)
    requires
        sorted(s),
        nonempty(s),
        coalesced(s),
        lengths_fit(s),
        is_first_fit(s, pl, i),
    ensures
        released(taken(s, pl, i), (s[i].0, (s[i].0 + pl) as u64)) == s,
{
    let si = s[i];
    let m = (si.0, (si.0 + pl) as u64);
    let rest = ((si.0 + pl) as u64, si.1);
    assert(si.0 + pl <= si.1);
    let a = taken(s, pl, i);
    if span_len(rest) > 0 {
        lemma_sorted_insert_replaces(s, i, rest);
        assert(a == s.update(i, rest));
        assert(sorted(a));
        assert forall|j: int| 0 <= j < i implies a[j].0 < m.0 by {}
        assert(insertion_point(a, m.0, i));
        lemma_released_at(a, m, i);
        assert(!joins_left(a, m, i));
        assert(joins_right(a, m, i));
        assert(joined(a, m, i) == si);
        assert(unjoined(a, m, i) =~= s.remove(i));
        lemma_sorted_insert_replaces(s, i, si);
        assert(s.update(i, si) =~= s);
    } else {
        assert(rest.0 == si.1);
        assert(a == s.remove(i));
        assert(sorted(a));
        assert forall|j: int| 0 <= j < i implies a[j].0 < m.0 by {}
        if i < a.len() {
            assert(a[i] == s[i + 1]);
        }
        assert(insertion_point(a, m.0, i));
        lemma_released_at(a, m, i);
        assert(!joins_left(a, m, i));
        assert(!joins_right(a, m, i));
        assert(joined(a, m, i) == si);
        assert(unjoined(a, m, i) =~= a);
        lemma_sorted_insert_replaces(s, i, si);
        assert(s.update(i, si) =~= s);
    }
}

/// Tracks which ranges of virtual addresses are free to hand out.
pub struct MmapTracker {
    ranges: Vec<MemoryRange>,
}

impl MmapTracker {
    /// The free ranges, ordered by start.
    pub closed spec fn view(&self) -> Seq<Span> {
        self.ranges@.map_values(|r: MemoryRange| (r.0.start, r.0.end))
    }

    /// The free ranges are ordered by start, with no two sharing a start.
    pub closed spec fn wf(&self) -> bool {
        sorted(self@)
    }

    /// Tracks the single free range `base..max`.
    pub fn new(base: u64, max: u64) -> (r: Self)
        requires
            base <= max,
        ensures
            r.wf(),
            r@ == seq![(base, max)],
    {
        let mut ranges = Vec::new();
        ranges.push(MemoryRange(base..max));
        let r = Self { ranges };
        assert(r@ =~= seq![(base, max)]);
        r
    }

    /// Adds a range, unless one with the same start is already tracked.
    fn insert_range(&mut self, r: MemoryRange)
        requires
            old(self).wf(),
            r.0.start <= r.0.end,
        ensures
            final(self).wf(),
            final(self)@ == sorted_insert(old(self)@, (r.0.start, r.0.end)),
    {
        let ghost s = self@;
        let ghost rv = (r.0.start, r.0.end);
        let mut k: usize = 0;
        proof {
            assert(s.subrange(0, 0) + s.subrange(0, s.len() as int) =~= s);
        }
        while k < self.ranges.len() && self.ranges[k].0.start < r.0.start
            invariant
                self@ == s,
                sorted(s),
                0 <= k <= s.len(),
                forall|j: int| 0 <= j < k ==> s[j].0 < rv.0,
                rv == (r.0.start, r.0.end),
                sorted_insert(s, rv) == s.subrange(0, k as int) + sorted_insert(
                    s.subrange(k as int, s.len() as int),
                    rv,
                ),
            decreases s.len() - k,
        {
            proof {
                assert(s[k as int] == (self.ranges@[k as int].0.start, self.ranges@[k as int].0.end));
                assert(self.ranges@[k as int].0.start < r.0.start);
                let t = s.subrange(k as int, s.len() as int);
                assert(t[0] == s[k as int]);
                assert(t.subrange(1, t.len() as int) =~= s.subrange(k + 1, s.len() as int));
                assert(s.subrange(0, k + 1) =~= s.subrange(0, k as int) + seq![s[k as int]]);
                assert(sorted_insert(t, rv) == seq![t[0]] + sorted_insert(t.subrange(1, t.len() as int), rv));
                assert(s.subrange(0, k as int) + (seq![s[k as int]] + sorted_insert(s.subrange(k + 1, s.len() as int), rv))
                    =~= s.subrange(0, k + 1) + sorted_insert(s.subrange(k + 1, s.len() as int), rv));
            }
            k = k + 1;
        }
        proof {
            let t = s.subrange(k as int, s.len() as int);
            if k < s.len() {
                assert(s[k as int] == (self.ranges@[k as int].0.start, self.ranges@[k as int].0.end));
                assert(t[0] == s[k as int]);
            }
        }
        if k < self.ranges.len() && self.ranges[k].0.start == r.0.start {
            proof {
                let t = s.subrange(k as int, s.len() as int);
                assert(s.subrange(0, k as int) + t =~= s);
            }
            return ;
        }
        self.ranges.insert(k, r);
        proof {
            let t = s.subrange(k as int, s.len() as int);
            if k < s.len() {
                assert(s[k as int] == (old(self).ranges@[k as int].0.start, old(self).ranges@[k as int].0.end));
            }
            assert(sorted_insert(t, rv) == seq![rv] + t);
            assert(self@ =~= s.subrange(0, k as int) + (seq![rv] + t));
        }
    }

    /// Hands out the first free range that can hold `length` bytes, rounded up
    /// to whole pages; what is left of that range stays free.
    pub fn get_mapping(&mut self, length: usize) -> (res: Option<MemoryRange>)
        requires
            old(self).wf(),
            round_up(length as int, PAGE_SIZE as int) <= usize::MAX,
        ensures
            final(self).wf(),
            ({
                let s = old(self)@;
                let pl = round_up(length as int, PAGE_SIZE as int) as usize;
                match res {
                    None => final(self)@ == s && forall|j: int|
                        0 <= j < s.len() ==> span_len(#[trigger] s[j]) < pl,
                    Some(m) => exists|i: int|
                        {
                            &&& #[trigger] is_first_fit(s, pl, i)
                            &&& m.0.start == s[i].0
                            &&& m.0.end == s[i].0 + pl
                            &&& final(self)@ == taken(s, pl, i)
                        },
                }
            }),
    {
        proof {
            lemma_round_up(length as int, PAGE_SIZE as int);
        }
        let page_length = next_multiple_of_usize(length, PS_USIZE);
        let ghost s = self@;
        assert forall|j: int| 0 <= j < self.ranges@.len() implies self.ranges@[j].0.start
            <= self.ranges@[j].0.end by {
            assert(s[j] == (self.ranges@[j].0.start, self.ranges@[j].0.end));
        }
        let mut i: usize = 0;
        while i < self.ranges.len() && self.ranges[i].len() < page_length
            invariant
                self@ == s,
                sorted(s),
                0 <= i <= s.len(),
                forall|j: int| 0 <= j < i ==> span_len(#[trigger] s[j]) < page_length,
                forall|j: int|
                    0 <= j < self.ranges@.len() ==> self.ranges@[j].0.start
                        <= self.ranges@[j].0.end,
            decreases s.len() - i,
        {
            assert(s[i as int] == (self.ranges@[i as int].0.start, self.ranges@[i as int].0.end));
            i = i + 1;
        }
        if i < self.ranges.len() {
            assert(s[i as int] == (self.ranges@[i as int].0.start, self.ranges@[i as int].0.end));
        }
        if i == self.ranges.len() {
            return None;
        }
        let entry = self.ranges.remove(i);
        proof {
            assert(self@ =~= s.remove(i as int));
            assert(is_first_fit(s, page_length, i as int));
        }
        let (ret, rest) = match entry.shrink(page_length) {
            Some(parts) => parts,
            None => {
                return None;
            },
        };
        proof {
            assert(sorted(s.remove(i as int)));
        }
        if rest.len() > 0 {
            self.insert_range(rest);
        }
        assert(is_first_fit(s, page_length, i as int));
        assert(ret.0.start == s[i as int].0);
        assert(ret.0.end == s[i as int].0 + page_length);
        assert(page_length == round_up(length as int, PAGE_SIZE as int) as usize);
        assert(rest.0.start == (s[i as int].0 + page_length) as u64);
        assert(rest.0.end == s[i as int].1);
        assert(self@ == if span_len(((s[i as int].0 + page_length) as u64, s[i as int].1)) > 0 {
            sorted_insert(s.remove(i as int), ((s[i as int].0 + page_length) as u64, s[i as int].1))
        } else {
            s.remove(i as int)
        });
        Some(ret)
    }

    /// Hands a range back to the tracker, merging it with the ranges before
    /// and after it where they touch it.
    pub fn release_mapping(&mut self, mapping: MemoryRange)
        requires
            old(self).wf(),
            mapping.0.start <= mapping.0.end,
        ensures
            final(self).wf(),
            final(self)@ == released(old(self)@, (mapping.0.start, mapping.0.end)),
    {
        let ghost s = self@;
        let ghost m = (mapping.0.start, mapping.0.end);
        // where a range starting at `mapping` belongs
        let mut k: usize = 0;
        while k < self.ranges.len() && self.ranges[k].0.start < mapping.0.start
            invariant
                self@ == s,
                sorted(s),
                0 <= k <= s.len(),
                forall|j: int| 0 <= j < k ==> s[j].0 < m.0,
                m == (mapping.0.start, mapping.0.end),
            decreases s.len() - k,
        {
            assert(s[k as int] == (self.ranges@[k as int].0.start, self.ranges@[k as int].0.end));
            k = k + 1;
        }
        proof {
            if k < s.len() {
                assert(s[k as int] == (self.ranges@[k as int].0.start, self.ranges@[k as int].0.end));
            }
            if k > 0 {
                assert(s[k - 1] == (self.ranges@[k - 1].0.start, self.ranges@[k - 1].0.end));
            }
            assert(insertion_point(s, m.0, k as int));
            lemma_released_at(s, m, k as int);
        }
        let left: Option<MemoryRange> = if k > 0 {
            self.ranges[k - 1].append(&mapping)
        } else {
            None
        };
        let joins_l = left.is_some();
        let new_left = match left {
            Some(x) => x,
            None => mapping,
        };
        let right: Option<MemoryRange> = if k < self.ranges.len() {
            new_left.append(&self.ranges[k])
        } else {
            None
        };
        let joins_r = right.is_some();
        let entry = match right {
            Some(x) => x,
            None => new_left,
        };
        proof {
            assert(joins_l == joins_left(s, m, k as int));
            assert(new_left.0.end == m.1);
            assert(joins_r == joins_right(s, m, k as int));
            assert((entry.0.start, entry.0.end) == joined(s, m, k as int));
        }
        if joins_r {
            self.ranges.remove(k);
        }
        if joins_l {
            self.ranges.remove(k - 1);
        }
        proof {
            assert(self@ =~= unjoined(s, m, k as int));
            assert(sorted(unjoined(s, m, k as int)));
        }
        self.insert_range(entry);
    }
}

} // verus!
