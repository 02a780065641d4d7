//! The position-addressed sequence.  Entries live in stable-index linked
//! storage; each entry records its `spacing`, the gap separating it from its
//! predecessor (or from coordinate zero for the first entry), so that an
//! entry's absolute position is the cumulative sum of spacings up to and
//! including its own.
//!
//! The list is modelled as a sequence of pairs `(stable index, entry)` in
//! storage order; every public contract speaks of that view.

use vstd::prelude::*;
use array_linked_list::ArrayLinkedList;
use crate::storage::{
    order_indices, order_insert_before, order_new, order_next, order_push_back, order_remove,
    storage_order,
};

verus! {

/// A node payload: a gap plus the stored value.
pub struct Entry<T> {
    /// Distance from the previous entry, or from coordinate zero for the
    /// first entry.
    pub spacing: usize,
    /// The stored value.
    pub value: T,
}

impl<T> Entry<T> {
    /// Packs a spacing and a value into an entry.
    pub fn new(spacing: usize, value: T) -> (r: Self)
        ensures
            r.spacing == spacing,
            r.value == value,
    {
        Entry { spacing, value }
    }
}

/// The model of a spaced list: its entries in storage order, each with the
/// stable index that addresses it.
pub type Entries<T> = Seq<(usize, Entry<T>)>;

/// The sum of all spacings: the coordinate just past the last entry.
pub open spec fn total<T>(v: Entries<T>) -> int
    decreases v.len(),
{
    if v.len() == 0 {
        0
    } else {
        total(v.drop_last()) + v.last().1.spacing
    }
}

/// The sum of the spacings of the first `k` entries.
pub open spec fn prefix<T>(v: Entries<T>, k: int) -> int {
    total(v.take(k))
}

/// The absolute position of the entry at storage rank `k`: the sum of
/// spacings up to and including its own.
pub open spec fn pos_of<T>(v: Entries<T>, k: int) -> int {
    prefix(v, k + 1)
}

/// Whether stable index `i` addresses a live entry.
pub open spec fn live<T>(v: Entries<T>, i: usize) -> bool {
    exists|k: int| 0 <= k < v.len() && v[k].0 == i
}

/// No two live entries share a stable index.
pub open spec fn distinct_indices<T>(v: Entries<T>) -> bool {
    forall|k: int, l: int| 0 <= k < l < v.len() ==> v[k].0 != v[l].0
}

/// The storage rank of the entry addressed by stable index `i`.
pub open spec fn rank<T>(v: Entries<T>, i: usize) -> int {
    choose|k: int| 0 <= k < v.len() && v[k].0 == i
}

/// The absolute position of the entry addressed by stable index `i`.
pub open spec fn position_of_index<T>(v: Entries<T>, i: usize) -> int {
    pos_of(v, rank(v, i))
}

/// The value of the entry addressed by stable index `i`.
pub open spec fn value_of_index<T>(v: Entries<T>, i: usize) -> T {
    v[rank(v, i)].1.value
}

/// The rank of the first entry whose absolute position exceeds `p`: the
/// scan target of the `after` operations, which keep an entry sitting
/// exactly at `p` on the near side.
pub open spec fn is_target_after<T>(v: Entries<T>, p: int, k: int) -> bool {
    &&& 0 <= k < v.len()
    &&& pos_of(v, k) > p
    &&& forall|j: int| 0 <= j < k ==> pos_of(v, j) <= p
}

/// The rank of the first entry whose absolute position reaches `p`: the
/// scan target of the `before` operations, which push an entry sitting
/// exactly at `p` to the far side.
pub open spec fn is_target_before<T>(v: Entries<T>, p: int, k: int) -> bool {
    &&& 0 <= k < v.len()
    &&& pos_of(v, k) >= p
    &&& forall|j: int| 0 <= j < k ==> pos_of(v, j) < p
}

/// The unique rank satisfying [`is_target_after`].
pub open spec fn target_after<T>(v: Entries<T>, p: int) -> int {
    choose|k: int| is_target_after(v, p, k)
}

/// The unique rank satisfying [`is_target_before`].
pub open spec fn target_before<T>(v: Entries<T>, p: int) -> int {
    choose|k: int| is_target_before(v, p, k)
}

/// The entries after an insertion at absolute position `p` splitting the
/// entry at rank `k`: a new entry under fresh index `r` takes the first part
/// of the split gap, the split entry keeps the rest, so every old entry
/// keeps its absolute position.
pub open spec fn split_ins<T>(v: Entries<T>, k: int, r: usize, p: int, value: T) -> Entries<T> {
    v.take(k) + seq![
        (r, Entry { spacing: (p - prefix(v, k)) as usize, value }),
        (v[k].0, Entry { spacing: (pos_of(v, k) - p) as usize, value: v[k].1.value }),
    ] + v.skip(k + 1)
}

/// The entries after adding `s` (possibly negative) to the spacing of the
/// entry at rank `k`.
pub open spec fn bump<T>(v: Entries<T>, k: int, s: int) -> Entries<T> {
    v.update(k, (v[k].0, Entry { spacing: (v[k].1.spacing + s) as usize, value: v[k].1.value }))
}

/// The entries after removing the entry at rank `k`: its gap is folded into
/// its successor, if any, so every remaining entry keeps its absolute
/// position.
pub open spec fn fold_remove<T>(v: Entries<T>, k: int) -> Entries<T> {
    if k + 1 < v.len() {
        v.take(k) + seq![
            (v[k + 1].0, Entry {
                spacing: (v[k].1.spacing + v[k + 1].1.spacing) as usize,
                value: v[k + 1].1.value,
            }),
        ] + v.skip(k + 2)
    } else {
        v.take(k)
    }
}

pub proof fn lemma_total_concat<T>(a: Entries<T>, b: Entries<T>)
    ensures
        total(a + b) == total(a) + total(b),
    decreases b.len(),
{
    if b.len() == 0 {
        assert(a + b =~= a);
    } else {
        assert((a + b).drop_last() =~= a + b.drop_last());
        lemma_total_concat(a, b.drop_last());
        assert((a + b).last() == b.last());
    }
}

pub proof fn lemma_total_singleton<T>(e: (usize, Entry<T>))
    ensures
        total(seq![e]) == e.1.spacing,
{
    let s = seq![e];
    assert(s.len() == 1);
    assert(s.last() == e);
    assert(s.drop_last() =~= Seq::<(usize, Entry<T>)>::empty());
    assert(total(s.drop_last()) == 0);
    assert(total(s) == total(s.drop_last()) + s.last().1.spacing);
}

/// Two entry sequences with the same spacings have the same total, no
/// matter their values.
pub proof fn lemma_total_same_spacings<T>(a: Entries<T>, b: Entries<T>)
    requires
        a.len() == b.len(),
        forall|j: int| 0 <= j < a.len() ==> a[j].1.spacing == b[j].1.spacing,
    ensures
        total(a) == total(b),
    decreases a.len(),
{
    if a.len() > 0 {
        assert(forall|j: int|
            0 <= j < a.drop_last().len() ==> a.drop_last()[j].1.spacing
                == b.drop_last()[j].1.spacing);
        lemma_total_same_spacings(a.drop_last(), b.drop_last());
    }
}

pub proof fn lemma_total_nonneg<T>(v: Entries<T>)
    ensures
        total(v) >= 0,
    decreases v.len(),
{
    if v.len() > 0 {
        lemma_total_nonneg(v.drop_last());
    }
}

pub proof fn lemma_prefix_step<T>(v: Entries<T>, k: int)
    requires
        0 <= k < v.len(),
    ensures
        prefix(v, k + 1) == prefix(v, k) + v[k].1.spacing,
{
    assert(v.take(k + 1).drop_last() =~= v.take(k));
    assert(v.take(k + 1).last() == v[k]);
}

pub proof fn lemma_prefix_bounds<T>(v: Entries<T>, k: int)
    requires
        0 <= k <= v.len(),
    ensures
        0 <= prefix(v, k) <= total(v),
{
    lemma_total_nonneg(v.take(k));
    lemma_total_nonneg(v.skip(k));
    assert(v =~= v.take(k) + v.skip(k));
    lemma_total_concat(v.take(k), v.skip(k));
}

pub proof fn lemma_prefix_full<T>(v: Entries<T>)
    ensures
        prefix(v, v.len() as int) == total(v),
{
    assert(v.take(v.len() as int) =~= v);
}

pub proof fn lemma_rank<T>(v: Entries<T>, i: usize, k: int)
    requires
        distinct_indices(v),
        0 <= k < v.len(),
        v[k].0 == i,
    ensures
        rank(v, i) == k,
        live(v, i),
{
    assert(0 <= k < v.len() && v[k].0 == i);
}

/// The two target predicates each hold of at most one rank.
pub proof fn lemma_target_after_unique<T>(v: Entries<T>, p: int, k: int)
    requires
        is_target_after(v, p, k),
    ensures
        target_after(v, p) == k,
{
    let t = target_after(v, p);
    assert(is_target_after(v, p, t));
}

pub proof fn lemma_target_before_unique<T>(v: Entries<T>, p: int, k: int)
    requires
        is_target_before(v, p, k),
    ensures
        target_before(v, p) == k,
{
    let t = target_before(v, p);
    assert(is_target_before(v, p, t));
}

proof fn lemma_target_after_from<T>(v: Entries<T>, p: int, k: int)
    requires
        0 <= k < v.len(),
        0 <= p < total(v),
        prefix(v, k) <= p,
        forall|j: int| 0 <= j < k ==> pos_of(v, j) <= p,
    ensures
        exists|t: int| is_target_after(v, p, t),
    decreases v.len() - k,
{
    lemma_prefix_step(v, k);
    if prefix(v, k) + v[k].1.spacing > p {
        assert(is_target_after(v, p, k));
    } else {
        lemma_prefix_full(v);
        assert(k + 1 < v.len());
        lemma_target_after_from(v, p, k + 1);
    }
}

/// A scan target for the `after` operations exists whenever `p` lies within
/// the occupied coordinate range.
pub proof fn lemma_target_after_exists<T>(v: Entries<T>, p: int)
    requires
        0 <= p < total(v),
    ensures
        is_target_after(v, p, target_after(v, p)),
{
    assert(v.len() > 0);
    lemma_target_after_from(v, p, 0);
    let t = choose|t: int| is_target_after(v, p, t);
    lemma_target_after_unique(v, p, t);
}

/// The split gap around a scan target: its near part and far part are both
/// non-negative and sum to the split entry's spacing.
pub proof fn lemma_target_after_bounds<T>(v: Entries<T>, p: int, k: int)
    requires
        0 <= p,
        is_target_after(v, p, k),
    ensures
        prefix(v, k) <= p < prefix(v, k) + v[k].1.spacing,
{
    lemma_prefix_step(v, k);
    if k > 0 {
        lemma_prefix_step(v, k - 1);
        assert(pos_of(v, k - 1) <= p);
    } else {
        assert(prefix(v, 0) == 0) by {
            assert(v.take(0) =~= Seq::<(usize, Entry<T>)>::empty());
        }
    }
}

pub proof fn lemma_target_before_bounds<T>(v: Entries<T>, p: int, k: int)
    requires
        0 <= p,
        is_target_before(v, p, k),
    ensures
        prefix(v, k) <= p <= prefix(v, k) + v[k].1.spacing,
{
    lemma_prefix_step(v, k);
    if k > 0 {
        lemma_prefix_step(v, k - 1);
        assert(pos_of(v, k - 1) < p);
    } else {
        assert(prefix(v, 0) == 0) by {
            assert(v.take(0) =~= Seq::<(usize, Entry<T>)>::empty());
        }
    }
}

pub proof fn lemma_total_subrange_split<T>(v: Entries<T>, a: int, b: int)
    requires
        0 <= a <= b <= v.len(),
    ensures
        prefix(v, b) == prefix(v, a) + total(v.subrange(a, b)),
{
    assert(v.take(b) =~= v.take(a) + v.subrange(a, b));
    lemma_total_concat(v.take(a), v.subrange(a, b));
}

/// A gap-splitting insertion leaves every existing entry alive, with its
/// value and its absolute position unchanged, and places the new entry
/// exactly at `p`.
pub proof fn lemma_split_preserves<T>(v: Entries<T>, k: int, r: usize, p: int, value: T)
    requires
        distinct_indices(v),
        0 <= k < v.len(),
        !live(v, r),
        prefix(v, k) <= p <= pos_of(v, k),
        0 <= total(v) <= usize::MAX,
    ensures
        ({
            let n = split_ins(v, k, r, p, value);
            &&& n.len() == v.len() + 1
            &&& distinct_indices(n)
            &&& live(n, r)
            &&& value_of_index(n, r) == value
            &&& position_of_index(n, r) == p
            &&& forall|i: usize|
                live(v, i) ==> live(n, i) && value_of_index(n, i) == value_of_index(v, i)
                    && position_of_index(n, i) == position_of_index(v, i)
            &&& forall|i: usize| live(n, i) ==> live(v, i) || i == r
        }),
{
    let n = split_ins(v, k, r, p, value);
    lemma_prefix_step(v, k);
    lemma_prefix_bounds(v, k);
    lemma_prefix_bounds(v, k + 1);
    assert forall|j: int| 0 <= j < v.len() implies v[j].0 != r by {
        if v[j].0 == r {
            assert(live(v, r));
        }
    }
    assert(n.len() == v.len() + 1);
    assert forall|m: int| 0 <= m < n.len() implies n[m] == (if m < k {
        v[m]
    } else if m == k {
        (r, Entry { spacing: (p - prefix(v, k)) as usize, value })
    } else if m == k + 1 {
        (v[k].0, Entry { spacing: (pos_of(v, k) - p) as usize, value: v[k].1.value })
    } else {
        v[m - 1]
    }) by {}
    assert(distinct_indices(n)) by {
        assert forall|a: int, b: int| 0 <= a < b < n.len() implies n[a].0 != n[b].0 by {
            let ia = if a < k { a } else { a - 1 };
            let ib = if b < k { b } else { b - 1 };
            if a != k && b != k && n[a].0 == n[b].0 {
                if ia == ib {
                    assert(a == k + 1 || b == k + 1);
                    assert(n[k + 1].0 == v[k].0);
                } else {
                    assert(v[ia].0 != v[ib].0);
                }
                assert(false);
            }
        }
    }
    // positions, rank by rank
    assert forall|m: int| 0 <= m < n.len() implies pos_of(n, m) == (if m < k {
        pos_of(v, m)
    } else if m == k {
        p
    } else {
        pos_of(v, m - 1)
    }) by {
        if m < k {
            assert(n.take(m + 1) =~= v.take(m + 1));
        } else if m == k {
            assert(n.take(k + 1) =~= v.take(k) + seq![n[k]]);
            lemma_total_concat(v.take(k), seq![n[k]]);
            lemma_total_singleton(n[k]);
        } else if m == k + 1 {
            assert(n.take(k + 2) =~= v.take(k) + seq![n[k]] + seq![n[k + 1]]);
            lemma_total_concat(v.take(k) + seq![n[k]], seq![n[k + 1]]);
            lemma_total_concat(v.take(k), seq![n[k]]);
            lemma_total_singleton(n[k]);
            lemma_total_singleton(n[k + 1]);
        } else {
            lemma_total_subrange_split(n, k + 2, m + 1);
            lemma_total_subrange_split(v, k + 1, m);
            assert(n.subrange(k + 2, m + 1) =~= v.subrange(k + 1, m));
            assert(pos_of(n, k + 1) == pos_of(v, k)) by {
                assert(n.take(k + 2) =~= v.take(k) + seq![n[k]] + seq![n[k + 1]]);
                lemma_total_concat(v.take(k) + seq![n[k]], seq![n[k + 1]]);
                lemma_total_concat(v.take(k), seq![n[k]]);
                lemma_total_singleton(n[k]);
                lemma_total_singleton(n[k + 1]);
            }
        }
    }
    lemma_rank(n, r, k);
    assert forall|i: usize|
        live(v, i) implies live(n, i) && value_of_index(n, i) == value_of_index(v, i)
            && position_of_index(n, i) == position_of_index(v, i) by {
        let m = choose|j: int| 0 <= j < v.len() && v[j].0 == i;
        lemma_rank(v, i, m);
        if m < k {
            lemma_rank(n, i, m);
        } else {
            lemma_rank(n, i, m + 1);
        }
    }
    assert forall|i: usize| live(n, i) implies live(v, i) || i == r by {
        let m = choose|j: int| 0 <= j < n.len() && n[j].0 == i;
        if m != k {
            let im = if m < k { m } else { m - 1 };
            assert(v[im].0 == i);
        }
    }
}

/// An appending insertion leaves every existing entry alive, with its value
/// and its absolute position unchanged, and places the new entry at the old
/// total plus its own spacing.
pub proof fn lemma_push_preserves<T>(v: Entries<T>, r: usize, sp: usize, value: T)
    requires
        distinct_indices(v),
        !live(v, r),
    ensures
        ({
            let n = v.push((r, Entry { spacing: sp, value }));
            &&& distinct_indices(n)
            &&& live(n, r)
            &&& value_of_index(n, r) == value
            &&& position_of_index(n, r) == total(v) + sp
            &&& forall|i: usize|
                live(v, i) ==> live(n, i) && value_of_index(n, i) == value_of_index(v, i)
                    && position_of_index(n, i) == position_of_index(v, i)
            &&& forall|i: usize| live(n, i) ==> live(v, i) || i == r
        }),
{
    let n = v.push((r, Entry { spacing: sp, value }));
    assert forall|j: int| 0 <= j < v.len() implies v[j].0 != r by {
        if v[j].0 == r {
            assert(live(v, r));
        }
    }
    assert(distinct_indices(n));
    lemma_rank(n, r, v.len() as int);
    assert(n.take(v.len() as int + 1) =~= v + seq![n[v.len() as int]]);
    lemma_total_concat(v, seq![n[v.len() as int]]);
    lemma_total_singleton(n[v.len() as int]);
    assert forall|i: usize|
        live(v, i) implies live(n, i) && value_of_index(n, i) == value_of_index(v, i)
            && position_of_index(n, i) == position_of_index(v, i) by {
        let m = choose|j: int| 0 <= j < v.len() && v[j].0 == i;
        lemma_rank(v, i, m);
        lemma_rank(n, i, m);
        assert(n.take(m + 1) =~= v.take(m + 1));
    }
    assert forall|i: usize| live(n, i) implies live(v, i) || i == r by {
        let m = choose|j: int| 0 <= j < n.len() && n[j].0 == i;
        if m < v.len() {
            assert(v[m].0 == i);
        }
    }
}

/// A fold-forward removal leaves every other entry alive, with its value
/// and its absolute position unchanged.
pub proof fn lemma_fold_remove_preserves<T>(v: Entries<T>, k: int)
    requires
        distinct_indices(v),
        0 <= k < v.len(),
        0 <= total(v) <= usize::MAX,
    ensures
        ({
            let n = fold_remove(v, k);
            &&& n.len() == v.len() - 1
            &&& distinct_indices(n)
            &&& !live(n, v[k].0)
            &&& forall|i: usize|
                live(v, i) && i != v[k].0 ==> live(n, i) && value_of_index(n, i)
                    == value_of_index(v, i) && position_of_index(n, i) == position_of_index(v, i)
            &&& forall|i: usize| live(n, i) ==> live(v, i) && i != v[k].0
        }),
{
    let n = fold_remove(v, k);
    lemma_prefix_step(v, k);
    lemma_prefix_bounds(v, k);
    if k + 1 < v.len() {
        lemma_prefix_step(v, k + 1);
        lemma_prefix_bounds(v, k + 2);
    }
    assert(n.len() == v.len() - 1);
    assert forall|m: int| 0 <= m < n.len() implies n[m] == (if m < k {
        v[m]
    } else if m == k {
        (v[k + 1].0, Entry {
            spacing: (v[k].1.spacing + v[k + 1].1.spacing) as usize,
            value: v[k + 1].1.value,
        })
    } else {
        v[m + 1]
    }) by {}
    assert(distinct_indices(n)) by {
        assert forall|a: int, b: int| 0 <= a < b < n.len() implies n[a].0 != n[b].0 by {
            let ia = if a < k { a } else { a + 1 };
            let ib = if b < k { b } else { b + 1 };
            assert(n[a].0 == v[ia].0);
            assert(n[b].0 == v[ib].0);
        }
    }
    assert(!live(n, v[k].0)) by {
        if live(n, v[k].0) {
            let m = choose|j: int| 0 <= j < n.len() && n[j].0 == v[k].0;
            let im = if m < k { m } else { m + 1 };
            assert(v[im].0 == v[k].0);
            assert(im != k);
        }
    }
    assert forall|m: int| 0 <= m < n.len() implies pos_of(n, m) == (if m < k {
        pos_of(v, m)
    } else {
        pos_of(v, m + 1)
    }) by {
        if m < k {
            assert(n.take(m + 1) =~= v.take(m + 1));
        } else if m == k {
            assert(n.take(k + 1) =~= v.take(k) + seq![n[k]]);
            lemma_total_concat(v.take(k), seq![n[k]]);
            lemma_total_singleton(n[k]);
        } else {
            lemma_total_subrange_split(n, k + 1, m + 1);
            lemma_total_subrange_split(v, k + 2, m + 2);
            assert(n.subrange(k + 1, m + 1) =~= v.subrange(k + 2, m + 2));
            assert(pos_of(n, k) == pos_of(v, k + 1)) by {
                assert(n.take(k + 1) =~= v.take(k) + seq![n[k]]);
                lemma_total_concat(v.take(k), seq![n[k]]);
                lemma_total_singleton(n[k]);
            }
        }
    }
    assert forall|i: usize|
        live(v, i) && i != v[k].0 implies live(n, i) && value_of_index(n, i) == value_of_index(
        v,
        i,
    ) && position_of_index(n, i) == position_of_index(v, i) by {
        let m = choose|j: int| 0 <= j < v.len() && v[j].0 == i;
        lemma_rank(v, i, m);
        if m < k {
            lemma_rank(n, i, m);
        } else if m == k + 1 {
            lemma_rank(n, i, k);
        } else {
            lemma_rank(n, i, m - 1);
        }
    }
    assert forall|i: usize| live(n, i) implies live(v, i) && i != v[k].0 by {
        let m = choose|j: int| 0 <= j < n.len() && n[j].0 == i;
        let im = if m < k { m } else { m + 1 };
        assert(v[im].0 == i);
        assert(im != k);
    }
}

/// A gap adjustment moves exactly the entries at or past the adjustment
/// target: each keeps its identity and value, and its position shifts by
/// `s` if its rank is at or past `k`, else stays.
pub proof fn lemma_bump_preserves<T>(v: Entries<T>, k: int, s: int)
    requires
        distinct_indices(v),
        0 <= k < v.len(),
        0 <= v[k].1.spacing + s <= usize::MAX,
    ensures
        ({
            let n = bump(v, k, s);
            &&& n.len() == v.len()
            &&& distinct_indices(n)
            &&& forall|i: usize|
                live(v, i) ==> live(n, i) && value_of_index(n, i) == value_of_index(v, i)
                    && rank(n, i) == rank(v, i)
                    && position_of_index(n, i) == position_of_index(v, i) + (if rank(v, i) >= k {
                    s
                } else {
                    0
                })
            &&& forall|i: usize| live(n, i) ==> live(v, i)
        }),
{
    let n = bump(v, k, s);
    assert(distinct_indices(n)) by {
        assert forall|a: int, b: int| 0 <= a < b < n.len() implies n[a].0 != n[b].0 by {
            assert(n[a].0 == v[a].0);
            assert(n[b].0 == v[b].0);
        }
    }
    assert forall|m: int| 0 <= m < n.len() implies pos_of(n, m) == pos_of(v, m) + (if m >= k {
        s
    } else {
        0
    }) by {
        if m < k {
            assert(n.take(m + 1) =~= v.take(m + 1));
        } else {
            assert(n.take(m + 1) =~= v.take(k) + seq![n[k]] + n.subrange(k + 1, m + 1));
            assert(v.take(m + 1) =~= v.take(k) + seq![v[k]] + v.subrange(k + 1, m + 1));
            assert(n.subrange(k + 1, m + 1) =~= v.subrange(k + 1, m + 1));
            lemma_total_concat(v.take(k) + seq![n[k]], n.subrange(k + 1, m + 1));
            lemma_total_concat(v.take(k), seq![n[k]]);
            lemma_total_singleton(n[k]);
            lemma_total_concat(v.take(k) + seq![v[k]], v.subrange(k + 1, m + 1));
            lemma_total_concat(v.take(k), seq![v[k]]);
            lemma_total_singleton(v[k]);
        }
    }
    assert forall|i: usize|
        live(v, i) implies live(n, i) && value_of_index(n, i) == value_of_index(v, i) && rank(n, i)
            == rank(v, i) && position_of_index(n, i) == position_of_index(v, i) + (if rank(v, i)
            >= k {
            s
        } else {
            0
        }) by {
        let m = choose|j: int| 0 <= j < v.len() && v[j].0 == i;
        lemma_rank(v, i, m);
        lemma_rank(n, i, m);
    }
    assert forall|i: usize| live(n, i) implies live(v, i) by {
        let m = choose|j: int| 0 <= j < n.len() && n[j].0 == i;
        assert(v[m].0 == i);
    }
}

/// Absolute positions never decrease along storage order.
pub proof fn lemma_pos_mono<T>(v: Entries<T>, a: int, b: int)
    requires
        0 <= a <= b < v.len(),
    ensures
        pos_of(v, a) <= pos_of(v, b),
{
    lemma_total_subrange_split(v, a + 1, b + 1);
    lemma_total_nonneg(v.subrange(a + 1, b + 1));
}

/// A gap adjustment at a scan target shifts exactly the entries whose
/// position lies past the adjustment point: by `s` for those, not at all
/// for the others.
pub proof fn lemma_bump_shift<T>(v: Entries<T>, p: int, k: int, s: int, strict: bool)
    requires
        distinct_indices(v),
        strict ==> is_target_after(v, p, k),
        !strict ==> is_target_before(v, p, k),
        0 <= v[k].1.spacing + s <= usize::MAX,
    ensures
        bump(v, k, s).len() == v.len(),
        distinct_indices(bump(v, k, s)),
        forall|i: usize|
            live(v, i) ==> live(bump(v, k, s), i) && value_of_index(bump(v, k, s), i)
                == value_of_index(v, i) && position_of_index(bump(v, k, s), i)
                == position_of_index(v, i) + (if (strict && position_of_index(v, i) > p) || (
            !strict && position_of_index(v, i) >= p) {
                s
            } else {
                0
            }),
        forall|i: usize| live(bump(v, k, s), i) ==> live(v, i),
{
    lemma_bump_preserves(v, k, s);
    let n = bump(v, k, s);
    assert forall|i: usize|
        live(v, i) implies live(n, i) && value_of_index(n, i) == value_of_index(v, i)
            && position_of_index(n, i) == position_of_index(v, i) + (if (strict
            && position_of_index(v, i) > p) || (!strict && position_of_index(v, i) >= p) {
            s
        } else {
            0
        }) by {
        let m = choose|j: int| 0 <= j < v.len() && v[j].0 == i;
        lemma_rank(v, i, m);
        if m >= k {
            lemma_pos_mono(v, k, m);
            assert(pos_of(v, k) == position_of_index(v, i) - (position_of_index(v, i) - pos_of(
                v,
                k,
            )));
        } else {
            if strict {
                assert(pos_of(v, m) <= p);
            } else {
                assert(pos_of(v, m) < p);
            }
        }
    }
}

/// Inflating the gap covering `p` and then deflating it by the same amount
/// at the same position restores the list exactly: the deflation finds the
/// same entry, the deflation amount is available, and the entries come back
/// unchanged.
pub proof fn lemma_inflate_deflate_roundtrip<T>(v: Entries<T>, p: int, s: int)
    requires
        0 <= p < total(v),
        0 <= s,
        total(v) + s <= usize::MAX,
    ensures
        ({
            let t = target_after(v, p);
            let w = bump(v, t, s);
            &&& is_target_after(v, p, t)
            &&& target_after(w, p) == t
            &&& s <= w[t].1.spacing
            &&& bump(w, t, -s) == v
        }),
{
    lemma_total_nonneg(v);
    lemma_target_after_exists(v, p);
    let t = target_after(v, p);
    lemma_target_after_bounds(v, p, t);
    lemma_prefix_step(v, t);
    lemma_prefix_bounds(v, t);
    lemma_prefix_bounds(v, t + 1);
    let w = bump(v, t, s);
    assert(is_target_after(w, p, t)) by {
        assert(pos_of(w, t) > p) by {
            assert(w.take(t + 1) =~= v.take(t) + seq![w[t]]);
            lemma_total_concat(v.take(t), seq![w[t]]);
            lemma_total_singleton(w[t]);
        }
        assert forall|j: int| 0 <= j < t implies pos_of(w, j) <= p by {
            assert(w.take(j + 1) =~= v.take(j + 1));
            assert(pos_of(w, j) == total(w.take(j + 1)));
            assert(pos_of(v, j) <= p);
        }
    }
    lemma_target_after_unique(w, p, t);
    assert(w[t].1.spacing == v[t].1.spacing + s);
    assert(bump(w, t, -s) =~= v);
}

/// each live slot, the entry stored there, plus the running total of all
/// spacings.
pub struct LinkedSpacedList<T> {
    order: ArrayLinkedList<()>,
    slots: Vec<Option<Entry<T>>>,
    length: usize,
}

impl<T> View for LinkedSpacedList<T> {
    type V = Entries<T>;

    closed spec fn view(&self) -> Entries<T> {
        Seq::new(
            storage_order(self.order).len(),
            |k: int|
                (
                    storage_order(self.order)[k],
                    self.slots@[storage_order(self.order)[k] as int]->0,
                ),
        )
    }
}

impl<T> LinkedSpacedList<T> {
    /// The representation invariant: the stored order names each slot at
    /// most once, every named slot holds an entry, and `length` is the sum
    /// of all spacings.
    pub closed spec fn wf(&self) -> bool {
        let ord = storage_order(self.order);
        &&& ord.no_duplicates()
        &&& forall|k: int|
            0 <= k < ord.len() ==> ord[k] < self.slots@.len() && self.slots@[ord[k] as int] is Some
        &&& self.length == total(self@)
    }

    /// What every well-formed list guarantees of its view: stable indices
    /// are distinct and the total spacing fits the coordinate type.
    pub proof fn lemma_wf(&self)
        requires
            self.wf(),
        ensures
            distinct_indices(self@),
            0 <= total(self@) <= usize::MAX,
    {
        let ord = storage_order(self.order);
        assert forall|k: int, l: int| 0 <= k < l < self@.len() implies self@[k].0 != self@[l].0 by {
            assert(ord[k] == self@[k].0);
            assert(ord[l] == self@[l].0);
        }
        lemma_total_nonneg(self@);
    }

    /// An empty list: no entries, zero length.
    pub fn new() -> (r: Self)
        ensures
            r.wf(),
            r@ == Seq::<(usize, Entry<T>)>::empty(),
    {
        let r = LinkedSpacedList { order: order_new(), slots: Vec::new(), length: 0 };
        proof {
            assert(r@ =~= Seq::<(usize, Entry<T>)>::empty());
        }
        r
    }

    /// The coordinate just past the last entry: the sum of all spacings.
    pub fn length(&self) -> (r: usize)
        requires
            self.wf(),
        ensures
            r == total(self@),
    {
        self.length
    }

    /// How many entries the list holds.
    pub fn count(&self) -> (r: usize)
        requires
            self.wf(),
        ensures
            r == self@.len(),
    {
        let ord = order_indices(&self.order);
        ord.len()
    }

    /// Appends an entry `spacing` past the current end and returns its
    /// stable index, which addressed no entry before the call.
    pub fn push(&mut self, spacing: usize, value: T) -> (r: usize)
        requires
            old(self).wf(),
            total(old(self)@) + spacing <= usize::MAX,
        ensures
            final(self).wf(),
            final(self)@ == old(self)@.push((r, Entry { spacing, value })),
            !live(old(self)@, r),
            live(final(self)@, r),
            value_of_index(final(self)@, r) == value,
            distinct_indices(final(self)@),
            total(final(self)@) == total(old(self)@) + spacing,
            position_of_index(final(self)@, r) == total(old(self)@) + spacing,
            forall|i: usize|
                live(old(self)@, i) ==> live(final(self)@, i) && value_of_index(final(self)@, i)
                    == value_of_index(old(self)@, i) && position_of_index(final(self)@, i)
                    == position_of_index(old(self)@, i),
            forall|i: usize| live(final(self)@, i) ==> live(old(self)@, i) || i == r,
    {
        let ghost v = self@;
        let r = order_push_back(&mut self.order);
        pad_slots(&mut self.slots, r);
        self.slots[r] = Some(Entry { spacing, value });
        proof {
            lemma_total_nonneg(v);
        }
        self.length = self.length + spacing;
        proof {
            let ghost ord = storage_order(old(self).order);
            let ghost n = self@;
            assert forall|j: int| 0 <= j < ord.len() implies ord[j] != r by {
                if ord[j] == r {
                    assert(ord.contains(r));
                }
            }
            assert(n =~= v.push((r, Entry { spacing, value })));
            assert(total(n) == total(v) + spacing) by {
                assert(n.drop_last() =~= v);
            }
            old(self).lemma_wf();
            assert(!live(v, r));
            lemma_push_preserves(v, r, spacing, value);
            assert(distinct_indices(n));
            lemma_rank(n, r, v.len() as int);
            lemma_prefix_full(n);
            assert(storage_order(self.order).no_duplicates()) by {
                let nord = storage_order(self.order);
                assert forall|k: int, l: int|
                    0 <= k < nord.len() && 0 <= l < nord.len() && k != l implies nord[k]
                    != nord[l] by {
                    if nord[k] == nord[l] {
                        assert(n[k].0 == n[l].0);
                    }
                }
            }
        }
        r
    }

    /// Scans from the head, accumulating spacings, and returns the rank,
    /// stable index and preceding prefix sum of the scan target: with
    /// `strict`, the first entry whose position exceeds `position`; without,
    /// the first whose position reaches it.
    fn locate(&self, position: usize, strict: bool) -> (r: (usize, usize, usize))
        requires
            self.wf(),
            strict ==> position < total(self@),
            !strict ==> self@.len() > 0 && position <= total(self@),
        ensures
            ({
                let (k, i, sum) = r;
                &&& if strict {
                    is_target_after(self@, position as int, k as int)
                } else {
                    is_target_before(self@, position as int, k as int)
                }
                &&& k < self@.len()
                &&& i == self@[k as int].0
                &&& sum == prefix(self@, k as int)
            }),
    {
        let ghost v = self@;
        let ord = order_indices(&self.order);
        let ord_len = ord.len();
        let mut k: usize = 0;
        let mut sum: usize = 0;
        proof {
            assert(prefix(v, 0) == 0) by {
                assert(v.take(0) =~= Seq::<(usize, Entry<T>)>::empty());
            }
            lemma_total_nonneg(v);
            assert(v.len() > 0);
        }
        loop
            invariant
                self.wf(),
                v == self@,
                ord@ == storage_order(self.order),
                v.len() == ord_len,
                strict ==> position < total(v),
                !strict ==> v.len() > 0 && position <= total(v),
                0 <= k < v.len(),
                sum == prefix(v, k as int),
                forall|j: int|
                    0 <= j < k ==> (if strict {
                        pos_of(v, j) <= position
                    } else {
                        pos_of(v, j) < position
                    }),
            decreases v.len() - k,
        {
            let i = ord[k];
            let sp = self.slots[i].as_ref().unwrap().spacing;
            proof {
                assert(v[k as int] == (ord@[k as int], self.slots@[ord@[k as int] as int]->0));
                assert(sp == v[k as int].1.spacing);
                lemma_prefix_step(v, k as int);
                lemma_prefix_bounds(v, k as int + 1);
            }
            if strict {
                if sum + sp > position {
                    proof {
                        assert(is_target_after(v, position as int, k as int));
                    }
                    return (k, i, sum);
                }
            } else {
                if sum + sp >= position {
                    proof {
                        assert(is_target_before(v, position as int, k as int));
                    }
                    return (k, i, sum);
                }
            }
            sum = sum + sp;
            k = k + 1;
            proof {
                if k == v.len() {
                    lemma_prefix_full(v);
                    assert(pos_of(v, k - 1) == total(v));
                    assert(false);
                }
            }
        }
    }

    /// Inserts a value at absolute position `position`.  Past the current
    /// length this appends, padding with the leftover gap; otherwise it
    /// splits the gap covering `position`, placing the new entry after any
    /// entry sitting exactly there, so no other entry moves.
    pub fn insert_after(&mut self, position: usize, value: T) -> (r: usize)
        requires
            old(self).wf(),
        ensures
            final(self).wf(),
            !live(old(self)@, r),
            live(final(self)@, r),
            value_of_index(final(self)@, r) == value,
            distinct_indices(final(self)@),
            final(self)@.len() == old(self)@.len() + 1,
            position_of_index(final(self)@, r) == position,
            forall|i: usize|
                live(old(self)@, i) ==> live(final(self)@, i) && value_of_index(final(self)@, i)
                    == value_of_index(old(self)@, i) && position_of_index(final(self)@, i)
                    == position_of_index(old(self)@, i),
            forall|i: usize| live(final(self)@, i) ==> live(old(self)@, i) || i == r,
            total(final(self)@) == (if position >= total(old(self)@) {
                position as int
            } else {
                total(old(self)@)
            }),
            final(self)@ == (if position >= total(old(self)@) {
                old(self)@.push((r, Entry { spacing: (position - total(old(self)@)) as usize, value }))
            } else {
                split_ins(old(self)@, target_after(old(self)@, position as int), r, position as int, value)
            }),
    {
        proof {
            old(self).lemma_wf();
        }
        if position >= self.length {
            let r = self.push(position - self.length, value);
            return r;
        }
        let (k, i, sum) = self.locate(position, true);
        proof {
            lemma_target_after_bounds(self@, position as int, k as int);
        }
        let r = self.split_at(k, i, sum, position, value);
        proof {
            lemma_target_after_unique(old(self)@, position as int, k as int);
            lemma_split_preserves(old(self)@, k as int, r, position as int, value);
        }
        r
    }

    /// Inserts a value at absolute position `position`.  Past the current
    /// length this appends, padding with the leftover gap; otherwise it
    /// splits the gap covering `position`, placing the new entry before any
    /// entry sitting exactly there, so no other entry moves.
    pub fn insert_before(&mut self, position: usize, value: T) -> (r: usize)
        requires
            old(self).wf(),
            old(self)@.len() > 0 || position > 0,
        ensures
            final(self).wf(),
            !live(old(self)@, r),
            live(final(self)@, r),
            value_of_index(final(self)@, r) == value,
            distinct_indices(final(self)@),
            final(self)@.len() == old(self)@.len() + 1,
            position_of_index(final(self)@, r) == position,
            forall|i: usize|
                live(old(self)@, i) ==> live(final(self)@, i) && value_of_index(final(self)@, i)
                    == value_of_index(old(self)@, i) && position_of_index(final(self)@, i)
                    == position_of_index(old(self)@, i),
            forall|i: usize| live(final(self)@, i) ==> live(old(self)@, i) || i == r,
            total(final(self)@) == (if position > total(old(self)@) {
                position as int
            } else {
                total(old(self)@)
            }),
            final(self)@ == (if position > total(old(self)@) {
                old(self)@.push((r, Entry { spacing: (position - total(old(self)@)) as usize, value }))
            } else {
                split_ins(old(self)@, target_before(old(self)@, position as int), r, position as int, value)
            }),
    {
        proof {
            old(self).lemma_wf();
        }
        if position > self.length {
            let r = self.push(position - self.length, value);
            return r;
        }
        let (k, i, sum) = self.locate(position, false);
        proof {
            lemma_target_before_bounds(self@, position as int, k as int);
        }
        let r = self.split_at(k, i, sum, position, value);
        proof {
            lemma_target_before_unique(old(self)@, position as int, k as int);
            lemma_split_preserves(old(self)@, k as int, r, position as int, value);
        }
        r
    }

    /// Shared splitting step of the two inserts: shrinks the scan target's
    /// spacing by the leftover offset and links a new entry directly before
    /// it carrying that offset.
    fn split_at(&mut self, k: usize, i: usize, sum: usize, position: usize, value: T) -> (r: usize)
        requires
            old(self).wf(),
            (k as int) < old(self)@.len(),
            i == old(self)@[k as int].0,
            sum == prefix(old(self)@, k as int),
            sum <= position,
            position <= pos_of(old(self)@, k as int),
            forall|j: int| 0 <= j < k ==> old(self)@[j].0 != i,
        ensures
            final(self).wf(),
            !live(old(self)@, r),
            live(final(self)@, r),
            position_of_index(final(self)@, r) == position,
            total(final(self)@) == total(old(self)@),
            final(self)@ == split_ins(old(self)@, k as int, r, position as int, value),
    {
        let ghost v = old(self)@;
        let ghost ord = storage_order(old(self).order);
        proof {
            old(self).lemma_wf();
            lemma_prefix_step(v, k as int);
            lemma_prefix_bounds(v, k as int + 1);
            assert(v[k as int] == (ord[k as int], old(self).slots@[ord[k as int] as int]->0));
            assert(ord[k as int] == i);
            assert(ord.contains(i));
        }
        let off = position - sum;
        let e = self.slots[i].take().unwrap();
        let esp = e.spacing;
        self.slots[i] = Some(Entry { spacing: esp - off, value: e.value });
        let r = order_insert_before(&mut self.order, i);
        proof {
            let kk = ord.index_of(i);
            assert(ord[kk] == i);
            assert(kk == k as int);
        }
        pad_slots(&mut self.slots, r);
        self.slots[r] = Some(Entry { spacing: off, value });
        proof {
            let n = self@;
            let nord = storage_order(self.order);
            let w = split_ins(v, k as int, r, position as int, value);
            assert(nord == ord.insert(k as int, r));
            ord.insert_ensures(k as int, r);
            assert forall|j: int| 0 <= j < ord.len() implies ord[j] != r by {
                if ord[j] == r {
                    assert(ord.contains(r));
                }
            }
            assert(n.len() == w.len());
            assert forall|j: int| 0 <= j < n.len() implies n[j] == w[j] by {
                assert(n[j] == (nord[j], self.slots@[nord[j] as int]->0));
                if j < k {
                    assert(nord[j] == ord[j]);
                    assert(ord[j] != i);
                    assert(w[j] == v[j]);
                } else if j == k {
                    assert(nord[j] == r);
                } else if j == k + 1 {
                    assert(nord[j] == ord[j - 1]);
                    assert(nord[j] == i);
                } else {
                    assert(nord[j] == ord[j - 1]);
                    assert(ord[j - 1] != i);
                    assert(ord[j - 1] != r);
                    assert(w[j] == v[j - 1]);
                }
            }
            assert(n =~= w);
            // distinctness of the new order
            assert(nord.no_duplicates()) by {
                assert forall|a: int, b: int|
                    0 <= a < nord.len() && 0 <= b < nord.len() && a != b implies nord[a]
                    != nord[b] by {
                    assert(nord[a] == (if a < k { ord[a] } else if a == k { r } else { ord[a - 1] }));
                    assert(nord[b] == (if b < k { ord[b] } else if b == k { r } else { ord[b - 1] }));
                }
            }
            // total is preserved
            assert(v =~= v.take(k as int) + seq![v[k as int]] + v.skip(k as int + 1));
            lemma_total_concat(v.take(k as int) + seq![v[k as int]], v.skip(k as int + 1));
            lemma_total_concat(v.take(k as int), seq![v[k as int]]);
            lemma_total_singleton(v[k as int]);
            let mid = seq![
                (r, Entry { spacing: (position - prefix(v, k as int)) as usize, value }),
                (v[k as int].0, Entry {
                    spacing: (pos_of(v, k as int) - position) as usize,
                    value: v[k as int].1.value,
                }),
            ];
            lemma_total_concat(v.take(k as int) + mid, v.skip(k as int + 1));
            lemma_total_concat(v.take(k as int), mid);
            assert(0 <= position - prefix(v, k as int) <= usize::MAX);
            assert(0 <= pos_of(v, k as int) - position <= usize::MAX);
            assert(total(mid) == v[k as int].1.spacing) by {
                assert(mid =~= seq![mid[0]] + seq![mid[1]]);
                lemma_total_concat(seq![mid[0]], seq![mid[1]]);
                lemma_total_singleton(mid[0]);
                lemma_total_singleton(mid[1]);
            }
            assert(w == v.take(k as int) + mid + v.skip(k as int + 1));
            assert(total(n) == total(v));
            // the new entry sits exactly at `position`
            assert(distinct_indices(n)) by {
                assert forall|a: int, b: int| 0 <= a < b < n.len() implies n[a].0 != n[b].0 by {
                    assert(n[a].0 == nord[a]);
                    assert(n[b].0 == nord[b]);
                }
            }
            lemma_rank(n, r, k as int);
            assert(n.take(k as int + 1) =~= v.take(k as int) + seq![n[k as int]]);
            lemma_total_concat(v.take(k as int), seq![n[k as int]]);
            assert(total(seq![n[k as int]]) == off) by {
                lemma_total_singleton(n[k as int]);
            }
            assert(position_of_index(n, r) == position);
            // well-formedness of the slot table
            assert forall|q: int|
                0 <= q < nord.len() implies nord[q] < self.slots@.len() && self.slots@[nord[q] as int]
                is Some by {
                if q < k {
                    assert(nord[q] == ord[q]);
                    assert(ord[q] != i || q == k as int);
                } else if q == k as int {
                    assert(nord[q] == r);
                } else {
                    assert(nord[q] == ord[q - 1]);
                }
            }
        }
        r
    }
    /// Destroys the entry addressed by `index` and returns its value.  The
    /// vacated gap is folded into the successor entry, if any, so every
    /// remaining entry keeps its absolute position.
    pub fn remove(&mut self, index: usize) -> (r: T)
        requires
            old(self).wf(),
            live(old(self)@, index),
        ensures
            final(self).wf(),
            final(self)@ == fold_remove(old(self)@, rank(old(self)@, index)),
            r == value_of_index(old(self)@, index),
            final(self)@.len() == old(self)@.len() - 1,
            !live(final(self)@, index),
            distinct_indices(final(self)@),
            forall|i: usize|
                live(old(self)@, i) && i != index ==> live(final(self)@, i) && value_of_index(
                    final(self)@,
                    i,
                ) == value_of_index(old(self)@, i) && position_of_index(final(self)@, i)
                    == position_of_index(old(self)@, i),
            forall|i: usize| live(final(self)@, i) ==> live(old(self)@, i) && i != index,
    {
        let ghost v = old(self)@;
        let ghost ord = storage_order(old(self).order);
        let ghost k = rank(v, index);
        proof {
            old(self).lemma_wf();
            let kw = choose|j: int| 0 <= j < v.len() && v[j].0 == index;
            lemma_rank(v, index, kw);
            assert(v[k] == (ord[k], old(self).slots@[ord[k] as int]->0));
            assert(ord[k] == index);
            assert(ord.contains(index));
        }
        let nxt = order_next(&self.order, index);
        proof {
            let kk = ord.index_of(index);
            assert(ord[kk] == index);
            assert(kk == k);
        }
        let e = self.slots[index].take().unwrap();
        match nxt {
            Some(j) => {
                proof {
                    assert(k + 1 < v.len());
                    assert(j == ord[k + 1]);
                    assert(v[k + 1] == (ord[k + 1], old(self).slots@[ord[k + 1] as int]->0));
                    assert(j != index);
                    lemma_prefix_step(v, k);
                    lemma_prefix_step(v, k + 1);
                    lemma_prefix_bounds(v, k + 2);
                    lemma_prefix_bounds(v, k);
                }
                let e2 = self.slots[j].take().unwrap();
                self.slots[j] = Some(Entry { spacing: e.spacing + e2.spacing, value: e2.value });
            }
            None => {
                proof {
                    assert(k == v.len() - 1);
                    lemma_total_nonneg(v.drop_last());
                    assert(v.drop_last().len() == v.len() - 1);
                    assert(total(v) == total(v.drop_last()) + v.last().1.spacing);
                }
                self.length = self.length - e.spacing;
            }
        }
        order_remove(&mut self.order, index);
        proof {
            let n = self@;
            let nord = storage_order(self.order);
            let w = fold_remove(v, k);
            assert(nord == ord.remove(k));
            ord.remove_ensures(k);
            assert(n.len() == w.len());
            assert forall|m: int| 0 <= m < n.len() implies n[m] == w[m] by {
                assert(n[m] == (nord[m], self.slots@[nord[m] as int]->0));
                if m < k {
                    assert(nord[m] == ord[m]);
                    assert(ord[m] != index);
                    assert(k + 1 < v.len() ==> ord[m] != ord[k + 1]);
                    assert(w[m] == v[m]);
                } else if m == k && k + 1 < v.len() {
                    assert(nord[m] == ord[k + 1]);
                } else {
                    assert(nord[m] == ord[m + 1]);
                    assert(ord[m + 1] != index);
                    assert(k + 1 < v.len() ==> ord[m + 1] != ord[k + 1]);
                    assert(w[m] == v[m + 1]);
                }
            }
            assert(n =~= w);
            assert(nord.no_duplicates()) by {
                assert forall|a: int, b: int|
                    0 <= a < nord.len() && 0 <= b < nord.len() && a != b implies nord[a]
                    != nord[b] by {
                    assert(nord[a] == (if a < k { ord[a] } else { ord[a + 1] }));
                    assert(nord[b] == (if b < k { ord[b] } else { ord[b + 1] }));
                }
            }
            if k + 1 < v.len() {
                assert(v =~= v.take(k) + seq![v[k]] + seq![v[k + 1]] + v.skip(k + 2));
                lemma_total_concat(v.take(k) + seq![v[k]] + seq![v[k + 1]], v.skip(k + 2));
                lemma_total_concat(v.take(k) + seq![v[k]], seq![v[k + 1]]);
                lemma_total_concat(v.take(k), seq![v[k]]);
                lemma_total_singleton(v[k]);
                lemma_total_singleton(v[k + 1]);
                assert(w == v.take(k) + seq![w[k]] + v.skip(k + 2)) by {
                    assert(w =~= v.take(k) + seq![w[k]] + v.skip(k + 2));
                }
                lemma_total_concat(v.take(k) + seq![w[k]], v.skip(k + 2));
                lemma_total_concat(v.take(k), seq![w[k]]);
                lemma_total_singleton(w[k]);
                assert(total(n) == total(v));
            } else {
                assert(w =~= v.drop_last());
                assert(total(n) == total(v) - v[k].1.spacing);
            }
            lemma_fold_remove_preserves(v, k);
        }
        e.value
    }

    /// Shared adjustment step of the inflate and deflate operations: adds
    /// `delta` to (or subtracts it from) the spacing of the entry at rank
    /// `k`, moving that entry and every later one by the same amount.
    fn adjust_at(&mut self, k: usize, i: usize, delta: usize, add: bool)
        requires
            old(self).wf(),
            (k as int) < old(self)@.len(),
            i == old(self)@[k as int].0,
            add ==> total(old(self)@) + delta <= usize::MAX,
            !add ==> delta <= old(self)@[k as int].1.spacing,
        ensures
            final(self).wf(),
            final(self)@ == bump(
                old(self)@,
                k as int,
                if add {
                    delta as int
                } else {
                    -(delta as int)
                },
            ),
            total(final(self)@) == total(old(self)@) + (if add {
                delta as int
            } else {
                -(delta as int)
            }),
    {
        let ghost v = old(self)@;
        let ghost ord = storage_order(old(self).order);
        proof {
            old(self).lemma_wf();
            assert(v[k as int] == (ord[k as int], old(self).slots@[ord[k as int] as int]->0));
            lemma_prefix_step(v, k as int);
            lemma_prefix_bounds(v, k as int);
            lemma_prefix_bounds(v, k as int + 1);
        }
        let e = self.slots[i].take().unwrap();
        let nsp = if add {
            e.spacing + delta
        } else {
            e.spacing - delta
        };
        self.slots[i] = Some(Entry { spacing: nsp, value: e.value });
        if add {
            self.length = self.length + delta;
        } else {
            self.length = self.length - delta;
        }
        proof {
            let n = self@;
            let ghost d: int = if add {
                delta as int
            } else {
                -(delta as int)
            };
            let w = bump(v, k as int, d);
            assert(n.len() == w.len());
            assert forall|m: int| 0 <= m < n.len() implies n[m] == w[m] by {
                assert(n[m] == (ord[m], self.slots@[ord[m] as int]->0));
                if m != k {
                    assert(ord[m] != i);
                }
            }
            assert(n =~= w);
            assert(v =~= v.take(k as int) + seq![v[k as int]] + v.skip(k as int + 1));
            lemma_total_concat(v.take(k as int) + seq![v[k as int]], v.skip(k as int + 1));
            lemma_total_concat(v.take(k as int), seq![v[k as int]]);
            lemma_total_singleton(v[k as int]);
            assert(w == v.take(k as int) + seq![w[k as int]] + v.skip(k as int + 1)) by {
                assert(w =~= v.take(k as int) + seq![w[k as int]] + v.skip(k as int + 1));
            }
            lemma_total_concat(v.take(k as int) + seq![w[k as int]], v.skip(k as int + 1));
            lemma_total_concat(v.take(k as int), seq![w[k as int]]);
            lemma_total_singleton(w[k as int]);
            assert(total(n) == total(v) + d);
        }
    }

    /// Widens by `spacing` the gap covering `position`: the first entry
    /// whose position exceeds `position` and every later entry move up by
    /// `spacing`.  A position at or past the current length is a no-op; an
    /// empty list cannot carry the adjustment and is ruled out.
    pub fn inflate_after(&mut self, position: usize, spacing: usize)
        requires
            old(self).wf(),
            old(self)@.len() > 0,
            position < total(old(self)@) ==> total(old(self)@) + spacing <= usize::MAX,
        ensures
            final(self).wf(),
            final(self)@ == (if position >= total(old(self)@) {
                old(self)@
            } else {
                bump(old(self)@, target_after(old(self)@, position as int), spacing as int)
            }),
            total(final(self)@) == total(old(self)@) + (if position >= total(old(self)@) {
                0
            } else {
                spacing as int
            }),
            final(self)@.len() == old(self)@.len(),
            distinct_indices(final(self)@),
            forall|i: usize|
                live(old(self)@, i) ==> live(final(self)@, i) && value_of_index(final(self)@, i)
                    == value_of_index(old(self)@, i) && position_of_index(final(self)@, i)
                    == position_of_index(old(self)@, i) + (if position < total(old(self)@)
                    && position_of_index(old(self)@, i) > position {
                    spacing as int
                } else {
                    0
                }),
            forall|i: usize| live(final(self)@, i) ==> live(old(self)@, i),
    {
        proof {
            old(self).lemma_wf();
        }
        if position >= self.length {
            return;
        }
        let (k, i, _sum) = self.locate(position, true);
        proof {
            lemma_target_after_unique(old(self)@, position as int, k as int);
            lemma_prefix_step(self@, k as int);
            lemma_prefix_bounds(self@, k as int);
            lemma_prefix_bounds(self@, k as int + 1);
            lemma_bump_shift(self@, position as int, k as int, spacing as int, true);
        }
        self.adjust_at(k, i, spacing, true);
    }

    /// Narrows by `spacing` the gap covering `position`: the first entry
    /// whose position exceeds `position` and every later entry move down by
    /// `spacing`, which must not exceed that entry's own spacing.  A
    /// position at or past the current length is a no-op; an empty list is
    /// ruled out.
    pub fn deflate_after(&mut self, position: usize, spacing: usize)
        requires
            old(self).wf(),
            old(self)@.len() > 0,
            position < total(old(self)@) ==> spacing <= old(self)@[target_after(
                old(self)@,
                position as int,
            )].1.spacing,
        ensures
            final(self).wf(),
            final(self)@ == (if position >= total(old(self)@) {
                old(self)@
            } else {
                bump(old(self)@, target_after(old(self)@, position as int), -(spacing as int))
            }),
            total(final(self)@) == total(old(self)@) - (if position >= total(old(self)@) {
                0
            } else {
                spacing as int
            }),
            final(self)@.len() == old(self)@.len(),
            distinct_indices(final(self)@),
            forall|i: usize|
                live(old(self)@, i) ==> live(final(self)@, i) && value_of_index(final(self)@, i)
                    == value_of_index(old(self)@, i) && position_of_index(final(self)@, i)
                    == position_of_index(old(self)@, i) - (if position < total(old(self)@)
                    && position_of_index(old(self)@, i) > position {
                    spacing as int
                } else {
                    0
                }),
            forall|i: usize| live(final(self)@, i) ==> live(old(self)@, i),
    {
        proof {
            old(self).lemma_wf();
        }
        if position >= self.length {
            return;
        }
        let (k, i, _sum) = self.locate(position, true);
        proof {
            lemma_target_after_unique(old(self)@, position as int, k as int);
            lemma_prefix_step(self@, k as int);
            lemma_prefix_bounds(self@, k as int);
            lemma_prefix_bounds(self@, k as int + 1);
            lemma_bump_shift(self@, position as int, k as int, -(spacing as int), true);
        }
        self.adjust_at(k, i, spacing, false);
    }

    /// Widens by `spacing` the gap covering `position`, counting an entry
    /// sitting exactly at `position` as still ahead of the adjustment
    /// point: it moves too.  Position zero and positions past the current
    /// length are no-ops; an empty list is ruled out.
    pub fn inflate_before(&mut self, position: usize, spacing: usize)
        requires
            old(self).wf(),
            old(self)@.len() > 0,
            0 < position <= total(old(self)@) ==> total(old(self)@) + spacing <= usize::MAX,
        ensures
            final(self).wf(),
            final(self)@ == (if position == 0 || position > total(old(self)@) {
                old(self)@
            } else {
                bump(old(self)@, target_before(old(self)@, position as int), spacing as int)
            }),
            total(final(self)@) == total(old(self)@) + (if position == 0 || position > total(
                old(self)@,
            ) {
                0
            } else {
                spacing as int
            }),
            final(self)@.len() == old(self)@.len(),
            distinct_indices(final(self)@),
            forall|i: usize|
                live(old(self)@, i) ==> live(final(self)@, i) && value_of_index(final(self)@, i)
                    == value_of_index(old(self)@, i) && position_of_index(final(self)@, i)
                    == position_of_index(old(self)@, i) + (if 0 < position <= total(old(self)@)
                    && position_of_index(old(self)@, i) >= position {
                    spacing as int
                } else {
                    0
                }),
            forall|i: usize| live(final(self)@, i) ==> live(old(self)@, i),
    {
        proof {
            old(self).lemma_wf();
        }
        if position == 0 || position > self.length {
            return;
        }
        let (k, i, _sum) = self.locate(position, false);
        proof {
            lemma_target_before_unique(old(self)@, position as int, k as int);
            lemma_prefix_step(self@, k as int);
            lemma_prefix_bounds(self@, k as int);
            lemma_prefix_bounds(self@, k as int + 1);
            lemma_bump_shift(self@, position as int, k as int, spacing as int, false);
        }
        self.adjust_at(k, i, spacing, true);
    }

    /// Narrows by `spacing` the gap covering `position`, counting an entry
    /// sitting exactly at `position` as still ahead of the adjustment
    /// point: it moves too.  `spacing` must not exceed the found entry's
    /// own spacing.  Position zero and positions past the current length
    /// are no-ops; an empty list is ruled out.
    pub fn deflate_before(&mut self, position: usize, spacing: usize)
        requires
            old(self).wf(),
            old(self)@.len() > 0,
            0 < position <= total(old(self)@) ==> spacing <= old(self)@[target_before(
                old(self)@,
                position as int,
            )].1.spacing,
        ensures
            final(self).wf(),
            final(self)@ == (if position == 0 || position > total(old(self)@) {
                old(self)@
            } else {
                bump(old(self)@, target_before(old(self)@, position as int), -(spacing as int))
            }),
            total(final(self)@) == total(old(self)@) - (if position == 0 || position > total(
                old(self)@,
            ) {
                0
            } else {
                spacing as int
            }),
            final(self)@.len() == old(self)@.len(),
            distinct_indices(final(self)@),
            forall|i: usize|
                live(old(self)@, i) ==> live(final(self)@, i) && value_of_index(final(self)@, i)
                    == value_of_index(old(self)@, i) && position_of_index(final(self)@, i)
                    == position_of_index(old(self)@, i) - (if 0 < position <= total(old(self)@)
                    && position_of_index(old(self)@, i) >= position {
                    spacing as int
                } else {
                    0
                }),
            forall|i: usize| live(final(self)@, i) ==> live(old(self)@, i),
    {
        proof {
            old(self).lemma_wf();
        }
        if position == 0 || position > self.length {
            return;
        }
        let (k, i, _sum) = self.locate(position, false);
        proof {
            lemma_target_before_unique(old(self)@, position as int, k as int);
            lemma_prefix_step(self@, k as int);
            lemma_prefix_bounds(self@, k as int);
            lemma_prefix_bounds(self@, k as int + 1);
            lemma_bump_shift(self@, position as int, k as int, -(spacing as int), false);
        }
        self.adjust_at(k, i, spacing, false);
    }

    /// Reads the value of the entry addressed by `index`.
    pub fn get(&self, index: usize) -> (r: &T)
        requires
            self.wf(),
            live(self@, index),
        ensures
            *r == value_of_index(self@, index),
    {
        proof {
            self.lemma_wf();
            let kw = choose|j: int| 0 <= j < self@.len() && self@[j].0 == index;
            lemma_rank(self@, index, kw);
            assert(self@[kw] == (
                storage_order(self.order)[kw],
                self.slots@[storage_order(self.order)[kw] as int]->0,
            ));
        }
        &self.slots[index].as_ref().unwrap().value
    }

    /// Replaces the value of the entry addressed by `index`, keeping its
    /// spacing.
    pub fn set(&mut self, index: usize, value: T)
        requires
            old(self).wf(),
            live(old(self)@, index),
        ensures
            final(self).wf(),
            final(self)@ == old(self)@.update(
                rank(old(self)@, index),
                (index, Entry { spacing: old(self)@[rank(old(self)@, index)].1.spacing, value }),
            ),
            final(self)@.len() == old(self)@.len(),
            distinct_indices(final(self)@),
            total(final(self)@) == total(old(self)@),
            value_of_index(final(self)@, index) == value,
            forall|i: usize|
                live(old(self)@, i) ==> live(final(self)@, i) && position_of_index(
                    final(self)@,
                    i,
                ) == position_of_index(old(self)@, i),
            forall|i: usize|
                live(old(self)@, i) && i != index ==> value_of_index(final(self)@, i)
                    == value_of_index(old(self)@, i),
            forall|i: usize| live(final(self)@, i) ==> live(old(self)@, i),
    {
        let ghost v = old(self)@;
        let ghost ord = storage_order(old(self).order);
        let ghost k = rank(v, index);
        proof {
            old(self).lemma_wf();
            let kw = choose|j: int| 0 <= j < v.len() && v[j].0 == index;
            lemma_rank(v, index, kw);
            assert(v[k] == (ord[k], old(self).slots@[ord[k] as int]->0));
            assert(ord[k] == index);
        }
        let e = self.slots[index].take().unwrap();
        self.slots[index] = Some(Entry { spacing: e.spacing, value });
        proof {
            let n = self@;
            let w = v.update(k, (index, Entry { spacing: v[k].1.spacing, value }));
            assert(n.len() == w.len());
            assert forall|m: int| 0 <= m < n.len() implies n[m] == w[m] by {
                assert(n[m] == (ord[m], self.slots@[ord[m] as int]->0));
                if m != k {
                    assert(ord[m] != index);
                }
            }
            assert(n =~= w);
            assert(v =~= v.take(k) + seq![v[k]] + v.skip(k + 1));
            lemma_total_concat(v.take(k) + seq![v[k]], v.skip(k + 1));
            lemma_total_concat(v.take(k), seq![v[k]]);
            lemma_total_singleton(v[k]);
            assert(w == v.take(k) + seq![w[k]] + v.skip(k + 1)) by {
                assert(w =~= v.take(k) + seq![w[k]] + v.skip(k + 1));
            }
            lemma_total_concat(v.take(k) + seq![w[k]], v.skip(k + 1));
            lemma_total_concat(v.take(k), seq![w[k]]);
            lemma_total_singleton(w[k]);
            assert(total(n) == total(v));
            assert(distinct_indices(n)) by {
                assert forall|a: int, b: int| 0 <= a < b < n.len() implies n[a].0 != n[b].0 by {
                    assert(n[a].0 == v[a].0);
                    assert(n[b].0 == v[b].0);
                }
            }
            lemma_rank(n, index, k);
            assert forall|i: usize|
                live(v, i) implies live(n, i) && position_of_index(n, i) == position_of_index(
                v,
                i,
            ) && (i != index ==> value_of_index(n, i) == value_of_index(v, i)) by {
                let m = choose|j: int| 0 <= j < v.len() && v[j].0 == i;
                lemma_rank(v, i, m);
                lemma_rank(n, i, m);
                assert(n.take(m + 1).len() == v.take(m + 1).len());
                assert forall|j: int|
                    0 <= j < n.take(m + 1).len() implies #[trigger] n.take(m + 1)[j].1.spacing
                    == v.take(m + 1)[j].1.spacing by {
                    assert(n.take(m + 1)[j] == n[j]);
                    assert(v.take(m + 1)[j] == v[j]);
                }
                lemma_total_same_spacings(n.take(m + 1), v.take(m + 1));
            }
            assert forall|i: usize| live(n, i) implies live(v, i) by {
                let m = choose|j: int| 0 <= j < n.len() && n[j].0 == i;
                assert(v[m].0 == i);
            }
        }
    }

    /// Reads the spacing of the entry addressed by `index`: its gap to the
    /// previous entry, or to coordinate zero if it is first.
    pub fn spacing_of(&self, index: usize) -> (r: usize)
        requires
            self.wf(),
            live(self@, index),
        ensures
            r == self@[rank(self@, index)].1.spacing,
    {
        proof {
            self.lemma_wf();
            let kw = choose|j: int| 0 <= j < self@.len() && self@[j].0 == index;
            lemma_rank(self@, index, kw);
            assert(self@[kw] == (
                storage_order(self.order)[kw],
                self.slots@[storage_order(self.order)[kw] as int]->0,
            ));
        }
        self.slots[index].as_ref().unwrap().spacing
    }

    /// The stable indices of all entries, in storage order.
    pub fn indices(&self) -> (r: Vec<usize>)
        requires
            self.wf(),
        ensures
            r@.len() == self@.len(),
            forall|k: int| 0 <= k < r@.len() ==> r@[k] == self@[k].0,
    {
        order_indices(&self.order)
    }

    /// Computes the absolute position of the entry addressed by `index` by
    /// resumming spacings from the head up to and including that entry.
    pub fn position(&self, index: usize) -> (r: usize)
        requires
            self.wf(),
            live(self@, index),
        ensures
            r == position_of_index(self@, index),
    {
        let ghost v = self@;
        let ord = order_indices(&self.order);
        let ord_len = ord.len();
        let mut k: usize = 0;
        let mut sum: usize = 0;
        proof {
            self.lemma_wf();
            let kw = choose|j: int| 0 <= j < v.len() && v[j].0 == index;
            lemma_rank(v, index, kw);
            assert(prefix(v, 0) == 0) by {
                assert(v.take(0) =~= Seq::<(usize, Entry<T>)>::empty());
            }
        }
        loop
            invariant
                self.wf(),
                v == self@,
                ord@ == storage_order(self.order),
                v.len() == ord_len,
                live(v, index),
                distinct_indices(v),
                0 <= rank(v, index) < v.len(),
                v[rank(v, index)].0 == index,
                0 <= k < v.len(),
                sum == prefix(v, k as int),
                forall|j: int| 0 <= j < k ==> v[j].0 != index,
            decreases v.len() - k,
        {
            let i = ord[k];
            let sp = self.slots[i].as_ref().unwrap().spacing;
            proof {
                assert(v[k as int] == (ord@[k as int], self.slots@[ord@[k as int] as int]->0));
                lemma_prefix_step(v, k as int);
                lemma_prefix_bounds(v, k as int + 1);
            }
            if i == index {
                proof {
                    lemma_rank(v, index, k as int);
                }
                return sum + sp;
            }
            sum = sum + sp;
            k = k + 1;
            proof {
                if k == v.len() {
                    assert(v[rank(v, index)].0 == index);
                    assert(false);
                }
            }
        }
    }
}

/// Extends the slot vector with empty slots until index `n` is in bounds;
/// existing slots are untouched.
fn pad_slots<T>(slots: &mut Vec<Option<Entry<T>>>, n: usize)
    ensures
        final(slots)@.len() > n,
        old(slots)@.len() <= final(slots)@.len(),
        forall|j: int| 0 <= j < old(slots)@.len() ==> final(slots)@[j] == old(slots)@[j],
        forall|j: int| old(slots)@.len() <= j < final(slots)@.len() ==> final(slots)@[j] is None,
{
    while slots.len() <= n
        invariant
            old(slots)@.len() <= slots@.len(),
            forall|j: int| 0 <= j < old(slots)@.len() ==> slots@[j] == old(slots)@[j],
            forall|j: int| old(slots)@.len() <= j < slots@.len() ==> slots@[j] is None,
        decreases n + 1 - slots.len(),
    {
        slots.push(None);
    }
}

} // verus!

