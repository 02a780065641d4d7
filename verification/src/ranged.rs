//! Half-open ranges over a shared spaced list.  Each range `[start, end)`
//! with a payload occupies two entries of one underlying
//! [`LinkedSpacedList`]: a `Start` bound carrying the payload and the stable
//! index of its `End` partner, and an `End` bound carrying the stable index
//! of its `Start` partner.  The pairing is mutual and exact:
//! both bounds are created together and removed together.

use vstd::prelude::*;
use vstd::pervasive::unreached;
use vstd::pervasive::arbitrary;
use crate::spaced::{
    bump, distinct_indices, fold_remove, live, position_of_index, rank, target_after,
    target_before, total, value_of_index, Entries, Entry, LinkedSpacedList,
};

verus! {

/// One boundary of a half-open range.
pub enum Bound<T> {
    /// The opening boundary; owns the payload and names its closing partner
    /// by stable index.
    Start { end: usize, value: T },
    /// The closing boundary; names its opening partner by stable index.
    End { start: usize },
}

/// The underlying entries of a range list.
pub type BoundEntries<T> = Entries<Bound<T>>;

/// The bound addressed by `i` names a live partner whose back-reference
/// names `i` again.
pub open spec fn pair_ok_at<T>(v: BoundEntries<T>, i: usize) -> bool {
    match value_of_index(v, i) {
        Bound::Start { end, value: _ } => {
            &&& live(v, end)
            &&& match value_of_index(v, end) {
                Bound::End { start } => start == i,
                Bound::Start { end: _, value: _ } => false,
            }
        },
        Bound::End { start } => {
            &&& live(v, start)
            &&& match value_of_index(v, start) {
                Bound::Start { end, value: _ } => end == i,
                Bound::End { start: _ } => false,
            }
        },
    }
}

/// Every live bound is exactly and mutually paired.
pub open spec fn paired<T>(v: BoundEntries<T>) -> bool {
    forall|i: usize| #[trigger] live(v, i) ==> pair_ok_at(v, i)
}

/// The stable index of the partner of the bound addressed by `i`.
pub open spec fn partner<T>(v: BoundEntries<T>, i: usize) -> usize {
    match value_of_index(v, i) {
        Bound::Start { end, value: _ } => end,
        Bound::End { start } => start,
    }
}

/// The payload of the range that the bound addressed by `i` belongs to:
/// carried by the bound itself if it is a `Start`, else by its partner.
pub open spec fn payload<T>(v: BoundEntries<T>, i: usize) -> T {
    match value_of_index(v, i) {
        Bound::Start { end: _, value } => value,
        Bound::End { start } => match value_of_index(v, start) {
            Bound::Start { end: _, value } => value,
            Bound::End { start: _ } => arbitrary(),
        },
    }
}

/// A sequence of half-open ranges sharing one coordinate axis, each
/// addressed by the pair of stable indices of its two bounds.
pub struct LinkedRangeSpacedList<T> {
    list: LinkedSpacedList<Bound<T>>,
}

impl<T> View for LinkedRangeSpacedList<T> {
    type V = BoundEntries<T>;

    closed spec fn view(&self) -> BoundEntries<T> {
        self.list@
    }
}

impl<T> LinkedRangeSpacedList<T> {
    /// The representation invariant: the underlying spaced list is
    /// well-formed and every bound is paired.
    pub closed spec fn wf(&self) -> bool {
        &&& self.list.wf()
        &&& paired(self.list@)
    }

    /// What every well-formed range list guarantees of its view.
    pub proof fn lemma_wf(&self)
        requires
            self.wf(),
        ensures
            paired(self@),
            distinct_indices(self@),
            0 <= total(self@) <= usize::MAX,
    {
        self.list.lemma_wf();
    }

    /// An empty range list.
    pub fn new() -> (r: Self)
        ensures
            r.wf(),
            r@ == Seq::<(usize, Entry<Bound<T>>)>::empty(),
    {
        let r = LinkedRangeSpacedList { list: LinkedSpacedList::new() };
        proof {
            assert(forall|i: usize| !live(r.list@, i));
        }
        r
    }

    /// The coordinate just past the last bound.
    pub fn length(&self) -> (r: usize)
        requires
            self.wf(),
        ensures
            r == total(self@),
    {
        self.list.length()
    }

    /// How many bounds the list holds: twice the number of ranges.
    pub fn count(&self) -> (r: usize)
        requires
            self.wf(),
        ensures
            r == self@.len(),
    {
        self.list.count()
    }

    /// The absolute position of the bound addressed by `index`.
    pub fn position(&self, index: usize) -> (r: usize)
        requires
            self.wf(),
            live(self@, index),
        ensures
            r == position_of_index(self@, index),
    {
        self.list.position(index)
    }

    /// Appends a range: its `Start` sits `spacing` past the current end,
    /// its `End` a further `length` past that.  Returns the stable indices
    /// of the two bounds.
    pub fn push(&mut self, spacing: usize, length: usize, value: T) -> (r: (usize, usize))
        requires
            old(self).wf(),
            total(old(self)@) + spacing + length <= usize::MAX,
        ensures
            final(self).wf(),
            final(self)@.len() == old(self)@.len() + 2,
            !live(old(self)@, r.0),
            !live(old(self)@, r.1),
            r.0 != r.1,
            live(final(self)@, r.0),
            live(final(self)@, r.1),
            value_of_index(final(self)@, r.0) == (Bound::Start { end: r.1, value }),
            value_of_index(final(self)@, r.1) == (Bound::<T>::End { start: r.0 }),
            position_of_index(final(self)@, r.0) == total(old(self)@) + spacing,
            position_of_index(final(self)@, r.1) == total(old(self)@) + spacing + length,
            total(final(self)@) == total(old(self)@) + spacing + length,
            forall|i: usize|
                live(old(self)@, i) ==> live(final(self)@, i) && value_of_index(final(self)@, i)
                    == value_of_index(old(self)@, i) && position_of_index(final(self)@, i)
                    == position_of_index(old(self)@, i),
            forall|i: usize| live(final(self)@, i) ==> live(old(self)@, i) || i == r.0 || i == r.1,
    {
        let ghost v = old(self)@;
        proof {
            old(self).list.lemma_wf();
        }
        let s_idx = self.list.push(spacing, Bound::End { start: 0 });
        let e_idx = self.list.push(length, Bound::End { start: s_idx });
        self.list.set(s_idx, Bound::Start { end: e_idx, value });
        proof {
            let n = self.list@;
            assert(s_idx != e_idx);
            assert forall|i: usize| live(n, i) implies pair_ok_at(n, i) by {
                if i == s_idx {
                    assert(value_of_index(n, e_idx) == (Bound::<T>::End { start: s_idx }));
                } else if i == e_idx {
                    assert(value_of_index(n, s_idx) == (Bound::Start { end: e_idx, value }));
                } else {
                    assert(live(v, i));
                    assert(pair_ok_at(v, i));
                    assert(value_of_index(n, i) == value_of_index(v, i));
                }
            }
        }
        (s_idx, e_idx)
    }

    /// Inserts a range `[start, end)`.  A range lying entirely past the
    /// current length is appended; otherwise both bounds are placed by
    /// gap-splitting insertion, after any entry sitting exactly at their
    /// position, and no existing bound moves.
    pub fn insert_after(&mut self, start: usize, end: usize, value: T) -> (r: (usize, usize))
        requires
            old(self).wf(),
            start <= end,
        ensures
            final(self).wf(),
            final(self)@.len() == old(self)@.len() + 2,
            !live(old(self)@, r.0),
            !live(old(self)@, r.1),
            r.0 != r.1,
            live(final(self)@, r.0),
            live(final(self)@, r.1),
            value_of_index(final(self)@, r.0) == (Bound::Start { end: r.1, value }),
            value_of_index(final(self)@, r.1) == (Bound::<T>::End { start: r.0 }),
            position_of_index(final(self)@, r.0) == start,
            position_of_index(final(self)@, r.1) == end,
            total(final(self)@) == (if end >= total(old(self)@) {
                end as int
            } else {
                total(old(self)@)
            }),
            forall|i: usize|
                live(old(self)@, i) ==> live(final(self)@, i) && value_of_index(final(self)@, i)
                    == value_of_index(old(self)@, i) && position_of_index(final(self)@, i)
                    == position_of_index(old(self)@, i),
            forall|i: usize| live(final(self)@, i) ==> live(old(self)@, i) || i == r.0 || i == r.1,
    {
        let ghost v = old(self)@;
        proof {
            old(self).list.lemma_wf();
        }
        if start >= self.list.length() {
            let r = self.push(start - self.list.length(), end - start, value);
            return r;
        }
        let s_idx = self.list.insert_after(start, Bound::End { start: 0 });
        let e_idx = self.list.insert_after(end, Bound::End { start: s_idx });
        self.list.set(s_idx, Bound::Start { end: e_idx, value });
        proof {
            let n = self.list@;
            assert(s_idx != e_idx);
            assert forall|i: usize| live(n, i) implies pair_ok_at(n, i) by {
                if i == s_idx {
                    assert(value_of_index(n, e_idx) == (Bound::<T>::End { start: s_idx }));
                } else if i == e_idx {
                    assert(value_of_index(n, s_idx) == (Bound::Start { end: e_idx, value }));
                } else {
                    assert(live(v, i));
                    assert(pair_ok_at(v, i));
                    assert(value_of_index(n, i) == value_of_index(v, i));
                }
            }
        }
        (s_idx, e_idx)
    }

    /// Inserts a range `[start, end)`, placing each bound before any entry
    /// sitting exactly at its position.  A range lying entirely past the
    /// current length is appended; no existing bound moves.
    pub fn insert_before(&mut self, start: usize, end: usize, value: T) -> (r: (usize, usize))
        requires
            old(self).wf(),
            start <= end,
            old(self)@.len() > 0 || start > 0,
        ensures
            final(self).wf(),
            final(self)@.len() == old(self)@.len() + 2,
            !live(old(self)@, r.0),
            !live(old(self)@, r.1),
            r.0 != r.1,
            live(final(self)@, r.0),
            live(final(self)@, r.1),
            value_of_index(final(self)@, r.0) == (Bound::Start { end: r.1, value }),
            value_of_index(final(self)@, r.1) == (Bound::<T>::End { start: r.0 }),
            position_of_index(final(self)@, r.0) == start,
            position_of_index(final(self)@, r.1) == end,
            total(final(self)@) == (if end > total(old(self)@) {
                end as int
            } else {
                total(old(self)@)
            }),
            forall|i: usize|
                live(old(self)@, i) ==> live(final(self)@, i) && value_of_index(final(self)@, i)
                    == value_of_index(old(self)@, i) && position_of_index(final(self)@, i)
                    == position_of_index(old(self)@, i),
            forall|i: usize| live(final(self)@, i) ==> live(old(self)@, i) || i == r.0 || i == r.1,
    {
        let ghost v = old(self)@;
        proof {
            old(self).list.lemma_wf();
        }
        if start > self.list.length() {
            let r = self.push(start - self.list.length(), end - start, value);
            return r;
        }
        let s_idx = self.list.insert_before(start, Bound::End { start: 0 });
        let e_idx = self.list.insert_before(end, Bound::End { start: s_idx });
        self.list.set(s_idx, Bound::Start { end: e_idx, value });
        proof {
            let n = self.list@;
            assert(s_idx != e_idx);
            assert forall|i: usize| live(n, i) implies pair_ok_at(n, i) by {
                if i == s_idx {
                    assert(value_of_index(n, e_idx) == (Bound::<T>::End { start: s_idx }));
                } else if i == e_idx {
                    assert(value_of_index(n, s_idx) == (Bound::Start { end: e_idx, value }));
                } else {
                    assert(live(v, i));
                    assert(pair_ok_at(v, i));
                    assert(value_of_index(n, i) == value_of_index(v, i));
                }
            }
        }
        (s_idx, e_idx)
    }

    /// Destroys the range that the bound addressed by `index` belongs to,
    /// removing both of its bounds, and returns its payload: removal never
    /// leaves a dangling half-pair.
    pub fn remove(&mut self, index: usize) -> (r: T)
        requires
            old(self).wf(),
            live(old(self)@, index),
        ensures
            final(self).wf(),
            final(self)@.len() == old(self)@.len() - 2,
            !live(final(self)@, index),
            !live(final(self)@, partner(old(self)@, index)),
            r == payload(old(self)@, index),
            final(self)@ == fold_remove(
                fold_remove(old(self)@, rank(old(self)@, index)),
                rank(
                    fold_remove(old(self)@, rank(old(self)@, index)),
                    partner(old(self)@, index),
                ),
            ),
            forall|x: usize|
                live(old(self)@, x) && x != index && x != partner(old(self)@, index) ==> live(
                    final(self)@,
                    x,
                ) && value_of_index(final(self)@, x) == value_of_index(old(self)@, x)
                    && position_of_index(final(self)@, x) == position_of_index(old(self)@, x),
            forall|x: usize|
                live(final(self)@, x) ==> live(old(self)@, x) && x != index && x != partner(
                    old(self)@,
                    index,
                ),
    {
        let ghost v = old(self)@;
        let ghost j = partner(v, index);
        proof {
            old(self).list.lemma_wf();
            assert(live(v, index));
            assert(pair_ok_at(v, index));
            assert(j != index);
            assert(pair_ok_at(v, j));
            assert(partner(v, j) == index);
            assert forall|x: usize|
                live(v, x) && x != index && x != j implies partner(v, x) != index && partner(v, x)
                    != j by {
                assert(pair_ok_at(v, x));
            }
        }
        let b = self.list.remove(index);
        let result = match b {
            Bound::Start { end, value } => {
                proof {
                    assert(end == j);
                    assert(live(self.list@, j));
                }
                self.list.remove(end);
                value
            },
            Bound::End { start } => {
                proof {
                    assert(start == j);
                    assert(live(self.list@, j));
                }
                let b2 = self.list.remove(start);
                match b2 {
                    Bound::Start { end: _, value } => value,
                    Bound::End { start: _ } => unreached(),
                }
            },
        };
        proof {
            let n = self.list@;
            assert forall|x: usize| live(n, x) implies pair_ok_at(n, x) by {
                assert(live(v, x) && x != index && x != j);
                assert(pair_ok_at(v, x));
                assert(partner(v, x) != index && partner(v, x) != j);
                assert(value_of_index(n, x) == value_of_index(v, x));
                assert(value_of_index(n, partner(v, x)) == value_of_index(v, partner(v, x)));
            }
        }
        result
    }

    /// Widens by `spacing` the gap covering `position`: every bound whose
    /// position exceeds `position` moves up by `spacing`; ranges straddling
    /// the point widen like any other pair of entries.
    pub fn inflate_after(&mut self, position: usize, spacing: usize)
        requires
            old(self).wf(),
            old(self)@.len() > 0,
            position < total(old(self)@) ==> total(old(self)@) + spacing <= usize::MAX,
        ensures
            final(self).wf(),
            final(self)@ == (if position >= total(old(self)@) {
                old(self)@
            } else {
                bump(old(self)@, target_after(old(self)@, position as int), spacing as int)
            }),
            total(final(self)@) == total(old(self)@) + (if position >= total(old(self)@) {
                0
            } else {
                spacing as int
            }),
            forall|i: usize|
                live(old(self)@, i) ==> live(final(self)@, i) && value_of_index(final(self)@, i)
                    == value_of_index(old(self)@, i) && position_of_index(final(self)@, i)
                    == position_of_index(old(self)@, i) + (if position < total(old(self)@)
                    && position_of_index(old(self)@, i) > position {
                    spacing as int
                } else {
                    0
                }),
            forall|i: usize| live(final(self)@, i) ==> live(old(self)@, i),
    {
        let ghost v = old(self)@;
        self.list.inflate_after(position, spacing);
        proof {
            self.lemma_paired_preserved(v);
        }
    }

    /// Narrows by `spacing` the gap covering `position`: every bound whose
    /// position exceeds `position` moves down by `spacing`, which must not
    /// exceed the found entry's own spacing.
    pub fn deflate_after(&mut self, position: usize, spacing: usize)
        requires
            old(self).wf(),
            old(self)@.len() > 0,
            position < total(old(self)@) ==> spacing <= old(self)@[target_after(
                old(self)@,
                position as int,
            )].1.spacing,
        ensures
            final(self).wf(),
            final(self)@ == (if position >= total(old(self)@) {
                old(self)@
            } else {
                bump(old(self)@, target_after(old(self)@, position as int), -(spacing as int))
            }),
            total(final(self)@) == total(old(self)@) - (if position >= total(old(self)@) {
                0
            } else {
                spacing as int
            }),
            forall|i: usize|
                live(old(self)@, i) ==> live(final(self)@, i) && value_of_index(final(self)@, i)
                    == value_of_index(old(self)@, i) && position_of_index(final(self)@, i)
                    == position_of_index(old(self)@, i) - (if position < total(old(self)@)
                    && position_of_index(old(self)@, i) > position {
                    spacing as int
                } else {
                    0
                }),
            forall|i: usize| live(final(self)@, i) ==> live(old(self)@, i),
    {
        let ghost v = old(self)@;
        self.list.deflate_after(position, spacing);
        proof {
            self.lemma_paired_preserved(v);
        }
    }

    /// Widens by `spacing` the gap covering `position`, moving a bound
    /// sitting exactly at `position` as well.  Position zero and positions
    /// past the current length are no-ops.
    pub fn inflate_before(&mut self, position: usize, spacing: usize)
        requires
            old(self).wf(),
            old(self)@.len() > 0,
            0 < position <= total(old(self)@) ==> total(old(self)@) + spacing <= usize::MAX,
        ensures
            final(self).wf(),
            final(self)@ == (if position == 0 || position > total(old(self)@) {
                old(self)@
            } else {
                bump(old(self)@, target_before(old(self)@, position as int), spacing as int)
            }),
            total(final(self)@) == total(old(self)@) + (if position == 0 || position > total(
                old(self)@,
            ) {
                0
            } else {
                spacing as int
            }),
            forall|i: usize|
                live(old(self)@, i) ==> live(final(self)@, i) && value_of_index(final(self)@, i)
                    == value_of_index(old(self)@, i) && position_of_index(final(self)@, i)
                    == position_of_index(old(self)@, i) + (if 0 < position <= total(old(self)@)
                    && position_of_index(old(self)@, i) >= position {
                    spacing as int
                } else {
                    0
                }),
            forall|i: usize| live(final(self)@, i) ==> live(old(self)@, i),
    {
        let ghost v = old(self)@;
        self.list.inflate_before(position, spacing);
        proof {
            self.lemma_paired_preserved(v);
        }
    }

    /// Narrows by `spacing` the gap covering `position`, moving a bound
    /// sitting exactly at `position` as well.  Position zero and positions
    /// past the current length are no-ops.
    pub fn deflate_before(&mut self, position: usize, spacing: usize)
        requires
            old(self).wf(),
            old(self)@.len() > 0,
            0 < position <= total(old(self)@) ==> spacing <= old(self)@[target_before(
                old(self)@,
                position as int,
            )].1.spacing,
        ensures
            final(self).wf(),
            final(self)@ == (if position == 0 || position > total(old(self)@) {
                old(self)@
            } else {
                bump(old(self)@, target_before(old(self)@, position as int), -(spacing as int))
            }),
            total(final(self)@) == total(old(self)@) - (if position == 0 || position > total(
                old(self)@,
            ) {
                0
            } else {
                spacing as int
            }),
            forall|i: usize|
                live(old(self)@, i) ==> live(final(self)@, i) && value_of_index(final(self)@, i)
                    == value_of_index(old(self)@, i) && position_of_index(final(self)@, i)
                    == position_of_index(old(self)@, i) - (if 0 < position <= total(old(self)@)
                    && position_of_index(old(self)@, i) >= position {
                    spacing as int
                } else {
                    0
                }),
            forall|i: usize| live(final(self)@, i) ==> live(old(self)@, i),
    {
        let ghost v = old(self)@;
        self.list.deflate_before(position, spacing);
        proof {
            self.lemma_paired_preserved(v);
        }
    }

    /// Pairing survives any step that keeps every live bound alive with its
    /// value unchanged.
    proof fn lemma_paired_preserved(&self, v: BoundEntries<T>)
        requires
            paired(v),
            self.list.wf(),
            forall|i: usize|
                live(v, i) ==> live(self.list@, i) && value_of_index(self.list@, i)
                    == value_of_index(v, i),
            forall|i: usize| live(self.list@, i) ==> live(v, i),
        ensures
            self.wf(),
    {
        let n = self.list@;
        assert forall|i: usize| live(n, i) implies pair_ok_at(n, i) by {
            assert(live(v, i));
            assert(pair_ok_at(v, i));
            match value_of_index(v, i) {
                Bound::Start { end, value: _ } => {
                    assert(value_of_index(n, end) == value_of_index(v, end));
                },
                Bound::End { start } => {
                    assert(value_of_index(n, start) == value_of_index(v, start));
                },
            }
        }
    }
}

} // verus!
