//! Trusted boundary around `array_linked_list::ArrayLinkedList`, the
//! stable-index linked storage that keeps the entries of a spaced list in
//! order.  The list is used purely as an ordering structure: it stores unit
//! elements, and the only information the rest of the crate draws from it is
//! the sequence of slot indices in iteration order, named by
//! [`storage_order`].

use vstd::prelude::*;
use array_linked_list::ArrayLinkedList;

verus! {

#[verifier::external_type_specification]
#[verifier::external_body]
#[verifier::reject_recursive_types(T)]
pub struct ExArrayLinkedList<T>(ArrayLinkedList<T>);

/// The slot indices of the live elements of `l`, in iteration order
/// (front to back).
pub uninterp spec fn storage_order(l: ArrayLinkedList<()>) -> Seq<usize>;

/// Relies on `ArrayLinkedList::new`: a fresh list holds no elements.
#[verifier::external_body]
pub(crate) fn order_new() -> (r: ArrayLinkedList<()>)
    ensures
        storage_order(r) == Seq::<usize>::empty(),
{
    ArrayLinkedList::new()
}

/// Relies on `ArrayLinkedList::push_back`: appends an element at the back of
/// the iteration order and returns its slot index, either a recycled slot or
/// a newly grown one, in either case one that no live element occupies.
#[verifier::external_body]
pub(crate) fn order_push_back(l: &mut ArrayLinkedList<()>) -> (r: usize)
    ensures
        storage_order(*final(l)) == storage_order(*old(l)).push(r),
        !storage_order(*old(l)).contains(r),
{
    l.push_back(())
}

/// Relies on `ArrayLinkedList::insert_before`: places a new element directly
/// before a live one in iteration order and returns its slot index, which no
/// live element occupies; other elements keep their slots and their order.
/// The call returns `Some` whenever the given slot is live.
#[verifier::external_body]
pub(crate) fn order_insert_before(l: &mut ArrayLinkedList<()>, index: usize) -> (r: usize)
    requires
        storage_order(*old(l)).contains(index),
    ensures
        storage_order(*final(l)) == storage_order(*old(l)).insert(
            storage_order(*old(l)).index_of(index),
            r,
        ),
        !storage_order(*old(l)).contains(r),
{
    l.insert_before(index, ()).unwrap()
}

/// Relies on `ArrayLinkedList::remove`: takes a live element out of the
/// iteration order; every other element keeps its slot and its place.
#[verifier::external_body]
pub(crate) fn order_remove(l: &mut ArrayLinkedList<()>, index: usize)
    requires
        storage_order(*old(l)).contains(index),
    ensures
        storage_order(*final(l)) == storage_order(*old(l)).remove(
            storage_order(*old(l)).index_of(index),
        ),
{
    l.remove(index);
}

/// Relies on `ArrayLinkedList::indices_after`: iterates the slot indices that
/// follow a live element in iteration order, nearest first, so its first item
/// is the immediate successor of `index`, if any.
#[verifier::external_body]
pub(crate) fn order_next(l: &ArrayLinkedList<()>, index: usize) -> (r: Option<usize>)
    requires
        storage_order(*l).contains(index),
    ensures
        ({
            let ord = storage_order(*l);
            let k = ord.index_of(index);
            r == if k + 1 < ord.len() {
                Some(ord[k + 1])
            } else {
                None::<usize>
            }
        }),
{
    l.indices_after(index).next()
}

/// Relies on `ArrayLinkedList::indices`: iterates every live slot index in
/// iteration order, front to back.
#[verifier::external_body]
pub(crate) fn order_indices(l: &ArrayLinkedList<()>) -> (r: Vec<usize>)
    ensures
        r@ == storage_order(*l),
{
    l.indices().collect()
}

} // verus!
