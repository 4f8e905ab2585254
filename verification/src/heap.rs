//! A heap of `(weight, node)` pairs that hands out the lightest pair first,
//! kept in `binary_heap_plus`.
use vstd::prelude::*;
use vstd::multiset::Multiset;
use binary_heap_plus::{BinaryHeap, KeyComparator};

verus! {

/// `(weight, node)` pairs in a `binary_heap_plus::BinaryHeap` ordered by
/// `heap_key`, so that the greatest item is the lightest pair.
#[verifier::external_body]
pub struct WeightHeap {
    heap: BinaryHeap<(u32, u16), KeyComparator<fn(&(u32, u16)) -> u32>>,
}

/// The heap's ordering key: the lighter the pair, the greater its key.
pub fn heap_key(item: &(u32, u16)) -> (k: u32)
    ensures
        k == u32::MAX - item.0,
{
    u32::MAX - item.0
}

/// The pairs that the heap holds.
pub uninterp spec fn heap_items(heap: WeightHeap) -> Multiset<(u32, u16)>;

/// Builds the heap with `BinaryHeap::from_vec_cmp`, which keeps every item
/// of the vector and orders them by `heap_key`.
#[verifier::external_body]
pub(crate) fn heap_from_vec(items: Vec<(u32, u16)>) -> (heap: WeightHeap)
    ensures
        heap_items(heap) == items@.to_multiset(),
{
    let key: fn(&(u32, u16)) -> u32 = heap_key;
    WeightHeap { heap: BinaryHeap::from_vec_cmp(items, KeyComparator(key)) }
}

/// `BinaryHeap::len`: the number of items held.
#[verifier::external_body]
pub(crate) fn heap_len(heap: &WeightHeap) -> (n: usize)
    ensures
        n == heap_items(*heap).len(),
{
    heap.heap.len()
}

/// `BinaryHeap::pop`: takes out an item of greatest `heap_key`, that is of
/// least weight (which of several equal ones is not said), or `None` when
/// the heap is empty.
#[verifier::external_body]
pub(crate) fn heap_pop(heap: &mut WeightHeap) -> (r: Option<(u32, u16)>)
    ensures
        heap_items(*old(heap)).len() == 0 ==> r is None && heap_items(*final(heap)) == heap_items(*old(heap)),
        heap_items(*old(heap)).len() > 0 ==> (r matches Some(x) && {
            &&& heap_items(*old(heap)).count(x) > 0
            &&& heap_items(*final(heap)) == heap_items(*old(heap)).remove(x)
            &&& heap_items(*final(heap)).len() == heap_items(*old(heap)).len() - 1
            &&& forall|y: (u32, u16)| #[trigger] heap_items(*old(heap)).count(y) > 0 ==> x.0 <= y.0
        }),
{
    heap.heap.pop()
}

/// `BinaryHeap::push`: adds one item.
#[verifier::external_body]
pub(crate) fn heap_push(heap: &mut WeightHeap, item: (u32, u16))
    ensures
        heap_items(*final(heap)) == heap_items(*old(heap)).insert(item),
        heap_items(*final(heap)).len() == heap_items(*old(heap)).len() + 1,
{
    heap.heap.push(item)
}

} // verus!
