use crate::orderbook::model::Order;
use vstd::prelude::*;

verus! {

/// The orders of one price level in arrival order, held in a
/// `smallvec::SmallVec` with inline room for eight. Its inside is not
/// modelled: what it holds is [`queue_orders`], the functions below say
/// what each `SmallVec` method does to it, and the proofs take their word
/// for it.
#[verifier::external_body]
#[derive(Debug)]
pub struct OrderQueue {
    items: smallvec::SmallVec<[Order; 8]>,
}

/// The orders that a queue holds, oldest first.
pub uninterp spec fn queue_orders(q: OrderQueue) -> Seq<Order>;

/// `SmallVec::new`: a vector without elements.
#[verifier::external_body]
pub(crate) fn queue_new() -> (q: OrderQueue)
    ensures
        queue_orders(q).len() == 0,
{
    OrderQueue { items: smallvec::SmallVec::new() }
}

/// `SmallVec::len`: the number of elements.
#[verifier::external_body]
pub(crate) fn queue_len(q: &OrderQueue) -> (n: usize)
    ensures
        n == queue_orders(*q).len(),
{
    q.items.len()
}

/// Indexing a `SmallVec`, which reads through its slice: the element at
/// position `i`. Out of bounds it panics, so `i` must be in bounds.
#[verifier::external_body]
pub(crate) fn queue_get(q: &OrderQueue, i: usize) -> (o: Order)
    requires
        i < queue_orders(*q).len(),
    ensures
        o == queue_orders(*q)[i as int],
{
    q.items[i]
}

/// Assigning through the index of a `SmallVec`: the element at position `i`
/// is replaced and the others stay. Out of bounds it panics.
#[verifier::external_body]
pub(crate) fn queue_set(q: &mut OrderQueue, i: usize, o: Order)
    requires
        i < queue_orders(*old(q)).len(),
    ensures
        queue_orders(*final(q)) == queue_orders(*old(q)).update(i as int, o),
{
    q.items[i] = o;
}

/// `SmallVec::push`: the element is appended.
#[verifier::external_body]
pub(crate) fn queue_push(q: &mut OrderQueue, o: Order)
    ensures
        queue_orders(*final(q)) == queue_orders(*old(q)).push(o),
{
    q.items.push(o);
}

/// `SmallVec::remove`: the element at position `i` is taken out and
/// returned, and those behind it move up. Out of bounds it panics.
#[verifier::external_body]
pub(crate) fn queue_remove(q: &mut OrderQueue, i: usize) -> (o: Order)
    requires
        i < queue_orders(*old(q)).len(),
    ensures
        o == queue_orders(*old(q))[i as int],
        queue_orders(*final(q)) == queue_orders(*old(q)).remove(i as int),
{
    q.items.remove(i)
}

} // verus!
