use vstd::prelude::*;
use priority_queue::PriorityQueue;
use std::cmp::Reverse;

verus! {

#[verifier::external_type_specification]
#[verifier::external_body]
#[verifier::reject_recursive_types(T)]
pub struct ExReverse<T>(Reverse<T>);

#[verifier::external_type_specification]
#[verifier::external_body]
#[verifier::reject_recursive_types(I)]
#[verifier::reject_recursive_types(P)]
#[verifier::reject_recursive_types(H)]
pub struct ExPriorityQueue<I, P, H>(PriorityQueue<I, P, H>);

/// A queue of node indexes ordered by a changeable i64 priority,
/// popping least first.
pub type NodeQueue = PriorityQueue<usize, Reverse<i64>>;

/// What the changeable-priority queue holds: each queued node index
/// mapped to its current priority value.
pub uninterp spec fn pq_view(q: NodeQueue) -> Map<usize, int>;

/// Relies on PriorityQueue::new: it creates an empty queue.
#[verifier::external_body]
pub fn pq_new() -> (r: NodeQueue)
    ensures
        pq_view(r).dom().finite(),
        pq_view(r).dom().len() == 0,
{
    PriorityQueue::new()
}

/// Relies on PriorityQueue::push: it inserts the item with the given
/// priority, or updates the priority when the item is already queued.
#[verifier::external_body]
pub fn pq_push(q: &mut NodeQueue, item: usize, priority: i64)
    ensures
        pq_view(*final(q)) == pq_view(*old(q)).insert(item, priority as int),
{
    q.push(item, Reverse(priority));
}

/// Relies on PriorityQueue::change_priority: it gives a queued item
/// the new priority and returns the old one, and leaves the queue
/// alone when the item is not queued.
#[verifier::external_body]
pub fn pq_change_priority(q: &mut NodeQueue, item: usize, priority: i64) -> (r: Option<i64>)
    ensures
        pq_view(*old(q)).contains_key(item) ==> {
            &&& pq_view(*final(q)) == pq_view(*old(q)).insert(item, priority as int)
            &&& r matches Some(p) && p as int == pq_view(*old(q))[item]
        },
        !pq_view(*old(q)).contains_key(item) ==> {
            &&& pq_view(*final(q)) == pq_view(*old(q))
            &&& r is None
        },
{
    match q.change_priority(&item, Reverse(priority)) {
        Some(Reverse(p)) => Some(p),
        None => None,
    }
}

/// Relies on PriorityQueue::pop: it removes and returns an item of
/// greatest priority, and the `Reverse` wrapper orders priorities so
/// that a least value is greatest.  Which of several items carrying
/// the same least value leaves is left open.
#[verifier::external_body]
pub fn pq_pop(q: &mut NodeQueue) -> (r: Option<(usize, i64)>)
    ensures
        match r {
            None => {
                &&& pq_view(*old(q)).dom() == Set::<usize>::empty()
                &&& pq_view(*final(q)) == pq_view(*old(q))
            },
            Some((item, p)) => {
                &&& pq_view(*old(q)).contains_key(item)
                &&& pq_view(*old(q))[item] == p as int
                &&& pq_view(*final(q)) == pq_view(*old(q)).remove(item)
                &&& forall|j: usize|
                    pq_view(*old(q)).contains_key(j) ==> p as int <= pq_view(*old(q))[j]
            },
        },
{
    match q.pop() {
        Some((item, Reverse(p))) => Some((item, p)),
        None => None,
    }
}

} // verus!
