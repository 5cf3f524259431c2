//! Trusted face of the outside priority queue used by the searches.
//!
//! The queue maps node coordinates to a `u64` priority; `pq_pop` hands back
//! an entry with the greatest priority, so callers that want a minimum
//! encode their keys in reverse.

use vstd::prelude::*;

use priority_queue::PriorityQueue;
use std::collections::hash_map::RandomState;

verus! {

#[verifier::external_type_specification]
#[verifier::external_body]
#[verifier::reject_recursive_types(I)]
#[verifier::reject_recursive_types(P)]
#[verifier::reject_recursive_types(H)]
pub struct ExPriorityQueue<I, P, H>(PriorityQueue<I, P, H>);

/// A queue of node coordinates ordered by a `u64` priority.
pub type NodeQueue = PriorityQueue<(i64, i64), u64, RandomState>;

/// The empty queue contents.
pub open spec fn no_entries() -> Map<(i64, i64), u64> {
    Map::empty()
}

/// What the queue holds: one priority per item.
pub uninterp spec fn queue_entries(q: NodeQueue) -> Map<(i64, i64), u64>;

/// Relies on priority_queue::PriorityQueue::new: creates an empty queue.
#[verifier::external_body]
pub fn pq_new() -> (r: NodeQueue)
    ensures
        queue_entries(r) == no_entries(),
{
    PriorityQueue::new()
}

/// Relies on priority_queue::PriorityQueue::push: inserts the item with the
/// given priority, or changes the priority of an item already present.
#[verifier::external_body]
pub fn pq_push(q: &mut NodeQueue, x: i64, y: i64, pri: u64)
    ensures
        queue_entries(*final(q)) == queue_entries(*old(q)).insert((x, y), pri),
{
    q.push((x, y), pri);
}

/// Relies on priority_queue::PriorityQueue::pop: removes and returns an item
/// whose priority is greatest, or `None` when the queue is empty.
#[verifier::external_body]
pub fn pq_pop(q: &mut NodeQueue) -> (r: Option<((i64, i64), u64)>)
    ensures
        match r {
            None => queue_entries(*old(q)) == no_entries() && queue_entries(
                *final(q),
            ) == queue_entries(*old(q)),
            Some(((x, y), p)) => {
                &&& queue_entries(*old(q)).contains_key((x, y))
                &&& queue_entries(*old(q))[(x, y)] == p
                &&& forall|k: (i64, i64)|
                    queue_entries(*old(q)).contains_key(k) ==> #[trigger] queue_entries(*old(q))[k]
                        <= p
                &&& queue_entries(*final(q)) == queue_entries(*old(q)).remove((x, y))
            },
        },
{
    q.pop()
}

} // verus!
