use vstd::prelude::*;

use priority_queue::PriorityQueue;
use std::collections::hash_map::RandomState;

verus! {

// The ranking queue. The ranked result is handed back as a max-priority
// queue of (document id, score) pairs, as an outside crate implements it;
// the contracts speak of its contents as a map from document id to score.

#[verifier::external_type_specification]
#[verifier::external_body]
#[verifier::reject_recursive_types(I)]
#[verifier::reject_recursive_types(P)]
#[verifier::reject_recursive_types(H)]
pub struct ExPriorityQueue<I, P, H>(PriorityQueue<I, P, H>);

/// What a ranking queue holds: each stored document id's score.
pub uninterp spec fn pq_contents(q: PriorityQueue<String, i32, RandomState>) -> Map<
    Seq<char>,
    int,
>;

/// Relies on `priority_queue::PriorityQueue::new`: makes an empty queue.
#[verifier::external_body]
pub(crate) fn pq_new() -> (q: PriorityQueue<String, i32>)
    ensures
        (pq_contents(q) == Map::<Seq<char>, int>::empty()),
{
    PriorityQueue::new()
}

/// Relies on `priority_queue::PriorityQueue::push`: stores the item with the
/// given priority; when the item was already stored, its priority is
/// replaced and the old one handed back.
#[verifier::external_body]
pub(crate) fn pq_push(q: &mut PriorityQueue<String, i32>, item: String, priority: i32) -> (old_p:
    Option<i32>)
    ensures
        pq_contents(*final(q)) == pq_contents(*old(q)).insert(item@, priority as int),
        match old_p {
            Some(p) => pq_contents(*old(q)).contains_key(item@) && pq_contents(*old(q))[item@]
                == p as int,
            None => !pq_contents(*old(q)).contains_key(item@),
        },
{
    q.push(item, priority)
}

} // verus!
