//! Trusted boundary around `priority_queue::PriorityQueue`, which the
//! tree builder uses as its min-queue.
//!
//! The queue is used with `u64` items (arena indices of pending nodes)
//! and `(u64, u64)` priorities. `pop` hands out a pair with the
//! greatest priority, so the builder stores complemented frequencies
//! and insertion indices to extract its minima. The contracts speak of
//! one name, `pq_contents`: the multiset of (item, priority) pairs in
//! the queue.

use priority_queue::PriorityQueue;
use vstd::multiset::Multiset;
use vstd::prelude::*;

verus! {

#[verifier::external_type_specification]
#[verifier::external_body]
#[verifier::reject_recursive_types(I)]
#[verifier::reject_recursive_types(P)]
#[verifier::reject_recursive_types(H)]
pub struct ExPriorityQueue<I, P, H>(PriorityQueue<I, P, H>);

/// The (item, priority) pairs a queue holds.
pub uninterp spec fn pq_contents(q: PriorityQueue<u64, (u64, u64)>) -> Multiset<
    (u64, (u64, u64)),
>;

/// The order `pop` maximises: lexicographic on the priority pair, as
/// std documents `Ord` for tuples.
pub open spec fn prio_le(a: (u64, u64), b: (u64, u64)) -> bool {
    a.0 < b.0 || (a.0 == b.0 && a.1 <= b.1)
}

/// Relies on `PriorityQueue::new`: a fresh queue is empty.
#[verifier::external_body]
pub(crate) fn pq_new() -> (q: PriorityQueue<u64, (u64, u64)>)
    ensures
        pq_contents(q) == Multiset::<(u64, (u64, u64))>::empty(),
{
    PriorityQueue::new()
}

/// Relies on `PriorityQueue::push`: an item not yet in the queue is
/// inserted with the given priority (an item already present would have
/// its priority updated instead, so the contract demands it is new).
#[verifier::external_body]
pub(crate) fn pq_push(q: &mut PriorityQueue<u64, (u64, u64)>, item: u64, prio: (u64, u64))
    requires
        forall|x: (u64, (u64, u64))| pq_contents(*old(q)).count(x) > 0 ==> x.0 != item,
    ensures
        pq_contents(*final(q)) == pq_contents(*old(q)).insert((item, prio)),
{
    q.push(item, prio);
}

/// Relies on `PriorityQueue::pop`: removes and returns a pair whose
/// priority is greatest under the lexicographic order on `(u64, u64)`,
/// or `None` when the queue is empty. Which of several greatest pairs
/// leaves is not promised.
#[verifier::external_body]
pub(crate) fn pq_pop(q: &mut PriorityQueue<u64, (u64, u64)>) -> (r: Option<(u64, (u64, u64))>)
    ensures
        pq_contents(*old(q)).len() == 0 ==> r is None && pq_contents(*final(q)) == pq_contents(
            *old(q),
        ),
        pq_contents(*old(q)).len() > 0 ==> r is Some && pq_contents(*old(q)).count(r->Some_0) > 0
            && pq_contents(*final(q)) == pq_contents(*old(q)).remove(r->Some_0) && forall|
            x: (u64, (u64, u64)),
        |
            pq_contents(*old(q)).count(x) > 0 ==> prio_le(x.1, r->Some_0.1),
{
    q.pop()
}

/// Relies on `PriorityQueue::len`: the number of items in the queue.
#[verifier::external_body]
pub(crate) fn pq_len(q: &PriorityQueue<u64, (u64, u64)>) -> (r: usize)
    ensures
        r == pq_contents(*q).len(),
{
    q.len()
}

} // verus!
