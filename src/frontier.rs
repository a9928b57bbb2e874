use priority_queue::PriorityQueue;
use vstd::prelude::*;

verus! {

#[verifier::external_type_specification]
#[verifier::external_body]
#[verifier::reject_recursive_types(I)]
#[verifier::reject_recursive_types(P)]
#[verifier::reject_recursive_types(H)]
pub struct ExPriorityQueue<I, P, H>(PriorityQueue<I, P, H>);

/// A priority queue of ladder indices with integer scores.
pub type IndexQueue = PriorityQueue<usize, usize>;

/// What a queue of ladder indices holds: each queued index with its priority.
pub uninterp spec fn queue_entries(q: IndexQueue) -> Map<usize, usize>;

/// The frontier: indices of candidate ladders, keyed by their heuristic score.
pub struct Frontier {
    queue: IndexQueue,
}

/// Relies on `PriorityQueue::new`: a new queue is empty.
#[verifier::external_body]
fn queue_new() -> (r: IndexQueue)
    ensures
        queue_entries(r).dom() == Set::<usize>::empty(),
{
    PriorityQueue::new()
}

/// Relies on `PriorityQueue::push`: the item is stored with the given priority,
/// replacing the priority of an equal item already queued.
#[verifier::external_body]
fn queue_push(q: &mut IndexQueue, item: usize, priority: usize)
    ensures
        queue_entries(*final(q)) == queue_entries(*old(q)).insert(item, priority),
{
    q.push(item, priority);
}

/// Relies on `PriorityQueue::pop`: removes and returns an item of greatest
/// priority, or `None` when the queue is empty.
#[verifier::external_body]
fn queue_pop(q: &mut IndexQueue) -> (r: Option<(usize, usize)>)
    ensures
        queue_entries(*old(q)).dom().finite(),
        queue_entries(*final(q)).dom().finite(),
        match r {
            None => queue_entries(*old(q)).dom().len() == 0 && queue_entries(*final(q))
                == queue_entries(*old(q)),
            Some((i, p)) => {
                &&& queue_entries(*old(q)).contains_key(i)
                &&& queue_entries(*old(q))[i] == p
                &&& forall|j: usize| #[trigger]
                    queue_entries(*old(q)).contains_key(j) ==> queue_entries(*old(q))[j] <= p
                &&& queue_entries(*final(q)) == queue_entries(*old(q)).remove(i)
            },
        },
{
    q.pop()
}

impl Frontier {
    pub closed spec fn entries(&self) -> Map<usize, usize> {
        queue_entries(self.queue)
    }

    pub fn new() -> (r: Frontier)
        ensures
            r.entries().dom() == Set::<usize>::empty(),
    {
        Frontier { queue: queue_new() }
    }

    /// Queues ladder `item` with score `priority`.
    pub fn push(&mut self, item: usize, priority: usize)
        ensures
            final(self).entries() == old(self).entries().insert(item, priority),
    {
        queue_push(&mut self.queue, item, priority);
    }

    /// Takes out a ladder of greatest score.
    pub fn pop(&mut self) -> (r: Option<(usize, usize)>)
        ensures
            old(self).entries().dom().finite(),
            final(self).entries().dom().finite(),
            match r {
                None => old(self).entries().dom().len() == 0 && final(self).entries()
                    == old(self).entries(),
                Some((i, p)) => {
                    &&& old(self).entries().contains_key(i)
                    &&& old(self).entries()[i] == p
                    &&& forall|j: usize| #[trigger]
                        old(self).entries().contains_key(j) ==> old(self).entries()[j] <= p
                    &&& final(self).entries() == old(self).entries().remove(i)
                },
            },
    {
        queue_pop(&mut self.queue)
    }
}

} // verus!
