//! The first-in-first-out queue of pending identifiers.
//!
//! The queue is the outside crate's growable FIFO structure; this module
//! declares it and gives the three operations the traversal uses contracts
//! over the queue's abstract contents, front first.

use queues::IsQueue;
use vstd::prelude::*;

verus! {

/// The outside queue type that carries pending identifiers.
#[verifier::external_type_specification]
#[verifier::external_body]
#[verifier::reject_recursive_types(T)]
pub struct ExQueue<T: Clone>(queues::Queue<T>);

/// What an identifier queue holds, front first.
pub uninterp spec fn fifo_elems(q: queues::Queue<u64>) -> Seq<u64>;

/// Relies on queues::Queue::new: a fresh queue is empty.
#[verifier::external_body]
pub(crate) fn fifo_new() -> (q: queues::Queue<u64>)
    ensures
        fifo_elems(q) == Seq::<u64>::empty(),
{
    queues::Queue::new()
}

/// Relies on queues::Queue::add: appends at the back; the unbounded queue
/// always accepts, answering `Ok(None)`.
#[verifier::external_body]
pub(crate) fn fifo_push(q: &mut queues::Queue<u64>, id: u64)
    ensures
        fifo_elems(*final(q)) == fifo_elems(*old(q)).push(id),
{
    let _ = q.add(id);
}

/// Relies on queues::Queue::remove: hands out the front element, and errs
/// exactly when the queue is empty, leaving it as it was.
#[verifier::external_body]
pub(crate) fn fifo_pop(q: &mut queues::Queue<u64>) -> (r: Option<u64>)
    ensures
        fifo_elems(*old(q)).len() == 0 ==> r is None && fifo_elems(*final(q)) == fifo_elems(*old(q)),
        fifo_elems(*old(q)).len() > 0 ==> r == Some(fifo_elems(*old(q))[0]) && fifo_elems(*final(q))
            == fifo_elems(*old(q)).drop_first(),
{
    match q.remove() {
        Ok(id) => Some(id),
        Err(_) => None,
    }
}

} // verus!
