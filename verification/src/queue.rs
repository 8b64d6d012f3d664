//! The concurrent queue that backs the object registry and the pool of
//! recycled root identifiers.
//!
//! The queue itself is `crossbeam`'s `SegQueue`. Nothing in this module is
//! proved: each function states what the queue's own code does when the
//! caller is its only user, which the exclusive borrow guarantees.
use crossbeam::queue::SegQueue;
use vstd::prelude::*;

verus! {

#[verifier::external_type_specification]
#[verifier::external_body]
#[verifier::reject_recursive_types(T)]
pub struct ExSegQueue<T>(SegQueue<T>);

/// The identifiers held by a queue, oldest first.
pub uninterp spec fn queue_items(q: &SegQueue<usize>) -> Seq<usize>;

/// `SegQueue::new`: a queue that holds nothing.
#[verifier::external_body]
pub(crate) fn queue_new() -> (q: SegQueue<usize>)
    ensures
        queue_items(&q) == Seq::<usize>::empty(),
{
    SegQueue::new()
}

/// `SegQueue::push`: the value goes to the tail and nothing else moves.
#[verifier::external_body]
pub(crate) fn queue_push(q: &mut SegQueue<usize>, value: usize)
    ensures
        queue_items(final(q)) == queue_items(old(q)).push(value),
{
    q.push(value)
}

/// `SegQueue::pop`: the head leaves the queue and is returned; an empty
/// queue gives `None` and stays empty.
#[verifier::external_body]
pub(crate) fn queue_pop(q: &mut SegQueue<usize>) -> (head: Option<usize>)
    ensures
        head.is_some() == (queue_items(old(q)).len() > 0),
        head.is_some() ==> head == Some(queue_items(old(q)).first()),
        head.is_some() ==> queue_items(final(q)) == queue_items(old(q)).drop_first(),
        head.is_none() ==> queue_items(final(q)) == queue_items(old(q)),
{
    q.pop()
}

/// `SegQueue::len`: how many values the queue holds.
#[verifier::external_body]
pub(crate) fn queue_len(q: &SegQueue<usize>) -> (n: usize)
    ensures
        n == queue_items(q).len(),
{
    q.len()
}

} // verus!
