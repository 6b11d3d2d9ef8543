//! FIFO queues backed by `scc::Queue`.
//!
//! The allocators of this crate keep the slots they can hand out again in an
//! `scc::Queue<usize>`; worlds queue the global systems to load and unload,
//! and layer managers the layers to detach, in an `scc::Queue<u32>`. The queue is an outside type: its contents are named by
//! `free_queue_contents` and `id_queue_contents`, and each method that the
//! library calls has a trusted wrapper whose contract follows the queue's documented
//! first-in-first-out behaviour.
use scc::Queue;
use vstd::prelude::*;

verus! {

#[verifier::external_type_specification]
#[verifier::external_body]
#[verifier::reject_recursive_types(T)]
pub struct ExQueue<T>(Queue<T>);

/// The values held by a queue of slot indices, oldest first.
pub uninterp spec fn free_queue_contents(q: Queue<usize>) -> Seq<usize>;

/// Calls `Queue::default`: a new queue holds nothing.
#[verifier::external_body]
pub(crate) fn queue_new() -> (q: Queue<usize>)
    ensures
        free_queue_contents(q) == Seq::<usize>::empty(),
{
    Queue::default()
}

/// Calls `Queue::push`: the value becomes the newest entry.
#[verifier::external_body]
pub(crate) fn queue_push(q: &mut Queue<usize>, v: usize)
    ensures
        free_queue_contents(*final(q)) == free_queue_contents(*old(q)).push(v),
{
    q.push(v);
}

/// Calls `Queue::pop`: removes and returns the oldest entry, or `None` when the
/// queue is empty (and then leaves it as it was).
#[verifier::external_body]
pub(crate) fn queue_pop(q: &mut Queue<usize>) -> (r: Option<usize>)
    ensures
        free_queue_contents(*old(q)).len() == 0 ==> r is None && free_queue_contents(*final(q))
            == free_queue_contents(*old(q)),
        free_queue_contents(*old(q)).len() > 0 ==> r == Some(free_queue_contents(*old(q))[0])
            && free_queue_contents(*final(q)) == free_queue_contents(*old(q)).drop_first(),
{
    q.pop().map(|e| **e)
}

/// Calls `Queue::is_empty`: true exactly when the queue holds no entry.
#[verifier::external_body]
pub(crate) fn queue_is_empty(q: &Queue<usize>) -> (b: bool)
    ensures
        b == (free_queue_contents(*q).len() == 0),
{
    q.is_empty()
}

} // verus!

verus! {

/// The identifiers held by a queue of global system identifiers, oldest first.
pub uninterp spec fn id_queue_contents(q: Queue<u32>) -> Seq<u32>;

/// Calls `Queue::default`: a new queue holds nothing.
#[verifier::external_body]
pub(crate) fn id_queue_new() -> (q: Queue<u32>)
    ensures
        id_queue_contents(q) == Seq::<u32>::empty(),
{
    Queue::default()
}

/// Calls `Queue::push`: the identifier becomes the newest entry.
#[verifier::external_body]
pub(crate) fn id_queue_push(q: &mut Queue<u32>, v: u32)
    ensures
        id_queue_contents(*final(q)) == id_queue_contents(*old(q)).push(v),
{
    q.push(v);
}

/// Calls `Queue::pop`: removes and returns the oldest entry, or `None` when the
/// queue is empty (and then leaves it as it was).
#[verifier::external_body]
pub(crate) fn id_queue_pop(q: &mut Queue<u32>) -> (r: Option<u32>)
    ensures
        id_queue_contents(*old(q)).len() == 0 ==> r is None && id_queue_contents(*final(q))
            == id_queue_contents(*old(q)),
        id_queue_contents(*old(q)).len() > 0 ==> r == Some(id_queue_contents(*old(q))[0])
            && id_queue_contents(*final(q)) == id_queue_contents(*old(q)).drop_first(),
{
    q.pop().map(|e| **e)
}

/// Take every identifier out of a queue, oldest first.
pub(crate) fn drain_ids(q: &mut Queue<u32>) -> (r: Vec<u32>)
    ensures
        r@ == id_queue_contents(*old(q)),
        id_queue_contents(*final(q)) == Seq::<u32>::empty(),
{
    let ghost q0 = id_queue_contents(*q);
    let mut r: Vec<u32> = Vec::new();
    loop
        invariant
            r@ + id_queue_contents(*q) == q0,
        ensures
            r@ == q0,
            id_queue_contents(*q) == Seq::<u32>::empty(),
        decreases id_queue_contents(*q).len(),
    {
        let ghost before = id_queue_contents(*q);
        match id_queue_pop(q) {
            None => {
                proof {
                    assert(r@ + before =~= r@);
                    assert(id_queue_contents(*q) =~= Seq::<u32>::empty());
                }
                break;
            },
            Some(g) => {
                r.push(g);
                proof {
                    assert(r@ + id_queue_contents(*q) =~= r@.drop_last() + before);
                }
            },
        }
    }
    r
}

} // verus!
