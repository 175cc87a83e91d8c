//! The client's log queue.
//!
//! Log lines produced anywhere in the client are queued and drained in
//! batches by whoever renders them.  The queue is crossbeam's segmented
//! queue; this module holds it behind contracts and keeps the order of
//! lines first-in, first-out.  The wrappers take the queue exclusively, so
//! the concurrent queue behaves as a plain FIFO queue for their contracts;
//! sharing it across threads is the surrounding program's business.

use vstd::prelude::*;
use crossbeam_queue::SegQueue;

verus! {

#[verifier::external_type_specification]
#[verifier::external_body]
#[verifier::reject_recursive_types(T)]
pub struct ExSegQueue<T>(SegQueue<T>);

/// The lines in a queue, oldest first.
pub uninterp spec fn queue_elems(q: SegQueue<String>) -> Seq<Seq<char>>;

/// Relies on crossbeam's `SegQueue::new`: a queue with nothing in it.
#[verifier::external_body]
fn queue_new() -> (r: SegQueue<String>)
    ensures
        queue_elems(r) == Seq::<Seq<char>>::empty(),
{
    SegQueue::new()
}

/// Relies on crossbeam's `SegQueue::push`: appends the value at the tail.
#[verifier::external_body]
fn queue_push(q: &mut SegQueue<String>, msg: String)
    ensures
        queue_elems(*final(q)) == queue_elems(*old(q)).push(msg@),
{
    q.push(msg)
}

/// Relies on crossbeam's `SegQueue::pop`: takes the value at the head, the
/// oldest one, or nothing from an empty queue.
#[verifier::external_body]
fn queue_pop(q: &mut SegQueue<String>) -> (r: Option<String>)
    ensures
        match r {
            Some(m) => queue_elems(*old(q)).len() > 0
                && m@ == queue_elems(*old(q))[0]
                && queue_elems(*final(q)) == queue_elems(*old(q)).subrange(
                    1,
                    queue_elems(*old(q)).len() as int,
                ),
            None => queue_elems(*old(q)).len() == 0
                && queue_elems(*final(q)) == queue_elems(*old(q)),
        },
{
    q.pop()
}

/// The queue of pending log lines.
pub struct Logger {
    queue: SegQueue<String>,
}

impl Logger {
    /// The pending lines, oldest first.
    pub closed spec fn view(self) -> Seq<Seq<char>> {
        queue_elems(self.queue)
    }

    /// Queues one line.
    pub fn log(&mut self, msg: String)
        ensures
            final(self)@ == old(self)@.push(msg@),
    {
        queue_push(&mut self.queue, msg)
    }
}

/// A fresh logger with no pending lines.
pub fn init() -> (r: Logger)
    ensures
        r@ == Seq::<Seq<char>>::empty(),
{
    Logger { queue: queue_new() }
}

/// Takes every pending line out of the logger, oldest first.
pub fn drain(logger: &mut Logger) -> (r: Vec<String>)
    ensures
        final(logger)@ == Seq::<Seq<char>>::empty(),
        r@.len() == old(logger)@.len(),
        forall|i: int| 0 <= i < r@.len() ==> (#[trigger] r@[i])@ == old(logger)@[i],
{
    let mut r: Vec<String> = Vec::new();
    loop
        invariant
            r@.len() + logger@.len() == old(logger)@.len(),
            forall|i: int| 0 <= i < r@.len() ==> (#[trigger] r@[i])@ == old(logger)@[i],
            forall|i: int| 0 <= i < logger@.len()
                ==> #[trigger] logger@[i] == old(logger)@[r@.len() + i],
        ensures
            logger@.len() == 0,
            r@.len() == old(logger)@.len(),
            forall|i: int| 0 <= i < r@.len() ==> (#[trigger] r@[i])@ == old(logger)@[i],
        decreases logger@.len(),
    {
        let ghost pre = logger@;
        match queue_pop(&mut logger.queue) {
            None => {
                break;
            },
            Some(m) => {
                r.push(m);
                proof {
                    assert forall|i: int| 0 <= i < logger@.len() implies
                        #[trigger] logger@[i] == old(logger)@[r@.len() + i] by {
                        assert(logger@[i] == pre[i + 1]);
                    }
                }
            },
        }
    }
    r
}

} // verus!
