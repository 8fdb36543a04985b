//! What the queue is to one owner: a sequence of values that grows at the
//! back and shrinks at the front.

use vstd::prelude::*;

verus! {

/// One whole operation on the queue.
pub enum QueueOp {
    Enqueue(u64),
    Dequeue,
}

/// The contents that `op` leaves.
pub open spec fn apply(contents: Seq<u64>, op: QueueOp) -> Seq<u64> {
    match op {
        QueueOp::Enqueue(value) => contents.push(value),
        QueueOp::Dequeue => if contents.len() > 0 {
            contents.drop_first()
        } else {
            contents
        },
    }
}

/// What `op` returns to its caller.
pub open spec fn answer(contents: Seq<u64>, op: QueueOp) -> Option<u64> {
    match op {
        QueueOp::Enqueue(_) => None,
        QueueOp::Dequeue => if contents.len() > 0 {
            Some(contents[0])
        } else {
            None
        },
    }
}

/// The contents of an empty queue after the operations of `ops`, in turn.
pub open spec fn contents_after(ops: Seq<QueueOp>) -> Seq<u64>
    decreases ops.len(),
{
    if ops.len() == 0 {
        Seq::empty()
    } else {
        apply(contents_after(ops.drop_last()), ops.last())
    }
}

/// The values that the enqueues of `ops` were given, in turn.
pub open spec fn given(ops: Seq<QueueOp>) -> Seq<u64>
    decreases ops.len(),
{
    if ops.len() == 0 {
        Seq::empty()
    } else {
        match ops.last() {
            QueueOp::Enqueue(value) => given(ops.drop_last()).push(value),
            QueueOp::Dequeue => given(ops.drop_last()),
        }
    }
}

/// The values that the dequeues of `ops` returned, in turn, on a queue
/// that was empty at the start.
pub open spec fn returned(ops: Seq<QueueOp>) -> Seq<u64>
    decreases ops.len(),
{
    if ops.len() == 0 {
        Seq::empty()
    } else {
        match answer(contents_after(ops.drop_last()), ops.last()) {
            Some(value) => returned(ops.drop_last()).push(value),
            None => returned(ops.drop_last()),
        }
    }
}

/// In the hands of one owner, dequeues return the values in the order in
/// which the enqueues were given them: what was returned, followed by what
/// is still in the queue, is what was given. So nothing is returned twice,
/// nothing is made up, and nothing overtakes.
pub proof fn lemma_fifo(ops: Seq<QueueOp>)
    ensures
        returned(ops) + contents_after(ops) == given(ops),
        returned(ops).is_prefix_of(given(ops)),
    decreases ops.len(),
{
    if ops.len() > 0 {
        lemma_fifo(ops.drop_last());
    }
}

} // verus!
