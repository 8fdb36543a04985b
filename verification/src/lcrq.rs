//! Linked concurrent ring queue: an unbounded FIFO queue made of a chain of
//! ring queues.
//!
//! Values go into the last ring of the chain. When that ring closes, a
//! fresh ring that already holds the value is linked behind it. Values come
//! out of the ring at `head`; a ring found empty with a successor is left
//! behind. Rings left behind stay in the chain until the queue is dropped.

use vstd::prelude::*;
use crate::atomics::x86::compare_and_swap;
use crate::crq::slot_accepts;
use crate::crq::CrqState;
use crate::crq::COUNTER_LIMIT;
use crate::crq::CRQ;
use crate::crq::NO_SUCCESSOR;
use crate::fifo::answer;
use crate::fifo::apply;
use crate::fifo::QueueOp;
use crate::crq::RING_SIZE;
use crate::node::NodeView;
use crate::node::NODE_VALUE_EMPTY;

verus! {

/// The values of `parts` in one sequence, part after part.
pub open spec fn concat(parts: Seq<Seq<u64>>) -> Seq<u64>
    decreases parts.len(),
{
    if parts.len() == 0 {
        Seq::empty()
    } else {
        concat(parts.drop_last()) + parts.last()
    }
}

/// The first part comes first.
pub proof fn lemma_concat_first(parts: Seq<Seq<u64>>)
    requires
        parts.len() > 0,
    ensures
        concat(parts) == parts[0] + concat(parts.drop_first()),
    decreases parts.len(),
{
    if parts.len() == 1 {
        assert(concat(parts.drop_last()) =~= Seq::<u64>::empty());
    } else {
        let front = parts.drop_last();
        lemma_concat_first(front);
        assert(parts.drop_first().drop_last() =~= front.drop_first());
    }
}

/// An unbounded FIFO queue of non-zero 64-bit values.
pub struct LCRQ {
    tail: u64,
    head: u64,
    crqs: Vec<CRQ>,
    given: Ghost<Seq<u64>>,
    returned: Ghost<Seq<u64>>,
}

impl View for LCRQ {
    type V = Seq<u64>;

    /// The values in the queue, oldest first.
    open spec fn view(&self) -> Seq<u64> {
        concat(self.parts())
    }
}

impl LCRQ {
    /// Every ring that was ever linked, in linking order.
    pub closed spec fn chain(self) -> Seq<CRQ> {
        self.crqs@
    }

    /// The place in the chain of the ring that values come out of.
    pub closed spec fn head_index(self) -> int {
        self.head as int
    }

    /// The place in the chain of the ring that values go into.
    pub closed spec fn tail_index(self) -> int {
        self.tail as int
    }

    /// Every value that `enqueue` was given since the queue was made, in
    /// turn.
    pub closed spec fn given(self) -> Seq<u64> {
        self.given@
    }

    /// Every value that `dequeue` returned since the queue was made, in
    /// turn.
    pub closed spec fn returned(self) -> Seq<u64> {
        self.returned@
    }

    /// The contents of the rings from `head` on.
    pub open spec fn parts(self) -> Seq<Seq<u64>> {
        Seq::new(
            (self.chain().len() - self.head_index()) as nat,
            |i: int| self.chain()[self.head_index() + i]@,
        )
    }

    /// The state of a queue between operations: the chain is never empty,
    /// each ring links to the one behind it, only the last ring can be
    /// open, `tail` is the last ring, and what was returned, followed by
    /// what is in the queue, is what was given.
    pub open spec fn wf(self) -> bool {
        &&& 0 <= self.head_index() <= self.tail_index()
        &&& self.tail_index() == self.chain().len() - 1
        &&& self.chain().len() <= u64::MAX
        &&& self.returned() + self@ == self.given()
        &&& forall|i: int|
            0 <= i < self.chain().len() ==> {
                let crq = #[trigger] self.chain()[i];
                &&& crq.wf()
                &&& crq.state().next == if i + 1 < self.chain().len() {
                    Some((i + 1) as u64)
                } else {
                    None
                }
                &&& i + 1 < self.chain().len() ==> crq.state().closed
            }
    }

    /// Whatever the operations made of the queue, each value returned was
    /// given before, no more often than it was given, and in the order
    /// given.
    pub proof fn lemma_returned_were_given(self)
        requires
            self.wf(),
        ensures
            self.returned().is_prefix_of(self.given()),
            self.returned().to_multiset().subset_of(self.given().to_multiset()),
            forall|i: int| 0 <= i < self@.len() ==> self.given().contains(#[trigger] self@[i]),
    {
        vstd::seq_lib::lemma_multiset_commutative(self.returned(), self@);
        assert forall|i: int| 0 <= i < self@.len() implies self.given().contains(
            #[trigger] self@[i],
        ) by {
            assert(self.given()[self.returned().len() + i] == self@[i]);
        }
    }

    /// An empty queue of one new ring, which is both `head` and `tail`.
    pub fn new() -> (lcrq: LCRQ)
        ensures
            lcrq.wf(),
            lcrq@ == Seq::<u64>::empty(),
            lcrq.given() == Seq::<u64>::empty(),
            lcrq.returned() == Seq::<u64>::empty(),
            lcrq.chain().len() == 1,
            lcrq.head_index() == 0,
            lcrq.tail_index() == 0,
            lcrq.chain()[0].state() == CrqState::fresh(),
            lcrq.chain()[0].state().head == 0,
            lcrq.chain()[0].state().tail == 0,
            !lcrq.chain()[0].state().closed,
            lcrq.chain()[0].state().next.is_none(),
            forall|i: int|
                0 <= i < RING_SIZE ==> #[trigger] lcrq.chain()[0].state().ring[i] == (NodeView {
                    index: i as nat,
                    safe: true,
                    value: NODE_VALUE_EMPTY,
                }),
    {
        let mut crqs: Vec<CRQ> = Vec::new();
        crqs.push(CRQ::new());
        let lcrq = LCRQ {
            tail: 0,
            head: 0,
            crqs: crqs,
            given: Ghost(Seq::empty()),
            returned: Ghost(Seq::empty()),
        };
        proof {
            assert(concat(lcrq.parts().drop_last()) =~= Seq::<u64>::empty());
        }
        lcrq
    }

    /// Takes the oldest value out of the queue, or finds the queue empty.
    ///
    /// Only the rings from the old `head` to the new one are touched. No
    /// ring is added, closed, opened or relinked, and in no ring does
    /// `head`, `tail` or a cell's index go back.
    pub fn dequeue(&mut self) -> (result: Option<u64>)
        requires
            old(self).wf(),
        ensures
            final(self).wf(),
            result == answer(old(self)@, QueueOp::Dequeue),
            final(self)@ == apply(old(self)@, QueueOp::Dequeue),
            final(self).given() == old(self).given(),
            final(self).returned() == match result {
                Some(value) => old(self).returned().push(value),
                None => old(self).returned(),
            },
            final(self).chain().len() == old(self).chain().len(),
            final(self).tail_index() == old(self).tail_index(),
            old(self).head_index() <= final(self).head_index(),
            forall|i: int|
                0 <= i < old(self).chain().len() ==> {
                    let now = (#[trigger] final(self).chain()[i]).state();
                    let was = old(self).chain()[i].state();
                    &&& now.follows(was)
                    &&& now.closed == was.closed
                    &&& now.next == was.next
                    &&& (i < old(self).head_index() || i > final(self).head_index())
                        ==> final(self).chain()[i] == old(self).chain()[i]
                    &&& old(self).head_index() <= i < final(self).head_index() ==> now
                        == was.after_empty_dequeue().after_empty_dequeue()
                },
            ({
                let now = final(self).chain()[final(self).head_index()].state();
                let was = old(self).chain()[final(self).head_index()].state();
                now == match result {
                    Some(_) => CrqState {
                        live: (was.live - 1) as nat,
                        ..was.after_claim_head().after_visit(was.head)
                    },
                    None => was.after_empty_dequeue(),
                }
            }),
            match result {
                Some(value) => {
                    &&& old(self)@.len() > 0
                    &&& value == old(self)@[0]
                    &&& value != NODE_VALUE_EMPTY
                    &&& old(self).given().contains(value)
                    &&& final(self)@ == old(self)@.drop_first()
                },
                None => {
                    &&& old(self)@.len() == 0
                    &&& final(self)@ == old(self)@
                },
            },
    {
        proof {
            old(self).lemma_returned_were_given();
            assert forall|i: int| 0 <= i < self.chain().len() implies (#[trigger] self.chain()[i])
                .state().follows(self.chain()[i].state()) by {
                self.chain()[i].state().lemma_follows_itself();
            }
        }
        loop
            invariant
                self.wf(),
                self@ == old(self)@,
                self.given() == old(self).given(),
                self.returned() == old(self).returned(),
                self.chain().len() == old(self).chain().len(),
                self.tail_index() == old(self).tail_index(),
                old(self).head_index() <= self.head_index(),
                old(self)@.len() > 0 ==> old(self).given().contains(old(self)@[0]),
                forall|i: int|
                    0 <= i < old(self).chain().len() ==> {
                        let now = (#[trigger] self.chain()[i]).state();
                        let was = old(self).chain()[i].state();
                        &&& now.follows(was)
                        &&& now.closed == was.closed
                        &&& now.next == was.next
                        &&& (i < old(self).head_index() || i >= self.head_index())
                            ==> self.chain()[i] == old(self).chain()[i]
                        &&& old(self).head_index() <= i < self.head_index() ==> now
                            == was.after_empty_dequeue().after_empty_dequeue()
                    },
            decreases self.chain().len() - self.head_index(),
        {
            let ghost before = *self;
            let c: u64 = self.head;
            proof {
                lemma_concat_first(before.parts());
            }
            match self.dequeue_at_head() {
                Some(value) => {
                    self.returned = Ghost(self.returned@.push(value));
                    proof {
                        self.lemma_ring_follows(before, *old(self), c as int);
                        lemma_concat_first(self.parts());
                        assert(self.parts().drop_first() =~= before.parts().drop_first());
                        assert(self.returned() + self@ =~= self.given());
                    }
                    return Some(value);
                },
                None => {
                    proof {
                        self.lemma_ring_follows(before, *old(self), c as int);
                        assert(self.parts() =~= before.parts());
                    }
                    let next: u64 = self.next_of_head();
                    if next == NO_SUCCESSOR {
                        return None;
                    }
                    let ghost middle = *self;
                    match self.dequeue_at_head() {
                        Some(value) => {
                            return Some(value);
                        },
                        None => {
                            proof {
                                self.lemma_ring_follows(middle, *old(self), c as int);
                                assert(self.parts() =~= before.parts());
                            }
                            let ghost unlinked = self.parts();
                            compare_and_swap(&mut self.head, c, next);
                            proof {
                                assert(self.parts() =~= unlinked.drop_first());
                            }
                        },
                    }
                },
            }
        }
    }

    /// One attempt to take a value out of the ring at `head`.
    fn dequeue_at_head(&mut self) -> (result: Option<u64>)
        requires
            old(self).wf(),
        ensures
            final(self).head_index() == old(self).head_index(),
            final(self).tail_index() == old(self).tail_index(),
            final(self).given() == old(self).given(),
            final(self).returned() == old(self).returned(),
            final(self).chain() =~= old(self).chain().update(
                old(self).head_index(),
                final(self).chain()[old(self).head_index()],
            ),
            ({
                let now = final(self).chain()[old(self).head_index()];
                let was = old(self).chain()[old(self).head_index()];
                &&& now.wf()
                &&& now.state().follows(was.state())
                &&& now.state().closed == was.state().closed
                &&& now.state().next == was.state().next
                &&& result == answer(was@, QueueOp::Dequeue)
                &&& now@ == apply(was@, QueueOp::Dequeue)
                &&& result.is_some() ==> result.unwrap() != NODE_VALUE_EMPTY
                &&& now.state() == match result {
                    Some(_) => CrqState {
                        live: (was.state().live - 1) as nat,
                        ..was.state().after_claim_head().after_visit(was.state().head)
                    },
                    None => was.state().after_empty_dequeue(),
                }
            }),
    {
        let c: u64 = self.head;
        proof {
            assert(self.crqs.len() == self.chain().len());
        }
        self.crqs[c as usize].dequeue()
    }

    /// The link of the ring at `head`.
    fn next_of_head(&self) -> (next: u64)
        requires
            self.wf(),
        ensures
            next == NO_SUCCESSOR <==> self.head_index() == self.chain().len() - 1,
            next != NO_SUCCESSOR ==> next == self.head_index() + 1,
    {
        proof {
            assert(self.crqs.len() == self.chain().len());
        }
        self.crqs[self.head as usize].next()
    }

    /// Puts `value` at the back of the queue.
    ///
    /// The value goes into the last ring if that ring has room. Otherwise
    /// the last ring is closed, and a new ring that holds the value is
    /// linked behind it and becomes `tail`. No other ring is touched.
    pub fn enqueue(&mut self, value: u64)
        requires
            old(self).wf(),
            value != NODE_VALUE_EMPTY,
        ensures
            final(self).wf(),
            final(self)@ == old(self)@.push(value),
            final(self)@ == apply(old(self)@, QueueOp::Enqueue(value)),
            final(self).given() == old(self).given().push(value),
            final(self).returned() == old(self).returned(),
            final(self).head_index() == old(self).head_index(),
            forall|i: int|
                0 <= i < old(self).chain().len() - 1 ==> #[trigger] final(self).chain()[i] == old(self).chain()[i],
            ({
                let n = old(self).chain().len() as int;
                let last = old(self).chain()[n - 1].state();
                let now = final(self).chain()[n - 1].state();
                if last.has_room() {
                    &&& final(self).chain().len() == n
                    &&& final(self).tail_index() == n - 1
                    &&& slot_accepts(last.cell_at(last.tail as int), last.tail, last.head)
                    &&& now == (CrqState {
                        live: last.live + 1,
                        ..last.after_claim_tail().after_store(last.tail, value)
                    })
                    &&& now.follows(last)
                } else {
                    &&& final(self).chain().len() == n + 1
                    &&& final(self).tail_index() == n
                    &&& now == (CrqState {
                        next: Some(n as u64),
                        ..if last.tail >= COUNTER_LIMIT {
                            last.after_close()
                        } else {
                            last.after_claim_tail().after_close()
                        }
                    })
                    &&& now.follows(last)
                    &&& slot_accepts(CrqState::fresh().cell_at(0), 0, 0)
                    &&& final(self).chain()[n].state() == (CrqState {
                        live: 1,
                        ..CrqState::fresh().after_claim_tail().after_store(0, value)
                    })
                }
            }),
    {
        loop
            invariant
                *self == *old(self),
                self.wf(),
                value != NODE_VALUE_EMPTY,
            decreases self.chain().len() - self.tail_index(),
        {
            let ghost before = *self;
            let c: u64 = self.tail;
            proof {
                assert(self.crqs.len() == self.chain().len());
            }
            let next: u64 = self.crqs[c as usize].next();
            if next != NO_SUCCESSOR {
                compare_and_swap(&mut self.tail, c, next);
                continue;
            }
            match self.crqs[c as usize].enqueue(value) {
                Ok(_) => {
                    self.given = Ghost(self.given@.push(value));
                    proof {
                        assert(self.parts().drop_last() =~= before.parts().drop_last());
                    }
                    return;
                },
                Err(_) => {
                    let mut new_crq: CRQ = CRQ::new();
                    let stored = new_crq.enqueue(value);
                    assert(stored.is_ok());
                    let new_index: u64 = self.crqs.len() as u64;
                    let ghost closed = *self;
                    if self.crqs[c as usize].link_next(new_index) {
                        self.crqs.push(new_crq);
                        compare_and_swap(&mut self.tail, c, new_index);
                        self.given = Ghost(self.given@.push(value));
                        proof {
                            assert forall|i: int| 0 <= i < before.chain().len() implies
                                #[trigger] self.chain()[i]@ == before.chain()[i]@ by {}
                            assert(self.crqs.len() == self.chain().len());
                            assert forall|i: int| 0 <= i < self.chain().len() implies {
                                let crq = #[trigger] self.chain()[i];
                                &&& crq.wf()
                                &&& crq.state().next == if i + 1 < self.chain().len() {
                                    Some((i + 1) as u64)
                                } else {
                                    None
                                }
                                &&& i + 1 < self.chain().len() ==> crq.state().closed
                            } by {}
                            assert(self.parts().drop_last() =~= before.parts());
                            assert(self.returned() + self@ =~= self.given());
                            assert(self.chain()[c as int].state().follows(
                                before.chain()[c as int].state(),
                            )) by {
                                assert(closed.chain()[c as int].state().follows(
                                    before.chain()[c as int].state(),
                                ));
                            }
                        }
                        return;
                    }
                },
            }
        }
    }

    /// After an operation on the ring at `place` alone, every ring of the
    /// chain still follows what it was at the start.
    proof fn lemma_ring_follows(self, earlier: LCRQ, start: LCRQ, place: int)
        requires
            0 <= place < earlier.chain().len(),
            earlier.chain().len() == start.chain().len(),
            self.chain() =~= earlier.chain().update(place, self.chain()[place]),
            self.chain()[place].state().follows(earlier.chain()[place].state()),
            earlier.chain()[place].state().follows(start.chain()[place].state()),
        ensures
            self.chain()[place].state().follows(start.chain()[place].state()),
            forall|i: int|
                0 <= i < self.chain().len() && i != place ==> #[trigger] self.chain()[i]
                    == earlier.chain()[i],
    {
        self.chain()[place].state().lemma_follows_transitive(
            earlier.chain()[place].state(),
            start.chain()[place].state(),
        );
    }
}

} // verus!
