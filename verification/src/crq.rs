//! The concurrent ring queue: a bounded FIFO ring of `RING_SIZE` cells.
//!
//! Producers claim positions from `tail`, consumers from `head`; position
//! `p` lives in cell `p % RING_SIZE`. An operation is a handful of steps:
//! claim a position, then visit its cell, then perhaps close the ring or
//! bring `tail` up to `head`. The ring is changed through an exclusive
//! reference, so each step is indivisible, and the steps of different
//! operations may come in any order.
//!
//! The step methods (`fetch_and_add_tail`, `try_enqueue_at`, `close`,
//! `fetch_and_add_head`, `dequeue_at`, `fix_state`) assume nothing about
//! the operations that are under way: they ask only that each cell's index
//! names a position of that cell. `enqueue` and `dequeue` run the steps of
//! one operation back to back, on such a ring too, and say which cell took
//! or gave the value. On a ring that only whole operations have touched
//! (`wf`) they also say exactly what happens to its contents.

use vstd::prelude::*;
use crate::atomics::x86::compare_and_swap;
use crate::atomics::x86::fetch_and_add;
use crate::atomics::x86::test_and_set;
use crate::fifo::answer;
use crate::fifo::apply;
use crate::fifo::QueueOp;
use crate::flag_and_u63::FlagAndU63;
use crate::flag_and_u63::VALUE_MAX;
use crate::node::Node;
use crate::node::NodeView;
use crate::node::NODE_VALUE_EMPTY;

verus! {

/// The number of cells in a ring. A power of two.
pub const RING_SIZE: usize = 4;

/// Where the position counters stop: a ring whose `tail` has come this far
/// takes no more values, so that `position + RING_SIZE` always fits in 63
/// bits.
pub const COUNTER_LIMIT: u64 = VALUE_MAX - RING_SIZE as u64;

/// The word in a ring's link that says no ring follows. The first ring of a
/// chain has this place, and it follows no ring.
pub const NO_SUCCESSOR: u64 = 0;

/// The answer of `enqueue` on a ring that takes no more values.
#[derive(Clone, Copy, Debug, PartialEq, Eq, Structural)]
pub struct Closed;

/// What a consumer did to the cell of its claimed position.
#[derive(Clone, Copy, Debug)]
pub enum SlotVisit {
    /// The cell held a value for this position; it was taken out.
    Taken(u64),
    /// The cell holds a value of an earlier position; it was marked unsafe.
    MarkedUnsafe,
    /// The cell was empty; its index was moved past this position.
    Advanced,
    /// The cell already belongs to a later position; it was left alone.
    Passed,
}

/// What a ring queue stands for.
pub struct CrqState {
    /// The next position a consumer claims.
    pub head: nat,
    /// The next position a producer claims.
    pub tail: nat,
    /// Whether the ring takes no more values.
    pub closed: bool,
    /// The ring that follows this one in a chain, by its place in the chain.
    pub next: Option<u64>,
    /// The cells.
    pub ring: Seq<NodeView>,
    /// How many positions from `head` on hold a value, when one owner runs
    /// whole operations.
    pub live: nat,
}

/// Whether a producer that claimed `position` may put its value into `cell`:
/// the cell is empty, belongs to no later position, and is either safe or not
/// yet overtaken by `head`.
pub open spec fn slot_accepts(cell: NodeView, position: nat, head: nat) -> bool {
    &&& cell.value == NODE_VALUE_EMPTY
    &&& cell.index <= position
    &&& (cell.safe || head <= position)
}

/// What a consumer that claimed `position` does to `cell`, and the cell it
/// leaves behind.
pub open spec fn visit_slot(cell: NodeView, position: nat) -> (SlotVisit, NodeView) {
    if cell.index > position {
        (SlotVisit::Passed, cell)
    } else if cell.value != NODE_VALUE_EMPTY {
        if cell.index == position {
            (
                SlotVisit::Taken(cell.value),
                NodeView { index: position + RING_SIZE as nat, value: NODE_VALUE_EMPTY, ..cell },
            )
        } else {
            (SlotVisit::MarkedUnsafe, NodeView { safe: false, ..cell })
        }
    } else {
        (SlotVisit::Advanced, NodeView { index: position + RING_SIZE as nat, ..cell })
    }
}

/// The cell of `ring` in which `position` lives.
pub open spec fn ring_cell(ring: Seq<NodeView>, position: int) -> NodeView {
    ring[position % (RING_SIZE as int)]
}

/// Whether no cell of `later` has a smaller index than it has in `earlier`.
#[verifier::opaque]
pub open spec fn indices_follow(earlier: Seq<NodeView>, later: Seq<NodeView>) -> bool {
    forall|i: int|
        #![trigger earlier[i], later[i]]
        0 <= i < RING_SIZE ==> earlier[i].index <= later[i].index
}

/// No index of a ring is smaller than itself.
pub proof fn lemma_indices_follow_same(ring: Seq<NodeView>)
    ensures
        indices_follow(ring, ring),
{
    reveal(indices_follow);
}

/// Swapping in a cell with an index that is no smaller moves no index back.
pub proof fn lemma_indices_follow_update(ring: Seq<NodeView>, i: int, cell: NodeView)
    requires
        ring.len() == RING_SIZE,
        0 <= i < ring.len(),
        ring[i].index <= cell.index,
    ensures
        indices_follow(ring, ring.update(i, cell)),
{
    reveal(indices_follow);
}

/// Decides `slot_accepts` for a producer that claimed `position`, read the
/// cell as `cell` and the ring's head as `head`.
pub fn accepts(cell: &Node, position: u64, head: u64) -> (accepted: bool)
    ensures
        accepted == slot_accepts(cell@, position as nat, head as nat),
{
    let (safe, index) = cell.safe_and_index();
    cell.value() == NODE_VALUE_EMPTY && index <= position && (safe || head <= position)
}

/// Decides `visit_slot` for a consumer that claimed `position` and read the
/// cell as `cell`: what it is to do, and the cell to swap in for `cell`.
pub fn visit(cell: &Node, position: u64) -> (plan: (SlotVisit, Node))
    requires
        position + RING_SIZE <= VALUE_MAX,
    ensures
        plan.0 == visit_slot(cell@, position as nat).0,
        plan.1@ == visit_slot(cell@, position as nat).1,
{
    let (safe, index) = cell.safe_and_index();
    let value: u64 = cell.value();
    if index > position {
        (SlotVisit::Passed, *cell)
    } else if value != NODE_VALUE_EMPTY {
        if index == position {
            (
                SlotVisit::Taken(value),
                Node::new(position + RING_SIZE as u64, NODE_VALUE_EMPTY, safe),
            )
        } else {
            (SlotVisit::MarkedUnsafe, Node::new(index, value, false))
        }
    } else {
        (SlotVisit::Advanced, Node::new(position + RING_SIZE as u64, NODE_VALUE_EMPTY, safe))
    }
}

impl CrqState {
    /// The state of a new ring: open, empty and unlinked, with cell `i`
    /// safe, empty and naming position `i`.
    pub open spec fn fresh() -> CrqState {
        CrqState {
            head: 0,
            tail: 0,
            closed: false,
            next: None,
            ring: Seq::new(
                RING_SIZE as nat,
                |i: int| NodeView { index: i as nat, safe: true, value: NODE_VALUE_EMPTY },
            ),
            live: 0,
        }
    }

    /// The cell in which `position` lives.
    pub open spec fn cell_at(self, position: int) -> NodeView {
        ring_cell(self.ring, position)
    }

    /// Every cell's index names a position that lives in that cell.
    pub open spec fn ring_wf(self) -> bool {
        &&& self.ring.len() == RING_SIZE
        &&& forall|i: int|
            0 <= i < RING_SIZE ==> (#[trigger] self.ring[i]).index % (RING_SIZE as nat) == i
    }

    /// The state of a ring between whole operations of one owner: the
    /// `live` positions from `head` on hold their values, and the cells of
    /// the other positions of the window are empty and ready for them.
    pub open spec fn wf(self) -> bool {
        &&& self.ring_wf()
        &&& self.head <= self.tail <= COUNTER_LIMIT
        &&& self.live <= RING_SIZE
        &&& self.live <= self.tail - self.head
        &&& !self.closed ==> self.live == self.tail - self.head
        &&& forall|p: int|
            self.head <= p < self.head + RING_SIZE ==> {
                let cell = #[trigger] ring_cell(self.ring, p);
                if p < self.head + self.live {
                    cell.index == p && cell.value != NODE_VALUE_EMPTY
                } else {
                    cell.index <= p && cell.value == NODE_VALUE_EMPTY
                }
            }
    }

    /// The state after a producer's claim: `tail` has moved on by one.
    pub open spec fn after_claim_tail(self) -> CrqState {
        CrqState { tail: self.tail + 1, ..self }
    }

    /// The state after a producer that claimed `position` tried to store
    /// `value`: the cell of `position` holds it, safe and under that
    /// position's index, if `slot_accepts` allowed it.
    pub open spec fn after_store(self, position: nat, value: u64) -> CrqState {
        if slot_accepts(self.cell_at(position as int), position, self.head) {
            CrqState {
                ring: self.ring.update(
                    position as int % (RING_SIZE as int),
                    NodeView { index: position, safe: true, value: value },
                ),
                ..self
            }
        } else {
            self
        }
    }

    /// The state after closing: the counter is as it was.
    pub open spec fn after_close(self) -> CrqState {
        CrqState { closed: true, ..self }
    }

    /// The state after a consumer's claim: `head` has moved on by one.
    pub open spec fn after_claim_head(self) -> CrqState {
        CrqState { head: self.head + 1, ..self }
    }

    /// The state after a consumer that claimed `position` visited its cell.
    pub open spec fn after_visit(self, position: nat) -> CrqState {
        CrqState {
            ring: self.ring.update(
                position as int % (RING_SIZE as int),
                visit_slot(self.cell_at(position as int), position).1,
            ),
            ..self
        }
    }

    /// The state after `tail` was brought up to a `head` that had overtaken
    /// it. Whether the ring is closed does not change.
    pub open spec fn after_fix(self) -> CrqState {
        if self.head > self.tail {
            CrqState { tail: self.head, ..self }
        } else {
            self
        }
    }

    /// Whether the ring is full at `position`: `head` is a whole lap or
    /// more behind it.
    pub open spec fn full_at(self, position: int) -> bool {
        self.head < position && position - self.head >= RING_SIZE
    }

    /// Whether a producer that claimed `position` goes on to claim the
    /// next: the cell does not take its value, and the ring is not full
    /// there.
    pub open spec fn skips(self, position: int) -> bool {
        &&& !slot_accepts(self.cell_at(position), position as nat, self.head)
        &&& !self.full_at(position)
    }

    /// The state after a consumer claimed the next `count` positions one
    /// after the other and visited the cell of each.
    pub open spec fn after_visits(self, count: nat) -> CrqState
        decreases count,
    {
        if count == 0 {
            self
        } else {
            let earlier = self.after_visits((count - 1) as nat);
            earlier.after_claim_head().after_visit(earlier.head)
        }
    }

    /// Whether a consumer that has claimed and visited `count` positions
    /// goes on after the next: its cell hands out nothing, and `tail` lies
    /// more than one position further.
    pub open spec fn visit_goes_on(self, count: nat) -> bool {
        let reached = self.after_visits(count);
        &&& match visit_slot(reached.cell_at(reached.head as int), reached.head).0 {
            SlotVisit::Taken(_) => false,
            _ => true,
        }
        &&& reached.tail > reached.head + 1
    }

    /// The state after a consumer found nothing in a ring between whole
    /// operations: it claimed and visited every position up to `tail`, or
    /// one position where `head` had reached `tail`, and brought `tail` up
    /// to `head`. A ring whose `head` has reached `COUNTER_LIMIT` stays as
    /// it is.
    pub open spec fn after_empty_dequeue(self) -> CrqState {
        if self.head >= COUNTER_LIMIT {
            self
        } else {
            let count = if self.head < self.tail {
                (self.tail - self.head) as nat
            } else {
                1
            };
            self.after_visits(count).after_fix()
        }
    }

    /// On a ring between whole operations, what a consumer's claim and
    /// visit find: the oldest value if there is one, and an empty cell
    /// otherwise.
    pub proof fn lemma_visit_oldest(self)
        requires
            self.wf(),
            self.head < COUNTER_LIMIT,
        ensures
            ({
                let visited = self.after_claim_head().after_visit(self.head);
                let outcome = visit_slot(self.cell_at(self.head as int), self.head).0;
                if self.live > 0 {
                    let taken = CrqState { live: (self.live - 1) as nat, ..visited };
                    &&& outcome == SlotVisit::Taken(self.contents()[0])
                    &&& self.contents()[0] != NODE_VALUE_EMPTY
                    &&& taken.wf()
                    &&& taken.contents() == self.contents().drop_first()
                } else {
                    &&& outcome == SlotVisit::Advanced
                    &&& visited.contents() == self.contents()
                    &&& visited.after_fix().contents() == self.contents()
                    &&& visited.head <= visited.tail ==> visited.wf()
                    &&& visited.tail <= visited.head ==> visited.after_fix().wf()
                }
            }),
    {
        let visited = self.after_claim_head().after_visit(self.head);
        let first = self.cell_at(self.head as int);
        assert forall|p: int| self.head < p < self.head + RING_SIZE implies #[trigger] ring_cell(
            visited.ring,
            p,
        ) == ring_cell(self.ring, p) by {}
        assert(ring_cell(visited.ring, self.head + RING_SIZE) == visit_slot(first, self.head).1);
        if self.live > 0 {
            let taken = CrqState { live: (self.live - 1) as nat, ..visited };
            assert forall|p: int| taken.head <= p < taken.head + RING_SIZE implies {
                let cell = #[trigger] ring_cell(taken.ring, p);
                if p < taken.head + taken.live {
                    cell.index == p && cell.value != NODE_VALUE_EMPTY
                } else {
                    cell.index <= p && cell.value == NODE_VALUE_EMPTY
                }
            } by {
                let earlier = ring_cell(self.ring, p);
            }
            assert(taken.contents() =~= self.contents().drop_first());
        } else {
            let fixed = visited.after_fix();
            assert forall|p: int| visited.head <= p < visited.head + RING_SIZE implies {
                let cell = #[trigger] ring_cell(visited.ring, p);
                cell.index <= p && cell.value == NODE_VALUE_EMPTY
            } by {
                let earlier = ring_cell(self.ring, p);
            }
            assert(visited.contents() =~= self.contents());
            assert(fixed.contents() =~= self.contents());
        }
    }

    /// Whether one more value goes in: the ring is open, not full, and its
    /// position counter is not used up.
    pub open spec fn has_room(self) -> bool {
        &&& !self.closed
        &&& self.live < RING_SIZE
        &&& self.tail < COUNTER_LIMIT
    }

    /// The values in the ring, oldest first.
    pub open spec fn contents(self) -> Seq<u64> {
        Seq::new(self.live, |k: int| self.cell_at(self.head + k).value)
    }

    /// What holds of a ring's state and any earlier state of the same ring:
    /// the cells keep naming positions of their own, no cell's index,
    /// `head` or `tail` has gone back, and a closed ring has stayed closed.
    pub open spec fn follows(self, earlier: CrqState) -> bool {
        &&& self.ring_wf()
        &&& earlier.head <= self.head
        &&& earlier.tail <= self.tail
        &&& earlier.closed ==> self.closed
        &&& indices_follow(earlier.ring, self.ring)
    }

    /// Every state follows itself.
    pub proof fn lemma_follows_itself(self)
        requires
            self.ring_wf(),
        ensures
            self.follows(self),
    {
        lemma_indices_follow_same(self.ring);
    }

    /// What follows a state that follows another follows the other.
    pub proof fn lemma_follows_transitive(self, middle: CrqState, earlier: CrqState)
        requires
            middle.follows(earlier),
            self.follows(middle),
        ensures
            self.follows(earlier),
    {
        reveal(indices_follow);
        assert forall|i: int| 0 <= i < RING_SIZE implies earlier.ring[i].index
            <= self.ring[i].index by {
            assert(middle.ring[i].index <= self.ring[i].index);
        }
    }
}

/// A bounded ring queue of non-zero 64-bit values.
pub struct CRQ {
    head: u64,
    tail_and_closed: FlagAndU63,
    next: u64,
    ring: Vec<Node>,
    live: Ghost<nat>,
}

impl View for CRQ {
    type V = Seq<u64>;

    open spec fn view(&self) -> Seq<u64> {
        self.state().contents()
    }
}

impl CRQ {
    /// What the ring stands for.
    pub closed spec fn state(self) -> CrqState {
        CrqState {
            head: self.head as nat,
            tail: self.tail_and_closed@.value,
            closed: self.tail_and_closed@.flag,
            next: if self.next == NO_SUCCESSOR {
                None
            } else {
                Some(self.next)
            },
            ring: self.ring@.map_values(|cell: Node| cell@),
            live: self.live@,
        }
    }

    /// See `CrqState::wf`.
    pub open spec fn wf(self) -> bool {
        self.state().wf()
    }

    /// An open, empty ring: cell `i` is safe, empty and names position `i`.
    pub fn new() -> (crq: CRQ)
        ensures
            crq.wf(),
            crq@ == Seq::<u64>::empty(),
            crq.state() == CrqState::fresh(),
            crq.state().head == 0,
            crq.state().tail == 0,
            !crq.state().closed,
            crq.state().next.is_none(),
            forall|i: int|
                0 <= i < RING_SIZE ==> #[trigger] crq.state().ring[i] == (NodeView {
                    index: i as nat,
                    safe: true,
                    value: NODE_VALUE_EMPTY,
                }),
    {
        let mut ring: Vec<Node> = Vec::new();
        let mut i: usize = 0;
        while i < RING_SIZE
            invariant
                i <= RING_SIZE,
                ring@.len() == i,
                forall|j: int|
                    0 <= j < i ==> (#[trigger] ring@[j])@ == (NodeView {
                        index: j as nat,
                        safe: true,
                        value: NODE_VALUE_EMPTY,
                    }),
            decreases RING_SIZE - i,
        {
            let cell: Node = Node::new(i as u64, NODE_VALUE_EMPTY, true);
            ring.push(cell);
            i = i + 1;
        }
        let crq = CRQ {
            head: 0,
            tail_and_closed: FlagAndU63::new(false, 0),
            next: NO_SUCCESSOR,
            ring: ring,
            live: Ghost(0),
        };
        assert(crq.state().ring =~= CrqState::fresh().ring);
        crq
    }

    /// The next position a consumer claims.
    pub fn head(&self) -> (head: u64)
        ensures
            head == self.state().head,
    {
        self.head
    }

    /// The next position a producer claims.
    pub fn tail(&self) -> (tail: u64)
        ensures
            tail == self.state().tail,
    {
        self.tail_and_closed.value()
    }

    /// Whether the ring takes no more values.
    pub fn is_closed(&self) -> (closed: bool)
        ensures
            closed == self.state().closed,
    {
        self.tail_and_closed.is_flag_set()
    }

    /// The place of the ring that follows this one, `NO_SUCCESSOR` while
    /// there is none.
    pub fn next(&self) -> (next: u64)
        ensures
            next == NO_SUCCESSOR <==> self.state().next.is_none(),
            next != NO_SUCCESSOR ==> self.state().next == Some(next),
    {
        self.next
    }

    /// Links `successor` behind this ring unless a successor is linked
    /// already, and says whether it did.
    pub fn link_next(&mut self, successor: u64) -> (linked: bool)
        requires
            successor != NO_SUCCESSOR,
        ensures
            linked == old(self).state().next.is_none(),
            final(self).state() == if linked {
                CrqState { next: Some(successor), ..old(self).state() }
            } else {
                old(self).state()
            },
    {
        compare_and_swap(&mut self.next, NO_SUCCESSOR, successor)
    }

    /// The cell in which `position` lives, as it is now.
    pub fn slot(&self, position: u64) -> (cell: Node)
        requires
            self.state().ring.len() == RING_SIZE,
        ensures
            cell@ == self.state().cell_at(position as int),
    {
        self.ring[(position % (RING_SIZE as u64)) as usize]
    }

    /// Double-word compare-and-swap on the cell in which `position` lives.
    fn compare_and_swap_slot(&mut self, position: u64, expected: &Node, new_node: &Node) -> (swapped: bool)
        requires
            old(self).state().ring.len() == RING_SIZE,
        ensures
            swapped == (old(self).state().cell_at(position as int) == expected@),
            final(self).state() == if swapped {
                CrqState {
                    ring: old(self).state().ring.update(
                        position as int % (RING_SIZE as int),
                        new_node@,
                    ),
                    ..old(self).state()
                }
            } else {
                old(self).state()
            },
    {
        let i: usize = (position % (RING_SIZE as u64)) as usize;
        let mut cell: Node = self.ring[i];
        let swapped: bool = cell.compare_and_swap(expected, new_node);
        self.ring[i] = cell;
        proof {
            if swapped {
                assert(self.state().ring =~= old(self).state().ring.update(i as int, new_node@));
            } else {
                assert(self.state().ring =~= old(self).state().ring);
            }
        }
        swapped
    }

    /// A producer's first step: adds 1 to the tail word and returns the word
    /// as it was, which holds the claimed position and whether the ring was
    /// closed.
    pub fn fetch_and_add_tail(&mut self) -> (claimed: FlagAndU63)
        requires
            old(self).state().ring_wf(),
            old(self).state().tail < VALUE_MAX,
        ensures
            claimed@.flag == old(self).state().closed,
            claimed@.value == old(self).state().tail,
            final(self).state() == old(self).state().after_claim_tail(),
            final(self).state().follows(old(self).state()),
    {
        proof {
            lemma_indices_follow_same(self.state().ring);
        }
        let mut word: u64 = self.tail_and_closed.combined();
        let previous: u64 = fetch_and_add(&mut word, 1);
        self.tail_and_closed = FlagAndU63::from_repr(word);
        FlagAndU63::from_repr(previous)
    }

    /// A producer's second step: puts `value` into the cell of its claimed
    /// `position` if `slot_accepts` allows it, and says whether it did.
    pub fn try_enqueue_at(&mut self, position: u64, value: u64) -> (stored: bool)
        requires
            old(self).state().ring_wf(),
            position <= VALUE_MAX,
            value != NODE_VALUE_EMPTY,
        ensures
            stored == slot_accepts(
                old(self).state().cell_at(position as int),
                position as nat,
                old(self).state().head,
            ),
            stored ==> old(self).state().cell_at(position as int).safe || old(self).state().head
                <= position,
            final(self).state() == old(self).state().after_store(position as nat, value),
            final(self).state().follows(old(self).state()),
    {
        let cell: Node = self.slot(position);
        if accepts(&cell, position, self.head) {
            let filled: Node = Node::new(position, value, true);
            proof {
                lemma_indices_follow_update(
                    self.state().ring,
                    position as int % (RING_SIZE as int),
                    filled@,
                );
            }
            self.compare_and_swap_slot(position, &cell, &filled)
        } else {
            proof {
                lemma_indices_follow_same(self.state().ring);
            }
            false
        }
    }

    /// Closes the ring: sets the closed bit of the tail word and leaves the
    /// counter as it is.
    pub fn close(&mut self)
        requires
            old(self).state().ring_wf(),
        ensures
            final(self).state() == old(self).state().after_close(),
            final(self).state().follows(old(self).state()),
    {
        proof {
            lemma_indices_follow_same(self.state().ring);
        }
        let mut word: u64 = self.tail_and_closed.combined();
        test_and_set(&mut word);
        self.tail_and_closed = FlagAndU63::from_repr(word);
    }

    /// A consumer's first step: adds 1 to `head` and returns the position it
    /// claimed.
    pub fn fetch_and_add_head(&mut self) -> (claimed: u64)
        requires
            old(self).state().ring_wf(),
            old(self).state().head < u64::MAX,
        ensures
            claimed == old(self).state().head,
            final(self).state() == old(self).state().after_claim_head(),
            final(self).state().follows(old(self).state()),
    {
        proof {
            lemma_indices_follow_same(self.state().ring);
        }
        fetch_and_add(&mut self.head, 1)
    }

    /// A consumer's second step: does to the cell of its claimed `position`
    /// what `visit_slot` says, and reports it.
    pub fn dequeue_at(&mut self, position: u64) -> (visit: SlotVisit)
        requires
            old(self).state().ring_wf(),
            position + RING_SIZE <= VALUE_MAX,
        ensures
            visit == visit_slot(old(self).state().cell_at(position as int), position as nat).0,
            final(self).state() == old(self).state().after_visit(position as nat),
            final(self).state().follows(old(self).state()),
    {
        loop
            invariant
                self.state() == old(self).state(),
                self.state().ring_wf(),
                position + RING_SIZE <= VALUE_MAX,
            decreases 0int,
        {
            let cell: Node = self.slot(position);
            let (outcome, left_behind) = visit(&cell, position);
            proof {
                lemma_indices_follow_update(
                    self.state().ring,
                    position as int % (RING_SIZE as int),
                    left_behind@,
                );
            }
            match outcome {
                SlotVisit::Passed => {
                    assert(self.state().ring =~= self.state().after_visit(position as nat).ring);
                    return outcome;
                },
                SlotVisit::Taken(_) => {
                    if self.compare_and_swap_slot(position, &cell, &left_behind) {
                        return outcome;
                    }
                },
                _ => {
                    self.compare_and_swap_slot(position, &cell, &left_behind);
                    return outcome;
                },
            }
        }
    }

    /// Brings `tail` up to `head` where consumers have overtaken the
    /// producers. The closed bit stays as it is.
    pub fn fix_state(&mut self)
        requires
            old(self).state().ring_wf(),
            old(self).state().head <= VALUE_MAX,
        ensures
            final(self).state() == old(self).state().after_fix(),
            final(self).state().follows(old(self).state()),
    {
        loop
            invariant
                self.state() == old(self).state(),
                self.state().ring_wf(),
                self.state().head <= VALUE_MAX,
            decreases 0int,
        {
            proof {
                lemma_indices_follow_same(self.state().ring);
            }
            let seen: FlagAndU63 = self.tail_and_closed;
            let h: u64 = self.head;
            if self.tail_and_closed.combined() != seen.combined() {
                continue;
            }
            let (closed, t) = seen.flag_and_value();
            if h <= t {
                return;
            }
            let desired: FlagAndU63 = FlagAndU63::new(closed, h);
            let mut word: u64 = self.tail_and_closed.combined();
            let swapped: bool = compare_and_swap(&mut word, seen.combined(), desired.combined());
            self.tail_and_closed = FlagAndU63::from_repr(word);
            if swapped {
                return;
            }
        }
    }

    /// Puts `value` into the ring, or closes the ring.
    ///
    /// The producer claims positions from `tail` on until a cell takes the
    /// value, or the ring is found closed, or full at the claimed position,
    /// or its counter is used up. On a ring that only whole operations have
    /// touched the first claim decides: the value goes to the back of the
    /// contents unless the ring is closed, full or used up.
    pub fn enqueue(&mut self, value: u64) -> (result: Result<(), Closed>)
        requires
            old(self).state().ring_wf(),
            value != NODE_VALUE_EMPTY,
        ensures
            final(self).state().follows(old(self).state()),
            final(self).state().head == old(self).state().head,
            final(self).state().next == old(self).state().next,
            !old(self).state().closed ==> forall|p: int|
                old(self).state().tail <= p < final(self).state().tail - 1
                    ==> #[trigger] old(self).state().skips(p),
            result.is_ok() ==> {
                let t = (final(self).state().tail - 1) as nat;
                &&& !old(self).state().closed
                &&& old(self).state().tail <= t < COUNTER_LIMIT
                &&& slot_accepts(old(self).state().cell_at(t as int), t, old(self).state().head)
                &&& final(self).state() == (CrqState {
                    tail: t + 1,
                    live: old(self).state().live + 1,
                    ring: old(self).state().ring.update(
                        t as int % (RING_SIZE as int),
                        NodeView { index: t, safe: true, value: value },
                    ),
                    ..old(self).state()
                })
            },
            result.is_err() ==> {
                &&& old(self).state().tail <= final(self).state().tail
                &&& final(self).state() == (CrqState {
                    tail: final(self).state().tail,
                    closed: true,
                    ..old(self).state()
                })
                &&& old(self).state().closed ==> final(self).state().tail == if old(self).state().tail < COUNTER_LIMIT {
                    old(self).state().tail + 1
                } else {
                    old(self).state().tail
                }
                &&& !old(self).state().closed ==> {
                    let t = final(self).state().tail - 1;
                    ||| {
                        &&& final(self).state().tail >= COUNTER_LIMIT
                        &&& final(self).state().tail == old(self).state().tail
                            || old(self).state().skips(t)
                    }
                    ||| {
                        &&& final(self).state().tail > old(self).state().tail
                        &&& old(self).state().full_at(t)
                        &&& !slot_accepts(
                            old(self).state().cell_at(t),
                            t as nat,
                            old(self).state().head,
                        )
                    }
                }
            },
            old(self).wf() ==> {
                &&& final(self).wf()
                &&& (result.is_ok() <==> old(self).state().has_room())
                &&& result.is_ok() ==> {
                    &&& final(self)@ == old(self)@.push(value)
                    &&& final(self).state() == (CrqState {
                        live: old(self).state().live + 1,
                        ..old(self).state().after_claim_tail().after_store(
                            old(self).state().tail,
                            value,
                        )
                    })
                }
                &&& result.is_err() ==> {
                    &&& final(self)@ == old(self)@
                    &&& final(self).state() == if old(self).state().tail >= COUNTER_LIMIT {
                        old(self).state().after_close()
                    } else {
                        old(self).state().after_claim_tail().after_close()
                    }
                }
            },
    {
        let ghost start = self.state();
        proof {
            start.lemma_follows_itself();
        }
        loop
            invariant
                start == old(self).state(),
                start.ring_wf(),
                value != NODE_VALUE_EMPTY,
                self.state() == (CrqState { tail: self.state().tail, ..start }),
                start.tail <= self.state().tail,
                self.state().tail > start.tail ==> !start.closed && !start.wf(),
                forall|p: int| start.tail <= p < self.state().tail ==> #[trigger] start.skips(p),
                self.state().follows(start),
            decreases COUNTER_LIMIT - self.state().tail,
        {
            if self.tail_and_closed.value() >= COUNTER_LIMIT {
                let ghost reached = self.state();
                self.close();
                proof {
                    self.state().lemma_follows_transitive(reached, start);
                }
                return Err(Closed);
            }
            let ghost reached = self.state();
            let claimed: FlagAndU63 = self.fetch_and_add_tail();
            let (closed, t) = claimed.flag_and_value();
            let ghost before = self.state();
            proof {
                before.lemma_follows_transitive(reached, start);
            }
            if closed {
                return Err(Closed);
            }
            assert(start.wf() && start.live == RING_SIZE ==> start.cell_at(t as int)
                == start.cell_at(start.head as int));
            if self.try_enqueue_at(t, value) {
                self.live = Ghost(self.live@ + 1);
                proof {
                    let after = self.state();
                    after.lemma_follows_transitive(before, start);
                    if start.wf() {
                        assert forall|p: int| after.head <= p < after.head + RING_SIZE implies {
                            let cell = #[trigger] ring_cell(after.ring, p);
                            if p < after.head + after.live {
                                cell.index == p && cell.value != NODE_VALUE_EMPTY
                            } else {
                                cell.index <= p && cell.value == NODE_VALUE_EMPTY
                            }
                        } by {
                            let earlier = start.cell_at(p);
                        }
                    }
                }
                return Ok(());
            }
            let h: u64 = self.head;
            if (h < t && t - h >= RING_SIZE as u64) || self.is_starving() {
                self.close();
                proof {
                    self.state().lemma_follows_transitive(before, start);
                }
                return Err(Closed);
            }
            proof {
                // Between whole operations the first claim decides.
                if start.wf() {
                    let claimed_cell = start.cell_at(t as int);
                    assert(false);
                }
            }
        }
    }

    /// Takes a value out of the ring, or finds the ring empty.
    ///
    /// The consumer claims positions from `head` on and visits their cells
    /// until one hands out its value or `tail` is reached; then `tail` is
    /// brought up to `head`. A ring whose `head` has reached `COUNTER_LIMIT`
    /// is left as it is. On a ring that only whole operations have touched
    /// the value handed out is the oldest of the contents.
    pub fn dequeue(&mut self) -> (result: Option<u64>)
        requires
            old(self).state().ring_wf(),
        ensures
            final(self).state().follows(old(self).state()),
            final(self).state().closed == old(self).state().closed,
            final(self).state().next == old(self).state().next,
            forall|k: nat|
                k + 1 < final(self).state().head - old(self).state().head ==> #[trigger] old(self).state().visit_goes_on(k),
            match result {
                Some(value) => {
                    let n = (final(self).state().head - old(self).state().head) as nat;
                    let reached = old(self).state().after_visits((n - 1) as nat);
                    &&& n >= 1
                    &&& value != NODE_VALUE_EMPTY
                    &&& visit_slot(reached.cell_at(reached.head as int), reached.head).0
                        == SlotVisit::Taken(value)
                    &&& final(self).state() == (CrqState {
                        live: if old(self).state().live > 0 {
                            (old(self).state().live - 1) as nat
                        } else {
                            0
                        },
                        ..old(self).state().after_visits(n)
                    })
                },
                None => {
                    let n = (final(self).state().head - old(self).state().head) as nat;
                    &&& final(self).state() == if old(self).state().head >= COUNTER_LIMIT {
                        old(self).state()
                    } else {
                        old(self).state().after_visits(n).after_fix()
                    }
                    &&& old(self).state().head < COUNTER_LIMIT ==> {
                        &&& n >= 1
                        &&& final(self).state().head >= COUNTER_LIMIT || !old(self).state().visit_goes_on((n - 1) as nat)
                    }
                },
            },
            old(self).wf() ==> {
                &&& final(self).wf()
                &&& result == answer(old(self)@, QueueOp::Dequeue)
                &&& final(self)@ == apply(old(self)@, QueueOp::Dequeue)
                &&& match result {
                    Some(value) => {
                        &&& old(self)@.len() > 0
                        &&& value == old(self)@[0]
                        &&& final(self)@ == old(self)@.drop_first()
                        &&& final(self).state() == (CrqState {
                            live: (old(self).state().live - 1) as nat,
                            ..old(self).state().after_claim_head().after_visit(
                                old(self).state().head,
                            )
                        })
                    },
                    None => {
                        &&& old(self)@.len() == 0
                        &&& final(self)@ == old(self)@
                        &&& final(self).state() == old(self).state().after_empty_dequeue()
                        &&& if old(self).state().head >= COUNTER_LIMIT {
                            final(self).state() == old(self).state()
                        } else {
                            &&& final(self).state().head == if old(self).state().head < old(self).state().tail {
                                old(self).state().tail
                            } else {
                                old(self).state().head + 1
                            }
                            &&& final(self).state().tail == final(self).state().head
                        }
                    },
                }
            },
    {
        let ghost start = self.state();
        proof {
            start.lemma_follows_itself();
        }
        loop
            invariant
                start == old(self).state(),
                start.ring_wf(),
                start.head <= self.state().head,
                self.state() == start.after_visits((self.state().head - start.head) as nat),
                self.state().follows(start),
                self.state().closed == start.closed,
                self.state().next == start.next,
                self.state().tail == start.tail,
                self.state().live == start.live,
                self.state().head > start.head ==> start.head < COUNTER_LIMIT && self.state().head
                    < self.state().tail,
                forall|k: nat|
                    k < self.state().head - start.head ==> #[trigger] start.visit_goes_on(k),
                start.wf() ==> {
                    &&& self.wf()
                    &&& self@ == start.contents()
                    &&& self.state().head > start.head ==> start.live == 0
                },
            decreases COUNTER_LIMIT - self.state().head,
        {
            if self.head >= COUNTER_LIMIT {
                return None;
            }
            let ghost before = self.state();
            let ghost n = (before.head - start.head) as nat;
            let h: u64 = self.fetch_and_add_head();
            let ghost claimed = self.state();
            let visit: SlotVisit = self.dequeue_at(h);
            let ghost visited = self.state();
            proof {
                visited.lemma_follows_transitive(claimed, before);
                visited.lemma_follows_transitive(before, start);
                assert(visited == start.after_visits(n + 1));
                if start.wf() {
                    before.lemma_visit_oldest();
                }
            }
            match visit {
                SlotVisit::Taken(value) => {
                    self.live = Ghost(
                        if self.live@ > 0 {
                            (self.live@ - 1) as nat
                        } else {
                            0
                        },
                    );
                    proof {
                        let after = self.state();
                        assert(after.follows(visited)) by {
                            lemma_indices_follow_same(after.ring);
                        }
                        after.lemma_follows_transitive(visited, start);
                    }
                    return Some(value);
                },
                _ => {},
            }
            let t: u64 = self.tail();
            if t <= h + 1 {
                self.fix_state();
                proof {
                    self.state().lemma_follows_transitive(visited, start);
                }
                return None;
            }
        }
    }

    /// The policy by which a producer gives up on a contended ring and
    /// closes it. This ring never does.
    pub fn is_starving(&self) -> (starving: bool)
        ensures
            !starving,
    {
        false
    }
}

} // verus!
