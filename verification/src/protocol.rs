//! The ring protocol as a transition system.
//!
//! Whatever the number of producers and consumers, a ring only ever changes
//! by one of the steps of `Step`, each applied to the ring as a whole. A run
//! is any sequence of such steps, with any claimed positions and values, so
//! what holds of every run holds of every interleaving of operations.
//!
//! A linked queue changes by a step on one of its rings, by a new ring
//! joining the chain, or by a ring getting its link (`ChainStep`). The
//! same is stated of every run of those.

use vstd::prelude::*;
use vstd::multiset::Multiset;
use crate::crq::lemma_indices_follow_same;
use crate::crq::lemma_indices_follow_update;
use crate::crq::slot_accepts;
use crate::crq::visit_slot;
use crate::crq::CrqState;
use crate::crq::SlotVisit;
use crate::crq::RING_SIZE;
use crate::flag_and_u63::VALUE_MAX;
use crate::node::NodeView;
use crate::node::NODE_VALUE_EMPTY;

verus! {

/// One indivisible change to a ring.
pub enum Step {
    /// `CRQ::fetch_and_add_tail`.
    ClaimTail,
    /// `CRQ::try_enqueue_at`.
    Store { position: u64, value: u64 },
    /// `CRQ::close`.
    Close,
    /// `CRQ::fetch_and_add_head`.
    ClaimHead,
    /// `CRQ::dequeue_at`.
    Visit { position: u64 },
    /// `CRQ::fix_state`.
    FixState,
}

/// Whether `step` may be taken in `state`: what the method of the step
/// requires beyond the ring's own validity.
pub open spec fn enabled(state: CrqState, step: Step) -> bool {
    match step {
        Step::ClaimTail => state.tail < VALUE_MAX,
        Step::Store { position, value } => position <= VALUE_MAX && value != NODE_VALUE_EMPTY,
        Step::Close => true,
        Step::ClaimHead => state.head < u64::MAX,
        Step::Visit { position } => position + RING_SIZE <= VALUE_MAX,
        Step::FixState => state.head <= VALUE_MAX,
    }
}

/// The state that `step` leaves.
pub open spec fn after(state: CrqState, step: Step) -> CrqState {
    match step {
        Step::ClaimTail => state.after_claim_tail(),
        Step::Store { position, value } => state.after_store(position as nat, value),
        Step::Close => state.after_close(),
        Step::ClaimHead => state.after_claim_head(),
        Step::Visit { position } => state.after_visit(position as nat),
        Step::FixState => state.after_fix(),
    }
}

/// The value that `step` puts into the ring, if it puts one in.
pub open spec fn put_in(state: CrqState, step: Step) -> Multiset<u64> {
    match step {
        Step::Store { position, value } => if slot_accepts(
            state.cell_at(position as int),
            position as nat,
            state.head,
        ) {
            Multiset::singleton(value)
        } else {
            Multiset::empty()
        },
        _ => Multiset::empty(),
    }
}

/// The value that `step` hands to a consumer, if it hands one out.
pub open spec fn taken_out(state: CrqState, step: Step) -> Multiset<u64> {
    match step {
        Step::Visit { position } => match visit_slot(
            state.cell_at(position as int),
            position as nat,
        ).0 {
            SlotVisit::Taken(value) => Multiset::singleton(value),
            _ => Multiset::empty(),
        },
        _ => Multiset::empty(),
    }
}

/// The value that a cell holds, if it holds one.
pub open spec fn cell_value(cell: NodeView) -> Multiset<u64> {
    if cell.value != NODE_VALUE_EMPTY {
        Multiset::singleton(cell.value)
    } else {
        Multiset::empty()
    }
}

/// The values that the cells of `ring` hold.
pub open spec fn stored(ring: Seq<NodeView>) -> Multiset<u64>
    decreases ring.len(),
{
    if ring.len() == 0 {
        Multiset::empty()
    } else {
        stored(ring.drop_last()).add(cell_value(ring.last()))
    }
}

/// Whether every step of `steps`, taken in turn from `state`, is enabled.
pub open spec fn runs(state: CrqState, steps: Seq<Step>) -> bool
    decreases steps.len(),
{
    steps.len() > 0 ==> {
        &&& runs(state, steps.drop_last())
        &&& enabled(run(state, steps.drop_last()), steps.last())
    }
}

/// The state after the steps of `steps`, taken in turn from `state`.
pub open spec fn run(state: CrqState, steps: Seq<Step>) -> CrqState
    decreases steps.len(),
{
    if steps.len() == 0 {
        state
    } else {
        after(run(state, steps.drop_last()), steps.last())
    }
}

/// The values that the steps of a run put into the ring.
pub open spec fn all_put_in(state: CrqState, steps: Seq<Step>) -> Multiset<u64>
    decreases steps.len(),
{
    if steps.len() == 0 {
        Multiset::empty()
    } else {
        all_put_in(state, steps.drop_last()).add(
            put_in(run(state, steps.drop_last()), steps.last()),
        )
    }
}

/// The values that the steps of a run hand to consumers.
pub open spec fn all_taken_out(state: CrqState, steps: Seq<Step>) -> Multiset<u64>
    decreases steps.len(),
{
    if steps.len() == 0 {
        Multiset::empty()
    } else {
        all_taken_out(state, steps.drop_last()).add(
            taken_out(run(state, steps.drop_last()), steps.last()),
        )
    }
}

/// A ring of empty cells, such as a new ring, stores nothing.
pub proof fn lemma_empty_ring(ring: Seq<NodeView>)
    requires
        forall|i: int| 0 <= i < ring.len() ==> (#[trigger] ring[i]).value == NODE_VALUE_EMPTY,
    ensures
        stored(ring) == Multiset::<u64>::empty(),
    decreases ring.len(),
{
    if ring.len() > 0 {
        lemma_empty_ring(ring.drop_last());
        assert(cell_value(ring.last()) == Multiset::<u64>::empty());
        assert(stored(ring) =~= Multiset::<u64>::empty());
    }
}

/// Replacing one cell changes the stored values by that cell's value alone.
pub proof fn lemma_stored_update(ring: Seq<NodeView>, i: int, cell: NodeView)
    requires
        0 <= i < ring.len(),
    ensures
        stored(ring.update(i, cell)).add(cell_value(ring[i])) == stored(ring).add(
            cell_value(cell),
        ),
    decreases ring.len(),
{
    let changed = ring.update(i, cell);
    let front = ring.drop_last();
    if i == ring.len() - 1 {
        assert(changed.drop_last() =~= front);
    } else {
        lemma_stored_update(front, i, cell);
        assert(changed.drop_last() =~= front.update(i, cell));
    }
    assert forall|v: u64|
        stored(changed).add(cell_value(ring[i])).count(v) == stored(ring).add(
            cell_value(cell),
        ).count(v) by {
        if i < ring.len() - 1 {
            assert(stored(front.update(i, cell)).add(cell_value(ring[i])).count(v) == stored(
                front,
            ).add(cell_value(cell)).count(v));
        }
    }
}

/// Every step keeps each cell's index in its own cell, moves neither
/// `head` nor `tail` back, leaves a closed ring closed, and neither makes
/// up nor loses a value: what is stored and what the step handed out is
/// what was stored and what the step put in.
pub proof fn lemma_step(state: CrqState, step: Step)
    requires
        state.ring_wf(),
        enabled(state, step),
    ensures
        after(state, step).follows(state),
        stored(after(state, step).ring).add(taken_out(state, step)) == stored(state.ring).add(
            put_in(state, step),
        ),
{
    let next = after(state, step);
    let left = stored(next.ring).add(taken_out(state, step));
    let right = stored(state.ring).add(put_in(state, step));
    match step {
        Step::Store { position, value } => {
            let i = position as int % (RING_SIZE as int);
            let filled = NodeView { index: position as nat, safe: true, value: value };
            if slot_accepts(state.cell_at(position as int), position as nat, state.head) {
                lemma_stored_update(state.ring, i, filled);
                lemma_indices_follow_update(state.ring, i, filled);
            } else {
                lemma_indices_follow_same(state.ring);
            }
        },
        Step::Visit { position } => {
            let i = position as int % (RING_SIZE as int);
            let left_behind = visit_slot(state.cell_at(position as int), position as nat).1;
            lemma_stored_update(state.ring, i, left_behind);
            lemma_indices_follow_update(state.ring, i, left_behind);
            assert forall|v: u64| left.count(v) == right.count(v) by {
                assert(stored(next.ring).add(cell_value(state.ring[i])).count(v) == stored(
                    state.ring,
                ).add(cell_value(left_behind)).count(v));
            }
        },
        _ => {
            lemma_indices_follow_same(state.ring);
        },
    }
}

/// A producer's store changes the ring only where `slot_accepts` allows it:
/// the cell was empty and belonged to no later position, and if it was
/// marked unsafe, `head` had not passed the producer's position.
pub proof fn lemma_store_guard(state: CrqState, position: u64, value: u64)
    requires
        state.ring_wf(),
        value != NODE_VALUE_EMPTY,
        state.after_store(position as nat, value) != state,
    ensures
        state.cell_at(position as int).value == NODE_VALUE_EMPTY,
        state.cell_at(position as int).index <= position,
        !state.cell_at(position as int).safe ==> state.head <= position,
        state.after_store(position as nat, value).cell_at(position as int) == (NodeView {
            index: position as nat,
            safe: true,
            value: value,
        }),
{
}

/// What `lemma_step` says of one step holds of every run: in every
/// interleaving of operations on a ring, each cell's index stays in its
/// cell, `head` and `tail` never go back, a closed ring never opens, and
/// the values handed out together with those still stored are exactly those
/// put in together with those stored at the start.
pub proof fn lemma_run(state: CrqState, steps: Seq<Step>)
    requires
        state.ring_wf(),
        runs(state, steps),
    ensures
        run(state, steps).follows(state),
        stored(run(state, steps).ring).add(all_taken_out(state, steps)) == stored(
            state.ring,
        ).add(all_put_in(state, steps)),
    decreases steps.len(),
{
    let left = stored(run(state, steps).ring).add(all_taken_out(state, steps));
    let right = stored(state.ring).add(all_put_in(state, steps));
    if steps.len() > 0 {
        let front = steps.drop_last();
        let before = run(state, front);
        lemma_run(state, front);
        lemma_step(before, steps.last());
        run(state, steps).lemma_follows_transitive(before, state);
        assert forall|v: u64| left.count(v) == right.count(v) by {
            assert(stored(before.ring).add(all_taken_out(state, front)).count(v) == stored(
                state.ring,
            ).add(all_put_in(state, front)).count(v));
            assert(stored(run(state, steps).ring).add(taken_out(before, steps.last())).count(v)
                == stored(before.ring).add(put_in(before, steps.last())).count(v));
        }
    } else {
        state.lemma_follows_itself();
    }
}

/// From a ring that stores nothing, no run hands out a value more often
/// than it was put in.
pub proof fn lemma_taken_out_were_put_in(state: CrqState, steps: Seq<Step>)
    requires
        state.ring_wf(),
        stored(state.ring) == Multiset::<u64>::empty(),
        runs(state, steps),
    ensures
        all_taken_out(state, steps).subset_of(all_put_in(state, steps)),
{
    lemma_run(state, steps);
    let left = stored(run(state, steps).ring).add(all_taken_out(state, steps));
    let right = stored(state.ring).add(all_put_in(state, steps));
    assert forall|v: u64| all_taken_out(state, steps).count(v) <= all_put_in(state, steps).count(
        v,
    ) by {
        assert(left.count(v) == right.count(v));
    }
}

/// One indivisible change to a chain of rings. The words that say which
/// ring is `head` and which is `tail` hold no value and are left out.
pub enum ChainStep {
    /// A step on the ring at `place`.
    OnRing { place: nat, step: Step },
    /// A new ring joins the chain.
    Append,
    /// The ring at `place` gets `successor` as its link.
    Link { place: nat, successor: u64 },
}

/// Whether every ring of `chain` keeps each cell's index in its own cell.
pub open spec fn chain_wf(chain: Seq<CrqState>) -> bool {
    forall|i: int| 0 <= i < chain.len() ==> (#[trigger] chain[i]).ring_wf()
}

/// Whether `step` may be taken on `chain`.
pub open spec fn chain_enabled(chain: Seq<CrqState>, step: ChainStep) -> bool {
    match step {
        ChainStep::OnRing { place, step } => place < chain.len() && enabled(
            chain[place as int],
            step,
        ),
        ChainStep::Append => true,
        ChainStep::Link { place, successor } => place < chain.len(),
    }
}

/// The chain that `step` leaves.
pub open spec fn chain_after(chain: Seq<CrqState>, step: ChainStep) -> Seq<CrqState> {
    match step {
        ChainStep::OnRing { place, step } => chain.update(
            place as int,
            after(chain[place as int], step),
        ),
        ChainStep::Append => chain.push(CrqState::fresh()),
        ChainStep::Link { place, successor } => chain.update(
            place as int,
            CrqState { next: Some(successor), ..chain[place as int] },
        ),
    }
}

/// The value that `step` puts into a ring of the chain, if it puts one in.
pub open spec fn chain_put_in(chain: Seq<CrqState>, step: ChainStep) -> Multiset<u64> {
    match step {
        ChainStep::OnRing { place, step } => put_in(chain[place as int], step),
        _ => Multiset::empty(),
    }
}

/// The value that `step` hands to a consumer, if it hands one out.
pub open spec fn chain_taken_out(chain: Seq<CrqState>, step: ChainStep) -> Multiset<u64> {
    match step {
        ChainStep::OnRing { place, step } => taken_out(chain[place as int], step),
        _ => Multiset::empty(),
    }
}

/// The values that the rings of `chain` hold.
pub open spec fn chain_stored(chain: Seq<CrqState>) -> Multiset<u64>
    decreases chain.len(),
{
    if chain.len() == 0 {
        Multiset::empty()
    } else {
        chain_stored(chain.drop_last()).add(stored(chain.last().ring))
    }
}

/// Whether every step of `steps`, taken in turn from `chain`, is enabled.
pub open spec fn chain_runs(chain: Seq<CrqState>, steps: Seq<ChainStep>) -> bool
    decreases steps.len(),
{
    steps.len() > 0 ==> {
        &&& chain_runs(chain, steps.drop_last())
        &&& chain_enabled(chain_run(chain, steps.drop_last()), steps.last())
    }
}

/// The chain after the steps of `steps`, taken in turn from `chain`.
pub open spec fn chain_run(chain: Seq<CrqState>, steps: Seq<ChainStep>) -> Seq<CrqState>
    decreases steps.len(),
{
    if steps.len() == 0 {
        chain
    } else {
        chain_after(chain_run(chain, steps.drop_last()), steps.last())
    }
}

/// The values that the steps of a run put into the rings.
pub open spec fn chain_all_put_in(chain: Seq<CrqState>, steps: Seq<ChainStep>) -> Multiset<u64>
    decreases steps.len(),
{
    if steps.len() == 0 {
        Multiset::empty()
    } else {
        chain_all_put_in(chain, steps.drop_last()).add(
            chain_put_in(chain_run(chain, steps.drop_last()), steps.last()),
        )
    }
}

/// The values that the steps of a run hand to consumers.
pub open spec fn chain_all_taken_out(chain: Seq<CrqState>, steps: Seq<ChainStep>) -> Multiset<u64>
    decreases steps.len(),
{
    if steps.len() == 0 {
        Multiset::empty()
    } else {
        chain_all_taken_out(chain, steps.drop_last()).add(
            chain_taken_out(chain_run(chain, steps.drop_last()), steps.last()),
        )
    }
}

/// What a later chain is to an earlier one: it has every ring of the
/// earlier one, in place, and each of them follows what it was.
pub open spec fn chain_follows(later: Seq<CrqState>, earlier: Seq<CrqState>) -> bool {
    &&& earlier.len() <= later.len()
    &&& chain_wf(later)
    &&& forall|i: int| 0 <= i < earlier.len() ==> (#[trigger] later[i]).follows(earlier[i])
}

/// Replacing one ring changes the stored values by that ring's values
/// alone.
pub proof fn lemma_chain_stored_update(chain: Seq<CrqState>, i: int, ring: CrqState)
    requires
        0 <= i < chain.len(),
    ensures
        chain_stored(chain.update(i, ring)).add(stored(chain[i].ring)) == chain_stored(chain).add(
            stored(ring.ring),
        ),
    decreases chain.len(),
{
    let changed = chain.update(i, ring);
    let front = chain.drop_last();
    if i == chain.len() - 1 {
        assert(changed.drop_last() =~= front);
    } else {
        lemma_chain_stored_update(front, i, ring);
        assert(changed.drop_last() =~= front.update(i, ring));
    }
    assert forall|v: u64|
        chain_stored(changed).add(stored(chain[i].ring)).count(v) == chain_stored(chain).add(
            stored(ring.ring),
        ).count(v) by {
        if i < chain.len() - 1 {
            assert(chain_stored(front.update(i, ring)).add(stored(chain[i].ring)).count(v)
                == chain_stored(front).add(stored(ring.ring)).count(v));
        }
    }
}

/// Every step on a chain keeps what `lemma_step` says of each ring, and
/// neither makes up nor loses a value anywhere in the chain.
pub proof fn lemma_chain_step(chain: Seq<CrqState>, step: ChainStep)
    requires
        chain_wf(chain),
        chain_enabled(chain, step),
    ensures
        chain_follows(chain_after(chain, step), chain),
        chain_stored(chain_after(chain, step)).add(chain_taken_out(chain, step)) == chain_stored(
            chain,
        ).add(chain_put_in(chain, step)),
{
    let next = chain_after(chain, step);
    let left = chain_stored(next).add(chain_taken_out(chain, step));
    let right = chain_stored(chain).add(chain_put_in(chain, step));
    assert forall|i: int| 0 <= i < chain.len() implies chain[i].follows(chain[i]) by {
        chain[i].lemma_follows_itself();
    }
    match step {
        ChainStep::OnRing { place, step } => {
            let ring = chain[place as int];
            lemma_step(ring, step);
            lemma_chain_stored_update(chain, place as int, after(ring, step));
            assert forall|v: u64| left.count(v) == right.count(v) by {
                assert(chain_stored(next).add(stored(ring.ring)).count(v) == chain_stored(
                    chain,
                ).add(stored(after(ring, step).ring)).count(v));
                assert(stored(after(ring, step).ring).add(taken_out(ring, step)).count(v)
                    == stored(ring.ring).add(put_in(ring, step)).count(v));
            }
        },
        ChainStep::Append => {
            lemma_empty_ring(CrqState::fresh().ring);
            assert(next.drop_last() =~= chain);
        },
        ChainStep::Link { place, successor } => {
            let ring = chain[place as int];
            let linked = CrqState { next: Some(successor), ..ring };
            lemma_chain_stored_update(chain, place as int, linked);
            assert forall|v: u64| left.count(v) == right.count(v) by {
                assert(chain_stored(next).add(stored(ring.ring)).count(v) == chain_stored(
                    chain,
                ).add(stored(linked.ring)).count(v));
            }
        },
    }
    assert(left =~= right);
}

/// What `lemma_chain_step` says of one step holds of every run: in every
/// interleaving of operations on a linked queue, every ring keeps its
/// place, in no ring does a cell's index, `head` or `tail` go back or a
/// closed ring open, and the values handed out together with those still
/// stored are exactly those put in together with those stored at the
/// start.
pub proof fn lemma_chain_run(chain: Seq<CrqState>, steps: Seq<ChainStep>)
    requires
        chain_wf(chain),
        chain_runs(chain, steps),
    ensures
        chain_follows(chain_run(chain, steps), chain),
        chain_stored(chain_run(chain, steps)).add(chain_all_taken_out(chain, steps))
            == chain_stored(chain).add(chain_all_put_in(chain, steps)),
    decreases steps.len(),
{
    let left = chain_stored(chain_run(chain, steps)).add(chain_all_taken_out(chain, steps));
    let right = chain_stored(chain).add(chain_all_put_in(chain, steps));
    if steps.len() > 0 {
        let front = steps.drop_last();
        let before = chain_run(chain, front);
        let now = chain_run(chain, steps);
        lemma_chain_run(chain, front);
        lemma_chain_step(before, steps.last());
        assert forall|i: int| 0 <= i < chain.len() implies (#[trigger] now[i]).follows(
            chain[i],
        ) by {
            assert(before[i].follows(chain[i]));
            now[i].lemma_follows_transitive(before[i], chain[i]);
        }
        assert forall|v: u64| left.count(v) == right.count(v) by {
            assert(chain_stored(before).add(chain_all_taken_out(chain, front)).count(v)
                == chain_stored(chain).add(chain_all_put_in(chain, front)).count(v));
            assert(chain_stored(now).add(chain_taken_out(before, steps.last())).count(v)
                == chain_stored(before).add(chain_put_in(before, steps.last())).count(v));
        }
    } else {
        assert forall|i: int| 0 <= i < chain.len() implies (#[trigger] chain[i]).follows(
            chain[i],
        ) by {
            chain[i].lemma_follows_itself();
        }
    }
    assert(left =~= right);
}

/// From a new queue, whose one ring stores nothing, no run hands out a
/// value more often than it was put in.
pub proof fn lemma_chain_taken_out_were_put_in(steps: Seq<ChainStep>)
    requires
        chain_runs(seq![CrqState::fresh()], steps),
    ensures
        chain_all_taken_out(seq![CrqState::fresh()], steps).subset_of(
            chain_all_put_in(seq![CrqState::fresh()], steps),
        ),
{
    let chain = seq![CrqState::fresh()];
    lemma_empty_ring(CrqState::fresh().ring);
    assert(chain.drop_last() =~= Seq::<CrqState>::empty());
    assert(chain_stored(Seq::<CrqState>::empty()) =~= Multiset::<u64>::empty());
    assert(chain.last() == CrqState::fresh());
    assert(chain_stored(chain) =~= Multiset::<u64>::empty());
    lemma_chain_run(chain, steps);
    let left = chain_stored(chain_run(chain, steps)).add(chain_all_taken_out(chain, steps));
    let right = chain_stored(chain).add(chain_all_put_in(chain, steps));
    assert forall|v: u64|
        chain_all_taken_out(chain, steps).count(v) <= chain_all_put_in(chain, steps).count(
            v,
        ) by {
        assert(left.count(v) == right.count(v));
    }
}

} // verus!
