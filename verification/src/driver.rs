//! The pressure driver as a state machine. The driver decides and
//! allocates; the caller does what only the host can do, writing the
//! priority score and sleeping, and reports each outcome as an event.

use vstd::prelude::*;
use crate::interval::Interval;
use crate::pool::{lemma_total_concat, total, MemoryPool};
use crate::priority::score_in_range;

verus! {

/// What a run is configured with.
#[derive(Clone, Copy, Debug, PartialEq, Eq, Structural)]
pub struct Plan {
    /// The priority score to set before anything is allocated.
    pub score: i32,
    /// The size of the first block.
    pub initial_bytes: usize,
    /// The size of each further block.
    pub increment_bytes: usize,
    /// The pause after each further block.
    pub interval: Interval,
}

/// Where a run stands.
#[derive(Clone, Copy, Debug, PartialEq, Eq, Structural)]
pub enum Phase {
    /// The priority score is not set yet; nothing is allocated.
    Unprioritized,
    /// The score is set and the pool grows at each step.
    Running,
    /// The run is over: the score could not be set, or an event came that
    /// the phase does not expect.
    Aborted,
}

/// What the caller reports.
#[derive(Clone, Copy, Debug, PartialEq, Eq, Structural)]
pub enum Event {
    /// The host took the priority score.
    PrioritySet,
    /// The host refused the priority score.
    PriorityRefused,
    /// The pause is over.
    Slept,
}

/// What the caller is to do next.
#[derive(Clone, Copy, Debug, PartialEq, Eq, Structural)]
pub enum Action {
    /// Write this score to the host, then report `PrioritySet` or
    /// `PriorityRefused`.
    SetPriority(i32),
    /// Pause for this long, then report `Slept`.
    Sleep(Interval),
    /// Stop: the run is over.
    Abort,
}

/// The driver as contracts see it.
pub struct DriverState {
    /// The configuration, fixed for the run.
    pub plan: Plan,
    /// Where the run stands.
    pub phase: Phase,
    /// The sizes of the blocks allocated so far, oldest first.
    pub blocks: Seq<nat>,
}

/// The phase that follows `phase` on `event`. The score is set once, from
/// `Unprioritized`; an event out of turn ends the run.
pub open spec fn next_phase(phase: Phase, event: Event) -> Phase {
    match (phase, event) {
        (Phase::Unprioritized, Event::PrioritySet) => Phase::Running,
        (Phase::Running, Event::Slept) => Phase::Running,
        _ => Phase::Aborted,
    }
}

/// The blocks allocated on `event`: the initial block and the first
/// increment once the score is set, one increment after each pause, and
/// nothing otherwise.
pub open spec fn allocated(plan: Plan, phase: Phase, event: Event) -> Seq<nat> {
    match (phase, event) {
        (Phase::Unprioritized, Event::PrioritySet) => seq![
            plan.initial_bytes as nat,
            plan.increment_bytes as nat,
        ],
        (Phase::Running, Event::Slept) => seq![plan.increment_bytes as nat],
        _ => Seq::empty(),
    }
}

/// The state that follows `state` on `event`.
pub open spec fn next_state(state: DriverState, event: Event) -> DriverState {
    DriverState {
        plan: state.plan,
        phase: next_phase(state.phase, event),
        blocks: state.blocks + allocated(state.plan, state.phase, event),
    }
}

/// What the caller is to do in `state`.
pub open spec fn pending(state: DriverState) -> Action {
    match state.phase {
        Phase::Unprioritized => Action::SetPriority(state.plan.score),
        Phase::Running => Action::Sleep(state.plan.interval),
        Phase::Aborted => Action::Abort,
    }
}

/// What holds of every state that a run goes through: the score is one the
/// host accepts, and nothing is allocated while the score is not set.
pub open spec fn well_formed(state: DriverState) -> bool {
    &&& score_in_range(state.plan.score as int)
    &&& state.phase == Phase::Unprioritized ==> state.blocks.len() == 0
}

/// The state that `state` is in after `events`, taken in order.
pub open spec fn after(state: DriverState, events: Seq<Event>) -> DriverState
    decreases events.len(),
{
    if events.len() == 0 {
        state
    } else {
        next_state(after(state, events.drop_last()), events.last())
    }
}

/// A step keeps a state well formed and never asks for the score again. It
/// keeps every block that was there, so the total of the pool never goes
/// down. A run that is over stays as it is.
pub proof fn lemma_step_keeps_order(state: DriverState, event: Event)
    requires
        well_formed(state),
    ensures
        well_formed(next_state(state, event)),
        next_state(state, event).phase != Phase::Unprioritized,
        !(pending(next_state(state, event)) is SetPriority),
        state.blocks.is_prefix_of(next_state(state, event).blocks),
        total(next_state(state, event).blocks) >= total(state.blocks),
        state.phase == Phase::Aborted ==> next_state(state, event) == state,
{
    lemma_total_concat(state.blocks, allocated(state.plan, state.phase, event));
    if state.phase == Phase::Aborted {
        assert(state.blocks + allocated(state.plan, state.phase, event) == state.blocks);
    }
}

/// What a step keeps, a whole run keeps: after any events the state is well
/// formed, every block that was there is still there, and the total of the
/// pool has not gone down. Once an event has come the score is not asked
/// for again.
pub proof fn lemma_run_keeps_order(state: DriverState, events: Seq<Event>)
    requires
        well_formed(state),
    ensures
        well_formed(after(state, events)),
        after(state, events).plan == state.plan,
        state.blocks.is_prefix_of(after(state, events).blocks),
        total(after(state, events).blocks) >= total(state.blocks),
        events.len() > 0 ==> !(pending(after(state, events)) is SetPriority),
    decreases events.len(),
{
    if events.len() > 0 {
        lemma_run_keeps_order(state, events.drop_last());
        lemma_step_keeps_order(after(state, events.drop_last()), events.last());
    }
}

/// The pressure driver: the plan, the phase and the pool it owns.
pub struct Driver {
    plan: Plan,
    phase: Phase,
    pool: MemoryPool,
}

impl View for Driver {
    type V = DriverState;

    closed spec fn view(&self) -> DriverState {
        DriverState { plan: self.plan, phase: self.phase, blocks: self.pool@ }
    }
}

impl Driver {
    #[verifier::type_invariant]
    spec fn inv(self) -> bool {
        well_formed(self@)
    }

    /// A driver that has done nothing yet. The score must be one that the
    /// host accepts: an out-of-range score is the caller's error and is not
    /// clamped.
    pub fn new(plan: Plan) -> (driver: Driver)
        requires
            score_in_range(plan.score as int),
        ensures
            driver@ == (DriverState { plan, phase: Phase::Unprioritized, blocks: Seq::empty() }),
            well_formed(driver@),
    {
        Driver { plan, phase: Phase::Unprioritized, pool: MemoryPool::new() }
    }

    /// What the caller is to do now.
    pub fn action(&self) -> (action: Action)
        ensures
            action == pending(self@),
            well_formed(self@),
    {
        proof {
            use_type_invariant(self);
        }
        match self.phase {
            Phase::Unprioritized => Action::SetPriority(self.plan.score),
            Phase::Running => Action::Sleep(self.plan.interval),
            Phase::Aborted => Action::Abort,
        }
    }

    /// Takes in `event`, allocates what is due and tells what to do next.
    pub fn step(&mut self, event: Event) -> (action: Action)
        ensures
            final(self)@ == next_state(old(self)@, event),
            action == pending(final(self)@),
            well_formed(final(self)@),
            total(final(self)@.blocks) >= total(old(self)@.blocks),
    {
        proof {
            use_type_invariant(&*self);
        }
        // The pool is taken out while it grows and put back afterwards, so
        // that the driver is well formed at every point in between.
        match (self.phase, event) {
            (Phase::Unprioritized, Event::PrioritySet) => {
                self.phase = Phase::Running;
                let mut pool = MemoryPool::new();
                core::mem::swap(&mut self.pool, &mut pool);
                pool.grow(self.plan.initial_bytes);
                pool.grow(self.plan.increment_bytes);
                core::mem::swap(&mut self.pool, &mut pool);
            },
            (Phase::Running, Event::Slept) => {
                let mut pool = MemoryPool::new();
                core::mem::swap(&mut self.pool, &mut pool);
                pool.grow(self.plan.increment_bytes);
                core::mem::swap(&mut self.pool, &mut pool);
            },
            _ => {
                self.phase = Phase::Aborted;
            },
        }
        proof {
            assert(self@.blocks == old(self)@.blocks + allocated(
                old(self)@.plan,
                old(self)@.phase,
                event,
            ));
            lemma_total_concat(
                old(self)@.blocks,
                allocated(old(self)@.plan, old(self)@.phase, event),
            );
        }
        self.action()
    }

    /// The phase the run is in.
    pub fn phase(&self) -> (phase: Phase)
        ensures
            phase == self@.phase,
    {
        self.phase
    }

    /// The bytes held in all blocks together.
    pub fn total_bytes(&self) -> (sum: u128)
        ensures
            sum == total(self@.blocks),
    {
        self.pool.total_bytes()
    }

    /// The number of blocks allocated so far.
    pub fn block_count(&self) -> (n: usize)
        ensures
            n == self@.blocks.len(),
    {
        self.pool.block_count()
    }
}

} // verus!
