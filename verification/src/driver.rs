//! The batch driver: the order of a run, as a state machine.
//!
//! A run discovers its units, asks the operator once, and then takes the
//! units one by one in the order of discovery. The machine holds no unit and
//! does no work: it is told what happened and answers what to do next.

use vstd::prelude::*;

verus! {

/// Where a run stands.
#[derive(Clone, Copy, Debug, PartialEq, Eq, Structural)]
pub enum Stage {
    /// The units are being enumerated.
    Discover,
    /// The operator is being asked.
    Confirm,
    /// The units are being processed.
    Iterate,
    /// The run is over.
    Complete,
}

/// What the failure of one unit means for the run.
#[derive(Clone, Copy, Debug, PartialEq, Eq, Structural)]
pub enum Policy {
    /// The failure is recorded and the run goes on with the next unit.
    Isolate,
    /// The run ends at once, as failed.
    Abort,
}

/// What the driver is told.
#[derive(Clone, Copy, Debug, PartialEq, Eq, Structural)]
pub enum Event {
    /// So many units were found.
    Discovered { units: usize },
    /// The units could not be enumerated.
    DiscoveryFailed,
    /// The operator answered.
    Answered { confirmed: bool },
    /// The unit in hand was processed.
    UnitSucceeded,
    /// The unit in hand failed.
    UnitFailed,
}

/// What the driver asks for.
#[derive(Clone, Copy, Debug, PartialEq, Eq, Structural)]
pub enum Command {
    /// Enumerate the units.
    Discover,
    /// Tell the operator how many units there are, and ask.
    Confirm { units: usize },
    /// Wait for `delay` milliseconds, then process the unit with this index.
    Process { unit: usize, delay: u64 },
    /// End the run: with success or not, after so many units were taken in
    /// hand, so many of which failed.
    Finish { succeeded: bool, processed: usize, failed: usize },
}

/// The state of a run.
#[derive(Clone, Copy, Debug, PartialEq, Eq, Structural)]
pub struct DriverState {
    pub stage: Stage,
    pub policy: Policy,
    /// Milliseconds to wait before each unit.
    pub delay: u64,
    /// The number of units discovered.
    pub total: usize,
    /// The number of units taken in hand and done with; the index of the
    /// unit in hand while iterating.
    pub next: usize,
    /// How many of them failed.
    pub failed: usize,
    /// Whether the run, once over, counts as a success.
    pub succeeded: bool,
}

/// The state at the start of a run.
pub open spec fn initial(policy: Policy, delay: u64) -> DriverState {
    DriverState {
        stage: Stage::Discover,
        policy,
        delay,
        total: 0,
        next: 0,
        failed: 0,
        succeeded: true,
    }
}

/// The states that a run can be in.
pub open spec fn valid(s: DriverState) -> bool {
    &&& s.failed <= s.next <= s.total
    &&& s.stage == Stage::Discover ==> s.total == 0
    &&& s.stage == Stage::Confirm ==> s.next == 0
    &&& s.stage == Stage::Iterate ==> s.next < s.total
}

/// What the driver asks for in a state.
pub open spec fn command(s: DriverState) -> Command {
    match s.stage {
        Stage::Discover => Command::Discover,
        Stage::Confirm => Command::Confirm { units: s.total },
        Stage::Iterate => Command::Process { unit: s.next, delay: s.delay },
        Stage::Complete => Command::Finish {
            succeeded: s.succeeded,
            processed: s.next,
            failed: s.failed,
        },
    }
}

/// The state with its stage set to the end of the run.
pub open spec fn ended(s: DriverState, succeeded: bool) -> DriverState {
    DriverState { stage: Stage::Complete, succeeded, ..s }
}

/// The state after the unit in hand is done with: the next unit is in hand,
/// or, after the last, the run is over and has succeeded.
pub open spec fn moved_on(s: DriverState, failed: bool) -> DriverState {
    let counted = DriverState {
        next: (s.next + 1) as usize,
        failed: if failed {
            (s.failed + 1) as usize
        } else {
            s.failed
        },
        ..s
    };
    if counted.next < counted.total {
        counted
    } else {
        ended(counted, true)
    }
}

/// The state after an event. An event that the stage does not wait for
/// changes nothing.
pub open spec fn after(s: DriverState, event: Event) -> DriverState {
    match (s.stage, event) {
        (Stage::Discover, Event::Discovered { units }) => DriverState {
            stage: Stage::Confirm,
            total: units,
            ..s
        },
        (Stage::Discover, Event::DiscoveryFailed) => ended(s, false),
        (Stage::Confirm, Event::Answered { confirmed }) => if confirmed && s.total > 0 {
            DriverState { stage: Stage::Iterate, ..s }
        } else {
            ended(s, true)
        },
        (Stage::Iterate, Event::UnitSucceeded) => moved_on(s, false),
        (Stage::Iterate, Event::UnitFailed) => match s.policy {
            Policy::Isolate => moved_on(s, true),
            Policy::Abort => ended(
                DriverState { next: (s.next + 1) as usize, failed: (s.failed + 1) as usize, ..s },
                false,
            ),
        },
        _ => s,
    }
}

/// The state after a series of events.
pub open spec fn after_all(s: DriverState, events: Seq<Event>) -> DriverState
    decreases events.len(),
{
    if events.len() == 0 {
        s
    } else {
        after(after_all(s, events.drop_last()), events.last())
    }
}

/// Every event is the end of a unit, well or not.
pub open spec fn unit_outcomes(events: Seq<Event>) -> bool {
    forall|i: int|
        0 <= i < events.len() ==> #[trigger] events[i] == Event::UnitSucceeded || events[i]
            == Event::UnitFailed
}

/// The driver of one run.
pub struct Driver {
    state: DriverState,
}

impl View for Driver {
    type V = DriverState;

    closed spec fn view(&self) -> DriverState {
        self.state
    }
}

impl Driver {
    #[verifier::type_invariant]
    spec fn wf(&self) -> bool {
        valid(self.state)
    }

    /// A driver at the start of a run.
    pub fn new(policy: Policy, delay: u64) -> (r: Self)
        ensures
            r@ == initial(policy, delay),
    {
        Driver {
            state: DriverState {
                stage: Stage::Discover,
                policy,
                delay,
                total: 0,
                next: 0,
                failed: 0,
                succeeded: true,
            },
        }
    }

    /// The state of the run.
    pub fn state(&self) -> (r: DriverState)
        ensures
            r == self@,
            valid(r),
    {
        proof {
            use_type_invariant(self);
        }
        self.state
    }

    /// What the driver asks for now.
    pub fn pending(&self) -> (r: Command)
        ensures
            r == command(self@),
    {
        let s = self.state;
        match s.stage {
            Stage::Discover => Command::Discover,
            Stage::Confirm => Command::Confirm { units: s.total },
            Stage::Iterate => Command::Process { unit: s.next, delay: s.delay },
            Stage::Complete => Command::Finish {
                succeeded: s.succeeded,
                processed: s.next,
                failed: s.failed,
            },
        }
    }

    /// Tells the driver what happened, and returns what it asks for next.
    pub fn advance(&mut self, event: Event) -> (r: Command)
        ensures
            final(self)@ == after(old(self)@, event),
            r == command(final(self)@),
    {
        proof {
            use_type_invariant(&*self);
        }
        let s = self.state;
        let next = match (s.stage, event) {
            (Stage::Discover, Event::Discovered { units }) => DriverState {
                stage: Stage::Confirm,
                total: units,
                ..s
            },
            (Stage::Discover, Event::DiscoveryFailed) => DriverState {
                stage: Stage::Complete,
                succeeded: false,
                ..s
            },
            (Stage::Confirm, Event::Answered { confirmed }) => {
                if confirmed && s.total > 0 {
                    DriverState { stage: Stage::Iterate, ..s }
                } else {
                    DriverState { stage: Stage::Complete, succeeded: true, ..s }
                }
            },
            (Stage::Iterate, Event::UnitSucceeded) => {
                if s.next + 1 < s.total {
                    DriverState { next: s.next + 1, ..s }
                } else {
                    DriverState {
                        stage: Stage::Complete,
                        succeeded: true,
                        next: s.next + 1,
                        ..s
                    }
                }
            },
            (Stage::Iterate, Event::UnitFailed) => match s.policy {
                Policy::Isolate => {
                    if s.next + 1 < s.total {
                        DriverState { next: s.next + 1, failed: s.failed + 1, ..s }
                    } else {
                        DriverState {
                            stage: Stage::Complete,
                            succeeded: true,
                            next: s.next + 1,
                            failed: s.failed + 1,
                            ..s
                        }
                    }
                },
                Policy::Abort => DriverState {
                    stage: Stage::Complete,
                    succeeded: false,
                    next: s.next + 1,
                    failed: s.failed + 1,
                    ..s
                },
            },
            _ => s,
        };
        self.state = next;
        self.pending()
    }
}

/// Every event leads from a state of a run to a state of a run.
pub proof fn lemma_after_valid(s: DriverState, event: Event)
    requires
        valid(s),
    ensures
        valid(after(s, event)),
{
}

/// A run that is over stays as it is, whatever it is told.
pub proof fn lemma_complete_is_final(s: DriverState, event: Event)
    requires
        s.stage == Stage::Complete,
    ensures
        after(s, event) == s,
{
}

/// If the units cannot be enumerated, the run ends as failed before any unit
/// is taken in hand.
pub proof fn lemma_discovery_failure_is_fatal(policy: Policy, delay: u64)
    ensures
        command(after(initial(policy, delay), Event::DiscoveryFailed)) == (Command::Finish {
            succeeded: false,
            processed: 0,
            failed: 0,
        }),
{
}

/// If the operator declines, the run ends as a success with no unit taken in
/// hand.
pub proof fn lemma_declined_is_noop(s: DriverState)
    requires
        valid(s),
        s.stage == Stage::Confirm,
    ensures
        command(after(s, Event::Answered { confirmed: false })) == (Command::Finish {
            succeeded: true,
            processed: 0,
            failed: 0,
        }),
{
}

/// Under the isolating policy a failing unit does not stop the run: the
/// driver goes on exactly as after a unit that succeeded, and counts one
/// failure more.
pub proof fn lemma_failure_is_isolated(s: DriverState)
    requires
        valid(s),
        s.stage == Stage::Iterate,
        s.policy == Policy::Isolate,
    ensures
        after(s, Event::UnitFailed) == (DriverState {
            failed: (s.failed + 1) as usize,
            ..after(s, Event::UnitSucceeded)
        }),
{
}

/// Under the isolating policy the units are taken in the order of discovery,
/// each once, whatever becomes of them: after `k` outcomes the unit with
/// index `k` is in hand, and after the last the run ends as a success with
/// all units processed.
pub proof fn lemma_units_in_order(s: DriverState, outcomes: Seq<Event>)
    requires
        valid(s),
        s.stage == Stage::Iterate,
        s.policy == Policy::Isolate,
        s.next == 0,
        unit_outcomes(outcomes),
        outcomes.len() <= s.total,
    ensures
        valid(after_all(s, outcomes)),
        after_all(s, outcomes).next == outcomes.len(),
        after_all(s, outcomes).total == s.total,
        after_all(s, outcomes).policy == s.policy,
        after_all(s, outcomes).delay == s.delay,
        outcomes.len() < s.total ==> after_all(s, outcomes).stage == Stage::Iterate,
        outcomes.len() < s.total ==> command(after_all(s, outcomes)) == (Command::Process {
            unit: outcomes.len() as usize,
            delay: s.delay,
        }),
        outcomes.len() == s.total ==> after_all(s, outcomes).stage == Stage::Complete && after_all(
            s,
            outcomes,
        ).succeeded,
    decreases outcomes.len(),
{
    if outcomes.len() > 0 {
        let front = outcomes.drop_last();
        assert forall|i: int| 0 <= i < front.len() implies #[trigger] front[i] == Event::UnitSucceeded
            || front[i] == Event::UnitFailed by {
            assert(front[i] == outcomes[i]);
        }
        lemma_units_in_order(s, front);
        assert(outcomes.last() == outcomes[outcomes.len() - 1]);
    }
}

} // verus!
