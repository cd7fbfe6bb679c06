//! The script by which the actors are started and joined.
//!
//! The lifecycle decides; whoever runs it performs each action and reports
//! back. Unit 0 is the controller, the others are the nodes in the order they
//! were handed in. Units are spawned in that order. A monitor, when there is
//! one, is told the topology once everything runs and then occupies the
//! orchestrating thread until it closes. After that every unit is joined once,
//! the nodes first and the controller last; a unit that ended abnormally is
//! recorded and the joining goes on.

use crate::channel::Party;
use crate::topology::NodeId;
use vstd::prelude::*;

verus! {

/// Where an execution unit stands.
#[derive(Clone, Copy, Debug, PartialEq, Eq, Structural)]
pub enum UnitState {
    /// Not started yet.
    Planned,
    /// Started and not joined yet.
    Running,
    /// Joined; it had run to completion.
    Finished,
    /// Joined; it had ended abnormally.
    Faulted,
}

/// What joining a unit reported.
#[derive(Clone, Copy, Debug, PartialEq, Eq, Structural)]
pub enum Outcome {
    Finished,
    Faulted,
}

/// One execution unit: whose `run` it executes, and where it stands.
#[derive(Clone, Copy, Debug, PartialEq, Eq, Structural)]
pub struct Unit {
    pub party: Party,
    pub state: UnitState,
}

/// What the orchestrator is to do next.
#[derive(Clone, Copy, Debug, PartialEq, Eq, Structural)]
pub enum Action {
    /// Start the unit and report `spawned`.
    Spawn { unit: usize },
    /// Send the monitor the topology and report `announced`.
    Announce,
    /// Run the monitor on this thread until it closes, then report `monitor_closed`.
    RunMonitor,
    /// Wait for the unit to end and report `joined`.
    Join { unit: usize },
    /// Every unit has been joined.
    Done,
}

/// A report that does not fit the state of the lifecycle.
#[derive(Clone, Copy, Debug, PartialEq, Eq, Structural)]
pub enum LifecycleError {
    /// There is no unit with this number.
    NoSuchUnit { unit: usize },
    /// The unit was started before.
    NotPlanned { unit: usize },
    /// The unit is not running: it was never started, or it was joined before.
    NotRunning { unit: usize },
    /// There is no monitor to tell the topology, or it has been told.
    NothingToAnnounce,
    /// No monitor is running.
    NoMonitorRunning,
}

/// The state an outcome leaves a joined unit in.
pub open spec fn state_after(outcome: Outcome) -> UnitState {
    match outcome {
        Outcome::Finished => UnitState::Finished,
        Outcome::Faulted => UnitState::Faulted,
    }
}

/// The units once unit `unit` has been started.
pub open spec fn after_spawn(units: Seq<Unit>, unit: int) -> Seq<Unit> {
    units.update(unit, Unit { party: units[unit].party, state: UnitState::Running })
}

/// The units once unit `unit` has been joined with the given outcome.
pub open spec fn after_join(units: Seq<Unit>, unit: int, outcome: Outcome) -> Seq<Unit> {
    units.update(unit, Unit { party: units[unit].party, state: state_after(outcome) })
}

/// Unit `unit` exists and is in `state`.
pub open spec fn unit_in(units: Seq<Unit>, unit: int, state: UnitState) -> bool {
    0 <= unit < units.len() && units[unit].state == state
}

/// No unit from position `from` on is in `state`.
pub open spec fn none_in(units: Seq<Unit>, state: UnitState, from: int) -> bool {
    forall|k: int| from <= k < units.len() ==> (#[trigger] units[k]).state != state
}

/// Unit `unit` is the first from position `from` on that is in `state`.
pub open spec fn first_in(units: Seq<Unit>, state: UnitState, from: int, unit: int) -> bool {
    &&& from <= unit < units.len()
    &&& units[unit].state == state
    &&& forall|k: int| from <= k < unit ==> (#[trigger] units[k]).state != state
}

/// Unit `unit` is the one to join next: the first running node, or the
/// controller once no node is running.
pub open spec fn join_next(units: Seq<Unit>, unit: int) -> bool {
    ||| first_in(units, UnitState::Running, 1, unit)
    ||| (unit == 0 && first_in(units, UnitState::Running, 0, 0) && none_in(
        units,
        UnitState::Running,
        1,
    ))
}

/// Number of units in `state`.
pub open spec fn count_in(units: Seq<Unit>, state: UnitState) -> nat
    decreases units.len(),
{
    if units.len() == 0 {
        0
    } else {
        count_in(units.drop_last(), state) + if units.last().state == state {
            1nat
        } else {
            0nat
        }
    }
}

/// Number of actions still to perform: two for every planned unit, one for
/// every running unit, and what the monitor still takes.
pub open spec fn steps_left(
    units: Seq<Unit>,
    monitored: bool,
    announced: bool,
    closed: bool,
) -> nat {
    2 * count_in(units, UnitState::Planned) + count_in(units, UnitState::Running) + if monitored {
        (if announced {
            0nat
        } else {
            1nat
        }) + (if closed {
            0nat
        } else {
            1nat
        })
    } else {
        0nat
    }
}

/// The units that ended abnormally, in order.
pub open spec fn faulted_parties(units: Seq<Unit>) -> Seq<Party>
    decreases units.len(),
{
    if units.len() == 0 {
        Seq::empty()
    } else {
        let earlier = faulted_parties(units.drop_last());
        if units.last().state == UnitState::Faulted {
            earlier.push(units.last().party)
        } else {
            earlier
        }
    }
}

/// The execution units of a network and how far their lifecycle has come.
#[derive(Debug)]
pub struct Lifecycle {
    units: Vec<Unit>,
    monitor: bool,
    announced: bool,
    monitor_closed: bool,
}

impl Lifecycle {
    /// The units: the controller first, then the nodes.
    pub closed spec fn units(&self) -> Seq<Unit> {
        self.units@
    }

    /// Whether a monitor is attached.
    pub closed spec fn monitored(&self) -> bool {
        self.monitor
    }

    /// Whether the monitor has been told the topology.
    pub closed spec fn was_announced(&self) -> bool {
        self.announced
    }

    /// Whether the monitor has closed.
    pub closed spec fn monitor_was_closed(&self) -> bool {
        self.monitor_closed
    }

    /// The monitor, if there is one, has been told the topology and has closed.
    pub open spec fn monitor_settled(&self) -> bool {
        self.monitored() ==> self.was_announced() && self.monitor_was_closed()
    }

    /// Number of actions still to perform before the lifecycle is done.
    pub open spec fn steps_left(&self) -> nat {
        steps_left(
            self.units(),
            self.monitored(),
            self.was_announced(),
            self.monitor_was_closed(),
        )
    }

    /// What the orchestrator is to do next.
    pub open spec fn next_is(&self, action: Action) -> bool {
        let units = self.units();
        match action {
            Action::Spawn { unit } => first_in(units, UnitState::Planned, 0, unit as int),
            Action::Announce => {
                &&& none_in(units, UnitState::Planned, 0)
                &&& self.monitored()
                &&& !self.was_announced()
            },
            Action::RunMonitor => {
                &&& none_in(units, UnitState::Planned, 0)
                &&& self.monitored()
                &&& self.was_announced()
                &&& !self.monitor_was_closed()
            },
            Action::Join { unit } => {
                &&& none_in(units, UnitState::Planned, 0)
                &&& self.monitor_settled()
                &&& join_next(units, unit as int)
            },
            Action::Done => {
                &&& none_in(units, UnitState::Planned, 0)
                &&& self.monitor_settled()
                &&& none_in(units, UnitState::Running, 0)
            },
        }
    }

    /// A lifecycle with one planned unit for the controller and one for each
    /// node, and with a monitor that has been told nothing yet if `monitor`.
    pub fn start(nodes: &Vec<NodeId>, monitor: bool) -> (lifecycle: Lifecycle)
        ensures
            lifecycle.units().len() == nodes.len() + 1,
            lifecycle.units()[0] == (Unit { party: Party::Controller, state: UnitState::Planned }),
            forall|k: int|
                0 <= k < nodes.len() ==> #[trigger] lifecycle.units()[k + 1] == (Unit {
                    party: Party::Node(nodes[k]),
                    state: UnitState::Planned,
                }),
            lifecycle.monitored() == monitor,
            !lifecycle.was_announced(),
            !lifecycle.monitor_was_closed(),
            lifecycle.steps_left() == 2 * (nodes.len() + 1) + if monitor {
                2nat
            } else {
                0nat
            },
    {
        let mut units: Vec<Unit> = Vec::new();
        units.push(Unit { party: Party::Controller, state: UnitState::Planned });
        let mut k: usize = 0;
        while k < nodes.len()
            invariant
                k <= nodes.len(),
                units.len() == k + 1,
                units@[0] == (Unit { party: Party::Controller, state: UnitState::Planned }),
                forall|j: int|
                    0 <= j < k ==> #[trigger] units@[j + 1] == (Unit {
                        party: Party::Node(nodes[j]),
                        state: UnitState::Planned,
                    }),
            decreases nodes.len() - k,
        {
            units.push(Unit { party: Party::Node(nodes[k]), state: UnitState::Planned });
            k = k + 1;
        }
        proof {
            assert forall|j: int| 0 <= j < units@.len() implies (#[trigger] units@[j]).state
                == UnitState::Planned by {
                if j > 0 {
                    assert(units@[(j - 1) + 1].state == UnitState::Planned);
                }
            }
            lemma_count_all(units@, UnitState::Planned);
            lemma_count_zero(units@, UnitState::Running);
        }
        Lifecycle { units, monitor, announced: false, monitor_closed: false }
    }

    /// Number of units.
    pub fn len(&self) -> (len: usize)
        ensures
            len == self.units().len(),
    {
        self.units.len()
    }

    /// The unit with the given number; `None` when there is none.
    pub fn unit(&self, unit: usize) -> (found: Option<Unit>)
        ensures
            found == if unit < self.units().len() {
                Some(self.units()[unit as int])
            } else {
                None
            },
    {
        if unit < self.units.len() {
            Some(self.units[unit])
        } else {
            None
        }
    }

    /// Position of the first unit in `state` from `from` on, or the number of
    /// units when there is none.
    fn first(&self, state: UnitState, from: usize) -> (unit: usize)
        ensures
            unit < self.units().len() ==> first_in(self.units(), state, from as int, unit as int),
            unit >= self.units().len() ==> unit == self.units().len() && none_in(
                self.units(),
                state,
                from as int,
            ),
    {
        let mut k: usize = from;
        while k < self.units.len()
            invariant
                from <= k,
                forall|j: int|
                    from <= j < k && j < self.units@.len() ==> (#[trigger] self.units@[j]).state
                        != state,
            decreases self.units.len() - k,
        {
            if self.units[k].state == state {
                return k;
            }
            k = k + 1;
        }
        self.units.len()
    }

    /// What the orchestrator is to do next.
    pub fn next(&self) -> (action: Action)
        ensures
            self.next_is(action),
    {
        let planned = self.first(UnitState::Planned, 0);
        if planned < self.units.len() {
            return Action::Spawn { unit: planned };
        }
        if self.monitor && !self.announced {
            return Action::Announce;
        }
        if self.monitor && !self.monitor_closed {
            return Action::RunMonitor;
        }
        let node = self.first(UnitState::Running, 1);
        if node < self.units.len() {
            return Action::Join { unit: node };
        }
        if self.units.len() > 0 && self.units[0].state == UnitState::Running {
            return Action::Join { unit: 0 };
        }
        Action::Done
    }

    /// Reports that a unit was started.
    pub fn spawned(&mut self, unit: usize) -> (result: Result<(), LifecycleError>)
        ensures
            result is Ok <==> unit_in(old(self).units(), unit as int, UnitState::Planned),
            match result {
                Ok(()) => final(self).units() == after_spawn(old(self).units(), unit as int),
                Err(error) => {
                    &&& final(self).units() == old(self).units()
                    &&& error == if unit >= old(self).units().len() {
                        LifecycleError::NoSuchUnit { unit }
                    } else {
                        LifecycleError::NotPlanned { unit }
                    }
                },
            },
            final(self).monitored() == old(self).monitored(),
            final(self).was_announced() == old(self).was_announced(),
            final(self).monitor_was_closed() == old(self).monitor_was_closed(),
    {
        if unit >= self.units.len() {
            return Err(LifecycleError::NoSuchUnit { unit });
        }
        let current = self.units[unit];
        if current.state != UnitState::Planned {
            return Err(LifecycleError::NotPlanned { unit });
        }
        self.units.set(unit, Unit { party: current.party, state: UnitState::Running });
        Ok(())
    }

    /// Reports that a unit was joined, and how it had ended.
    ///
    /// Whether the report is accepted depends on that unit alone, and nothing
    /// else changes: no unit waits for another, and one that ended abnormally
    /// leaves the others to be joined.
    pub fn joined(&mut self, unit: usize, outcome: Outcome) -> (result: Result<
        (),
        LifecycleError,
    >)
        ensures
            result is Ok <==> unit_in(old(self).units(), unit as int, UnitState::Running),
            match result {
                Ok(()) => final(self).units() == after_join(
                    old(self).units(),
                    unit as int,
                    outcome,
                ),
                Err(error) => {
                    &&& final(self).units() == old(self).units()
                    &&& error == if unit >= old(self).units().len() {
                        LifecycleError::NoSuchUnit { unit }
                    } else {
                        LifecycleError::NotRunning { unit }
                    }
                },
            },
            final(self).monitored() == old(self).monitored(),
            final(self).was_announced() == old(self).was_announced(),
            final(self).monitor_was_closed() == old(self).monitor_was_closed(),
    {
        if unit >= self.units.len() {
            return Err(LifecycleError::NoSuchUnit { unit });
        }
        let current = self.units[unit];
        if current.state != UnitState::Running {
            return Err(LifecycleError::NotRunning { unit });
        }
        let state = match outcome {
            Outcome::Finished => UnitState::Finished,
            Outcome::Faulted => UnitState::Faulted,
        };
        self.units.set(unit, Unit { party: current.party, state });
        Ok(())
    }

    /// Reports that the monitor was told the topology.
    pub fn announced(&mut self) -> (result: Result<(), LifecycleError>)
        ensures
            result is Ok <==> old(self).monitored() && !old(self).was_announced(),
            result matches Err(error) ==> error == LifecycleError::NothingToAnnounce,
            final(self).was_announced() == (old(self).was_announced() || result is Ok),
            final(self).units() == old(self).units(),
            final(self).monitored() == old(self).monitored(),
            final(self).monitor_was_closed() == old(self).monitor_was_closed(),
    {
        if self.monitor && !self.announced {
            self.announced = true;
            Ok(())
        } else {
            Err(LifecycleError::NothingToAnnounce)
        }
    }

    /// Reports that the monitor closed.
    pub fn monitor_closed(&mut self) -> (result: Result<(), LifecycleError>)
        ensures
            result is Ok <==> old(self).monitored() && old(self).was_announced() && !old(
                self,
            ).monitor_was_closed(),
            result matches Err(error) ==> error == LifecycleError::NoMonitorRunning,
            final(self).monitor_was_closed() == (old(self).monitor_was_closed() || result is Ok),
            final(self).units() == old(self).units(),
            final(self).monitored() == old(self).monitored(),
            final(self).was_announced() == old(self).was_announced(),
    {
        if self.monitor && self.announced && !self.monitor_closed {
            self.monitor_closed = true;
            Ok(())
        } else {
            Err(LifecycleError::NoMonitorRunning)
        }
    }

    /// The parties whose units ended abnormally, in unit order.
    pub fn faults(&self) -> (parties: Vec<Party>)
        ensures
            parties@ == faulted_parties(self.units()),
    {
        let mut parties: Vec<Party> = Vec::new();
        let mut k: usize = 0;
        while k < self.units.len()
            invariant
                k <= self.units.len(),
                parties@ == faulted_parties(self.units@.take(k as int)),
            decreases self.units.len() - k,
        {
            proof {
                assert(self.units@.take(k + 1).drop_last() =~= self.units@.take(k as int));
            }
            if self.units[k].state == UnitState::Faulted {
                parties.push(self.units[k].party);
            }
            k = k + 1;
        }
        proof {
            assert(self.units@.take(self.units.len() as int) =~= self.units@);
        }
        parties
    }
}

/// Joins are independent of each other. Joining one running unit, whatever it
/// reports, leaves every other unit as it was, so that a second running unit
/// can be joined after it as well as before it, with the same result.
pub proof fn lemma_joins_are_independent(
    units: Seq<Unit>,
    first: int,
    first_outcome: Outcome,
    second: int,
    second_outcome: Outcome,
)
    requires
        unit_in(units, first, UnitState::Running),
        unit_in(units, second, UnitState::Running),
        first != second,
    ensures
        forall|other: int|
            0 <= other < units.len() && other != first ==> after_join(
                units,
                first,
                first_outcome,
            )[other] == units[other],
        unit_in(after_join(units, first, first_outcome), second, UnitState::Running),
        unit_in(after_join(units, second, second_outcome), first, UnitState::Running),
        after_join(after_join(units, first, first_outcome), second, second_outcome) == after_join(
            after_join(units, second, second_outcome),
            first,
            first_outcome,
        ),
{
    assert(after_join(after_join(units, first, first_outcome), second, second_outcome)
        =~= after_join(after_join(units, second, second_outcome), first, first_outcome));
}

/// A joined unit stays joined: no report is accepted for it again, and it is
/// never proposed for joining again.
pub proof fn lemma_joined_once(units: Seq<Unit>, unit: int, outcome: Outcome)
    requires
        unit_in(units, unit, UnitState::Running),
    ensures
        !unit_in(after_join(units, unit, outcome), unit, UnitState::Running),
        !unit_in(after_join(units, unit, outcome), unit, UnitState::Planned),
        !join_next(after_join(units, unit, outcome), unit),
{
}

/// Replacing one unit moves one count from its old state to its new one.
pub proof fn lemma_count_after_update(
    units: Seq<Unit>,
    unit: int,
    replaced: Unit,
    state: UnitState,
)
    requires
        0 <= unit < units.len(),
    ensures
        count_in(units.update(unit, replaced), state) + if units[unit].state == state {
            1nat
        } else {
            0nat
        } == count_in(units, state) + if replaced.state == state {
            1nat
        } else {
            0nat
        },
    decreases units.len(),
{
    let updated = units.update(unit, replaced);
    if unit == units.len() - 1 {
        assert(updated.drop_last() =~= units.drop_last());
    } else {
        assert(updated.drop_last() =~= units.drop_last().update(unit, replaced));
        lemma_count_after_update(units.drop_last(), unit, replaced, state);
    }
}

/// When every unit is in a state, the count of that state is the number of units.
pub proof fn lemma_count_all(units: Seq<Unit>, state: UnitState)
    requires
        forall|k: int| 0 <= k < units.len() ==> (#[trigger] units[k]).state == state,
    ensures
        count_in(units, state) == units.len(),
    decreases units.len(),
{
    if units.len() > 0 {
        let shorter = units.drop_last();
        assert forall|k: int| 0 <= k < shorter.len() implies (#[trigger] shorter[k]).state
            == state by {
            assert(units[k].state == state);
        }
        lemma_count_all(shorter, state);
        assert(units[units.len() - 1].state == state);
    }
}

/// No unit is in a state exactly when the count of that state is zero.
pub proof fn lemma_count_zero(units: Seq<Unit>, state: UnitState)
    ensures
        count_in(units, state) == 0 <==> none_in(units, state, 0),
    decreases units.len(),
{
    if units.len() > 0 {
        let shorter = units.drop_last();
        lemma_count_zero(shorter, state);
        if none_in(units, state, 0) {
            assert forall|k: int| 0 <= k < shorter.len() implies (#[trigger] shorter[k]).state
                != state by {
                assert(units[k].state != state);
            }
            assert(units[units.len() - 1].state != state);
        }
        if count_in(units, state) == 0 {
            assert forall|k: int| 0 <= k < units.len() implies (#[trigger] units[k]).state
                != state by {
                if k < shorter.len() {
                    assert(shorter[k].state != state);
                }
            }
        }
    }
}

/// The lifecycle always comes to its end: every action that `next` proposes,
/// once performed and reported, leaves one action less to perform, and `Done`
/// is proposed exactly when none is left.
pub proof fn lemma_every_step_is_progress(lifecycle: Lifecycle, action: Action, outcome: Outcome)
    requires
        lifecycle.next_is(action),
    ensures
        action == Action::Done <==> lifecycle.steps_left() == 0,
        match action {
            Action::Spawn { unit } => {
                &&& unit_in(lifecycle.units(), unit as int, UnitState::Planned)
                &&& steps_left(
                    after_spawn(lifecycle.units(), unit as int),
                    lifecycle.monitored(),
                    lifecycle.was_announced(),
                    lifecycle.monitor_was_closed(),
                ) == lifecycle.steps_left() - 1
            },
            Action::Announce => {
                &&& lifecycle.monitored() && !lifecycle.was_announced()
                &&& steps_left(
                    lifecycle.units(),
                    true,
                    true,
                    lifecycle.monitor_was_closed(),
                ) == lifecycle.steps_left() - 1
            },
            Action::RunMonitor => {
                &&& lifecycle.monitored() && lifecycle.was_announced()
                    && !lifecycle.monitor_was_closed()
                &&& steps_left(lifecycle.units(), true, true, true) == lifecycle.steps_left() - 1
            },
            Action::Join { unit } => {
                &&& unit_in(lifecycle.units(), unit as int, UnitState::Running)
                &&& steps_left(
                    after_join(lifecycle.units(), unit as int, outcome),
                    lifecycle.monitored(),
                    lifecycle.was_announced(),
                    lifecycle.monitor_was_closed(),
                ) == lifecycle.steps_left() - 1
            },
            Action::Done => true,
        },
{
    let units = lifecycle.units();
    lemma_count_zero(units, UnitState::Planned);
    lemma_count_zero(units, UnitState::Running);
    match action {
        Action::Spawn { unit } => {
            let started = Unit { party: units[unit as int].party, state: UnitState::Running };
            lemma_count_after_update(units, unit as int, started, UnitState::Planned);
            lemma_count_after_update(units, unit as int, started, UnitState::Running);
        },
        Action::Join { unit } => {
            let ended = Unit { party: units[unit as int].party, state: state_after(outcome) };
            lemma_count_after_update(units, unit as int, ended, UnitState::Planned);
            lemma_count_after_update(units, unit as int, ended, UnitState::Running);
        },
        _ => {},
    }
}

} // verus!
