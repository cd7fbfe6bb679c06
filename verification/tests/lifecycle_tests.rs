use network_initializer::channel::Party;
use network_initializer::lifecycle::{
    Action, Lifecycle, LifecycleError, Outcome, Unit, UnitState,
};

fn running(nodes: &[u8], monitor: bool) -> Lifecycle {
    let mut lifecycle = Lifecycle::start(&nodes.to_vec(), monitor);
    for unit in 0..lifecycle.len() {
        lifecycle.spawned(unit).unwrap();
    }
    lifecycle
}

fn states(lifecycle: &Lifecycle) -> Vec<UnitState> {
    (0..lifecycle.len()).map(|unit| lifecycle.unit(unit).unwrap().state).collect()
}

#[test]
fn start_plans_the_controller_and_one_unit_per_node() {
    let lifecycle = Lifecycle::start(&vec![4, 9], true);
    assert_eq!(lifecycle.len(), 3);
    assert_eq!(
        lifecycle.unit(0),
        Some(Unit { party: Party::Controller, state: UnitState::Planned })
    );
    assert_eq!(lifecycle.unit(1), Some(Unit { party: Party::Node(4), state: UnitState::Planned }));
    assert_eq!(lifecycle.unit(2), Some(Unit { party: Party::Node(9), state: UnitState::Planned }));
    assert_eq!(lifecycle.unit(3), None);
}

#[test]
fn script_without_monitor() {
    let mut lifecycle = Lifecycle::start(&vec![4, 9], false);
    assert_eq!(lifecycle.next(), Action::Spawn { unit: 0 });
    assert_eq!(lifecycle.next(), Action::Spawn { unit: 0 });
    lifecycle.spawned(0).unwrap();
    assert_eq!(lifecycle.next(), Action::Spawn { unit: 1 });
    lifecycle.spawned(1).unwrap();
    assert_eq!(lifecycle.next(), Action::Spawn { unit: 2 });
    lifecycle.spawned(2).unwrap();
    assert_eq!(lifecycle.next(), Action::Join { unit: 1 });
    lifecycle.joined(1, Outcome::Finished).unwrap();
    assert_eq!(lifecycle.next(), Action::Join { unit: 2 });
    lifecycle.joined(2, Outcome::Finished).unwrap();
    assert_eq!(lifecycle.next(), Action::Join { unit: 0 });
    lifecycle.joined(0, Outcome::Finished).unwrap();
    assert_eq!(lifecycle.next(), Action::Done);
    assert_eq!(states(&lifecycle), vec![UnitState::Finished; 3]);
    assert!(lifecycle.faults().is_empty());
}

#[test]
fn script_with_monitor() {
    let mut lifecycle = Lifecycle::start(&vec![4], true);
    lifecycle.spawned(0).unwrap();
    assert_eq!(lifecycle.announced(), Ok(()));
    assert_eq!(lifecycle.next(), Action::Spawn { unit: 1 });
    lifecycle.spawned(1).unwrap();
    assert_eq!(lifecycle.next(), Action::RunMonitor);
    assert_eq!(lifecycle.monitor_closed(), Ok(()));
    assert_eq!(lifecycle.next(), Action::Join { unit: 1 });

    let mut lifecycle = running(&[4], true);
    assert_eq!(lifecycle.next(), Action::Announce);
    assert_eq!(lifecycle.monitor_closed(), Err(LifecycleError::NoMonitorRunning));
    assert_eq!(lifecycle.next(), Action::Announce);
    assert_eq!(lifecycle.announced(), Ok(()));
    assert_eq!(lifecycle.announced(), Err(LifecycleError::NothingToAnnounce));
    assert_eq!(lifecycle.next(), Action::RunMonitor);
    assert_eq!(lifecycle.monitor_closed(), Ok(()));
    assert_eq!(lifecycle.monitor_closed(), Err(LifecycleError::NoMonitorRunning));
    assert_eq!(lifecycle.next(), Action::Join { unit: 1 });
    lifecycle.joined(1, Outcome::Finished).unwrap();
    lifecycle.joined(0, Outcome::Finished).unwrap();
    assert_eq!(lifecycle.next(), Action::Done);
}

#[test]
fn no_monitor_means_nothing_to_announce() {
    let mut lifecycle = running(&[1], false);
    assert_eq!(lifecycle.announced(), Err(LifecycleError::NothingToAnnounce));
    assert_eq!(lifecycle.monitor_closed(), Err(LifecycleError::NoMonitorRunning));
    assert_eq!(lifecycle.next(), Action::Join { unit: 1 });
}

#[test]
fn a_faulted_unit_does_not_stop_the_joining() {
    let mut lifecycle = running(&[4, 9, 12], false);
    assert_eq!(lifecycle.next(), Action::Join { unit: 1 });
    assert_eq!(lifecycle.joined(1, Outcome::Faulted), Ok(()));
    assert_eq!(lifecycle.next(), Action::Join { unit: 2 });
    assert_eq!(lifecycle.joined(2, Outcome::Finished), Ok(()));
    assert_eq!(lifecycle.next(), Action::Join { unit: 3 });
    assert_eq!(lifecycle.joined(3, Outcome::Faulted), Ok(()));
    assert_eq!(lifecycle.next(), Action::Join { unit: 0 });
    assert_eq!(lifecycle.joined(0, Outcome::Finished), Ok(()));
    assert_eq!(lifecycle.next(), Action::Done);
    assert_eq!(lifecycle.faults(), vec![Party::Node(4), Party::Node(12)]);
}

#[test]
fn a_faulted_controller_is_reported_first() {
    let mut lifecycle = running(&[4], false);
    lifecycle.joined(0, Outcome::Faulted).unwrap();
    lifecycle.joined(1, Outcome::Faulted).unwrap();
    assert_eq!(lifecycle.faults(), vec![Party::Controller, Party::Node(4)]);
}

#[test]
fn any_running_unit_can_be_joined_whatever_the_others_do() {
    let mut lifecycle = running(&[4, 9, 12], false);
    assert_eq!(lifecycle.joined(3, Outcome::Finished), Ok(()));
    assert_eq!(
        states(&lifecycle),
        vec![UnitState::Running, UnitState::Running, UnitState::Running, UnitState::Finished]
    );
    assert_eq!(lifecycle.next(), Action::Join { unit: 1 });
    assert_eq!(lifecycle.joined(0, Outcome::Finished), Ok(()));
    assert_eq!(lifecycle.next(), Action::Join { unit: 1 });
    assert_eq!(lifecycle.joined(2, Outcome::Faulted), Ok(()));
    assert_eq!(lifecycle.next(), Action::Join { unit: 1 });
    assert_eq!(lifecycle.joined(1, Outcome::Finished), Ok(()));
    assert_eq!(lifecycle.next(), Action::Done);
}

#[test]
fn a_unit_is_joined_once() {
    let mut lifecycle = running(&[4], false);
    assert_eq!(lifecycle.joined(1, Outcome::Finished), Ok(()));
    assert_eq!(
        lifecycle.joined(1, Outcome::Faulted),
        Err(LifecycleError::NotRunning { unit: 1 })
    );
    assert_eq!(lifecycle.unit(1).unwrap().state, UnitState::Finished);
}

#[test]
fn a_unit_is_spawned_once_and_joined_only_when_running() {
    let mut lifecycle = Lifecycle::start(&vec![4], false);
    assert_eq!(
        lifecycle.joined(1, Outcome::Finished),
        Err(LifecycleError::NotRunning { unit: 1 })
    );
    assert_eq!(lifecycle.spawned(1), Ok(()));
    assert_eq!(lifecycle.spawned(1), Err(LifecycleError::NotPlanned { unit: 1 }));
    assert_eq!(lifecycle.spawned(2), Err(LifecycleError::NoSuchUnit { unit: 2 }));
    assert_eq!(
        lifecycle.joined(2, Outcome::Finished),
        Err(LifecycleError::NoSuchUnit { unit: 2 })
    );
    assert_eq!(states(&lifecycle), vec![UnitState::Planned, UnitState::Running]);
    assert_eq!(lifecycle.next(), Action::Spawn { unit: 0 });
}

#[test]
fn a_network_without_nodes_still_runs_the_controller() {
    let mut lifecycle = Lifecycle::start(&Vec::new(), false);
    assert_eq!(lifecycle.len(), 1);
    assert_eq!(lifecycle.next(), Action::Spawn { unit: 0 });
    lifecycle.spawned(0).unwrap();
    assert_eq!(lifecycle.next(), Action::Join { unit: 0 });
    lifecycle.joined(0, Outcome::Finished).unwrap();
    assert_eq!(lifecycle.next(), Action::Done);
}

#[test]
fn a_run_takes_two_actions_per_unit_and_two_for_the_monitor() {
    for (count, monitor) in [(0u8, false), (0, true), (5, false), (5, true), (12, true)] {
        let nodes: Vec<u8> = (0..count).collect();
        let mut lifecycle = Lifecycle::start(&nodes, monitor);
        let mut actions = 0;
        loop {
            let reported = match lifecycle.next() {
                Action::Spawn { unit } => lifecycle.spawned(unit),
                Action::Announce => lifecycle.announced(),
                Action::RunMonitor => lifecycle.monitor_closed(),
                Action::Join { unit } => {
                    let outcome = if unit % 2 == 0 { Outcome::Finished } else { Outcome::Faulted };
                    lifecycle.joined(unit, outcome)
                }
                Action::Done => break,
            };
            assert_eq!(reported, Ok(()));
            actions += 1;
        }
        let expected = 2 * (usize::from(count) + 1) + if monitor { 2 } else { 0 };
        assert_eq!(actions, expected);
        assert_eq!(lifecycle.faults().len(), (usize::from(count) + 1) / 2);
    }
}
