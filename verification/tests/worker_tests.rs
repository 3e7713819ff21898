use mlock_monitor::database::Database;
use mlock_monitor::worker::{discovery_step, measurement_step, transition, WorkerState};

#[test]
fn worker_waits_until_pid_present() {
    let s = WorkerState::WaitingForSupervisedPid;
    assert_eq!(transition(s, false, false), WorkerState::WaitingForSupervisedPid);
    assert_eq!(transition(s, true, false), WorkerState::Polling);
}

#[test]
fn worker_stops_on_shutdown_flag() {
    // Once the flag is set, the very next cycle's check stops the
    // worker: shutdown latency is bounded by one polling interval.
    assert_eq!(transition(WorkerState::Polling, true, true), WorkerState::Stopped);
    assert_eq!(transition(WorkerState::Stopped, true, false), WorkerState::Stopped);
    assert_eq!(transition(WorkerState::Polling, true, false), WorkerState::Polling);
}

#[test]
fn discovery_registers_and_publishes_ids() {
    let mut db = Database::new();
    let snapshot = vec![
        (300, String::from("alpha")),
        (200, String::from("beta")),
    ];
    let ids = discovery_step(&mut db, &snapshot);
    assert_eq!(ids, vec![300, 200]);
    assert!(db.contains(&300));
    assert!(db.contains(&200));
    assert!(!db.contains(&100));
}

#[test]
fn discovery_keeps_existing_peaks() {
    let mut db = Database::new();
    let snapshot = vec![(1, String::from("child"))];
    discovery_step(&mut db, &snapshot);
    db.update(1, 555);
    // The next discovery cycle sees the same child again.
    discovery_step(&mut db, &snapshot);
    let t = db.table();
    assert!(t.contains("555"));
}

#[test]
fn measurement_folds_samples_and_skips_missing() {
    let mut db = Database::new();
    discovery_step(
        &mut db,
        &vec![(1, String::from("one")), (2, String::from("two"))],
    );
    measurement_step(&mut db, &vec![(1, Some(600)), (2, None), (9, Some(77))]);
    measurement_step(&mut db, &vec![(1, Some(30)), (2, Some(40))]);
    let t = db.table();
    assert!(t.contains("600"));
    assert!(t.contains("40"));
    assert!(!t.contains("77"));
}
