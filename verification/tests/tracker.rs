use playtime_tracker::process::ProcessObservation;
use playtime_tracker::store::SessionStore;
use playtime_tracker::tracker::{SessionEvent, Tracker};

fn seen(pid: i32, name: &str) -> ProcessObservation {
    ProcessObservation { pid, name: name.to_string() }
}

#[test]
fn new_tracker_has_no_open_session() {
    let tracker = Tracker::new();
    assert!(!tracker.is_open(100));
    assert!(tracker.open_pids().is_empty());
}

#[test]
fn tick_opens_a_session_for_a_new_pid() {
    let mut tracker = Tracker::new();
    let events = tracker.tick(&vec![seen(100, "game")], 1_000);
    assert_eq!(events, vec![SessionEvent::Opened { pid: 100, name: "game".to_string(), at: 1_000 }]);
    assert!(tracker.is_open(100));
    assert_eq!(tracker.open_pids(), vec![100]);
}

#[test]
fn tick_on_an_unchanged_snapshot_does_nothing() {
    let mut tracker = Tracker::new();
    let snapshot = vec![seen(100, "game"), seen(101, "editor")];
    assert_eq!(tracker.tick(&snapshot, 1_000).len(), 2);
    assert!(tracker.tick(&snapshot, 1_001).is_empty());
    assert!(tracker.tick(&snapshot, 1_002).is_empty());
    let mut pids = tracker.open_pids();
    pids.sort();
    assert_eq!(pids, vec![100, 101]);
}

#[test]
fn tick_closes_the_session_of_a_pid_that_is_gone() {
    let mut tracker = Tracker::new();
    tracker.tick(&vec![seen(100, "game")], 1_000);
    let events = tracker.tick(&vec![], 1_007);
    assert_eq!(
        events,
        vec![SessionEvent::Closed { pid: 100, name: "game".to_string(), started_at: 1_000, at: 1_007 }]
    );
    assert!(!tracker.is_open(100));
    assert!(tracker.open_pids().is_empty());
}

#[test]
fn tick_gives_opened_sessions_before_closed_ones() {
    let mut tracker = Tracker::new();
    tracker.tick(&vec![seen(1, "a"), seen(2, "b")], 10);
    let events = tracker.tick(&vec![seen(3, "c"), seen(4, "d")], 20);
    assert_eq!(events.len(), 4);
    assert_eq!(events[0], SessionEvent::Opened { pid: 3, name: "c".to_string(), at: 20 });
    assert_eq!(events[1], SessionEvent::Opened { pid: 4, name: "d".to_string(), at: 20 });
    let mut closed: Vec<SessionEvent> = vec![events[2].clone(), events[3].clone()];
    closed.sort_by_key(|event| match event {
        SessionEvent::Opened { pid, .. } => *pid,
        SessionEvent::Closed { pid, .. } => *pid,
    });
    assert_eq!(
        closed,
        vec![
            SessionEvent::Closed { pid: 1, name: "a".to_string(), started_at: 10, at: 20 },
            SessionEvent::Closed { pid: 2, name: "b".to_string(), started_at: 10, at: 20 },
        ]
    );
    let mut pids = tracker.open_pids();
    pids.sort();
    assert_eq!(pids, vec![3, 4]);
}

#[test]
fn tick_opens_one_session_for_a_pid_observed_twice() {
    let mut tracker = Tracker::new();
    let events = tracker.tick(&vec![seen(7, "first"), seen(7, "second")], 5);
    assert_eq!(events, vec![SessionEvent::Opened { pid: 7, name: "first".to_string(), at: 5 }]);
}

#[test]
fn tick_keeps_the_session_of_a_pid_that_stays() {
    let mut tracker = Tracker::new();
    tracker.tick(&vec![seen(1, "a"), seen(2, "b")], 10);
    let events = tracker.tick(&vec![seen(2, "renamed")], 30);
    assert_eq!(events, vec![SessionEvent::Closed { pid: 1, name: "a".to_string(), started_at: 10, at: 30 }]);
    let events = tracker.tick(&vec![], 40);
    assert_eq!(events, vec![SessionEvent::Closed { pid: 2, name: "b".to_string(), started_at: 10, at: 40 }]);
}

#[test]
fn one_game_from_start_to_report() {
    let mut tracker = Tracker::new();
    let mut store = SessionStore::new();
    let t1 = 1_700_000_000;
    let t3 = t1 + 42;

    let events = tracker.tick(&vec![seen(100, "game")], t1);
    assert_eq!(store.record_all(&events), 0);
    assert_eq!(store.sessions().len(), 1);
    assert_eq!(store.sessions()[0].pid, 100);
    assert_eq!(store.sessions()[0].program_name, "game");
    assert_eq!(store.sessions()[0].started_at, t1);
    assert_eq!(store.sessions()[0].ended_at, None);

    let events = tracker.tick(&vec![seen(100, "game")], t1 + 1);
    assert!(events.is_empty());
    assert_eq!(store.record_all(&events), 0);
    assert_eq!(store.sessions().len(), 1);
    assert_eq!(store.sessions()[0].ended_at, None);

    let events = tracker.tick(&vec![], t3);
    assert_eq!(store.record_all(&events), 0);
    assert_eq!(store.sessions().len(), 1);
    assert_eq!(store.sessions()[0].ended_at, Some(t3));

    let totals = store.aggregate_totals().unwrap();
    let lines = playtime_tracker::report::report(&totals);
    assert_eq!(lines, vec!["Playtime report:".to_string(), "- game: 0h 0m 42s".to_string()]);
}

#[test]
fn two_pids_of_one_game_give_two_sessions() {
    let mut tracker = Tracker::new();
    let mut store = SessionStore::new();
    store.record_all(&tracker.tick(&vec![seen(200, "game")], 100));
    store.record_all(&tracker.tick(&vec![], 160));
    store.record_all(&tracker.tick(&vec![seen(201, "game")], 500));
    store.record_all(&tracker.tick(&vec![], 530));

    let sessions = store.sessions();
    assert_eq!(sessions.len(), 2);
    assert_ne!(sessions[0].id, sessions[1].id);
    assert_eq!((sessions[0].pid, sessions[0].started_at, sessions[0].ended_at), (200, 100, Some(160)));
    assert_eq!((sessions[1].pid, sessions[1].started_at, sessions[1].ended_at), (201, 500, Some(530)));
    assert_eq!(sessions[0].program_name, "game");
    assert_eq!(sessions[1].program_name, "game");

    let totals = store.aggregate_totals().unwrap();
    assert_eq!(totals.len(), 1);
    assert_eq!(totals[0].program_name, "game");
    assert_eq!(totals[0].seconds, 90);
}

#[test]
fn no_pid_ever_has_two_open_sessions() {
    let mut tracker = Tracker::new();
    let mut store = SessionStore::new();
    let snapshots: Vec<Vec<ProcessObservation>> = vec![
        vec![seen(1, "a"), seen(2, "b")],
        vec![seen(2, "b"), seen(3, "a")],
        vec![],
        vec![seen(1, "b"), seen(3, "a"), seen(1, "b")],
        vec![seen(1, "b")],
        vec![seen(2, "a"), seen(1, "b")],
    ];
    let mut now = 50;
    for snapshot in &snapshots {
        for event in tracker.tick(snapshot, now) {
            assert!(store.record(&event).is_ok());
            for pid in 1..=3 {
                let open = store.sessions().iter().filter(|s| s.pid == pid && s.ended_at.is_none()).count();
                assert!(open <= 1);
            }
        }
        for pid in 1..=3 {
            let open = store.sessions().iter().filter(|s| s.pid == pid && s.ended_at.is_none()).count();
            assert_eq!(open == 1, tracker.is_open(pid));
        }
        now += 10;
    }
    assert_eq!(store.sessions().len(), 6);
}

#[test]
fn a_reused_pid_leaves_its_closed_sessions_untouched() {
    let mut tracker = Tracker::new();
    let mut store = SessionStore::new();
    store.record_all(&tracker.tick(&vec![seen(9, "game")], 10));
    store.record_all(&tracker.tick(&vec![], 20));
    store.record_all(&tracker.tick(&vec![seen(9, "editor")], 30));
    store.record_all(&tracker.tick(&vec![], 45));
    let sessions = store.sessions();
    assert_eq!(sessions.len(), 2);
    assert_eq!((sessions[0].started_at, sessions[0].ended_at), (10, Some(20)));
    assert_eq!((sessions[1].started_at, sessions[1].ended_at), (30, Some(45)));
    assert_eq!(sessions[1].program_name, "editor");
}
