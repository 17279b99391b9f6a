use playtime_tracker::store::{Session, SessionStore, StoreError};
use playtime_tracker::tracker::SessionEvent;

fn session(id: i64, name: &str, pid: i32, started_at: i64, ended_at: Option<i64>) -> Session {
    Session { id, program_name: name.to_string(), pid, started_at, ended_at }
}

#[test]
fn new_store_is_empty() {
    let store = SessionStore::new();
    assert!(store.sessions().is_empty());
    assert_eq!(store.aggregate_totals().unwrap().len(), 0);
}

#[test]
fn open_session_gives_ids_from_one() {
    let mut store = SessionStore::new();
    assert_eq!(store.open_session("game", 100, 10), Ok(1));
    assert_eq!(store.open_session("editor", 101, 11), Ok(2));
    assert_eq!(store.open_session("game", 100, 12), Ok(3));
    assert_eq!(
        store.sessions(),
        &vec![
            session(1, "game", 100, 10, None),
            session(2, "editor", 101, 11, None),
            session(3, "game", 100, 12, None),
        ]
    );
}

#[test]
fn open_session_fails_when_the_ids_are_used_up() {
    let mut store = SessionStore::restore(vec![session(i64::MAX, "game", 1, 0, Some(1))]).unwrap();
    assert_eq!(store.open_session("game", 2, 5), Err(StoreError::Full));
    assert_eq!(store.sessions().len(), 1);
    assert_eq!(store.close_session(2, 6), None);
    let mut room = SessionStore::restore(vec![session(i64::MAX - 1, "game", 1, 0, Some(1))]).unwrap();
    assert_eq!(room.open_session("game", 2, 5), Ok(i64::MAX));
}

#[test]
fn close_session_ends_the_most_recent_open_session_of_the_pid() {
    let mut store = SessionStore::restore(vec![
        session(1, "game", 7, 10, Some(20)),
        session(2, "game", 7, 30, None),
        session(3, "editor", 8, 31, None),
        session(4, "game", 7, 40, None),
    ])
    .unwrap();
    assert_eq!(store.close_session(7, 50), Some(4));
    assert_eq!(
        store.sessions(),
        &vec![
            session(1, "game", 7, 10, Some(20)),
            session(2, "game", 7, 30, None),
            session(3, "editor", 8, 31, None),
            session(4, "game", 7, 40, Some(50)),
        ]
    );
    assert_eq!(store.close_session(7, 60), Some(2));
    assert_eq!(store.sessions()[1], session(2, "game", 7, 30, Some(60)));
    assert_eq!(store.sessions()[3], session(4, "game", 7, 40, Some(50)));
}

#[test]
fn close_session_without_an_open_session_changes_nothing() {
    let mut store = SessionStore::new();
    assert_eq!(store.close_session(5, 10), None);
    assert!(store.sessions().is_empty());
    store.open_session("game", 5, 10).unwrap();
    assert_eq!(store.close_session(6, 11), None);
    assert_eq!(store.close_session(5, 12), Some(1));
    let before = store.sessions().clone();
    assert_eq!(store.close_session(5, 13), None);
    assert_eq!(store.close_session(5, 14), None);
    assert_eq!(store.sessions(), &before);
    assert_eq!(before, vec![session(1, "game", 5, 10, Some(12))]);
}

#[test]
fn aggregate_totals_sums_the_closed_sessions_of_each_program() {
    let store = SessionStore::restore(vec![
        session(1, "game", 1, 100, Some(160)),
        session(2, "editor", 2, 100, Some(3_761)),
        session(3, "game", 3, 200, Some(230)),
        session(4, "game", 4, 300, None),
        session(5, "shell", 5, 300, None),
        session(6, "editor", 6, 4_000, Some(4_001)),
    ])
    .unwrap();
    let totals = store.aggregate_totals().unwrap();
    let found: Vec<(String, i64)> = totals.iter().map(|t| (t.program_name.clone(), t.seconds)).collect();
    assert_eq!(found, vec![("game".to_string(), 90), ("editor".to_string(), 3_662)]);
}

#[test]
fn aggregate_totals_leaves_out_programs_with_open_sessions_only() {
    let mut store = SessionStore::new();
    store.open_session("game", 1, 10).unwrap();
    assert!(store.aggregate_totals().unwrap().is_empty());
    store.close_session(1, 10);
    let totals = store.aggregate_totals().unwrap();
    assert_eq!(totals.len(), 1);
    assert_eq!(totals[0].program_name, "game");
    assert_eq!(totals[0].seconds, 0);
}

#[test]
fn aggregate_totals_counts_a_clock_that_went_back() {
    let store = SessionStore::restore(vec![
        session(1, "game", 1, 100, Some(40)),
        session(2, "game", 1, 100, Some(110)),
    ])
    .unwrap();
    assert_eq!(store.aggregate_totals().unwrap()[0].seconds, -50);
}

#[test]
fn aggregate_totals_fails_when_a_total_does_not_fit() {
    let store = SessionStore::restore(vec![session(1, "game", 1, i64::MIN, Some(i64::MAX))]).unwrap();
    assert_eq!(store.aggregate_totals(), Err(StoreError::TotalOverflow));
    let fits = SessionStore::restore(vec![
        session(1, "game", 1, i64::MIN, Some(i64::MAX)),
        session(2, "game", 1, i64::MAX, Some(i64::MIN)),
        session(3, "game", 1, 0, Some(7)),
    ])
    .unwrap();
    assert_eq!(fits.aggregate_totals().unwrap()[0].seconds, 7);
    let edge = SessionStore::restore(vec![session(1, "game", 1, 0, Some(i64::MAX))]).unwrap();
    assert_eq!(edge.aggregate_totals().unwrap()[0].seconds, i64::MAX);
}

#[test]
fn restore_takes_logs_with_growing_positive_ids_only() {
    assert!(SessionStore::restore(vec![]).is_some());
    assert!(SessionStore::restore(vec![session(3, "a", 1, 0, None), session(9, "b", 2, 0, None)]).is_some());
    assert!(SessionStore::restore(vec![session(0, "a", 1, 0, None)]).is_none());
    assert!(SessionStore::restore(vec![session(-4, "a", 1, 0, None)]).is_none());
    assert!(SessionStore::restore(vec![session(2, "a", 1, 0, None), session(2, "b", 2, 0, None)]).is_none());
    assert!(SessionStore::restore(vec![session(5, "a", 1, 0, None), session(4, "b", 2, 0, None)]).is_none());
    let mut store = SessionStore::restore(vec![session(3, "a", 1, 0, None), session(9, "b", 2, 0, None)]).unwrap();
    assert_eq!(store.open_session("c", 3, 1), Ok(10));
}

#[test]
fn record_all_goes_on_after_a_refused_event() {
    let mut store = SessionStore::restore(vec![session(i64::MAX, "game", 1, 0, None)]).unwrap();
    let events = vec![
        SessionEvent::Opened { pid: 2, name: "editor".to_string(), at: 5 },
        SessionEvent::Closed { pid: 1, name: "game".to_string(), started_at: 0, at: 6 },
        SessionEvent::Opened { pid: 3, name: "shell".to_string(), at: 7 },
    ];
    assert_eq!(store.record(&events[0]), Err(StoreError::Full));
    assert_eq!(store.record_all(&events), 2);
    assert_eq!(store.sessions(), &vec![session(i64::MAX, "game", 1, 0, Some(6))]);
}
