//! The tracker and the store together: what holds of the log while it
//! records, tick after tick, the events that the tracker gives.

use crate::process::{observed, ProcessObservation};
use crate::store::{
    accepts, closed, is_open_for, latest_open, lemma_latest_open_is_last, opened, recorded,
    recorded_all, refused, SessionRow,
};
use crate::tracker::{
    first_name, lemma_opens, opens, table_after, tick_events, EventView, OpenEntry,
};
use vstd::prelude::*;

verus! {

/// Whether no pid has two open sessions in the log.
pub open spec fn at_most_one_open(rows: Seq<SessionRow>) -> bool {
    forall|i: int, j: int|
        0 <= i < j < rows.len() && (#[trigger] rows[i]).ended_at is None && (
        #[trigger] rows[j]).ended_at is None ==> rows[i].pid != rows[j].pid
}

/// What the tracker remembers of a session of the log.
pub open spec fn entry_of(row: SessionRow) -> OpenEntry {
    OpenEntry { name: row.program_name, started_at: row.started_at }
}

/// Whether the table and the log agree: the open sessions of the log are
/// those of the table, one for each pid of the table.
pub open spec fn mirrors(table: Map<i32, OpenEntry>, rows: Seq<SessionRow>) -> bool {
    &&& forall|i: int|
        0 <= i < rows.len() && (#[trigger] rows[i]).ended_at is None ==> table.contains_key(
            rows[i].pid,
        ) && table[rows[i].pid] == entry_of(rows[i])
    &&& forall|pid: i32| #[trigger]
        table.contains_key(pid) ==> exists|i: int|
            0 <= i < rows.len() && is_open_for(#[trigger] rows[i], pid)
    &&& at_most_one_open(rows)
}

/// The table after one event.
pub open spec fn table_step(table: Map<i32, OpenEntry>, event: EventView) -> Map<i32, OpenEntry> {
    match event {
        EventView::Opened { pid, name, at } => table.insert(
            pid,
            OpenEntry { name, started_at: at },
        ),
        EventView::Closed { pid, .. } => table.remove(pid),
    }
}

/// Whether the event fits the table: it opens a session for a pid that has
/// none, or closes the session of a pid that has one.
pub open spec fn fits(table: Map<i32, OpenEntry>, event: EventView) -> bool {
    match event {
        EventView::Opened { pid, .. } => !table.contains_key(pid),
        EventView::Closed { pid, .. } => table.contains_key(pid),
    }
}

/// An event that fits the table and that the store records leaves the table
/// and the log in agreement.
pub proof fn lemma_step_keeps_mirror(
    table: Map<i32, OpenEntry>,
    rows: Seq<SessionRow>,
    event: EventView,
)
    requires
        mirrors(table, rows),
        fits(table, event),
        accepts(rows, event),
    ensures
        mirrors(table_step(table, event), recorded(rows, event)),
{
    let after = recorded(rows, event);
    let next = table_step(table, event);
    match event {
        EventView::Opened { pid, name, at } => {
            assert(after == opened(rows, name, pid, at));
            assert forall|i: int| 0 <= i < rows.len() implies !is_open_for(#[trigger] rows[i], pid) by {
                if is_open_for(rows[i], pid) {
                    assert(table.contains_key(rows[i].pid));
                }
            }
            assert forall|i: int|
                0 <= i < after.len() && (#[trigger] after[i]).ended_at is None implies next.contains_key(
                after[i].pid,
            ) && next[after[i].pid] == entry_of(after[i]) by {
                if i < rows.len() {
                    assert(after[i] == rows[i]);
                    assert(!is_open_for(rows[i], pid));
                }
            }
            assert forall|p: i32| #[trigger] next.contains_key(p) implies exists|i: int|
                0 <= i < after.len() && is_open_for(#[trigger] after[i], p) by {
                if p == pid {
                    assert(is_open_for(after[rows.len() as int], p));
                } else {
                    assert(table.contains_key(p));
                    let i = choose|i: int| 0 <= i < rows.len() && is_open_for(#[trigger] rows[i], p);
                    assert(after[i] == rows[i]);
                }
            }
            assert forall|i: int, j: int|
                0 <= i < j < after.len() && (#[trigger] after[i]).ended_at is None && (
                #[trigger] after[j]).ended_at is None implies after[i].pid != after[j].pid by {
                assert(after[i] == rows[i]);
                if j < rows.len() {
                    assert(after[j] == rows[j]);
                } else {
                    assert(!is_open_for(rows[i], pid));
                }
            }
        },
        EventView::Closed { pid, at, .. } => {
            lemma_latest_open_is_last(rows, pid);
            let w = choose|i: int| 0 <= i < rows.len() && is_open_for(#[trigger] rows[i], pid);
            assert(is_open_for(rows[w], pid));
            let at_row = latest_open(rows, pid)->0;
            assert(latest_open(rows, pid) is Some);
            assert(after == rows.update(at_row, SessionRow { ended_at: Some(at), ..rows[at_row] }));
            assert forall|i: int|
                0 <= i < after.len() && (#[trigger] after[i]).ended_at is None implies next.contains_key(
                after[i].pid,
            ) && next[after[i].pid] == entry_of(after[i]) by {
                assert(i != at_row);
                assert(after[i] == rows[i]);
                if i < at_row {
                    assert(rows[i].pid != rows[at_row].pid);
                } else {
                    assert(rows[at_row].pid != rows[i].pid);
                }
            }
            assert forall|p: i32| #[trigger] next.contains_key(p) implies exists|i: int|
                0 <= i < after.len() && is_open_for(#[trigger] after[i], p) by {
                assert(table.contains_key(p));
                let i = choose|i: int| 0 <= i < rows.len() && is_open_for(#[trigger] rows[i], p);
                assert(after[i] == rows[i]);
            }
            assert forall|i: int, j: int|
                0 <= i < j < after.len() && (#[trigger] after[i]).ended_at is None && (
                #[trigger] after[j]).ended_at is None implies after[i].pid != after[j].pid by {
                assert(after[i] == rows[i]);
                assert(after[j] == rows[j]);
            }
        },
    }
}

/// The table after the events, one after the other.
pub open spec fn table_run(table: Map<i32, OpenEntry>, events: Seq<EventView>) -> Map<
    i32,
    OpenEntry,
>
    decreases events.len(),
{
    if events.len() == 0 {
        table
    } else {
        table_step(table_run(table, events.drop_last()), events.last())
    }
}

/// Whether the events are about different pids and each of them fits the
/// table.
pub open spec fn well_sequenced(table: Map<i32, OpenEntry>, events: Seq<EventView>) -> bool {
    &&& forall|j: int, k: int|
        0 <= j < k < events.len() ==> (#[trigger] events[j]).pid() != (#[trigger] events[k]).pid()
    &&& forall|k: int| 0 <= k < events.len() ==> fits(table, #[trigger] events[k])
}

proof fn lemma_prefix<T>(s: Seq<T>, k: int)
    requires
        0 <= k < s.len(),
    ensures
        s.take(k + 1).drop_last() == s.take(k),
        s.take(k + 1).last() == s[k],
        s.take(s.len() as int) == s,
        s.drop_last() == s.take(s.len() - 1),
{
    assert(s.take(k + 1).drop_last() =~= s.take(k));
    assert(s.take(s.len() as int) =~= s);
    assert(s.drop_last() =~= s.take(s.len() - 1));
}

/// Of events about different pids only the one about a pid decides what the
/// table holds of that pid in the end.
proof fn lemma_run_table(table: Map<i32, OpenEntry>, events: Seq<EventView>, pid: i32)
    requires
        forall|j: int, k: int|
            0 <= j < k < events.len() ==> (#[trigger] events[j]).pid() != (
            #[trigger] events[k]).pid(),
    ensures
        (forall|k: int| 0 <= k < events.len() ==> (#[trigger] events[k]).pid() != pid) ==> {
            &&& table_run(table, events).contains_key(pid) == table.contains_key(pid)
            &&& table_run(table, events)[pid] == table[pid]
        },
        forall|k: int|
            0 <= k < events.len() && (#[trigger] events[k]).pid() == pid ==> match events[k] {
                EventView::Opened { name, at, .. } => {
                    &&& table_run(table, events).contains_key(pid)
                    &&& table_run(table, events)[pid] == OpenEntry { name, started_at: at }
                },
                EventView::Closed { .. } => !table_run(table, events).contains_key(pid),
            },
    decreases events.len(),
{
    if events.len() > 0 {
        let rest = events.drop_last();
        let last = events.last();
        assert forall|j: int, k: int| 0 <= j < k < rest.len() implies (#[trigger] rest[j]).pid() != (
        #[trigger] rest[k]).pid() by {
            assert(rest[j] == events[j] && rest[k] == events[k]);
        }
        lemma_run_table(table, rest, pid);
        if last.pid() != pid {
            if forall|k: int| 0 <= k < events.len() ==> (#[trigger] events[k]).pid() != pid {
                assert forall|k: int| 0 <= k < rest.len() implies (#[trigger] rest[k]).pid() != pid by {
                    assert(rest[k] == events[k]);
                }
            }
            assert forall|k: int|
                0 <= k < events.len() && (#[trigger] events[k]).pid() == pid implies match events[k] {
                EventView::Opened { name, at, .. } => {
                    &&& table_run(table, events).contains_key(pid)
                    &&& table_run(table, events)[pid] == OpenEntry { name, started_at: at }
                },
                EventView::Closed { .. } => !table_run(table, events).contains_key(pid),
            } by {
                assert(rest[k] == events[k]);
            }
        } else {
            assert forall|k: int|
                0 <= k < events.len() && (#[trigger] events[k]).pid() == pid implies k == events.len()
                - 1 by {
                if k < events.len() - 1 {
                    assert(events[k].pid() != events[events.len() - 1].pid());
                }
            }
        }
    }
}

/// Where the store refuses none of the events it refuses none of the first
/// of them either, and accepts each in its turn.
proof fn lemma_accepted_prefix(rows: Seq<SessionRow>, events: Seq<EventView>, k: int)
    requires
        refused(rows, events) == 0,
        0 <= k <= events.len(),
    ensures
        refused(rows, events.take(k)) == 0,
        k < events.len() ==> accepts(recorded_all(rows, events.take(k)), events[k]),
    decreases events.len(),
{
    if events.len() > 0 {
        lemma_prefix(events, events.len() - 1);
        let rest = events.drop_last();
        if k == events.len() {
        } else if k == events.len() - 1 {
        } else {
            lemma_accepted_prefix(rows, rest, k);
            assert(rest.take(k) =~= events.take(k));
        }
    } else {
        assert(events.take(k) =~= events);
    }
}

/// Well-sequenced events that the store records keep the table and the log
/// in agreement after each of them.
proof fn lemma_run_keeps_mirror(
    table: Map<i32, OpenEntry>,
    rows: Seq<SessionRow>,
    events: Seq<EventView>,
    k: int,
)
    requires
        mirrors(table, rows),
        well_sequenced(table, events),
        refused(rows, events) == 0,
        0 <= k <= events.len(),
    ensures
        mirrors(table_run(table, events.take(k)), recorded_all(rows, events.take(k))),
    decreases k,
{
    if k > 0 {
        lemma_run_keeps_mirror(table, rows, events, k - 1);
        lemma_prefix(events, k - 1);
        lemma_accepted_prefix(rows, events, k - 1);
        let done = events.take(k - 1);
        let event = events[k - 1];
        assert forall|i: int, j: int| 0 <= i < j < done.len() implies (#[trigger] done[i]).pid() != (
        #[trigger] done[j]).pid() by {
            assert(done[i] == events[i] && done[j] == events[j]);
        }
        lemma_run_table(table, done, event.pid());
        assert forall|i: int| 0 <= i < done.len() implies (#[trigger] done[i]).pid() != event.pid() by {
            assert(done[i] == events[i]);
        }
        assert(fits(table, event));
        lemma_step_keeps_mirror(
            table_run(table, done),
            recorded_all(rows, done),
            event,
        );
    }
}

/// The events of a tick are well sequenced, and the table after them is the
/// table after the tick.
proof fn lemma_tick_well_sequenced(
    table: Map<i32, OpenEntry>,
    obs: Seq<ProcessObservation>,
    now: i64,
    events: Seq<EventView>,
)
    requires
        tick_events(table, obs, now, events),
    ensures
        well_sequenced(table, events),
        table_run(table, events) == table_after(table, obs, now),
        forall|k: int|
            0 <= k < events.len() ==> match #[trigger] events[k] {
                EventView::Opened { pid, name, at } => observed(obs, pid) && at == now && name
                    == first_name(obs, pid),
                EventView::Closed { pid, at, .. } => !observed(obs, pid) && at == now,
            },
{
    let opened = opens(table, obs, now);
    let n = opened.len() as int;
    let closes = events.skip(n);
    lemma_opens(table, obs, now);
    assert forall|k: int| 0 <= k < events.len() implies if k < n {
        #[trigger] events[k] == opened[k]
    } else {
        events[k] == closes[k - n]
    } by {
        if k < n {
            assert(events.subrange(0, n)[k] == events[k]);
        }
    }
    assert forall|k: int| 0 <= k < events.len() implies match #[trigger] events[k] {
        EventView::Opened { pid, name, at } => observed(obs, pid) && at == now && name == first_name(
            obs,
            pid,
        ) && !table.contains_key(pid),
        EventView::Closed { pid, at, .. } => !observed(obs, pid) && at == now && table.contains_key(
            pid,
        ),
    } by {
        if k < n {
            assert(events[k] == opened[k]);
        } else {
            assert(events[k] == closes[k - n]);
        }
    }
    assert forall|j: int, k: int| 0 <= j < k < events.len() implies (#[trigger] events[j]).pid() != (
    #[trigger] events[k]).pid() by {
        if k < n {
            assert(events[j] == opened[j] && events[k] == opened[k]);
        } else if j >= n {
            assert(events[j] == closes[j - n] && events[k] == closes[k - n]);
        } else {
            assert(events[j] == opened[j] && events[k] == closes[k - n]);
        }
    }
    let run = table_run(table, events);
    let after = table_after(table, obs, now);
    assert forall|pid: i32|
        #![trigger run.dom().contains(pid)]
        #![trigger after.dom().contains(pid)]
        run.dom().contains(pid) == after.dom().contains(pid) && (run.dom().contains(pid)
            ==> run[pid] == after[pid]) by {
        lemma_run_table(table, events, pid);
        if observed(obs, pid) && !table.contains_key(pid) {
            let k = choose|k: int| 0 <= k < opened.len() && (#[trigger] opened[k]).pid() == pid;
            assert(events[k] == opened[k]);
            assert(events[k].pid() == pid);
        } else if !observed(obs, pid) && table.contains_key(pid) {
            let k = choose|k: int| 0 <= k < closes.len() && (#[trigger] closes[k]).pid() == pid;
            assert(events[k + n] == closes[k]);
            assert(events[k + n].pid() == pid);
        } else {
            assert forall|k: int| 0 <= k < events.len() implies (#[trigger] events[k]).pid() != pid by {
                if events[k].pid() == pid {
                    assert(fits(table, events[k]));
                }
            }
        }
    }
    assert(run =~= after);
}

/// Whether one of the events closes this session: it is open, the event is
/// about its pid, and `after` is the session with the time of the event for
/// its end.
pub open spec fn closed_by(events: Seq<EventView>, before: SessionRow, after: SessionRow) -> bool {
    exists|k: int|
        0 <= k < events.len() && (#[trigger] events[k]) is Closed && events[k].pid() == before.pid
            && before.ended_at is None && after == (SessionRow {
            ended_at: Some(events[k]->Closed_at),
            ..before
        })
}

/// Whether one of the events opens this session.
pub open spec fn opened_by(events: Seq<EventView>, row: SessionRow) -> bool {
    exists|k: int|
        0 <= k < events.len() && #[trigger] events[k] == (EventView::Opened {
            pid: row.pid,
            name: row.program_name,
            at: row.started_at,
        })
}

/// Whether one of the events closes a session of this pid.
pub open spec fn has_close(events: Seq<EventView>, pid: i32) -> bool {
    exists|k: int| 0 <= k < events.len() && (#[trigger] events[k]) is Closed && events[k].pid() == pid
}

/// What recording does to a log: no session leaves it; a session that was in
/// it is as it was, or was open and has been closed by one of the events; a
/// session that is new has been opened by one of the events, and has an end
/// only if an event closes a session of its pid.
pub proof fn lemma_log_frame(rows: Seq<SessionRow>, events: Seq<EventView>)
    ensures
        recorded_all(rows, events).len() >= rows.len(),
        forall|j: int|
            0 <= j < rows.len() ==> #[trigger] recorded_all(rows, events)[j] == rows[j] || closed_by(
                events,
                rows[j],
                recorded_all(rows, events)[j],
            ),
        forall|j: int|
            rows.len() <= j < recorded_all(rows, events).len() ==> {
                let row = #[trigger] recorded_all(rows, events)[j];
                &&& opened_by(events, row)
                &&& (row.ended_at is None || has_close(events, row.pid))
            },
    decreases events.len(),
{
    let after = recorded_all(rows, events);
    if events.len() > 0 {
        let rest = events.drop_last();
        let last = events.last();
        let mid = recorded_all(rows, rest);
        lemma_log_frame(rows, rest);
        assert forall|before: SessionRow, a: SessionRow| closed_by(rest, before, a) implies closed_by(
            events,
            before,
            a,
        ) by {
            let k = choose|k: int|
                0 <= k < rest.len() && (#[trigger] rest[k]) is Closed && rest[k].pid() == before.pid
                    && before.ended_at is None && a == (SessionRow {
                    ended_at: Some(rest[k]->Closed_at),
                    ..before
                });
            assert(events[k] == rest[k]);
        }
        assert forall|row: SessionRow| opened_by(rest, row) implies opened_by(events, row) by {
            let k = choose|k: int|
                0 <= k < rest.len() && #[trigger] rest[k] == (EventView::Opened {
                    pid: row.pid,
                    name: row.program_name,
                    at: row.started_at,
                });
            assert(events[k] == rest[k]);
        }
        assert forall|pid: i32| has_close(rest, pid) implies has_close(events, pid) by {
            let k = choose|k: int|
                0 <= k < rest.len() && (#[trigger] rest[k]) is Closed && rest[k].pid() == pid;
            assert(events[k] == rest[k]);
        }
        let at_end = events.len() - 1;
        assert(events[at_end] == last);
        match last {
            EventView::Opened { pid, name, at } => {
                if accepts(mid, last) {
                    assert(after == opened(mid, name, pid, at));
                    assert forall|j: int| 0 <= j < mid.len() implies after[j] == mid[j] by {}
                    assert(opened_by(events, after[mid.len() as int]));
                    assert forall|j: int| rows.len() <= j < after.len() implies {
                        let row = #[trigger] after[j];
                        &&& opened_by(events, row)
                        &&& (row.ended_at is None || has_close(events, row.pid))
                    } by {
                        if j < mid.len() {
                            assert(after[j] == mid[j]);
                        }
                    }
                }
            },
            EventView::Closed { pid, at, .. } => {
                lemma_latest_open_is_last(mid, pid);
                assert(after == closed(mid, pid, at));
                match latest_open(mid, pid) {
                    Some(i) => {
                        assert(has_close(events, pid));
                        assert forall|j: int| 0 <= j < rows.len() implies #[trigger] after[j]
                            == rows[j] || closed_by(events, rows[j], after[j]) by {
                            if j == i {
                                assert(mid[j] == rows[j]);
                                assert(closed_by(events, rows[j], after[j]));
                            } else {
                                assert(after[j] == mid[j]);
                            }
                        }
                        assert forall|j: int| rows.len() <= j < after.len() implies {
                            let row = #[trigger] after[j];
                            &&& opened_by(events, row)
                            &&& (row.ended_at is None || has_close(events, row.pid))
                        } by {
                            if j == i {
                                assert(opened_by(rest, mid[j]));
                                let k = choose|k: int|
                                    0 <= k < rest.len() && #[trigger] rest[k] == (EventView::Opened {
                                        pid: mid[j].pid,
                                        name: mid[j].program_name,
                                        at: mid[j].started_at,
                                    });
                                assert(events[k] == rest[k]);
                            } else {
                                assert(after[j] == mid[j]);
                            }
                        }
                    },
                    None => {},
                }
            },
        }
    }
}

/// A tracker and a store that both start empty agree.
pub proof fn lemma_mirror_at_start()
    ensures
        mirrors(Map::<i32, OpenEntry>::empty(), Seq::<SessionRow>::empty()),
{
}

/// At every point of a tick no pid has two open sessions in the log.
///
/// The table and the log agree before the tick, the store records the events
/// of the tick in their order and refuses none; then after each event no pid
/// has two open sessions, and after the last one the table and the log agree
/// again.
pub proof fn lemma_one_open_session_per_pid(
    table: Map<i32, OpenEntry>,
    rows: Seq<SessionRow>,
    obs: Seq<ProcessObservation>,
    now: i64,
    events: Seq<EventView>,
    k: int,
)
    requires
        mirrors(table, rows),
        tick_events(table, obs, now, events),
        refused(rows, events) == 0,
        0 <= k <= events.len(),
    ensures
        at_most_one_open(recorded_all(rows, events.take(k))),
        mirrors(table_after(table, obs, now), recorded_all(rows, events)),
{
    lemma_tick_well_sequenced(table, obs, now, events);
    lemma_run_keeps_mirror(table, rows, events, k);
    lemma_run_keeps_mirror(table, rows, events, events.len() as int);
    assert(events.take(events.len() as int) =~= events);
}

/// A tick opens exactly one session for a pid that is observed and that the
/// table does not hold.
///
/// Under the conditions of [`lemma_one_open_session_per_pid`] the log has,
/// after the tick, exactly one new session of that pid; it starts at the time
/// of the tick, has no end, and has the name of the first observation of the
/// pid.
pub proof fn lemma_tick_opens_one_session(
    table: Map<i32, OpenEntry>,
    rows: Seq<SessionRow>,
    obs: Seq<ProcessObservation>,
    now: i64,
    events: Seq<EventView>,
    pid: i32,
)
    requires
        mirrors(table, rows),
        tick_events(table, obs, now, events),
        refused(rows, events) == 0,
        observed(obs, pid),
        !table.contains_key(pid),
    ensures
        ({
            let after = recorded_all(rows, events);
            &&& latest_open(after, pid) matches Some(i)
            &&& rows.len() <= i < after.len()
            &&& after[i].pid == pid
            &&& after[i].program_name == first_name(obs, pid)
            &&& after[i].started_at == now
            &&& after[i].ended_at is None
            &&& forall|j: int|
                rows.len() <= j < after.len() && j != i ==> (#[trigger] after[j]).pid != pid
        }),
{
    let after = recorded_all(rows, events);
    let next = table_after(table, obs, now);
    lemma_one_open_session_per_pid(table, rows, obs, now, events, 0);
    lemma_tick_well_sequenced(table, obs, now, events);
    lemma_log_frame(rows, events);
    lemma_latest_open_is_last(after, pid);
    assert(next.contains_key(pid));
    let w = choose|w: int| 0 <= w < after.len() && is_open_for(#[trigger] after[w], pid);
    assert(is_open_for(after[w], pid));
    let i = latest_open(after, pid)->0;
    assert(after[i].ended_at is None);
    assert(next[after[i].pid] == entry_of(after[i]));
    if i < rows.len() {
        assert(after[i] == rows[i] || closed_by(events, rows[i], after[i]));
        assert(rows[i].ended_at is None);
        assert(table.contains_key(rows[i].pid));
    }
    assert forall|j: int| rows.len() <= j < after.len() && j != i implies (#[trigger] after[j]).pid
        != pid by {
        if after[j].pid == pid {
            if after[j].ended_at is None {
                if i < j {
                    assert(after[i].pid != after[j].pid);
                } else {
                    assert(after[j].pid != after[i].pid);
                }
            } else {
                assert(has_close(events, pid));
                let k = choose|k: int|
                    0 <= k < events.len() && (#[trigger] events[k]) is Closed && events[k].pid()
                        == pid;
                assert(!observed(obs, events[k].pid()));
            }
        }
    }
}

/// A tick closes the session of a pid that the table holds and that is no
/// longer observed, and touches no other session of that pid.
///
/// Under the conditions of [`lemma_one_open_session_per_pid`] the table no
/// longer holds the pid after the tick, the open session of the pid has the
/// time of the tick for its end, and every other session of the pid is in the
/// log as it was.
pub proof fn lemma_tick_closes_the_session(
    table: Map<i32, OpenEntry>,
    rows: Seq<SessionRow>,
    obs: Seq<ProcessObservation>,
    now: i64,
    events: Seq<EventView>,
    pid: i32,
)
    requires
        mirrors(table, rows),
        tick_events(table, obs, now, events),
        refused(rows, events) == 0,
        table.contains_key(pid),
        !observed(obs, pid),
    ensures
        !table_after(table, obs, now).contains_key(pid),
        ({
            let after = recorded_all(rows, events);
            &&& latest_open(rows, pid) matches Some(i)
            &&& entry_of(rows[i]) == table[pid]
            &&& after[i] == (SessionRow { ended_at: Some(now), ..rows[i] })
            &&& forall|j: int|
                0 <= j < rows.len() && j != i && (#[trigger] rows[j]).pid == pid ==> after[j]
                    == rows[j]
        }),
{
    let after = recorded_all(rows, events);
    let next = table_after(table, obs, now);
    lemma_one_open_session_per_pid(table, rows, obs, now, events, 0);
    lemma_tick_well_sequenced(table, obs, now, events);
    lemma_log_frame(rows, events);
    lemma_latest_open_is_last(rows, pid);
    let w = choose|w: int| 0 <= w < rows.len() && is_open_for(#[trigger] rows[w], pid);
    assert(is_open_for(rows[w], pid));
    let i = latest_open(rows, pid)->0;
    assert(rows[i].ended_at is None);
    assert(table[rows[i].pid] == entry_of(rows[i]));
    assert(after[i] == rows[i] || closed_by(events, rows[i], after[i]));
    if after[i] == rows[i] {
        assert(after[i].ended_at is None);
        assert(next.contains_key(after[i].pid));
    } else {
        let k = choose|k: int|
            0 <= k < events.len() && (#[trigger] events[k]) is Closed && events[k].pid()
                == rows[i].pid && rows[i].ended_at is None && after[i] == (SessionRow {
                ended_at: Some(events[k]->Closed_at),
                ..rows[i]
            });
        assert(events[k]->Closed_at == now);
    }
    assert forall|j: int| 0 <= j < rows.len() && j != i && (#[trigger] rows[j]).pid == pid implies after[j]
        == rows[j] by {
        if rows[j].ended_at is None {
            if i < j {
                assert(rows[i].pid != rows[j].pid);
            } else {
                assert(rows[j].pid != rows[i].pid);
            }
        }
        assert(after[j] == rows[j] || closed_by(events, rows[j], after[j]));
    }
}

/// A second tick on the same snapshot does nothing: it gives no event and
/// leaves the table as the first tick left it, whatever the time.
pub proof fn lemma_tick_twice(
    table: Map<i32, OpenEntry>,
    obs: Seq<ProcessObservation>,
    first: i64,
    second: i64,
    events: Seq<EventView>,
)
    requires
        tick_events(table_after(table, obs, first), obs, second, events),
    ensures
        events.len() == 0,
        table_after(table_after(table, obs, first), obs, second) == table_after(table, obs, first),
{
    let settled = table_after(table, obs, first);
    let opened = opens(settled, obs, second);
    lemma_opens(settled, obs, second);
    if opened.len() > 0 {
        assert(observed(obs, opened[0].pid()));
    }
    let closes = events.skip(opened.len() as int);
    if closes.len() > 0 {
        assert(settled.contains_key(closes[0].pid()));
    }
    assert(table_after(settled, obs, second) =~= settled);
}

} // verus!
