//! The session store: the log of all sessions, open and closed, and the
//! totals that a report is made of.

use crate::tracker::{event_views, EventView, SessionEvent};
use vstd::prelude::*;

verus! {

/// One run of a tracked program.
#[derive(Clone, Debug, PartialEq, Eq)]
pub struct Session {
    /// Given by the store when the session is opened.
    pub id: i64,
    pub program_name: String,
    pub pid: i32,
    /// Seconds since the Unix epoch.
    pub started_at: i64,
    /// Seconds since the Unix epoch; `None` while the session is open.
    pub ended_at: Option<i64>,
}

/// The mathematical value of a [`Session`].
pub struct SessionRow {
    pub id: i64,
    pub program_name: Seq<char>,
    pub pid: i32,
    pub started_at: i64,
    pub ended_at: Option<i64>,
}

impl View for Session {
    type V = SessionRow;

    open spec fn view(&self) -> SessionRow {
        SessionRow {
            id: self.id,
            program_name: self.program_name@,
            pid: self.pid,
            started_at: self.started_at,
            ended_at: self.ended_at,
        }
    }
}

/// The values of a list of sessions, in order.
pub open spec fn rows_of(sessions: Seq<Session>) -> Seq<SessionRow> {
    sessions.map_values(|s: Session| s@)
}

/// Why the store did not do what it was asked.
#[derive(Clone, Copy, Debug, PartialEq, Eq, Structural)]
pub enum StoreError {
    /// No session id is left to give.
    Full,
    /// The total of some program is not a number of seconds that fits.
    TotalOverflow,
}

/// The time that a program has accumulated in closed sessions.
#[derive(Clone, Debug, PartialEq, Eq)]
pub struct ProgramTotal {
    pub program_name: String,
    pub seconds: i64,
}

/// The values of a list of totals, in order.
pub open spec fn total_views(totals: Seq<ProgramTotal>) -> Seq<(Seq<char>, int)> {
    totals.map_values(|t: ProgramTotal| (t.program_name@, t.seconds as int))
}

/// Whether the ids are positive and grow along the log.
pub open spec fn ids_ascend(rows: Seq<SessionRow>) -> bool {
    &&& forall|i: int| 0 <= i < rows.len() ==> (#[trigger] rows[i]).id >= 1
    &&& forall|i: int, j: int|
        0 <= i < j < rows.len() ==> (#[trigger] rows[i]).id < (#[trigger] rows[j]).id
}

/// The id that the next session gets: one more than the last one given.
pub open spec fn next_id(rows: Seq<SessionRow>) -> int {
    if rows.len() == 0 {
        1
    } else {
        rows.last().id + 1
    }
}

/// Whether the session is an open one of this pid.
pub open spec fn is_open_for(row: SessionRow, pid: i32) -> bool {
    row.pid == pid && row.ended_at is None
}

/// The place in the log of the most recent open session of this pid.
pub open spec fn latest_open(rows: Seq<SessionRow>, pid: i32) -> Option<int>
    decreases rows.len(),
{
    if rows.len() == 0 {
        None
    } else if is_open_for(rows.last(), pid) {
        Some(rows.len() - 1)
    } else {
        latest_open(rows.drop_last(), pid)
    }
}

/// The log after a session has been opened.
pub open spec fn opened(
    rows: Seq<SessionRow>,
    program_name: Seq<char>,
    pid: i32,
    started_at: i64,
) -> Seq<SessionRow> {
    rows.push(
        SessionRow { id: next_id(rows) as i64, program_name, pid, started_at, ended_at: None },
    )
}

/// The log after the most recent open session of this pid has been closed:
/// the log itself where the pid has no open session.
pub open spec fn closed(rows: Seq<SessionRow>, pid: i32, ended_at: i64) -> Seq<SessionRow> {
    match latest_open(rows, pid) {
        Some(i) => rows.update(i, SessionRow { ended_at: Some(ended_at), ..rows[i] }),
        None => rows,
    }
}

/// The length of a session in seconds; an open session counts for nothing.
pub open spec fn duration(row: SessionRow) -> int {
    match row.ended_at {
        Some(ended_at) => ended_at - row.started_at,
        None => 0,
    }
}

/// The sum of the lengths of the closed sessions of this program.
pub open spec fn total_of(rows: Seq<SessionRow>, program_name: Seq<char>) -> int
    decreases rows.len(),
{
    if rows.len() == 0 {
        0
    } else {
        total_of(rows.drop_last(), program_name) + if rows.last().program_name == program_name {
            duration(rows.last())
        } else {
            0
        }
    }
}

/// The programs that have a closed session, each once, in the order of their
/// first closed session.
pub open spec fn closed_names(rows: Seq<SessionRow>) -> Seq<Seq<char>>
    decreases rows.len(),
{
    if rows.len() == 0 {
        Seq::empty()
    } else {
        let rest = closed_names(rows.drop_last());
        if rows.last().ended_at is Some && !rest.contains(rows.last().program_name) {
            rest.push(rows.last().program_name)
        } else {
            rest
        }
    }
}

/// The report of the log: each program of [`closed_names`] with its total.
pub open spec fn totals_of(rows: Seq<SessionRow>) -> Seq<(Seq<char>, int)> {
    Seq::new(
        closed_names(rows).len(),
        |i: int| (closed_names(rows)[i], total_of(rows, closed_names(rows)[i])),
    )
}

/// Whether every total of the report is a number of seconds that fits.
pub open spec fn totals_fit(rows: Seq<SessionRow>) -> bool {
    forall|i: int|
        0 <= i < closed_names(rows).len() ==> i64::MIN <= total_of(
            rows,
            #[trigger] closed_names(rows)[i],
        ) <= i64::MAX
}

/// The log after one event of the tracker has been recorded. An event that
/// the store cannot record leaves the log as it is.
pub open spec fn recorded(rows: Seq<SessionRow>, event: EventView) -> Seq<SessionRow> {
    match event {
        EventView::Opened { pid, name, at } => if next_id(rows) <= i64::MAX {
            opened(rows, name, pid, at)
        } else {
            rows
        },
        EventView::Closed { pid, at, .. } => closed(rows, pid, at),
    }
}

/// Whether the store can record the event on this log.
pub open spec fn accepts(rows: Seq<SessionRow>, event: EventView) -> bool {
    event is Opened ==> next_id(rows) <= i64::MAX
}

/// The log after the events have been recorded one after the other.
pub open spec fn recorded_all(rows: Seq<SessionRow>, events: Seq<EventView>) -> Seq<SessionRow>
    decreases events.len(),
{
    if events.len() == 0 {
        rows
    } else {
        recorded(recorded_all(rows, events.drop_last()), events.last())
    }
}

/// How many of the events the store cannot record, one after the other.
pub open spec fn refused(rows: Seq<SessionRow>, events: Seq<EventView>) -> nat
    decreases events.len(),
{
    if events.len() == 0 {
        0
    } else {
        let before = recorded_all(rows, events.drop_last());
        refused(rows, events.drop_last()) + if accepts(before, events.last()) {
            0nat
        } else {
            1nat
        }
    }
}

/// The values of a list of names, in order.
spec fn name_views(names: Seq<String>) -> Seq<Seq<char>> {
    names.map_values(|name: String| name@)
}

proof fn lemma_ids_bound(rows: Seq<SessionRow>, i: int)
    requires
        ids_ascend(rows),
        0 <= i < rows.len(),
    ensures
        rows[i].id >= i + 1,
    decreases i,
{
    if i > 0 {
        lemma_ids_bound(rows, i - 1);
        assert(rows[i - 1].id < rows[i].id);
    }
}

proof fn lemma_latest_open(rows: Seq<SessionRow>, pid: i32, k: int)
    requires
        0 <= k <= rows.len(),
        forall|j: int| k <= j < rows.len() ==> !is_open_for(#[trigger] rows[j], pid),
    ensures
        latest_open(rows, pid) == latest_open(rows.take(k), pid),
        k > 0 && is_open_for(rows[k - 1], pid) ==> latest_open(rows, pid) == Some(k - 1),
    decreases rows.len() - k,
{
    if k == rows.len() {
        assert(rows.take(k) =~= rows);
    } else {
        assert(!is_open_for(rows[rows.len() - 1], pid));
        let rest = rows.drop_last();
        assert forall|j: int| k <= j < rest.len() implies !is_open_for(#[trigger] rest[j], pid) by {
            assert(rest[j] == rows[j]);
        }
        lemma_latest_open(rest, pid, k);
        assert(rest.take(k) =~= rows.take(k));
    }
    if k > 0 && is_open_for(rows[k - 1], pid) {
        assert(rows.take(k).last() == rows[k - 1]);
    }
}

/// The most recent open session of a pid is open, is of that pid, and no
/// later session of the log is; there is none only where the pid has no open
/// session at all.
pub proof fn lemma_latest_open_is_last(rows: Seq<SessionRow>, pid: i32)
    ensures
        match latest_open(rows, pid) {
            Some(i) => {
                &&& 0 <= i < rows.len()
                &&& is_open_for(rows[i], pid)
                &&& forall|j: int| i < j < rows.len() ==> !is_open_for(#[trigger] rows[j], pid)
            },
            None => forall|j: int| 0 <= j < rows.len() ==> !is_open_for(#[trigger] rows[j], pid),
        },
    decreases rows.len(),
{
    if rows.len() > 0 && !is_open_for(rows.last(), pid) {
        let rest = rows.drop_last();
        lemma_latest_open_is_last(rest, pid);
        match latest_open(rest, pid) {
            Some(i) => {
                assert forall|j: int| i < j < rows.len() implies !is_open_for(
                    #[trigger] rows[j],
                    pid,
                ) by {
                    if j < rest.len() {
                        assert(rest[j] == rows[j]);
                    }
                }
            },
            None => {
                assert forall|j: int| 0 <= j < rows.len() implies !is_open_for(
                    #[trigger] rows[j],
                    pid,
                ) by {
                    if j < rest.len() {
                        assert(rest[j] == rows[j]);
                    }
                }
            },
        }
    }
}

proof fn lemma_take_next<T>(s: Seq<T>, k: int)
    requires
        0 <= k < s.len(),
    ensures
        s.take(k + 1).drop_last() == s.take(k),
        s.take(k + 1).last() == s[k],
{
    assert(s.take(k + 1).drop_last() =~= s.take(k));
}

/// No program is listed twice.
pub proof fn lemma_closed_names_distinct(rows: Seq<SessionRow>)
    ensures
        closed_names(rows).no_duplicates(),
    decreases rows.len(),
{
    if rows.len() > 0 {
        lemma_closed_names_distinct(rows.drop_last());
        let rest = closed_names(rows.drop_last());
        let names = closed_names(rows);
        assert forall|i: int, j: int| 0 <= i < names.len() && 0 <= j < names.len() && i != j implies names[i]
            != names[j] by {
            if i < rest.len() && j < rest.len() {
                assert(names[i] == rest[i] && names[j] == rest[j]);
            } else if i < rest.len() {
                assert(names[i] == rest[i]);
            } else if j < rest.len() {
                assert(names[j] == rest[j]);
            }
        }
    }
}

/// Whether the program has a closed session in the log.
pub open spec fn has_closed(rows: Seq<SessionRow>, program_name: Seq<char>) -> bool {
    exists|i: int|
        0 <= i < rows.len() && (#[trigger] rows[i]).program_name == program_name
            && rows[i].ended_at is Some
}

/// The programs that are listed are those with a closed session.
pub proof fn lemma_closed_names_complete(rows: Seq<SessionRow>, program_name: Seq<char>)
    ensures
        closed_names(rows).contains(program_name) <==> has_closed(rows, program_name),
    decreases rows.len(),
{
    if rows.len() > 0 {
        let rest_rows = rows.drop_last();
        let last = rows.last();
        let rest = closed_names(rest_rows);
        let names = closed_names(rows);
        lemma_closed_names_complete(rest_rows, program_name);
        if has_closed(rest_rows, program_name) {
            let i = choose|i: int|
                0 <= i < rest_rows.len() && (#[trigger] rest_rows[i]).program_name == program_name
                    && rest_rows[i].ended_at is Some;
            assert(rows[i] == rest_rows[i]);
            let k = choose|k: int| 0 <= k < rest.len() && rest[k] == program_name;
            assert(names[k] == program_name);
        }
        if last.program_name == program_name && last.ended_at is Some {
            assert(rows[rows.len() - 1] == last);
            if !rest.contains(program_name) {
                assert(names[names.len() - 1] == program_name);
            }
        }
        if has_closed(rows, program_name) && !has_closed(rest_rows, program_name) {
            let i = choose|i: int|
                0 <= i < rows.len() && (#[trigger] rows[i]).program_name == program_name
                    && rows[i].ended_at is Some;
            if i < rest_rows.len() {
                assert(rest_rows[i] == rows[i]);
            }
        }
        if names.contains(program_name) && !rest.contains(program_name) {
            let k = choose|k: int| 0 <= k < names.len() && names[k] == program_name;
            if k < rest.len() {
                assert(rest[k] == names[k]);
            }
        }
    }
}

/// A program without a closed session has accumulated nothing.
pub proof fn lemma_total_of_unlisted(rows: Seq<SessionRow>, program_name: Seq<char>)
    requires
        !closed_names(rows).contains(program_name),
    ensures
        total_of(rows, program_name) == 0,
    decreases rows.len(),
{
    if rows.len() > 0 {
        let rest = closed_names(rows.drop_last());
        if rows.last().ended_at is Some && !rest.contains(rows.last().program_name) {
            let names = closed_names(rows);
            assert(names[names.len() - 1] == rows.last().program_name);
            if rest.contains(program_name) {
                let i = choose|i: int| 0 <= i < rest.len() && rest[i] == program_name;
                assert(names[i] == program_name);
            }
        }
        lemma_total_of_unlisted(rows.drop_last(), program_name);
    }
}

proof fn lemma_total_bound(rows: Seq<SessionRow>, program_name: Seq<char>)
    ensures
        -(rows.len() * 0x1_0000_0000_0000_0000) <= total_of(rows, program_name) <= rows.len()
            * 0x1_0000_0000_0000_0000,
    decreases rows.len(),
{
    if rows.len() > 0 {
        lemma_total_bound(rows.drop_last(), program_name);
    }
}

/// The log of sessions, in the order in which they were opened.
pub struct SessionStore {
    rows: Vec<Session>,
}

impl View for SessionStore {
    type V = Seq<SessionRow>;

    closed spec fn view(&self) -> Seq<SessionRow> {
        rows_of(self.rows@)
    }
}

impl SessionStore {
    #[verifier::type_invariant]
    spec fn ids_in_order(self) -> bool {
        ids_ascend(rows_of(self.rows@))
    }

    /// Takes the log out of the store, which is left empty.
    fn take_rows(&mut self) -> (rows: Vec<Session>)
        ensures
            rows_of(rows@) == old(self)@,
            ids_ascend(rows_of(rows@)),
            final(self)@ == Seq::<SessionRow>::empty(),
    {
        proof {
            use_type_invariant(&*self);
        }
        let mut rows: Vec<Session> = Vec::new();
        assert(rows_of(rows@) =~= Seq::<SessionRow>::empty());
        core::mem::swap(&mut self.rows, &mut rows);
        rows
    }

    /// Puts a log into the store, in place of the one it holds.
    fn put_rows(&mut self, rows: Vec<Session>)
        requires
            ids_ascend(rows_of(rows@)),
        ensures
            final(self)@ == rows_of(rows@),
    {
        let mut rows = rows;
        core::mem::swap(&mut self.rows, &mut rows);
    }

    /// A store with no session.
    pub fn new() -> (store: SessionStore)
        ensures
            store@ == Seq::<SessionRow>::empty(),
    {
        let store = SessionStore { rows: Vec::new() };
        assert(store@ =~= Seq::<SessionRow>::empty());
        store
    }

    /// The sessions of the log.
    pub fn sessions(&self) -> (sessions: &Vec<Session>)
        ensures
            rows_of(sessions@) == self@,
            ids_ascend(self@),
    {
        proof {
            use_type_invariant(self);
        }
        &self.rows
    }

    /// Opens a session: appends it to the log under the next id, with no end.
    ///
    /// A pid may have any number of sessions in the log. The store refuses
    /// only when the ids are used up, and then the log stays as it is.
    pub fn open_session(&mut self, program_name: &str, pid: i32, started_at: i64) -> (result:
        Result<i64, StoreError>)
        ensures
            ids_ascend(final(self)@),
            match result {
                Ok(id) => {
                    &&& id == next_id(old(self)@)
                    &&& final(self)@ == opened(old(self)@, program_name@, pid, started_at)
                },
                Err(e) => {
                    &&& e == StoreError::Full
                    &&& next_id(old(self)@) > i64::MAX
                    &&& final(self)@ == old(self)@
                },
            },
    {
        proof {
            use_type_invariant(&*self);
        }
        let n = self.rows.len();
        let last_id: i64 = if n == 0 {
            0
        } else {
            self.rows[n - 1].id
        };
        assert(n > 0 ==> last_id == self@[n - 1].id);
        if last_id == i64::MAX {
            return Err(StoreError::Full);
        }
        let id: i64 = last_id + 1;
        let session = Session {
            id,
            program_name: program_name.to_owned(),
            pid,
            started_at,
            ended_at: None,
        };
        let ghost before = self@;
        let mut rows = self.take_rows();
        rows.push(session);
        proof {
            let after = rows_of(rows@);
            assert(after =~= opened(before, program_name@, pid, started_at));
            assert(ids_ascend(after)) by {
                assert forall|i: int, j: int| 0 <= i < j < after.len() implies (#[trigger] after[i]).id
                    < (#[trigger] after[j]).id by {
                    assert(after[i] == before[i]);
                    if j == n {
                        if i < n - 1 {
                            assert(before[i].id < before[n - 1].id);
                        }
                    } else {
                        assert(after[j] == before[j]);
                    }
                }
                assert forall|i: int| 0 <= i < after.len() implies (#[trigger] after[i]).id >= 1 by {
                    if i < n {
                        assert(after[i] == before[i]);
                    }
                }
            }
        }
        self.put_rows(rows);
        Ok(id)
    }

    /// Closes the most recent open session of this pid, and says which one it
    /// was. Where the pid has no open session nothing changes.
    pub fn close_session(&mut self, pid: i32, ended_at: i64) -> (closed_id: Option<i64>)
        ensures
            ids_ascend(final(self)@),
            final(self)@ == closed(old(self)@, pid, ended_at),
            latest_open(old(self)@, pid) is None ==> final(self)@ == old(self)@,
            closed_id == match latest_open(old(self)@, pid) {
                Some(i) => Some(old(self)@[i].id),
                None => None,
            },
    {
        proof {
            use_type_invariant(&*self);
        }
        let ghost before = self@;
        let mut rows = self.take_rows();
        let n = rows.len();
        let mut i: usize = n;
        let mut closed_id: Option<i64> = None;
        while i > 0 && closed_id.is_none()
            invariant
                i <= n,
                n == rows.len(),
                ids_ascend(before),
                ids_ascend(rows_of(rows@)),
                closed_id is None ==> rows_of(rows@) == before,
                closed_id is None ==> forall|j: int|
                    i <= j < n ==> !is_open_for(#[trigger] before[j], pid),
                closed_id is Some ==> {
                    &&& latest_open(before, pid) == Some(i as int)
                    &&& closed_id == Some(before[i as int].id)
                    &&& rows_of(rows@) == closed(before, pid, ended_at)
                },
            decreases i,
        {
            i -= 1;
            if rows[i].pid == pid && rows[i].ended_at.is_none() {
                closed_id = Some(rows[i].id);
                proof {
                    lemma_latest_open(before, pid, i + 1);
                }
                rows[i].ended_at = Some(ended_at);
                proof {
                    let after = rows_of(rows@);
                    assert(after =~= closed(before, pid, ended_at));
                    assert(ids_ascend(after)) by {
                        assert forall|a: int, b: int| 0 <= a < b < after.len() implies (
                        #[trigger] after[a]).id < (#[trigger] after[b]).id by {
                            assert(after[a].id == before[a].id);
                            assert(after[b].id == before[b].id);
                        }
                        assert forall|a: int| 0 <= a < after.len() implies (#[trigger] after[a]).id
                            >= 1 by {
                            assert(after[a].id == before[a].id);
                        }
                    }
                }
            }
        }
        proof {
            if closed_id is None {
                lemma_latest_open(before, pid, 0);
            }
        }
        self.put_rows(rows);
        closed_id
    }

    /// Records one event of the tracker: an opened session is appended, a
    /// closed one ends the most recent open session of its pid.
    pub fn record(&mut self, event: &SessionEvent) -> (result: Result<(), StoreError>)
        ensures
            ids_ascend(final(self)@),
            final(self)@ == recorded(old(self)@, event@),
            match result {
                Ok(_) => accepts(old(self)@, event@),
                Err(e) => e == StoreError::Full && !accepts(old(self)@, event@),
            },
    {
        match event {
            SessionEvent::Opened { pid, name, at } => {
                match self.open_session(name.as_str(), *pid, *at) {
                    Ok(_) => Ok(()),
                    Err(e) => Err(e),
                }
            },
            SessionEvent::Closed { pid, at, .. } => {
                self.close_session(*pid, *at);
                Ok(())
            },
        }
    }

    /// Records the events of a tick in their order, and says how many the
    /// store refused. A refused event does not keep the later ones from being
    /// recorded.
    pub fn record_all(&mut self, events: &Vec<SessionEvent>) -> (failed: usize)
        ensures
            ids_ascend(final(self)@),
            final(self)@ == recorded_all(old(self)@, event_views(events@)),
            failed == refused(old(self)@, event_views(events@)),
    {
        let ghost before = self@;
        let ghost all = event_views(events@);
        let mut failed: usize = 0;
        let mut i: usize = 0;
        proof {
            use_type_invariant(&*self);
        }
        while i < events.len()
            invariant
                i <= events.len(),
                all == event_views(events@),
                ids_ascend(self@),
                self@ == recorded_all(before, all.take(i as int)),
                failed == refused(before, all.take(i as int)),
                failed <= i,
            decreases events.len() - i,
        {
            proof {
                lemma_take_next(all, i as int);
            }
            if self.record(&events[i]).is_err() {
                failed += 1;
            }
            i += 1;
        }
        assert(all.take(i as int) =~= all);
        failed
    }

    /// The place of `name` among `names`.
    fn position(names: &Vec<String>, name: &String) -> (at: Option<usize>)
        ensures
            match at {
                Some(i) => i < names.len() && name_views(names@)[i as int] == name@,
                None => !name_views(names@).contains(name@),
            },
    {
        let mut i: usize = 0;
        while i < names.len()
            invariant
                i <= names.len(),
                forall|j: int| 0 <= j < i ==> #[trigger] name_views(names@)[j] != name@,
            decreases names.len() - i,
        {
            if names[i] == *name {
                return Some(i);
            }
            i += 1;
        }
        None
    }

    /// The time that each program has accumulated: for each program with a
    /// closed session, the sum of the lengths of its closed sessions. Open
    /// sessions count for nothing.
    ///
    /// The programs come in the order of their first closed session. Where a
    /// total does not fit the number type there is no report.
    pub fn aggregate_totals(&self) -> (result: Result<Vec<ProgramTotal>, StoreError>)
        ensures
            match result {
                Ok(totals) => totals_fit(self@) && total_views(totals@) == totals_of(self@),
                Err(e) => e == StoreError::TotalOverflow && !totals_fit(self@),
            },
    {
        let ghost rows = self@;
        let n = self.rows.len();
        proof {
            use_type_invariant(self);
            if n > 0 {
                lemma_ids_bound(rows, n - 1);
            }
            assert(closed_names(rows.take(0)) =~= Seq::<Seq<char>>::empty());
        }
        let mut names: Vec<String> = Vec::new();
        let mut sums: Vec<i128> = Vec::new();
        let mut k: usize = 0;
        assert(name_views(names@) =~= closed_names(rows.take(0)));
        while k < n
            invariant
                k <= n,
                n == self.rows.len(),
                n <= i64::MAX,
                rows == self@,
                name_views(names@) == closed_names(rows.take(k as int)),
                sums.len() == names.len(),
                forall|i: int|
                    0 <= i < sums.len() ==> #[trigger] sums@[i] == total_of(
                        rows.take(k as int),
                        name_views(names@)[i],
                    ),
            decreases n - k,
        {
            let row = &self.rows[k];
            let ghost done = rows.take(k as int);
            let ghost next = rows.take(k + 1);
            let ghost old_names = name_views(names@);
            let ghost old_sums = sums@;
            let ghost mut hit: int = -1;
            proof {
                lemma_take_next(rows, k as int);
                assert(next.last() == row@);
            }
            match row.ended_at {
                Some(ended_at) => {
                    let length: i128 = ended_at as i128 - row.started_at as i128;
                    match Self::position(&names, &row.program_name) {
                        Some(i) => {
                            proof {
                                lemma_total_bound(done, row.program_name@);
                            }
                            let sum = sums[i] + length;
                            sums[i] = sum;
                            proof {
                                hit = i as int;
                            }
                        },
                        None => {
                            proof {
                                lemma_total_of_unlisted(done, row.program_name@);
                                assert(name_views(names@.push(row.program_name)) =~= old_names.push(
                                    row.program_name@,
                                ));
                            }
                            names.push(row.program_name.clone());
                            sums.push(length);
                        },
                    }
                },
                None => {},
            }
            proof {
                assert(name_views(names@) =~= closed_names(next));
                assert forall|i: int| 0 <= i < sums.len() implies #[trigger] sums@[i] == total_of(
                    next,
                    name_views(names@)[i],
                ) by {
                    lemma_closed_names_distinct(next);
                    let name = name_views(names@)[i];
                    if i < old_sums.len() {
                        assert(name == old_names[i]);
                        assert(old_sums[i] == total_of(done, name));
                        if row@.ended_at is Some && name == row@.program_name {
                            assert(old_names[i] == row@.program_name);
                            assert(i == hit);
                        }
                    }
                }
            }
            k += 1;
        }
        assert(rows.take(k as int) =~= rows);
        let mut totals: Vec<ProgramTotal> = Vec::new();
        let mut i: usize = 0;
        assert(total_views(totals@) =~= totals_of(rows).take(0));
        while i < names.len()
            invariant
                i <= names.len(),
                sums.len() == names.len(),
                rows == self@,
                name_views(names@) == closed_names(rows),
                forall|j: int|
                    0 <= j < sums.len() ==> #[trigger] sums@[j] == total_of(
                        rows,
                        name_views(names@)[j],
                    ),
                forall|j: int|
                    0 <= j < i ==> i64::MIN <= total_of(rows, #[trigger] closed_names(rows)[j])
                        <= i64::MAX,
                total_views(totals@) == totals_of(rows).take(i as int),
            decreases names.len() - i,
        {
            let sum = sums[i];
            assert(sum == total_of(rows, closed_names(rows)[i as int]));
            if sum < i64::MIN as i128 || sum > i64::MAX as i128 {
                assert(!(i64::MIN <= total_of(rows, closed_names(rows)[i as int]) <= i64::MAX));
                return Err(StoreError::TotalOverflow);
            }
            let total = ProgramTotal { program_name: names[i].clone(), seconds: sum as i64 };
            proof {
                assert(total_views(totals@.push(total)) =~= total_views(totals@).push(
                    (total.program_name@, total.seconds as int),
                ));
                assert(totals_of(rows).take(i + 1) =~= totals_of(rows).take(i as int).push(
                    totals_of(rows)[i as int],
                ));
            }
            totals.push(total);
            i += 1;
        }
        assert(totals_of(rows).take(i as int) =~= totals_of(rows));
        Ok(totals)
    }

    /// A store that holds a log read back from where it was kept, if the log
    /// is one that a store can have written: with ids that are positive and
    /// grow.
    pub fn restore(sessions: Vec<Session>) -> (store: Option<SessionStore>)
        ensures
            match store {
                Some(store) => ids_ascend(rows_of(sessions@)) && store@ == rows_of(sessions@),
                None => !ids_ascend(rows_of(sessions@)),
            },
    {
        let ghost rows = rows_of(sessions@);
        let mut i: usize = 0;
        while i < sessions.len()
            invariant
                i <= sessions.len(),
                rows == rows_of(sessions@),
                forall|a: int| 0 <= a < i ==> (#[trigger] rows[a]).id >= 1,
                forall|a: int, b: int| 0 <= a < b < i ==> (#[trigger] rows[a]).id < (#[trigger] rows[b]).id,
            decreases sessions.len() - i,
        {
            assert(rows[i as int].id == sessions@[i as int].id);
            if sessions[i].id < 1 {
                return None;
            }
            if i > 0 {
                assert(rows[i - 1].id == sessions@[i - 1].id);
                if sessions[i - 1].id >= sessions[i].id {
                    return None;
                }
                assert forall|a: int| 0 <= a < i implies (#[trigger] rows[a]).id < rows[i as int].id by {
                    if a < i - 1 {
                        assert(rows[a].id < rows[i - 1].id);
                    }
                }
            }
            i += 1;
        }
        Some(SessionStore { rows: sessions })
    }
}

} // verus!
