//! The session tracker: the table of sessions that are open right now, and
//! the reconciliation of that table with a fresh snapshot of processes.

use crate::process::{observed, ProcessObservation};
use std::collections::HashMap;
use vstd::prelude::*;
use vstd::std_specs::hash::spec_keys_iter;
use vstd::std_specs::iter::IteratorSpec;

verus! {

broadcast use vstd::std_specs::hash::group_hash_axioms;

/// What the tracker remembers of an open session.
#[derive(Clone, Debug, PartialEq, Eq)]
pub struct OpenSession {
    pub name: String,
    /// Seconds since the Unix epoch.
    pub started_at: i64,
}

/// The mathematical value of an [`OpenSession`].
pub struct OpenEntry {
    pub name: Seq<char>,
    pub started_at: i64,
}

impl View for OpenSession {
    type V = OpenEntry;

    open spec fn view(&self) -> OpenEntry {
        OpenEntry { name: self.name@, started_at: self.started_at }
    }
}

/// A change that one tick asks the session store to record.
#[derive(Clone, Debug, PartialEq, Eq)]
pub enum SessionEvent {
    /// A tracked process was seen for the first time.
    Opened { pid: i32, name: String, at: i64 },
    /// A process with an open session is no longer running.
    Closed { pid: i32, name: String, started_at: i64, at: i64 },
}

/// The mathematical value of a [`SessionEvent`].
pub enum EventView {
    Opened { pid: i32, name: Seq<char>, at: i64 },
    Closed { pid: i32, name: Seq<char>, started_at: i64, at: i64 },
}

impl View for SessionEvent {
    type V = EventView;

    open spec fn view(&self) -> EventView {
        match *self {
            SessionEvent::Opened { pid, name, at } => EventView::Opened { pid, name: name@, at },
            SessionEvent::Closed { pid, name, started_at, at } => EventView::Closed {
                pid,
                name: name@,
                started_at,
                at,
            },
        }
    }
}

impl EventView {
    /// The process that the event is about.
    pub open spec fn pid(self) -> i32 {
        match self {
            EventView::Opened { pid, .. } => pid,
            EventView::Closed { pid, .. } => pid,
        }
    }
}

/// The values of a list of events, in order.
pub open spec fn event_views(events: Seq<SessionEvent>) -> Seq<EventView> {
    events.map_values(|e: SessionEvent| e@)
}

/// The program name of the first observation with this pid.
pub open spec fn first_name(obs: Seq<ProcessObservation>, pid: i32) -> Seq<char>
    decreases obs.len(),
{
    if obs.len() == 0 {
        Seq::empty()
    } else if observed(obs.drop_last(), pid) {
        first_name(obs.drop_last(), pid)
    } else if obs.last().pid == pid {
        obs.last().name@
    } else {
        Seq::empty()
    }
}

/// The sessions that a tick opens: one for each observed pid that the table
/// does not hold, in the order in which the pids are first observed.
pub open spec fn opens(
    table: Map<i32, OpenEntry>,
    obs: Seq<ProcessObservation>,
    now: i64,
) -> Seq<EventView>
    decreases obs.len(),
{
    if obs.len() == 0 {
        Seq::empty()
    } else {
        let rest = obs.drop_last();
        let o = obs.last();
        if table.contains_key(o.pid) || observed(rest, o.pid) {
            opens(table, rest, now)
        } else {
            opens(table, rest, now).push(EventView::Opened { pid: o.pid, name: o.name@, at: now })
        }
    }
}

/// Whether `closes` ends exactly the sessions of the table whose pid is no
/// longer observed: each of them once, in any order, and nothing else.
pub open spec fn closes_exactly(
    table: Map<i32, OpenEntry>,
    obs: Seq<ProcessObservation>,
    now: i64,
    closes: Seq<EventView>,
) -> bool {
    &&& forall|k: int|
        0 <= k < closes.len() ==> {
            let pid = (#[trigger] closes[k]).pid();
            &&& table.contains_key(pid)
            &&& !observed(obs, pid)
            &&& closes[k] == EventView::Closed {
                pid,
                name: table[pid].name,
                started_at: table[pid].started_at,
                at: now,
            }
        }
    &&& forall|j: int, k: int|
        0 <= j < k < closes.len() ==> (#[trigger] closes[j]).pid() != (#[trigger] closes[k]).pid()
    &&& forall|pid: i32|
        #[trigger] table.contains_key(pid) && !observed(obs, pid) ==> exists|k: int|
            0 <= k < closes.len() && (#[trigger] closes[k]).pid() == pid
}

/// Whether `events` is what a tick on this table and this snapshot gives: the
/// opened sessions in the order of [`opens`], then the closed ones.
pub open spec fn tick_events(
    table: Map<i32, OpenEntry>,
    obs: Seq<ProcessObservation>,
    now: i64,
    events: Seq<EventView>,
) -> bool {
    let opened = opens(table, obs, now);
    &&& opened.len() <= events.len()
    &&& events.subrange(0, opened.len() as int) == opened
    &&& closes_exactly(table, obs, now, events.skip(opened.len() as int))
}

/// Every observed pid that the table does not hold is opened exactly once,
/// now and under the name of its first observation, and nothing else is
/// opened.
pub proof fn lemma_opens(table: Map<i32, OpenEntry>, obs: Seq<ProcessObservation>, now: i64)
    ensures
        forall|k: int|
            0 <= k < opens(table, obs, now).len() ==> {
                let pid = (#[trigger] opens(table, obs, now)[k]).pid();
                &&& observed(obs, pid)
                &&& !table.contains_key(pid)
                &&& opens(table, obs, now)[k] == EventView::Opened {
                    pid,
                    name: first_name(obs, pid),
                    at: now,
                }
            },
        forall|j: int, k: int|
            0 <= j < k < opens(table, obs, now).len() ==> (#[trigger] opens(table, obs, now)[j]).pid()
                != (#[trigger] opens(table, obs, now)[k]).pid(),
        forall|pid: i32|
            #[trigger] observed(obs, pid) && !table.contains_key(pid) ==> exists|k: int|
                0 <= k < opens(table, obs, now).len() && (#[trigger] opens(table, obs, now)[k]).pid()
                    == pid,
    decreases obs.len(),
{
    let all = opens(table, obs, now);
    if obs.len() > 0 {
        let rest_obs = obs.drop_last();
        let last = obs.last();
        let rest = opens(table, rest_obs, now);
        lemma_opens(table, rest_obs, now);
        assert(rest_obs =~= obs.take(obs.len() - 1));
        assert(obs.take(obs.len() as int) =~= obs);
        assert forall|pid: i32| observed(obs, pid) <==> observed(rest_obs, pid) || last.pid == pid by {
            lemma_observed_push(obs, obs.len() - 1, pid);
        }
        assert forall|k: int| 0 <= k < all.len() implies {
            let pid = (#[trigger] all[k]).pid();
            &&& observed(obs, pid)
            &&& !table.contains_key(pid)
            &&& all[k] == EventView::Opened { pid, name: first_name(obs, pid), at: now }
        } by {
            if k < rest.len() {
                assert(all[k] == rest[k]);
            }
        }
        assert forall|j: int, k: int| 0 <= j < k < all.len() implies (#[trigger] all[j]).pid() != (
        #[trigger] all[k]).pid() by {
            assert(all[j] == rest[j]);
            if k < rest.len() {
                assert(all[k] == rest[k]);
            }
        }
        assert forall|pid: i32| #[trigger] observed(obs, pid) && !table.contains_key(pid) implies exists|
            k: int,
        | 0 <= k < all.len() && (#[trigger] all[k]).pid() == pid by {
            if observed(rest_obs, pid) {
                let k = choose|k: int| 0 <= k < rest.len() && (#[trigger] rest[k]).pid() == pid;
                assert(all[k] == rest[k]);
            } else {
                assert(all[all.len() - 1].pid() == pid);
            }
        }
    }
}

/// The table after a tick: it holds exactly the observed pids. A session
/// that was open stays as it was; a new one starts now, under the name of the
/// first observation of its pid.
pub open spec fn table_after(
    table: Map<i32, OpenEntry>,
    obs: Seq<ProcessObservation>,
    now: i64,
) -> Map<i32, OpenEntry> {
    Map::new(
        |pid: i32| observed(obs, pid),
        |pid: i32|
            if table.contains_key(pid) {
                table[pid]
            } else {
                OpenEntry { name: first_name(obs, pid), started_at: now }
            },
    )
}

/// The table while a tick has opened sessions and not yet closed any: the old
/// sessions and those of the observed pids.
spec fn table_opened(
    table: Map<i32, OpenEntry>,
    obs: Seq<ProcessObservation>,
    now: i64,
) -> Map<i32, OpenEntry> {
    Map::new(
        |pid: i32| table.contains_key(pid) || observed(obs, pid),
        |pid: i32|
            if table.contains_key(pid) {
                table[pid]
            } else {
                OpenEntry { name: first_name(obs, pid), started_at: now }
            },
    )
}

proof fn lemma_observed_push(obs: Seq<ProcessObservation>, i: int, pid: i32)
    requires
        0 <= i < obs.len(),
    ensures
        observed(obs.take(i + 1), pid) <==> observed(obs.take(i), pid) || obs[i].pid == pid,
        obs.take(i + 1).drop_last() == obs.take(i),
        obs.take(i + 1).last() == obs[i],
{
    let a = obs.take(i);
    let b = obs.take(i + 1);
    assert(b.drop_last() =~= a);
    if observed(a, pid) {
        let j = choose|j: int| 0 <= j < a.len() && (#[trigger] a[j]).pid == pid;
        assert(b[j].pid == pid);
    }
    if obs[i].pid == pid {
        assert(b[i].pid == pid);
    }
    if observed(b, pid) {
        let j = choose|j: int| 0 <= j < b.len() && (#[trigger] b[j]).pid == pid;
        if j < i {
            assert(a[j].pid == pid);
        }
    }
}

/// The events that end, in the order of `pids`, the sessions of those pids
/// that are not observed.
spec fn closes_of(
    table: Map<i32, OpenEntry>,
    pids: Seq<i32>,
    obs: Seq<ProcessObservation>,
    now: i64,
) -> Seq<EventView>
    decreases pids.len(),
{
    if pids.len() == 0 {
        Seq::empty()
    } else {
        let rest = closes_of(table, pids.drop_last(), obs, now);
        let pid = pids.last();
        if observed(obs, pid) {
            rest
        } else {
            rest.push(
                EventView::Closed {
                    pid,
                    name: table[pid].name,
                    started_at: table[pid].started_at,
                    at: now,
                },
            )
        }
    }
}

/// The pids of `pids` that are not observed.
spec fn gone(pids: Seq<i32>, obs: Seq<ProcessObservation>) -> Set<i32> {
    Set::new(|pid: i32| pids.contains(pid) && !observed(obs, pid))
}

proof fn lemma_take_contains(pids: Seq<i32>, k: int, pid: i32)
    requires
        0 <= k < pids.len(),
    ensures
        pids.take(k + 1).contains(pid) <==> pids.take(k).contains(pid) || pids[k] == pid,
        pids.take(k + 1).drop_last() == pids.take(k),
        pids.take(k + 1).last() == pids[k],
{
    let a = pids.take(k);
    let b = pids.take(k + 1);
    assert(b.drop_last() =~= a);
    if a.contains(pid) {
        let j = choose|j: int| 0 <= j < a.len() && a[j] == pid;
        assert(b[j] == pid);
    }
    if pids[k] == pid {
        assert(b[k] == pid);
    }
    if b.contains(pid) {
        let j = choose|j: int| 0 <= j < b.len() && b[j] == pid;
        if j < k {
            assert(a[j] == pid);
        }
    }
}

proof fn lemma_closes_of(
    table: Map<i32, OpenEntry>,
    pids: Seq<i32>,
    obs: Seq<ProcessObservation>,
    now: i64,
)
    requires
        pids.no_duplicates(),
    ensures
        forall|j: int|
            0 <= j < closes_of(table, pids, obs, now).len() ==> {
                let pid = (#[trigger] closes_of(table, pids, obs, now)[j]).pid();
                &&& pids.contains(pid)
                &&& !observed(obs, pid)
                &&& closes_of(table, pids, obs, now)[j] == EventView::Closed {
                    pid,
                    name: table[pid].name,
                    started_at: table[pid].started_at,
                    at: now,
                }
            },
        forall|j: int, l: int|
            0 <= j < l < closes_of(table, pids, obs, now).len() ==> (#[trigger] closes_of(
                table,
                pids,
                obs,
                now,
            )[j]).pid() != (#[trigger] closes_of(table, pids, obs, now)[l]).pid(),
        forall|pid: i32|
            #[trigger] pids.contains(pid) && !observed(obs, pid) ==> exists|j: int|
                0 <= j < closes_of(table, pids, obs, now).len() && (#[trigger] closes_of(
                    table,
                    pids,
                    obs,
                    now,
                )[j]).pid() == pid,
    decreases pids.len(),
{
    let closes = closes_of(table, pids, obs, now);
    if pids.len() > 0 {
        let rest_pids = pids.drop_last();
        let last = pids.last();
        let rest = closes_of(table, rest_pids, obs, now);
        lemma_closes_of(table, rest_pids, obs, now);
        assert(rest_pids =~= pids.take(pids.len() - 1));
        assert forall|pid: i32| pids.contains(pid) <==> rest_pids.contains(pid) || pid == last by {
            lemma_take_contains(pids, pids.len() - 1, pid);
            assert(pids.take(pids.len() as int) =~= pids);
        }
        assert(!rest_pids.contains(last)) by {
            if rest_pids.contains(last) {
                let j = choose|j: int| 0 <= j < rest_pids.len() && rest_pids[j] == last;
                assert(pids[j] == pids[pids.len() - 1]);
            }
        }
        assert forall|j: int| 0 <= j < closes.len() implies {
            let pid = (#[trigger] closes[j]).pid();
            &&& pids.contains(pid)
            &&& !observed(obs, pid)
            &&& closes[j] == EventView::Closed {
                pid,
                name: table[pid].name,
                started_at: table[pid].started_at,
                at: now,
            }
        } by {
            if j < rest.len() {
                assert(closes[j] == rest[j]);
            }
        }
        assert forall|j: int, l: int| 0 <= j < l < closes.len() implies (#[trigger] closes[j]).pid()
            != (#[trigger] closes[l]).pid() by {
            assert(closes[j] == rest[j]);
            if l < rest.len() {
                assert(closes[l] == rest[l]);
            }
        }
        assert forall|pid: i32| #[trigger] pids.contains(pid) && !observed(obs, pid) implies exists|
            j: int,
        | 0 <= j < closes.len() && (#[trigger] closes[j]).pid() == pid by {
            if pid == last {
                assert(closes[closes.len() - 1].pid() == pid);
            } else {
                assert(rest_pids.contains(pid));
                let j = choose|j: int| 0 <= j < rest.len() && (#[trigger] rest[j]).pid() == pid;
                assert(closes[j] == rest[j]);
            }
        }
    }
}

/// The table of open sessions, keyed by pid.
pub struct Tracker {
    active: HashMap<i32, OpenSession>,
}

impl View for Tracker {
    type V = Map<i32, OpenEntry>;

    closed spec fn view(&self) -> Map<i32, OpenEntry> {
        self.active@.map_values(|s: OpenSession| s@)
    }
}

fn is_observed(observations: &Vec<ProcessObservation>, pid: i32) -> (found: bool)
    ensures
        found == observed(observations@, pid),
{
    let mut i: usize = 0;
    while i < observations.len()
        invariant
            i <= observations.len(),
            forall|j: int| 0 <= j < i ==> (#[trigger] observations@[j]).pid != pid,
        decreases observations.len() - i,
    {
        if observations[i].pid == pid {
            return true;
        }
        i += 1;
    }
    false
}

impl Tracker {
    /// A tracker with no open session.
    pub fn new() -> (tracker: Tracker)
        ensures
            tracker@ == Map::<i32, OpenEntry>::empty(),
    {
        let tracker = Tracker { active: HashMap::new() };
        assert(tracker@ =~= Map::<i32, OpenEntry>::empty());
        tracker
    }

    /// Whether the process has an open session.
    pub fn is_open(&self, pid: i32) -> (open: bool)
        ensures
            open == self@.contains_key(pid),
    {
        self.active.contains_key(&pid)
    }

    /// The pids of the open sessions, each once, in no particular order.
    pub fn open_pids(&self) -> (pids: Vec<i32>)
        ensures
            pids@.no_duplicates(),
            forall|pid: i32| self@.contains_key(pid) <==> pids@.contains(pid),
    {
        let mut pids: Vec<i32> = Vec::new();
        let ghost keys = spec_keys_iter(&self.active).remaining();
        for pid in it: self.active.keys()
            invariant
                it.seq() == keys,
                pids.len() == it.index(),
                forall|j: int| 0 <= j < pids.len() ==> pids@[j] == *#[trigger] keys[j],
        {
            pids.push(*pid);
        }
        proof {
            assert(pids@ =~= keys.unref());
            assert(keys.unref().to_set() == self.active@.dom());
            assert forall|j: int, k: int| 0 <= j < k < pids.len() implies pids@[j] != pids@[k] by {
                assert(keys[j] != keys[k]);
            }
            assert forall|pid: i32| self@.contains_key(pid) <==> pids@.contains(pid) by {
                assert(self@.contains_key(pid) == self.active@.dom().contains(pid));
                assert(pids@.to_set().contains(pid) == pids@.contains(pid));
            }
        }
        pids
    }

    /// Opens a session for each observed pid that has none.
    fn open_new(
        &mut self,
        observations: &Vec<ProcessObservation>,
        now: i64,
        events: &mut Vec<SessionEvent>,
    )
        requires
            old(events)@.len() == 0,
        ensures
            final(self)@ == table_opened(old(self)@, observations@, now),
            event_views(final(events)@) == opens(old(self)@, observations@, now),
    {
        let ghost before = self@;
        let mut i: usize = 0;
        assert(self@ =~= table_opened(before, observations@.take(0), now));
        assert(event_views(events@) =~= opens(before, observations@.take(0), now));
        while i < observations.len()
            invariant
                i <= observations.len(),
                self@ == table_opened(before, observations@.take(i as int), now),
                event_views(events@) == opens(before, observations@.take(i as int), now),
            decreases observations.len() - i,
        {
            let o = &observations[i];
            let ghost prefix = observations@.take(i as int);
            let ghost next = observations@.take(i + 1);
            let ghost prev = self@;
            let ghost prev_active = self.active@;
            proof {
                lemma_observed_push(observations@, i as int, o.pid);
                assert(prev.contains_key(o.pid) == prev_active.contains_key(o.pid));
            }
            if !self.active.contains_key(&o.pid) {
                let session = OpenSession { name: o.name.clone(), started_at: now };
                let ghost entry = session@;
                self.active.insert(o.pid, session);
                let event = SessionEvent::Opened { pid: o.pid, name: o.name.clone(), at: now };
                proof {
                    assert(event_views(events@.push(event)) =~= event_views(events@).push(event@));
                    assert(self@ =~= prev.insert(o.pid, entry));
                }
                events.push(event);
            }
            proof {
                assert forall|pid: i32|
                    (before.contains_key(pid) || observed(next, pid)) == #[trigger] self@.contains_key(
                        pid,
                    ) by {
                    lemma_observed_push(observations@, i as int, pid);
                    assert(prev.contains_key(pid) == (before.contains_key(pid) || observed(
                        prefix,
                        pid,
                    )));
                }
                assert forall|pid: i32| #[trigger] self@.contains_key(pid) implies self@[pid]
                    == table_opened(before, next, now)[pid] by {
                    lemma_observed_push(observations@, i as int, pid);
                    if prev.contains_key(pid) {
                        assert(self@[pid] == prev[pid]);
                        assert(prev[pid] == table_opened(before, prefix, now)[pid]);
                    }
                }
                assert(self@ =~= table_opened(before, next, now));
            }
            i += 1;
        }
        assert(observations@.take(i as int) =~= observations@);
    }

    /// Ends each open session whose pid is not observed.
    fn close_gone(
        &mut self,
        observations: &Vec<ProcessObservation>,
        now: i64,
        events: &mut Vec<SessionEvent>,
    )
        ensures
            forall|p: i32|
                #[trigger] final(self)@.contains_key(p) <==> old(self)@.contains_key(p) && observed(
                    observations@,
                    p,
                ),
            forall|p: i32| #[trigger] final(self)@.contains_key(p) ==> final(self)@[p] == old(self)@[p],
            final(events)@.len() >= old(events)@.len(),
            event_views(final(events)@).subrange(0, old(events)@.len() as int) == event_views(
                old(events)@,
            ),
            closes_exactly(
                old(self)@,
                observations@,
                now,
                event_views(final(events)@).skip(old(events)@.len() as int),
            ),
    {
        let ghost mid = self@;
        let ghost kept = event_views(events@);
        let pids = self.open_pids();
        let mut k: usize = 0;
        proof {
            assert(event_views(events@) =~= kept + closes_of(mid, pids@.take(0), observations@, now));
            assert(self@ =~= mid.remove_keys(gone(pids@.take(0), observations@)));
        }
        while k < pids.len()
            invariant
                k <= pids.len(),
                pids@.no_duplicates(),
                forall|p: i32| mid.contains_key(p) <==> pids@.contains(p),
                event_views(events@) == kept + closes_of(
                    mid,
                    pids@.take(k as int),
                    observations@,
                    now,
                ),
                self@ == mid.remove_keys(gone(pids@.take(k as int), observations@)),
            decreases pids.len() - k,
        {
            let pid = pids[k];
            let ghost prev = self@;
            let ghost done = pids@.take(k as int);
            let ghost next = pids@.take(k + 1);
            proof {
                lemma_take_contains(pids@, k as int, pid);
                assert(pids@.contains(pids@[k as int]));
                assert(!done.contains(pid)) by {
                    if done.contains(pid) {
                        let j = choose|j: int| 0 <= j < done.len() && done[j] == pid;
                        assert(pids@[j] == pids@[k as int]);
                    }
                }
                assert(prev.contains_key(pid));
            }
            if !is_observed(observations, pid) {
                match self.active.remove(&pid) {
                    Some(session) => {
                        let ghost entry = session@;
                        let event = SessionEvent::Closed {
                            pid,
                            name: session.name,
                            started_at: session.started_at,
                            at: now,
                        };
                        proof {
                            assert(entry == prev[pid]);
                            assert(self@ =~= prev.remove(pid));
                            assert(event_views(events@.push(event)) =~= event_views(events@).push(
                                event@,
                            ));
                        }
                        events.push(event);
                    },
                    None => {
                        proof {
                            assert(false);
                        }
                    },
                }
            }
            proof {
                assert forall|p: i32| gone(next, observations@).contains(p) <==> gone(
                    done,
                    observations@,
                ).contains(p) || (p == pid && !observed(observations@, pid)) by {
                    lemma_take_contains(pids@, k as int, p);
                }
                assert(self@ =~= mid.remove_keys(gone(next, observations@)));
                assert(event_views(events@) =~= kept + closes_of(mid, next, observations@, now));
            }
            k += 1;
        }
        proof {
            assert(pids@.take(k as int) =~= pids@);
            let closes = closes_of(mid, pids@, observations@, now);
            let views = event_views(events@);
            lemma_closes_of(mid, pids@, observations@, now);
            assert(views.skip(kept.len() as int) =~= closes);
            assert(views.subrange(0, kept.len() as int) =~= kept);
            assert(closes_exactly(mid, observations@, now, closes));
        }
    }

    /// Reconciles the table with one snapshot taken at `now`.
    ///
    /// Every observed pid without an open session gets one, and every open
    /// session whose pid is no longer observed ends. The events come back in
    /// the order in which the store is to record them: the opened sessions
    /// first, then the closed ones. A pid that is in the table and in the
    /// snapshot keeps its session untouched, so a tick on an unchanged
    /// snapshot does nothing.
    pub fn tick(&mut self, observations: &Vec<ProcessObservation>, now: i64) -> (events: Vec<
        SessionEvent,
    >)
        ensures
            final(self)@ == table_after(old(self)@, observations@, now),
            tick_events(old(self)@, observations@, now, event_views(events@)),
    {
        let ghost before = self@;
        let mut events: Vec<SessionEvent> = Vec::new();
        self.open_new(observations, now, &mut events);
        let ghost mid = self@;
        let ghost opened = event_views(events@);
        self.close_gone(observations, now, &mut events);
        proof {
            let all = event_views(events@);
            let closes = all.skip(opened.len() as int);
            assert(all.len() == events@.len());
            assert(opened == opens(before, observations@, now));
            assert(closes_exactly(before, observations@, now, closes)) by {
                assert forall|k: int| 0 <= k < closes.len() implies {
                    let pid = (#[trigger] closes[k]).pid();
                    &&& before.contains_key(pid)
                    &&& !observed(observations@, pid)
                    &&& closes[k] == EventView::Closed {
                        pid,
                        name: before[pid].name,
                        started_at: before[pid].started_at,
                        at: now,
                    }
                } by {
                    let pid = closes[k].pid();
                    assert(mid.contains_key(pid));
                }
                assert forall|pid: i32| #[trigger]
                    before.contains_key(pid) && !observed(observations@, pid) implies exists|k: int|
                    0 <= k < closes.len() && (#[trigger] closes[k]).pid() == pid by {
                    assert(mid.contains_key(pid));
                }
            }
            assert(self@ =~= table_after(before, observations@, now));
        }
        events
    }
}

} // verus!
