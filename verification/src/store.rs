use vstd::prelude::*;
use crate::date::{
    DateKey, date_valid, day_number, is_min_date, prev_date, lemma_prev_date, prev_day,
    lemma_day_number_bound,
};
use crate::timestamp::{
    Timestamp, ts_valid, ts_seconds, duration_minutes, minutes_between, lemma_ts_seconds_bound,
};

verus! {

/// One work session: a start instant and, once the session is closed, an end
/// instant. `end == None` means work is still in progress.
#[derive(Clone, Copy, PartialEq, Eq, Structural, Debug)]
pub struct Session {
    pub start: Timestamp,
    pub end: Option<Timestamp>,
}

/// All sessions recorded for one calendar date, in the order they were
/// started.
#[derive(Debug)]
pub struct DayRecord {
    pub date: DateKey,
    pub sessions: Vec<Session>,
}

/// The whole record-keeping state: a mapping from date to that date's
/// sessions. Dates are unique; a date with no sessions has no entry.
#[derive(Debug)]
pub struct SessionStore {
    pub records: Vec<DayRecord>,
}

/// What a `current` query reports.
#[derive(Clone, Copy, PartialEq, Eq, Structural, Debug)]
pub enum WorkReport {
    /// An open session begun at `start` was found; `minutes` whole minutes
    /// have elapsed since.
    Working { start: Timestamp, minutes: i64 },
    /// No open session is reachable: not working now.
    NotWorking,
}

/// What a `stop` command reports.
#[derive(Clone, Copy, PartialEq, Eq, Structural, Debug)]
pub enum StopOutcome {
    /// The open session on `date` was closed at `end` after `minutes` whole
    /// minutes of work.
    Stopped { date: DateKey, end: Timestamp, minutes: i64 },
    /// The latest session on `date` was already closed; nothing changed.
    AlreadyStopped { date: DateKey },
    /// The backward day-walk ran out of representable dates without finding
    /// any recorded session; nothing changed.
    NoStartEntry,
}

impl View for SessionStore {
    type V = Seq<(DateKey, Seq<Session>)>;

    open spec fn view(&self) -> Self::V {
        self.records@.map_values(|r: DayRecord| (r.date, r.sessions@))
    }
}

pub open spec fn session_valid(s: Session) -> bool {
    &&& ts_valid(s.start)
    &&& match s.end {
        Some(e) => ts_valid(e) && ts_seconds(e) > ts_seconds(s.start),
        None => true,
    }
}

pub open spec fn sessions_wf(ss: Seq<Session>) -> bool {
    &&& ss.len() > 0
    &&& forall|i: int| 0 <= i < ss.len() ==> session_valid(#[trigger] ss[i])
}

pub open spec fn store_wf(m: Seq<(DateKey, Seq<Session>)>) -> bool {
    &&& forall|i: int|
        0 <= i < m.len() ==> date_valid((#[trigger] m[i]).0) && sessions_wf(m[i].1)
    &&& forall|i: int, j: int| 0 <= i < j < m.len() ==> (#[trigger] m[i]).0 != (#[trigger] m[j]).0
}

pub open spec fn has_date(m: Seq<(DateKey, Seq<Session>)>, d: DateKey) -> bool {
    exists|i: int| 0 <= i < m.len() && (#[trigger] m[i]).0 == d
}

pub open spec fn date_idx(m: Seq<(DateKey, Seq<Session>)>, d: DateKey) -> int {
    choose|i: int| 0 <= i < m.len() && (#[trigger] m[i]).0 == d
}

/// The sessions recorded for date `d` (meaningful when `has_date(m, d)`).
pub open spec fn sessions_of(m: Seq<(DateKey, Seq<Session>)>, d: DateKey) -> Seq<Session> {
    m[date_idx(m, d)].1
}

pub proof fn lemma_date_idx_at(m: Seq<(DateKey, Seq<Session>)>, d: DateKey, i: int)
    requires
        store_wf(m),
        0 <= i < m.len(),
        m[i].0 == d,
    ensures
        date_idx(m, d) == i,
        has_date(m, d),
        sessions_of(m, d) == m[i].1,
{
    assert(0 <= i < m.len() && m[i].0 == d);
    let j = date_idx(m, d);
    if j != i {
        if j < i {
            assert(m[j].0 != m[i].0);
        } else {
            assert(m[i].0 != m[j].0);
        }
    }
}

/// The store after `start`: a new open session beginning at `now` is appended
/// to `today`'s sequence, which is created if absent.
pub open spec fn start_m(
    m: Seq<(DateKey, Seq<Session>)>,
    today: DateKey,
    now: Timestamp,
) -> Seq<(DateKey, Seq<Session>)> {
    let fresh = Session { start: now, end: None };
    if has_date(m, today) {
        let i = date_idx(m, today);
        m.update(i, (today, m[i].1.push(fresh)))
    } else {
        m.push((today, seq![fresh]))
    }
}

/// The date that the backward day-walk from `d` lands on: the first date,
/// walking day by day into the past, that has an entry in `m`; `None` if the
/// walk reaches the minimum representable date without finding one.
pub open spec fn target_date(m: Seq<(DateKey, Seq<Session>)>, d: DateKey) -> Option<DateKey>
    decreases day_number(d)
        when date_valid(d)
        via target_date_decreases
{
    if has_date(m, d) {
        Some(d)
    } else if is_min_date(d) {
        None
    } else {
        target_date(m, prev_date(d))
    }
}

#[via_fn]
proof fn target_date_decreases(m: Seq<(DateKey, Seq<Session>)>, d: DateKey) {
    if !has_date(m, d) && !is_min_date(d) {
        lemma_prev_date(d);
        lemma_day_number_bound(prev_date(d));
    }
}

/// The store and report after `stop`: the walk's target date has its latest
/// session closed at `now` if it was open; otherwise nothing changes.
pub open spec fn stop_m(
    m: Seq<(DateKey, Seq<Session>)>,
    today: DateKey,
    now: Timestamp,
) -> (Seq<(DateKey, Seq<Session>)>, StopOutcome) {
    match target_date(m, today) {
        None => (m, StopOutcome::NoStartEntry),
        Some(dt) => {
            let i = date_idx(m, dt);
            let ss = m[i].1;
            let last = ss[ss.len() - 1];
            match last.end {
                Some(_) => (m, StopOutcome::AlreadyStopped { date: dt }),
                None => {
                    let closed = Session { start: last.start, end: Some(now) };
                    (
                        m.update(i, (dt, ss.update(ss.len() - 1, closed))),
                        StopOutcome::Stopped {
                            date: dt,
                            end: now,
                            minutes: duration_minutes(last.start, now) as i64,
                        },
                    )
                },
            }
        },
    }
}

/// What `current` sees: the latest session on the walk's target date, but
/// only if that session is still open.
pub open spec fn fetch_latest_m(m: Seq<(DateKey, Seq<Session>)>, d: DateKey) -> Option<Session> {
    match target_date(m, d) {
        None => None,
        Some(dt) => {
            let ss = sessions_of(m, dt);
            let last = ss[ss.len() - 1];
            if last.end is None {
                Some(last)
            } else {
                None
            }
        },
    }
}

/// `now` lies strictly after the start of the session that `stop` would
/// close, so that a closed session's end stays strictly after its start.
pub open spec fn stop_now_ok(
    m: Seq<(DateKey, Seq<Session>)>,
    today: DateKey,
    now: Timestamp,
) -> bool {
    match target_date(m, today) {
        None => true,
        Some(dt) => {
            let ss = sessions_of(m, dt);
            let last = ss[ss.len() - 1];
            last.end is None ==> ts_seconds(now) > ts_seconds(last.start)
        },
    }
}

impl SessionStore {
    /// The empty store: no dates, no sessions.
    pub fn empty() -> (s: SessionStore)
        ensures
            s@ =~= Seq::<(DateKey, Seq<Session>)>::empty(),
            store_wf(s@),
    {
        SessionStore { records: Vec::new() }
    }

    /// Linear scan for the record of date `d`.
    fn find_date(&self, d: &DateKey) -> (r: Option<usize>)
        ensures
            match r {
                Some(i) => i < self.records.len() && self@[i as int].0 == *d && has_date(self@, *d),
                None => !has_date(self@, *d),
            },
    {
        let mut i: usize = 0;
        while i < self.records.len()
            invariant
                i <= self.records.len(),
                forall|j: int| 0 <= j < i ==> (#[trigger] self@[j]).0 != *d,
            decreases self.records.len() - i,
        {
            if self.records[i].date == *d {
                proof {
                    assert(self@[i as int] == (self.records@[i as int].date, self.records@[
                    i as int].sessions@));
                    assert(0 <= i < self@.len() && self@[i as int].0 == *d);
                }
                return Some(i);
            }
            i = i + 1;
        }
        None
    }

    /// The backward day-walk shared by `stop` and `current`: from `from`,
    /// step one day into the past until a recorded date is found or the
    /// minimum date is passed. Returns the found date and its index.
    fn walk_target(&self, from: &DateKey) -> (r: Option<(DateKey, usize)>)
        requires
            date_valid(*from),
        ensures
            match r {
                Some((dt, i)) => target_date(self@, *from) == Some(dt) && i < self.records.len()
                    && self@[i as int].0 == dt && date_valid(dt),
                None => target_date(self@, *from) is None,
            },
    {
        let mut cur: DateKey = *from;
        loop
            invariant
                date_valid(cur),
                target_date(self@, cur) == target_date(self@, *from),
            decreases day_number(cur),
        {
            match self.find_date(&cur) {
                Some(i) => {
                    return Some((cur, i));
                },
                None => {
                    match prev_day(&cur) {
                        Some(p) => {
                            proof {
                                lemma_day_number_bound(p);
                            }
                            cur = p;
                        },
                        None => {
                            return None;
                        },
                    }
                },
            }
        }
    }

    /// Record the start of a new work session at `now` under `today`,
    /// creating the date's sequence if absent. Deliberately does not check
    /// for an already-open session: a second `start` opens a second,
    /// independent session that shadows the first.
    pub fn start(&mut self, today: &DateKey, now: Timestamp)
        requires
            store_wf(old(self)@),
            date_valid(*today),
            ts_valid(now),
        ensures
            final(self)@ == start_m(old(self)@, *today, now),
            store_wf(final(self)@),
    {
        let fresh = Session { start: now, end: None };
        match self.find_date(today) {
            Some(i) => {
                proof {
                    lemma_date_idx_at(self@, *today, i as int);
                }
                self.records[i].sessions.push(fresh);
                proof {
                    assert(self@ =~~= start_m(old(self)@, *today, now));
                    assert forall|k: int| 0 <= k < self@.len() implies date_valid(
                        (#[trigger] self@[k]).0,
                    ) && sessions_wf(self@[k].1) by {
                        assert(date_valid(old(self)@[k].0) && sessions_wf(old(self)@[k].1));
                        if k == i {
                            assert(forall|q: int|
                                0 <= q < self@[k].1.len() - 1 ==> #[trigger] self@[k].1[q]
                                    == old(self)@[k].1[q]);
                        }
                    }
                }
            },
            None => {
                let mut ss: Vec<Session> = Vec::new();
                ss.push(fresh);
                self.records.push(DayRecord { date: *today, sessions: ss });
                proof {
                    assert(self@ =~~= start_m(old(self)@, *today, now));
                    assert forall|k: int| 0 <= k < self@.len() implies date_valid(
                        (#[trigger] self@[k]).0,
                    ) && sessions_wf(self@[k].1) by {
                        if k < self@.len() - 1 {
                            assert(date_valid(old(self)@[k].0) && sessions_wf(old(self)@[k].1));
                        }
                    }
                }
            },
        }
    }

    /// Close the latest session found by the backward day-walk from `today`:
    /// the cross-midnight policy attributes the session to the date it
    /// started on. Reports the close time and the session's whole minutes,
    /// or that it was already stopped, or that no start entry exists.
    pub fn stop(&mut self, today: &DateKey, now: Timestamp) -> (out: StopOutcome)
        requires
            store_wf(old(self)@),
            date_valid(*today),
            ts_valid(now),
            stop_now_ok(old(self)@, *today, now),
        ensures
            final(self)@ == stop_m(old(self)@, *today, now).0,
            out == stop_m(old(self)@, *today, now).1,
            store_wf(final(self)@),
    {
        match self.walk_target(today) {
            None => StopOutcome::NoStartEntry,
            Some((dt, i)) => {
                proof {
                    lemma_date_idx_at(self@, dt, i as int);
                }
                let n = self.records[i].sessions.len();
                proof {
                    assert(self@[i as int].1 == self.records@[i as int].sessions@);
                    assert(sessions_wf(self@[i as int].1));
                }
                let last = self.records[i].sessions[n - 1];
                proof {
                    assert(session_valid(self@[i as int].1[n - 1]));
                }
                match last.end {
                    Some(_) => StopOutcome::AlreadyStopped { date: dt },
                    None => {
                        let mins = minutes_between(&last.start, &now);
                        let closed = Session { start: last.start, end: Some(now) };
                        self.records[i].sessions.set(n - 1, closed);
                        proof {
                            assert(self@ =~~= stop_m(old(self)@, *today, now).0);
                            assert forall|k: int| 0 <= k < self@.len() implies date_valid(
                                (#[trigger] self@[k]).0,
                            ) && sessions_wf(self@[k].1) by {
                                assert(date_valid(old(self)@[k].0) && sessions_wf(old(self)@[k].1));
                                if k == i {
                                    assert(forall|q: int|
                                        0 <= q < self@[k].1.len() && q != n - 1
                                            ==> #[trigger] self@[k].1[q] == old(self)@[k].1[q]);
                                    assert(session_valid(closed));
                                }
                            }
                        }
                        StopOutcome::Stopped { date: dt, end: now, minutes: mins }
                    },
                }
            },
        }
    }

    /// The latest session on the walk's target date, if it is still open:
    /// the read-only lookup behind `current`.
    pub fn fetch_latest(&self, date: &DateKey) -> (r: Option<Session>)
        requires
            store_wf(self@),
            date_valid(*date),
        ensures
            r == fetch_latest_m(self@, *date),
            r matches Some(s) ==> session_valid(s) && s.end is None,
    {
        match self.walk_target(date) {
            None => None,
            Some((dt, i)) => {
                proof {
                    lemma_date_idx_at(self@, dt, i as int);
                }
                let n = self.records[i].sessions.len();
                proof {
                    assert(self@[i as int].1 == self.records@[i as int].sessions@);
                    assert(sessions_wf(self@[i as int].1));
                    assert(session_valid(self@[i as int].1[n - 1]));
                }
                let last = self.records[i].sessions[n - 1];
                if last.end.is_none() {
                    Some(last)
                } else {
                    None
                }
            },
        }
    }

    /// Whether `stop` may be called with `now`: true unless the session the
    /// backward walk would close started at or after `now`. Callers outside
    /// verified code test this before calling `stop`.
    pub fn stop_allowed(&self, today: &DateKey, now: &Timestamp) -> (b: bool)
        requires
            store_wf(self@),
            date_valid(*today),
            ts_valid(*now),
        ensures
            b == stop_now_ok(self@, *today, *now),
    {
        match self.walk_target(today) {
            None => true,
            Some((dt, i)) => {
                proof {
                    lemma_date_idx_at(self@, dt, i as int);
                }
                let n = self.records[i].sessions.len();
                proof {
                    assert(self@[i as int].1 == self.records@[i as int].sessions@);
                    assert(sessions_wf(self@[i as int].1));
                }
                let last = self.records[i].sessions[n - 1];
                proof {
                    assert(session_valid(self@[i as int].1[n - 1]));
                }
                match last.end {
                    Some(_) => true,
                    None => crate::timestamp::timestamp_seconds(now)
                        > crate::timestamp::timestamp_seconds(&last.start),
                }
            },
        }
    }

    /// The `current` report: elapsed whole minutes of the open session
    /// reachable from `date`, or "not working now".
    pub fn working(&self, date: &DateKey, now: Timestamp) -> (r: WorkReport)
        requires
            store_wf(self@),
            date_valid(*date),
            ts_valid(now),
        ensures
            r == match fetch_latest_m(self@, *date) {
                Some(s) => WorkReport::Working {
                    start: s.start,
                    minutes: duration_minutes(s.start, now) as i64,
                },
                None => WorkReport::NotWorking,
            },
    {
        match self.fetch_latest(date) {
            Some(s) => {
                let mins = minutes_between(&s.start, &now);
                WorkReport::Working { start: s.start, minutes: mins }
            },
            None => WorkReport::NotWorking,
        }
    }
}

} // verus!
