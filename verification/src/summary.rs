use vstd::prelude::*;
use crate::date::DateKey;
use crate::timestamp::{Timestamp, ts_valid, ts_seconds, timestamp_seconds, minutes_of_seconds,
    lemma_ts_seconds_bound};
use crate::store::{Session, SessionStore, session_valid, sessions_wf, store_wf};

verus! {

/// One line of the monthly report: total worked time in a calendar month,
/// in whole minutes (the hours/minutes split is taken from this value).
#[derive(Clone, Copy, PartialEq, Eq, Structural, Debug)]
pub struct MonthTotal {
    pub year: u32,
    pub month: u32,
    pub minutes: i64,
}

/// The seconds charged for one session: its end, or `now` while it is still
/// open, minus its start.
pub open spec fn session_seconds(s: Session, now: Timestamp) -> int {
    (match s.end {
        Some(e) => ts_seconds(e),
        None => ts_seconds(now),
    }) - ts_seconds(s.start)
}

pub open spec fn sessions_total_seconds(ss: Seq<Session>, now: Timestamp) -> int
    decreases ss.len(),
{
    if ss.len() == 0 {
        0
    } else {
        sessions_total_seconds(ss.drop_last(), now) + session_seconds(ss.last(), now)
    }
}

/// The seconds charged against month `(y, mo)`: the sum over the records of
/// dates in that month of their sessions' seconds.
pub open spec fn month_seconds(
    m: Seq<(DateKey, Seq<Session>)>,
    y: int,
    mo: int,
    now: Timestamp,
) -> int
    decreases m.len(),
{
    if m.len() == 0 {
        0
    } else {
        month_seconds(m.drop_last(), y, mo, now) + if m.last().0.year == y && m.last().0.month
            == mo {
            sessions_total_seconds(m.last().1, now)
        } else {
            0
        }
    }
}

/// The seconds charged for the whole store: every session of every date.
pub open spec fn grand_seconds(m: Seq<(DateKey, Seq<Session>)>, now: Timestamp) -> int
    decreases m.len(),
{
    if m.len() == 0 {
        0
    } else {
        grand_seconds(m.drop_last(), now) + sessions_total_seconds(m.last().1, now)
    }
}

/// Every recorded session started no later than `now` (the evaluation
/// instant lies at or after everything on record).
pub open spec fn covers(m: Seq<(DateKey, Seq<Session>)>, now: Timestamp) -> bool {
    forall|i: int, q: int|
        0 <= i < m.len() && 0 <= q < m[i].1.len() ==> ts_seconds(
            (#[trigger] m[i].1[q]).start,
        ) <= ts_seconds(now)
}

pub open spec fn month_present(m: Seq<(DateKey, Seq<Session>)>, y: int, mo: int) -> bool {
    exists|i: int| 0 <= i < m.len() && (#[trigger] m[i]).0.year == y && m[i].0.month == mo
}

pub proof fn lemma_sessions_total_nonneg(ss: Seq<Session>, now: Timestamp)
    requires
        forall|q: int| 0 <= q < ss.len() ==> session_valid(#[trigger] ss[q]),
        forall|q: int|
            0 <= q < ss.len() ==> ts_seconds((#[trigger] ss[q]).start) <= ts_seconds(now),
    ensures
        sessions_total_seconds(ss, now) >= 0,
    decreases ss.len(),
{
    if ss.len() > 0 {
        lemma_sessions_total_nonneg(ss.drop_last(), now);
    }
}

/// A prefix of a session sequence never sums to more than the whole.
pub proof fn lemma_sessions_prefix_le(ss: Seq<Session>, q: int, now: Timestamp)
    requires
        0 <= q <= ss.len(),
        forall|k: int| 0 <= k < ss.len() ==> session_valid(#[trigger] ss[k]),
        forall|k: int|
            0 <= k < ss.len() ==> ts_seconds((#[trigger] ss[k]).start) <= ts_seconds(now),
    ensures
        0 <= sessions_total_seconds(ss.take(q), now) <= sessions_total_seconds(ss, now),
    decreases ss.len() - q,
{
    lemma_sessions_total_nonneg(ss.take(q), now);
    if q == ss.len() {
        assert(ss.take(q) =~= ss);
    } else {
        assert(ss.take(q + 1).drop_last() =~= ss.take(q));
        assert(ss.take(q + 1).last() == ss[q]);
        lemma_sessions_prefix_le(ss, q + 1, now);
    }
}

/// Truncating the records keeps the store well-formed and covered.
pub proof fn lemma_take_wf(m: Seq<(DateKey, Seq<Session>)>, i: int, now: Timestamp)
    requires
        store_wf(m),
        covers(m, now),
        0 <= i <= m.len(),
    ensures
        store_wf(m.take(i)),
        covers(m.take(i), now),
{
    let t = m.take(i);
    assert forall|a: int| 0 <= a < t.len() implies crate::date::date_valid((#[trigger] t[a]).0)
        && sessions_wf(t[a].1) by {
        assert(t[a] == m[a]);
    }
    assert forall|a: int, b: int| 0 <= a < b < t.len() implies (#[trigger] t[a]).0
        != (#[trigger] t[b]).0 by {
        assert(t[a] == m[a] && t[b] == m[b]);
    }
    assert forall|a: int, q: int|
        0 <= a < t.len() && 0 <= q < t[a].1.len() implies ts_seconds(
        (#[trigger] t[a].1[q]).start,
    ) <= ts_seconds(now) by {
        assert(m[a].1[q] == t[a].1[q]);
    }
}

pub proof fn lemma_grand_nonneg(m: Seq<(DateKey, Seq<Session>)>, now: Timestamp)
    requires
        store_wf(m),
        covers(m, now),
    ensures
        grand_seconds(m, now) >= 0,
    decreases m.len(),
{
    if m.len() > 0 {
        let m0 = m.drop_last();
        assert forall|i: int, q: int|
            0 <= i < m0.len() && 0 <= q < m0[i].1.len() implies ts_seconds(
            (#[trigger] m0[i].1[q]).start,
        ) <= ts_seconds(now) by {
            assert(m[i].1[q] == m0[i].1[q]);
        }
        lemma_grand_nonneg(m0, now);
        assert(sessions_wf(m[m.len() - 1].1));
        lemma_sessions_total_nonneg(m.last().1, now);
    }
}

/// A prefix of the records never sums to more than the whole store.
pub proof fn lemma_grand_take_le(m: Seq<(DateKey, Seq<Session>)>, i: int, now: Timestamp)
    requires
        store_wf(m),
        covers(m, now),
        0 <= i <= m.len(),
    ensures
        0 <= grand_seconds(m.take(i), now) <= grand_seconds(m, now),
    decreases m.len() - i,
{
    assert(store_wf(m.take(i)));
    assert forall|a: int, q: int|
        0 <= a < m.take(i).len() && 0 <= q < m.take(i)[a].1.len() implies ts_seconds(
        (#[trigger] m.take(i)[a].1[q]).start,
    ) <= ts_seconds(now) by {
        assert(m[a].1[q] == m.take(i)[a].1[q]);
    }
    lemma_grand_nonneg(m.take(i), now);
    if i == m.len() {
        assert(m.take(i) =~= m);
    } else {
        assert(m.take(i + 1).drop_last() =~= m.take(i));
        assert(m.take(i + 1).last() == m[i]);
        assert(sessions_wf(m[i].1));
        lemma_sessions_total_nonneg(m[i].1, now);
        lemma_grand_take_le(m, i + 1, now);
    }
}

/// A single month's total never exceeds the grand total.
pub proof fn lemma_month_le_grand(
    m: Seq<(DateKey, Seq<Session>)>,
    y: int,
    mo: int,
    now: Timestamp,
)
    requires
        store_wf(m),
        covers(m, now),
    ensures
        0 <= month_seconds(m, y, mo, now) <= grand_seconds(m, now),
    decreases m.len(),
{
    if m.len() > 0 {
        let m0 = m.drop_last();
        assert forall|i: int, q: int|
            0 <= i < m0.len() && 0 <= q < m0[i].1.len() implies ts_seconds(
            (#[trigger] m0[i].1[q]).start,
        ) <= ts_seconds(now) by {
            assert(m[i].1[q] == m0[i].1[q]);
        }
        lemma_month_le_grand(m0, y, mo, now);
        assert(sessions_wf(m[m.len() - 1].1));
        lemma_sessions_total_nonneg(m.last().1, now);
    }
}

/// A month no date of the records falls in is charged nothing.
pub proof fn lemma_month_absent(m: Seq<(DateKey, Seq<Session>)>, y: int, mo: int, now: Timestamp)
    requires
        !month_present(m, y, mo),
    ensures
        month_seconds(m, y, mo, now) == 0,
    decreases m.len(),
{
    if m.len() > 0 {
        assert forall|i: int|
            0 <= i < m.drop_last().len() implies !((#[trigger] m.drop_last()[i]).0.year == y
            && m.drop_last()[i].0.month == mo) by {
            assert(m[i] == m.drop_last()[i]);
        }
        lemma_month_absent(m.drop_last(), y, mo, now);
        assert(m.last() == m[m.len() - 1]);
    }
}

/// Linear scan for the accumulator slot of month `(y, mo)`.
fn find_month(acc: &Vec<(u32, u32, i64)>, y: u32, mo: u32) -> (r: Option<usize>)
    ensures
        match r {
            Some(k) => k < acc.len() && acc@[k as int].0 == y && acc@[k as int].1 == mo,
            None => forall|k2: int|
                0 <= k2 < acc@.len() ==> !((#[trigger] acc@[k2]).0 == y && acc@[k2].1 == mo),
        },
{
    let mut k: usize = 0;
    while k < acc.len()
        invariant
            k <= acc.len(),
            forall|k2: int| 0 <= k2 < k ==> !((#[trigger] acc@[k2]).0 == y && acc@[k2].1 == mo),
        decreases acc.len() - k,
    {
        if acc[k].0 == y && acc[k].1 == mo {
            return Some(k);
        }
        k = k + 1;
    }
    None
}

impl SessionStore {
    /// The monthly report: for every month that some recorded date falls in,
    /// the total worked minutes of that month, an open session being charged
    /// against `now`. Months appear once each, in order of first appearance
    /// among the records.
    pub fn summary(&self, now: &Timestamp) -> (totals: Vec<MonthTotal>)
        requires
            store_wf(self@),
            ts_valid(*now),
            covers(self@, *now),
            grand_seconds(self@, *now) <= i64::MAX,
        ensures
            forall|k: int|
                0 <= k < totals@.len() ==> (#[trigger] totals@[k]).minutes as int
                    == minutes_of_seconds(
                    month_seconds(self@, totals@[k].year as int, totals@[k].month as int, *now),
                ),
            forall|k: int|
                0 <= k < totals@.len() ==> month_present(
                    self@,
                    (#[trigger] totals@[k]).year as int,
                    totals@[k].month as int,
                ),
            forall|i: int|
                0 <= i < self@.len() ==> exists|k: int|
                    0 <= k < totals@.len() && (#[trigger] totals@[k]).year
                        == (#[trigger] self@[i]).0.year && totals@[k].month == self@[i].0.month,
            forall|k1: int, k2: int|
                0 <= k1 < k2 < totals@.len() ==> !((#[trigger] totals@[k1]).year
                    == (#[trigger] totals@[k2]).year && totals@[k1].month == totals@[k2].month),
    {
        let ghost m = self@;
        let now_secs = timestamp_seconds(now);
        let mut acc: Vec<(u32, u32, i64)> = Vec::new();
        let mut i: usize = 0;
        while i < self.records.len()
            invariant
                store_wf(m),
                covers(m, *now),
                ts_valid(*now),
                grand_seconds(m, *now) <= i64::MAX,
                m == self@,
                now_secs as int == ts_seconds(*now),
                i <= self.records.len(),
                m.len() == self.records.len(),
                forall|k: int|
                    0 <= k < acc@.len() ==> (#[trigger] acc@[k]).2 as int == month_seconds(
                        m.take(i as int),
                        acc@[k].0 as int,
                        acc@[k].1 as int,
                        *now,
                    ),
                forall|k: int|
                    0 <= k < acc@.len() ==> month_present(
                        m.take(i as int),
                        (#[trigger] acc@[k]).0 as int,
                        acc@[k].1 as int,
                    ),
                forall|j: int|
                    0 <= j < i ==> exists|k: int|
                        0 <= k < acc@.len() && (#[trigger] acc@[k]).0 == (#[trigger] m[j]).0.year
                            && acc@[k].1 == m[j].0.month,
                forall|k1: int, k2: int|
                    0 <= k1 < k2 < acc@.len() ==> !((#[trigger] acc@[k1]).0
                        == (#[trigger] acc@[k2]).0 && acc@[k1].1 == acc@[k2].1),
            decreases self.records.len() - i,
        {
            proof {
                assert(m[i as int] == (self.records@[i as int].date, self.records@[
                i as int].sessions@));
                assert(sessions_wf(m[i as int].1));
            }
            let y = self.records[i].date.year;
            let mo = self.records[i].date.month;
            let n = self.records[i].sessions.len();
            let ghost ss = m[i as int].1;
            let mut ds: i64 = 0;
            let mut q: usize = 0;
            while q < n
                invariant
                    store_wf(m),
                    covers(m, *now),
                    ts_valid(*now),
                    grand_seconds(m, *now) <= i64::MAX,
                    m == self@,
                    now_secs as int == ts_seconds(*now),
                    i < self.records.len(),
                    m.len() == self.records.len(),
                    n == self.records@[i as int].sessions@.len(),
                    ss == m[i as int].1,
                    ss == self.records@[i as int].sessions@,
                    q <= n,
                    ds as int == sessions_total_seconds(ss.take(q as int), *now),
                decreases n - q,
            {
                proof {
                    assert(sessions_wf(ss));
                    assert(session_valid(ss[q as int]));
                    assert(ts_seconds(ss[q as int].start) <= ts_seconds(*now));
                    lemma_ts_seconds_bound(*now);
                    lemma_ts_seconds_bound(ss[q as int].start);
                    match ss[q as int].end {
                        Some(e) => lemma_ts_seconds_bound(e),
                        None => (),
                    }
                    assert forall|k: int| 0 <= k < ss.len() implies ts_seconds(
                        (#[trigger] ss[k]).start,
                    ) <= ts_seconds(*now) by {
                        assert(m[i as int].1[k] == ss[k]);
                    }
                    lemma_sessions_prefix_le(ss, q as int + 1, *now);
                    crate::summary::lemma_record_le_grand(m, i as int, *now);
                    assert(ss.take(q as int + 1).drop_last() =~= ss.take(q as int));
                    assert(ss.take(q as int + 1).last() == ss[q as int]);
                }
                let s = self.records[i].sessions[q];
                let start_secs = timestamp_seconds(&s.start);
                let end_secs = match s.end {
                    Some(e) => timestamp_seconds(&e),
                    None => now_secs,
                };
                ds = ds + (end_secs - start_secs);
                q = q + 1;
            }
            proof {
                assert(ss.take(n as int) =~= ss);
                assert(m.take(i as int + 1).drop_last() =~= m.take(i as int));
                assert(m.take(i as int + 1).last() == m[i as int]);
                lemma_record_le_grand(m, i as int, *now);
            }
            let ghost acc0 = acc@;
            match find_month(&acc, y, mo) {
                Some(k) => {
                    proof {
                        assert(acc@[k as int].0 == y && acc@[k as int].1 == mo);
                        assert(acc@[k as int].2 as int == month_seconds(
                            m.take(i as int),
                            y as int,
                            mo as int,
                            *now,
                        ));
                        assert(month_seconds(m.take(i as int + 1), y as int, mo as int, *now)
                            == month_seconds(m.take(i as int), y as int, mo as int, *now)
                            + sessions_total_seconds(ss, *now));
                        lemma_take_wf(m, i as int + 1, *now);
                        lemma_take_wf(m, i as int, *now);
                        lemma_month_le_grand(m.take(i as int + 1), y as int, mo as int, *now);
                        lemma_grand_take_le(m, i as int + 1, *now);
                        lemma_month_le_grand(m.take(i as int), y as int, mo as int, *now);
                        lemma_sessions_total_nonneg(ss, *now);
                    }
                    let cur = acc[k];
                    acc.set(k, (cur.0, cur.1, cur.2 + ds));
                    proof {
                        assert forall|k2: int|
                            0 <= k2 < acc@.len() implies (#[trigger] acc@[k2]).2 as int
                            == month_seconds(
                            m.take(i as int + 1),
                            acc@[k2].0 as int,
                            acc@[k2].1 as int,
                            *now,
                        ) by {
                            if k2 != k as int {
                                assert(acc@[k2] == acc0[k2]);
                                assert(!(acc0[k2].0 == y && acc0[k2].1 == mo));
                            }
                        }
                        assert forall|j: int| 0 <= j < i as int + 1 implies exists|k2: int|
                            0 <= k2 < acc@.len() && (#[trigger] acc@[k2]).0
                                == (#[trigger] m[j]).0.year && acc@[k2].1 == m[j].0.month by {
                            if j < i as int {
                                let k2 = choose|k2: int|
                                    0 <= k2 < acc0.len() && (#[trigger] acc0[k2]).0 == m[j].0.year
                                        && acc0[k2].1 == m[j].0.month;
                                assert(acc@[k2].0 == acc0[k2].0 && acc@[k2].1 == acc0[k2].1);
                            } else {
                                assert(acc@[k as int].0 == m[j].0.year && acc@[k as int].1
                                    == m[j].0.month);
                            }
                        }
                        assert forall|k1: int, k2: int|
                            0 <= k1 < k2 < acc@.len() implies !((#[trigger] acc@[k1]).0
                            == (#[trigger] acc@[k2]).0 && acc@[k1].1 == acc@[k2].1) by {
                            assert(acc@[k1].0 == acc0[k1].0 && acc@[k1].1 == acc0[k1].1);
                            assert(acc@[k2].0 == acc0[k2].0 && acc@[k2].1 == acc0[k2].1);
                        }
                    }
                },
                None => {
                    proof {
                        if month_present(m.take(i as int), y as int, mo as int) {
                            let a = choose|a: int|
                                0 <= a < m.take(i as int).len() && (#[trigger] m.take(
                                    i as int,
                                )[a]).0.year == y as int && m.take(i as int)[a].0.month
                                    == mo as int;
                            assert(m[a] == m.take(i as int)[a]);
                            assert(exists|k2: int|
                                0 <= k2 < acc@.len() && (#[trigger] acc@[k2]).0 == m[a].0.year
                                    && acc@[k2].1 == m[a].0.month);
                            let k2 = choose|k2: int|
                                0 <= k2 < acc@.len() && (#[trigger] acc@[k2]).0 == m[a].0.year
                                    && acc@[k2].1 == m[a].0.month;
                            assert(false);
                        }
                        lemma_month_absent(m.take(i as int), y as int, mo as int, *now);
                        lemma_sessions_total_nonneg(ss, *now);
                    }
                    acc.push((y, mo, ds));
                    proof {
                        assert(m.take(i as int + 1)[i as int] == m[i as int]);
                        assert(month_present(m.take(i as int + 1), y as int, mo as int));
                        assert forall|k2: int|
                            0 <= k2 < acc@.len() implies (#[trigger] acc@[k2]).2 as int
                            == month_seconds(
                            m.take(i as int + 1),
                            acc@[k2].0 as int,
                            acc@[k2].1 as int,
                            *now,
                        ) by {
                            if k2 < acc@.len() - 1 {
                                assert(acc@[k2] == acc0[k2]);
                                assert(!(acc0[k2].0 == y && acc0[k2].1 == mo));
                            }
                        }
                        assert forall|j: int| 0 <= j < i as int + 1 implies exists|k2: int|
                            0 <= k2 < acc@.len() && (#[trigger] acc@[k2]).0
                                == (#[trigger] m[j]).0.year && acc@[k2].1 == m[j].0.month by {
                            if j < i as int {
                                let k2 = choose|k2: int|
                                    0 <= k2 < acc0.len() && (#[trigger] acc0[k2]).0 == m[j].0.year
                                        && acc0[k2].1 == m[j].0.month;
                                assert(acc@[k2] == acc0[k2]);
                            } else {
                                assert(acc@[acc@.len() - 1].0 == m[j].0.year && acc@[acc@.len()
                                    - 1].1 == m[j].0.month);
                            }
                        }
                    }
                },
            }
            i = i + 1;
        }
        proof {
            assert(m.take(i as int) =~= m);
        }
        let mut totals: Vec<MonthTotal> = Vec::new();
        let mut k: usize = 0;
        while k < acc.len()
            invariant
                k <= acc.len(),
                totals@.len() == k,
                forall|k2: int|
                    0 <= k2 < acc@.len() ==> (#[trigger] acc@[k2]).2 as int == month_seconds(
                        m,
                        acc@[k2].0 as int,
                        acc@[k2].1 as int,
                        *now,
                    ) && month_present(m, acc@[k2].0 as int, acc@[k2].1 as int),
                forall|j: int|
                    0 <= j < m.len() ==> exists|k2: int|
                        0 <= k2 < acc@.len() && (#[trigger] acc@[k2]).0 == (#[trigger] m[j]).0.year
                            && acc@[k2].1 == m[j].0.month,
                forall|k1: int, k2: int|
                    0 <= k1 < k2 < acc@.len() ==> !((#[trigger] acc@[k1]).0
                        == (#[trigger] acc@[k2]).0 && acc@[k1].1 == acc@[k2].1),
                forall|k2: int|
                    0 <= k2 < k ==> (#[trigger] totals@[k2]).year == acc@[k2].0 && totals@[k2].month
                        == acc@[k2].1 && totals@[k2].minutes as int == minutes_of_seconds(
                        month_seconds(m, acc@[k2].0 as int, acc@[k2].1 as int, *now),
                    ),
                store_wf(m),
                covers(m, *now),
                grand_seconds(m, *now) <= i64::MAX,
            decreases acc.len() - k,
        {
            proof {
                lemma_month_le_grand(m, acc@[k as int].0 as int, acc@[k as int].1 as int, *now);
            }
            let secs = acc[k].2;
            let mins = ((secs as u64) / 60) as i64;
            totals.push(MonthTotal { year: acc[k].0, month: acc[k].1, minutes: mins });
            k = k + 1;
        }
        proof {
            assert forall|j: int| 0 <= j < self@.len() implies exists|k2: int|
                0 <= k2 < totals@.len() && (#[trigger] totals@[k2]).year
                    == (#[trigger] self@[j]).0.year && totals@[k2].month == self@[j].0.month by {
                let k2 = choose|k2: int|
                    0 <= k2 < acc@.len() && (#[trigger] acc@[k2]).0 == m[j].0.year && acc@[k2].1
                        == m[j].0.month;
                assert(totals@[k2].year == acc@[k2].0 && totals@[k2].month == acc@[k2].1);
            }
        }
        totals
    }
}

/// The hours/minutes split of a whole-minute total, both truncated toward
/// zero: 90 minutes is 1 hour 30 min.
pub fn split_hours(minutes: i64) -> (r: (i64, i64))
    requires
        minutes >= 0,
    ensures
        r.0 as int == minutes as int / 60,
        r.1 as int == minutes as int % 60,
{
    ((((minutes as u64) / 60) as i64), (((minutes as u64) % 60) as i64))
}

impl SessionStore {
    /// Whether `summary` may be evaluated at `now`: every recorded session
    /// started no later than `now`, and the grand total fits a 64-bit count
    /// of seconds. Callers outside verified code test this before calling
    /// `summary`.
    pub fn summary_ready(&self, now: &Timestamp) -> (b: bool)
        requires
            store_wf(self@),
            ts_valid(*now),
        ensures
            b == (covers(self@, *now) && grand_seconds(self@, *now) <= i64::MAX),
    {
        let ghost m = self@;
        let now_secs = timestamp_seconds(now);
        let mut i: usize = 0;
        while i < self.records.len()
            invariant
                store_wf(m),
                m == self@,
                ts_valid(*now),
                now_secs as int == ts_seconds(*now),
                i <= self.records.len(),
                m.len() == self.records.len(),
                forall|a: int, q: int|
                    0 <= a < i && 0 <= q < m[a].1.len() ==> ts_seconds(
                        (#[trigger] m[a].1[q]).start,
                    ) <= ts_seconds(*now),
            decreases self.records.len() - i,
        {
            let n = self.records[i].sessions.len();
            proof {
                assert(m[i as int] == (self.records@[i as int].date, self.records@[
                i as int].sessions@));
                assert(sessions_wf(m[i as int].1));
            }
            let mut q: usize = 0;
            while q < n
                invariant
                    store_wf(m),
                    m == self@,
                    ts_valid(*now),
                    now_secs as int == ts_seconds(*now),
                    i < self.records.len(),
                    m.len() == self.records.len(),
                    n == self.records@[i as int].sessions@.len(),
                    m[i as int].1 == self.records@[i as int].sessions@,
                    q <= n,
                    forall|qq: int|
                        0 <= qq < q ==> ts_seconds((#[trigger] m[i as int].1[qq]).start)
                            <= ts_seconds(*now),
                decreases n - q,
            {
                proof {
                    assert(session_valid(m[i as int].1[q as int]));
                    lemma_ts_seconds_bound(m[i as int].1[q as int].start);
                }
                let s = self.records[i].sessions[q];
                if timestamp_seconds(&s.start) > now_secs {
                    return false;
                }
                q = q + 1;
            }
            i = i + 1;
        }
        proof {
            assert(covers(m, *now));
        }
        let mut acc: i64 = 0;
        let mut i2: usize = 0;
        while i2 < self.records.len()
            invariant
                store_wf(m),
                m == self@,
                covers(m, *now),
                ts_valid(*now),
                now_secs as int == ts_seconds(*now),
                i2 <= self.records.len(),
                m.len() == self.records.len(),
                acc as int == grand_seconds(m.take(i2 as int), *now),
            decreases self.records.len() - i2,
        {
            proof {
                assert(m[i2 as int] == (self.records@[i2 as int].date, self.records@[
                i2 as int].sessions@));
                assert(sessions_wf(m[i2 as int].1));
            }
            let n = self.records[i2].sessions.len();
            let ghost ss = m[i2 as int].1;
            let mut ds: i64 = 0;
            let mut q: usize = 0;
            while q < n
                invariant
                    store_wf(m),
                    m == self@,
                    covers(m, *now),
                    ts_valid(*now),
                    now_secs as int == ts_seconds(*now),
                    i2 < self.records.len(),
                    m.len() == self.records.len(),
                    n == self.records@[i2 as int].sessions@.len(),
                    ss == m[i2 as int].1,
                    ss == self.records@[i2 as int].sessions@,
                    q <= n,
                    acc as int == grand_seconds(m.take(i2 as int), *now),
                    ds as int == sessions_total_seconds(ss.take(q as int), *now),
                    0 <= ds,
                decreases n - q,
            {
                proof {
                    assert(session_valid(ss[q as int]));
                    assert(ts_seconds(ss[q as int].start) <= ts_seconds(*now));
                    lemma_ts_seconds_bound(*now);
                    lemma_ts_seconds_bound(ss[q as int].start);
                    match ss[q as int].end {
                        Some(e) => lemma_ts_seconds_bound(e),
                        None => (),
                    }
                    assert(ss.take(q as int + 1).drop_last() =~= ss.take(q as int));
                    assert(ss.take(q as int + 1).last() == ss[q as int]);
                    assert forall|k: int| 0 <= k < ss.len() implies session_valid(
                        #[trigger] ss[k],
                    ) && ts_seconds(ss[k].start) <= ts_seconds(*now) by {
                        assert(m[i2 as int].1[k] == ss[k]);
                    }
                    lemma_sessions_total_nonneg(ss.take(q as int + 1), *now);
                }
                let s = self.records[i2].sessions[q];
                let start_secs = timestamp_seconds(&s.start);
                let end_secs = match s.end {
                    Some(e) => timestamp_seconds(&e),
                    None => now_secs,
                };
                let step = end_secs - start_secs;
                proof {
                    assert(end_secs - start_secs == session_seconds(ss[q as int], *now));
                    assert(ds as int + step as int == sessions_total_seconds(
                        ss.take(q as int + 1),
                        *now,
                    ));
                }
                match ds.checked_add(step) {
                    Some(v) => {
                        ds = v;
                    },
                    None => {
                        proof {
                            lemma_overflow_means_large(m, i2 as int, q as int + 1, *now);
                            lemma_grand_take_le(m, i2 as int, *now);
                        }
                        return false;
                    },
                }
                q = q + 1;
            }
            proof {
                assert(ss.take(n as int) =~= ss);
                assert(m.take(i2 as int + 1).drop_last() =~= m.take(i2 as int));
                assert(m.take(i2 as int + 1).last() == m[i2 as int]);
            }
            match acc.checked_add(ds) {
                Some(v) => {
                    acc = v;
                },
                None => {
                    proof {
                        lemma_overflow_means_large(m, i2 as int, n as int, *now);
                        lemma_grand_take_le(m, i2 as int, *now);
                    }
                    return false;
                },
            }
            i2 = i2 + 1;
        }
        proof {
            assert(m.take(i2 as int) =~= m);
        }
        true
    }
}

/// If a running prefix of the grand sum already exceeds the 64-bit range,
/// the grand total does too: all terms are nonnegative.
proof fn lemma_overflow_means_large(
    m: Seq<(DateKey, Seq<Session>)>,
    i: int,
    q: int,
    now: Timestamp,
)
    requires
        store_wf(m),
        covers(m, now),
        0 <= i < m.len(),
        0 <= q <= m[i].1.len(),
    ensures
        grand_seconds(m.take(i), now) + sessions_total_seconds(m[i].1.take(q), now)
            <= grand_seconds(m, now),
{
    let ss = m[i].1;
    assert(sessions_wf(ss));
    assert forall|k: int| 0 <= k < ss.len() implies session_valid(#[trigger] ss[k]) && ts_seconds(
        ss[k].start,
    ) <= ts_seconds(now) by {
        assert(m[i].1[k] == ss[k]);
    }
    lemma_sessions_prefix_le(ss, q, now);
    assert(m.take(i + 1).drop_last() =~= m.take(i));
    assert(m.take(i + 1).last() == m[i]);
    assert(grand_seconds(m.take(i + 1), now) == grand_seconds(m.take(i), now)
        + sessions_total_seconds(ss, now));
    lemma_grand_take_le(m, i + 1, now);
}

/// One record's sessions never sum to more than the grand total.
pub proof fn lemma_record_le_grand(m: Seq<(DateKey, Seq<Session>)>, i: int, now: Timestamp)
    requires
        store_wf(m),
        covers(m, now),
        0 <= i < m.len(),
    ensures
        sessions_total_seconds(m[i].1, now) <= grand_seconds(m, now),
    decreases m.len(),
{
    lemma_grand_nonneg(m, now);
    if m.len() > 0 {
        let m0 = m.drop_last();
        assert forall|a: int, q: int|
            0 <= a < m0.len() && 0 <= q < m0[a].1.len() implies ts_seconds(
            (#[trigger] m0[a].1[q]).start,
        ) <= ts_seconds(now) by {
            assert(m[a].1[q] == m0[a].1[q]);
        }
        if i == m.len() - 1 {
            lemma_grand_nonneg(m0, now);
            assert(m.last() == m[i]);
        } else {
            lemma_record_le_grand(m0, i, now);
            assert(m0[i] == m[i]);
            assert(sessions_wf(m[m.len() - 1].1));
            lemma_sessions_total_nonneg(m.last().1, now);
        }
    }
}

} // verus!
