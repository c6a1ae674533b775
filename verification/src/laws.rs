use vstd::prelude::*;
use crate::date::{DateKey, date_valid, day_number, is_min_date, prev_date, lemma_prev_date};
use crate::timestamp::{Timestamp, ts_valid, ts_seconds, duration_minutes};
use crate::store::{
    Session, StopOutcome, session_valid, sessions_wf, store_wf, has_date, date_idx, sessions_of,
    lemma_date_idx_at, start_m, target_date, stop_m, stop_now_ok,
};
use crate::summary::{month_seconds, grand_seconds, sessions_total_seconds};

verus! {

/// The backward day-walk only ever lands on a date that is actually
/// recorded, and that date is a valid calendar date.
pub proof fn lemma_target_has(m: Seq<(DateKey, Seq<Session>)>, d: DateKey)
    requires
        date_valid(d),
    ensures
        match target_date(m, d) {
            Some(dt) => has_date(m, dt) && date_valid(dt),
            None => !has_date(m, d),
        },
    decreases day_number(d),
{
    if !has_date(m, d) && !is_min_date(d) {
        lemma_prev_date(d);
        crate::date::lemma_day_number_bound(prev_date(d));
        lemma_target_has(m, prev_date(d));
    }
}

/// Two stores with entries for exactly the same dates walk to the same
/// target.
pub proof fn lemma_target_same(
    m1: Seq<(DateKey, Seq<Session>)>,
    m2: Seq<(DateKey, Seq<Session>)>,
    d: DateKey,
)
    requires
        date_valid(d),
        forall|dd: DateKey| has_date(m1, dd) == has_date(m2, dd),
    ensures
        target_date(m1, d) == target_date(m2, d),
    decreases day_number(d),
{
    assert(has_date(m1, d) == has_date(m2, d));
    if !has_date(m1, d) && !is_min_date(d) {
        lemma_prev_date(d);
        crate::date::lemma_day_number_bound(prev_date(d));
        lemma_target_same(m1, m2, prev_date(d));
    }
}

/// What `start` does to the model: `today`'s sequence gains one open session
/// beginning at `now` (created as a singleton if the date was absent), every
/// other date is untouched, and well-formedness is preserved.
pub proof fn lemma_start_model(m: Seq<(DateKey, Seq<Session>)>, today: DateKey, now: Timestamp)
    requires
        store_wf(m),
        date_valid(today),
        ts_valid(now),
    ensures
        ({
            let fresh = Session { start: now, end: None };
            let m1 = start_m(m, today, now);
            &&& store_wf(m1)
            &&& has_date(m1, today)
            &&& sessions_of(m1, today) == if has_date(m, today) {
                sessions_of(m, today).push(fresh)
            } else {
                seq![fresh]
            }
            &&& forall|dd: DateKey| dd != today ==> #[trigger] has_date(m1, dd) == has_date(m, dd)
            &&& forall|dd: DateKey|
                has_date(m, dd) && dd != today ==> #[trigger] sessions_of(m1, dd) == sessions_of(
                    m,
                    dd,
                )
        }),
{
    let fresh = Session { start: now, end: None };
    let m1 = start_m(m, today, now);
    if has_date(m, today) {
        let i = date_idx(m, today);
        assert(0 <= i < m.len() && m[i].0 == today);
        assert(m1 == m.update(i, (today, m[i].1.push(fresh))));
        assert(forall|k: int| 0 <= k < m1.len() ==> (#[trigger] m1[k]).0 == m[k].0);
        assert forall|k: int| 0 <= k < m1.len() implies date_valid((#[trigger] m1[k]).0)
            && sessions_wf(m1[k].1) by {
            assert(date_valid(m[k].0) && sessions_wf(m[k].1));
            if k == i {
                assert(forall|q: int|
                    0 <= q < m1[k].1.len() - 1 ==> #[trigger] m1[k].1[q] == m[k].1[q]);
            }
        }
        assert(store_wf(m1));
        lemma_date_idx_at(m1, today, i);
        lemma_date_idx_at(m, today, i);
        assert forall|dd: DateKey| dd != today implies #[trigger] has_date(m1, dd) == has_date(
            m,
            dd,
        ) by {
            if has_date(m, dd) {
                let k = choose|k: int| 0 <= k < m.len() && (#[trigger] m[k]).0 == dd;
                assert(m1[k].0 == dd);
            }
            if has_date(m1, dd) {
                let k = choose|k: int| 0 <= k < m1.len() && (#[trigger] m1[k]).0 == dd;
                assert(m[k].0 == dd);
            }
        }
        assert forall|dd: DateKey| has_date(m, dd) && dd != today implies #[trigger] sessions_of(
            m1,
            dd,
        ) == sessions_of(m, dd) by {
            let k = choose|k: int| 0 <= k < m.len() && (#[trigger] m[k]).0 == dd;
            assert(m1[k].0 == dd);
            lemma_date_idx_at(m, dd, k);
            lemma_date_idx_at(m1, dd, k);
            assert(m1[k].1 == m[k].1);
        }
    } else {
        assert(m1 == m.push((today, seq![fresh])));
        assert forall|k: int| 0 <= k < m1.len() implies date_valid((#[trigger] m1[k]).0)
            && sessions_wf(m1[k].1) by {
            if k < m1.len() - 1 {
                assert(m1[k] == m[k]);
                assert(date_valid(m[k].0) && sessions_wf(m[k].1));
            } else {
                assert(m1[k] == (today, seq![fresh]));
            }
        }
        assert forall|k1: int, k2: int| 0 <= k1 < k2 < m1.len() implies (#[trigger] m1[k1]).0
            != (#[trigger] m1[k2]).0 by {
            if k2 < m1.len() - 1 {
                assert(m1[k1] == m[k1] && m1[k2] == m[k2]);
            } else {
                assert(m1[k1] == m[k1]);
                if m[k1].0 == today {
                    assert(has_date(m, today));
                }
            }
        }
        assert(store_wf(m1));
        assert(m1[m.len() as int].0 == today);
        lemma_date_idx_at(m1, today, m.len() as int);
        assert forall|dd: DateKey| dd != today implies #[trigger] has_date(m1, dd) == has_date(
            m,
            dd,
        ) by {
            if has_date(m, dd) {
                let k = choose|k: int| 0 <= k < m.len() && (#[trigger] m[k]).0 == dd;
                assert(m1[k].0 == dd);
            }
            if has_date(m1, dd) {
                let k = choose|k: int| 0 <= k < m1.len() && (#[trigger] m1[k]).0 == dd;
                assert(k < m.len());
                assert(m[k].0 == dd);
            }
        }
        assert forall|dd: DateKey| has_date(m, dd) && dd != today implies #[trigger] sessions_of(
            m1,
            dd,
        ) == sessions_of(m, dd) by {
            let k = choose|k: int| 0 <= k < m.len() && (#[trigger] m[k]).0 == dd;
            assert(m1[k].0 == dd);
            lemma_date_idx_at(m, dd, k);
            lemma_date_idx_at(m1, dd, k);
            assert(m1[k].1 == m[k].1);
        }
    }
}

/// What `stop` does to the model: if the walk finds no date, or the target
/// date's latest session is already closed, nothing changes and the outcome
/// says so; otherwise exactly that session is closed at `now`, every other
/// date is untouched, and well-formedness is preserved.
pub proof fn lemma_stop_model(m: Seq<(DateKey, Seq<Session>)>, today: DateKey, now: Timestamp)
    requires
        store_wf(m),
        date_valid(today),
        ts_valid(now),
        stop_now_ok(m, today, now),
    ensures
        ({
            let m1 = stop_m(m, today, now).0;
            let out = stop_m(m, today, now).1;
            &&& store_wf(m1)
            &&& forall|dd: DateKey| #[trigger] has_date(m1, dd) == has_date(m, dd)
            &&& match target_date(m, today) {
                None => m1 == m && out == StopOutcome::NoStartEntry,
                Some(dt) => {
                    let ss = sessions_of(m, dt);
                    let last = ss[ss.len() - 1];
                    match last.end {
                        Some(_) => m1 == m && out == StopOutcome::AlreadyStopped { date: dt },
                        None => {
                            &&& sessions_of(m1, dt) == ss.update(
                                ss.len() - 1,
                                Session { start: last.start, end: Some(now) },
                            )
                            &&& out == StopOutcome::Stopped {
                                date: dt,
                                end: now,
                                minutes: duration_minutes(last.start, now) as i64,
                            }
                            &&& forall|dd: DateKey|
                                has_date(m, dd) && dd != dt ==> #[trigger] sessions_of(m1, dd)
                                    == sessions_of(m, dd)
                        },
                    }
                },
            }
        }),
{
    lemma_target_has(m, today);
    match target_date(m, today) {
        None => {},
        Some(dt) => {
            let i = date_idx(m, dt);
            assert(0 <= i < m.len() && m[i].0 == dt);
            lemma_date_idx_at(m, dt, i);
            let ss = m[i].1;
            assert(sessions_wf(ss));
            let last = ss[ss.len() - 1];
            match last.end {
                Some(_) => {},
                None => {
                    let closed = Session { start: last.start, end: Some(now) };
                    let m1 = m.update(i, (dt, ss.update(ss.len() - 1, closed)));
                    assert(stop_m(m, today, now).0 == m1);
                    assert(forall|k: int| 0 <= k < m1.len() ==> (#[trigger] m1[k]).0 == m[k].0);
                    assert(session_valid(closed));
                    assert forall|k: int| 0 <= k < m1.len() implies date_valid(
                        (#[trigger] m1[k]).0,
                    ) && sessions_wf(m1[k].1) by {
                        assert(date_valid(m[k].0) && sessions_wf(m[k].1));
                        if k == i {
                            assert(forall|q: int|
                                0 <= q < m1[k].1.len() && q != ss.len() - 1
                                    ==> #[trigger] m1[k].1[q] == m[k].1[q]);
                        }
                    }
                    assert(store_wf(m1));
                    lemma_date_idx_at(m1, dt, i);
                    assert forall|dd: DateKey| #[trigger] has_date(m1, dd) == has_date(m, dd) by {
                        if has_date(m, dd) {
                            let k = choose|k: int| 0 <= k < m.len() && (#[trigger] m[k]).0 == dd;
                            assert(m1[k].0 == dd);
                        }
                        if has_date(m1, dd) {
                            let k = choose|k: int| 0 <= k < m1.len() && (#[trigger] m1[k]).0 == dd;
                            assert(m[k].0 == dd);
                        }
                    }
                    assert forall|dd: DateKey| has_date(m, dd) && dd != dt implies
                        #[trigger] sessions_of(m1, dd) == sessions_of(m, dd) by {
                        let k = choose|k: int| 0 <= k < m.len() && (#[trigger] m[k]).0 == dd;
                        assert(m1[k].0 == dd);
                        lemma_date_idx_at(m, dd, k);
                        lemma_date_idx_at(m1, dd, k);
                        assert(m1[k].1 == m[k].1);
                    }
                },
            }
        },
    }
}

/// A `start` at `t1` followed by a `stop` at a strictly later `t2`, with no
/// day change in between, closes exactly the session just opened: it runs
/// from `t1` to `t2`, its end lies strictly after its start, and the
/// reported duration is the whole minutes from `t1` to `t2`.
pub proof fn lemma_start_then_stop(
    m: Seq<(DateKey, Seq<Session>)>,
    today: DateKey,
    t1: Timestamp,
    t2: Timestamp,
)
    requires
        store_wf(m),
        date_valid(today),
        ts_valid(t1),
        ts_valid(t2),
        ts_seconds(t2) > ts_seconds(t1),
    ensures
        ({
            let m1 = start_m(m, today, t1);
            let m2 = stop_m(m1, today, t2).0;
            let out = stop_m(m1, today, t2).1;
            &&& store_wf(m1)
            &&& store_wf(m2)
            &&& out == StopOutcome::Stopped {
                date: today,
                end: t2,
                minutes: duration_minutes(t1, t2) as i64,
            }
            &&& sessions_of(m2, today).last() == Session { start: t1, end: Some(t2) }
            &&& ts_seconds(t2) > ts_seconds(t1)
        }),
{
    let fresh = Session { start: t1, end: None };
    lemma_start_model(m, today, t1);
    let m1 = start_m(m, today, t1);
    let ss = sessions_of(m1, today);
    assert(ss.last() == fresh);
    assert(target_date(m1, today) == Some(today));
    assert(stop_now_ok(m1, today, t2));
    lemma_stop_model(m1, today, t2);
}

/// The cross-midnight carry-over: `stop` on a date with no sessions, whose
/// previous day's latest session is still open, closes that previous day's
/// session, and the duration is measured against that session's own start.
pub proof fn lemma_cross_midnight_stop(
    m: Seq<(DateKey, Seq<Session>)>,
    today: DateKey,
    now: Timestamp,
)
    requires
        store_wf(m),
        date_valid(today),
        ts_valid(now),
        !is_min_date(today),
        !has_date(m, today),
        has_date(m, prev_date(today)),
        sessions_of(m, prev_date(today)).last().end is None,
        ts_seconds(now) > ts_seconds(sessions_of(m, prev_date(today)).last().start),
    ensures
        ({
            let yd = prev_date(today);
            let ss = sessions_of(m, yd);
            let last = ss.last();
            &&& target_date(m, today) == Some(yd)
            &&& stop_m(m, today, now).1 == StopOutcome::Stopped {
                date: yd,
                end: now,
                minutes: duration_minutes(last.start, now) as i64,
            }
            &&& sessions_of(stop_m(m, today, now).0, yd) == ss.update(
                ss.len() - 1,
                Session { start: last.start, end: Some(now) },
            )
        }),
{
    lemma_prev_date(today);
    let yd = prev_date(today);
    assert(target_date(m, today) == target_date(m, yd));
    assert(target_date(m, yd) == Some(yd));
    lemma_target_has(m, today);
    let i = date_idx(m, yd);
    lemma_date_idx_at(m, yd, i);
    assert(sessions_wf(m[i].1));
    assert(stop_now_ok(m, today, now));
    lemma_stop_model(m, today, now);
}

/// `stop` called again right after a `stop` that closed a session reports
/// "already stopped" and performs no mutation at all.
pub proof fn lemma_stop_twice(
    m: Seq<(DateKey, Seq<Session>)>,
    today: DateKey,
    now: Timestamp,
    now2: Timestamp,
)
    requires
        store_wf(m),
        date_valid(today),
        ts_valid(now),
        ts_valid(now2),
        stop_now_ok(m, today, now),
        stop_m(m, today, now).1 matches StopOutcome::Stopped { .. },
    ensures
        ({
            let m1 = stop_m(m, today, now).0;
            match target_date(m, today) {
                Some(dt) => stop_m(m1, today, now2) == (
                    m1,
                    StopOutcome::AlreadyStopped { date: dt },
                ),
                None => false,
            }
        }),
{
    lemma_target_has(m, today);
    lemma_stop_model(m, today, now);
    let m1 = stop_m(m, today, now).0;
    match target_date(m, today) {
        None => {
            assert(false);
        },
        Some(dt) => {
            let ss = sessions_of(m, dt);
            let last = ss[ss.len() - 1];
            assert(last.end is None);
            let closed = Session { start: last.start, end: Some(now) };
            lemma_target_same(m1, m, today);
            assert(target_date(m1, today) == Some(dt));
            let ss1 = sessions_of(m1, dt);
            assert(ss1 == ss.update(ss.len() - 1, closed));
            assert(ss1[ss1.len() - 1] == closed);
        },
    }
}

/// The sum, over a sequence of months, of each month's charged seconds.
pub open spec fn months_sum(
    months: Seq<(u32, u32)>,
    m: Seq<(DateKey, Seq<Session>)>,
    now: Timestamp,
) -> int
    decreases months.len(),
{
    if months.len() == 0 {
        0
    } else {
        months_sum(months.drop_last(), m, now) + month_seconds(
            m,
            months.last().0 as int,
            months.last().1 as int,
            now,
        )
    }
}

proof fn lemma_months_sum_empty(months: Seq<(u32, u32)>, now: Timestamp)
    ensures
        months_sum(months, Seq::<(DateKey, Seq<Session>)>::empty(), now) == 0,
    decreases months.len(),
{
    if months.len() > 0 {
        lemma_months_sum_empty(months.drop_last(), now);
    }
}

proof fn lemma_months_sum_no_match(
    months: Seq<(u32, u32)>,
    m: Seq<(DateKey, Seq<Session>)>,
    now: Timestamp,
)
    requires
        m.len() > 0,
        forall|k: int|
            0 <= k < months.len() ==> !((#[trigger] months[k]).0 == m.last().0.year && months[k].1
                == m.last().0.month),
    ensures
        months_sum(months, m, now) == months_sum(months, m.drop_last(), now),
    decreases months.len(),
{
    if months.len() > 0 {
        lemma_months_sum_no_match(months.drop_last(), m, now);
        assert(months.last() == months[months.len() - 1]);
    }
}

proof fn lemma_months_sum_one_match(
    months: Seq<(u32, u32)>,
    m: Seq<(DateKey, Seq<Session>)>,
    now: Timestamp,
)
    requires
        m.len() > 0,
        months_distinct(months),
        month_in(months, m.last().0.year, m.last().0.month),
    ensures
        months_sum(months, m, now) == months_sum(months, m.drop_last(), now)
            + sessions_total_seconds(m.last().1, now),
    decreases months.len(),
{
    let y = m.last().0.year;
    let mo = m.last().0.month;
    let k = choose|k: int| 0 <= k < months.len() && #[trigger] months[k] == (y, mo);
    if k == months.len() - 1 {
        assert(months.last() == months[months.len() - 1]);
        assert forall|k2: int|
            0 <= k2 < months.drop_last().len() implies !((#[trigger] months.drop_last()[k2]).0 == y
            && months.drop_last()[k2].1 == mo) by {
            assert(months.drop_last()[k2] == months[k2]);
            assert(months[k2] != months[k]);
        }
        lemma_months_sum_no_match(months.drop_last(), m, now);
    } else {
        assert(months.drop_last()[k] == months[k]);
        assert(month_in(months.drop_last(), y, mo));
        lemma_months_sum_one_match(months.drop_last(), m, now);
        assert(months.last() == months[months.len() - 1]);
        assert(months[k] != months[months.len() - 1]);
    }
}

/// Month `(y, mo)` occurs in `months`.
pub open spec fn month_in(months: Seq<(u32, u32)>, y: u32, mo: u32) -> bool {
    exists|k: int| 0 <= k < months.len() && #[trigger] months[k] == (y, mo)
}

/// Every recorded date's month occurs somewhere in `months`.
pub open spec fn months_cover(months: Seq<(u32, u32)>, m: Seq<(DateKey, Seq<Session>)>) -> bool {
    forall|i: int|
        0 <= i < m.len() ==> month_in(months, (#[trigger] m[i]).0.year, m[i].0.month)
}

/// No month occurs twice in `months`.
pub open spec fn months_distinct(months: Seq<(u32, u32)>) -> bool {
    forall|k1: int, k2: int|
        0 <= k1 < k2 < months.len() ==> #[trigger] months[k1] != #[trigger] months[k2]
}

/// The monthly totals partition the grand total: over any sequence of
/// distinct months that covers every recorded date's month — such as the one
/// `summary` reports — the per-month seconds add up exactly to the seconds
/// of all sessions in the store.
pub proof fn lemma_summary_partition(
    months: Seq<(u32, u32)>,
    m: Seq<(DateKey, Seq<Session>)>,
    now: Timestamp,
)
    requires
        months_distinct(months),
        months_cover(months, m),
    ensures
        months_sum(months, m, now) == grand_seconds(m, now),
    decreases m.len(),
{
    if m.len() == 0 {
        assert(m =~= Seq::<(DateKey, Seq<Session>)>::empty());
        lemma_months_sum_empty(months, now);
    } else {
        let m0 = m.drop_last();
        assert forall|i: int| 0 <= i < m0.len() implies month_in(
            months,
            (#[trigger] m0[i]).0.year,
            m0[i].0.month,
        ) by {
            assert(m0[i] == m[i]);
            assert(month_in(months, m[i].0.year, m[i].0.month));
        }
        lemma_summary_partition(months, m0, now);
        assert(m.last() == m[m.len() - 1]);
        assert(month_in(months, m.last().0.year, m.last().0.month));
        lemma_months_sum_one_match(months, m, now);
    }
}

} // verus!
