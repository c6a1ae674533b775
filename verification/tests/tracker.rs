use timetrack::date::{prev_day, day_index, date_is_valid, DateKey};
use timetrack::timestamp::{minutes_between, timestamp_is_valid, Timestamp};
use timetrack::store::{Session, SessionStore, StopOutcome, WorkReport};
use timetrack::summary::split_hours;

fn date(y: u32, mo: u32, d: u32) -> DateKey {
    DateKey { year: y, month: mo, day: d }
}

fn ts(y: u32, mo: u32, d: u32, h: u32, mi: u32, s: u32, off: i32) -> Timestamp {
    Timestamp { date: date(y, mo, d), hour: h, minute: mi, second: s, offset_minutes: off }
}

fn start_session(store: &mut SessionStore, t: Timestamp) {
    assert!(date_is_valid(&t.date));
    assert!(timestamp_is_valid(&t));
    let d = t.date;
    store.start(&d, t);
}

#[test]
fn start_then_stop_same_day() {
    let mut store = SessionStore::empty();
    let today = date(2024, 1, 15);
    let t1 = ts(2024, 1, 15, 9, 0, 0, 60);
    let t2 = ts(2024, 1, 15, 10, 30, 0, 60);
    store.start(&today, t1);
    let out = store.stop(&today, t2);
    match out {
        StopOutcome::Stopped { date: d, end, minutes } => {
            assert_eq!(d, today);
            assert_eq!(end, t2);
            assert_eq!(minutes, 90);
        }
        _ => panic!("expected Stopped"),
    }
    let sessions = &store.records[0].sessions;
    assert_eq!(sessions.len(), 1);
    assert_eq!(sessions[0].start, t1);
    assert_eq!(sessions[0].end, Some(t2));
}

#[test]
fn stop_cross_midnight_closes_previous_day() {
    let mut store = SessionStore::empty();
    let yesterday = date(2024, 3, 31);
    let today = date(2024, 4, 1);
    let t1 = ts(2024, 3, 31, 23, 0, 0, 0);
    store.start(&yesterday, t1);
    let t2 = ts(2024, 4, 1, 0, 30, 0, 0);
    let out = store.stop(&today, t2);
    match out {
        StopOutcome::Stopped { date: d, end, minutes } => {
            assert_eq!(d, yesterday);
            assert_eq!(end, t2);
            // measured against the session's own 23:00 start, not today
            assert_eq!(minutes, 90);
        }
        _ => panic!("expected Stopped"),
    }
}

#[test]
fn stop_twice_reports_already_stopped() {
    let mut store = SessionStore::empty();
    let today = date(2024, 1, 15);
    store.start(&today, ts(2024, 1, 15, 9, 0, 0, 0));
    let t2 = ts(2024, 1, 15, 10, 0, 0, 0);
    let first = store.stop(&today, t2);
    assert!(matches!(first, StopOutcome::Stopped { .. }));
    let before = store.save();
    let second = store.stop(&today, ts(2024, 1, 15, 11, 0, 0, 0));
    match second {
        StopOutcome::AlreadyStopped { date: d } => assert_eq!(d, today),
        _ => panic!("expected AlreadyStopped"),
    }
    // no mutation: the snapshot is byte-for-byte the same
    assert_eq!(before, store.save());
    assert_eq!(store.records[0].sessions[0].end, Some(t2));
}

#[test]
fn stop_with_no_entries_reports_no_start() {
    let mut store = SessionStore::empty();
    let out = store.stop(&date(0, 1, 3), ts(0, 1, 3, 10, 0, 0, 0));
    assert!(matches!(out, StopOutcome::NoStartEntry));
}

#[test]
fn current_not_working_when_empty() {
    let store = SessionStore::empty();
    let r = store.working(&date(0, 1, 2), ts(0, 1, 2, 10, 0, 0, 0));
    assert!(matches!(r, WorkReport::NotWorking));
}

#[test]
fn current_not_working_when_latest_closed() {
    let mut store = SessionStore::empty();
    let today = date(2024, 1, 15);
    store.start(&today, ts(2024, 1, 15, 9, 0, 0, 0));
    store.stop(&today, ts(2024, 1, 15, 10, 0, 0, 0));
    let r = store.working(&today, ts(2024, 1, 15, 11, 0, 0, 0));
    assert!(matches!(r, WorkReport::NotWorking));
}

#[test]
fn current_reports_elapsed_minutes() {
    let mut store = SessionStore::empty();
    let today = date(2024, 1, 15);
    let t1 = ts(2024, 1, 15, 9, 0, 0, 0);
    store.start(&today, t1);
    let r = store.working(&today, ts(2024, 1, 15, 10, 30, 0, 0));
    match r {
        WorkReport::Working { start, minutes } => {
            assert_eq!(start, t1);
            assert_eq!(minutes, 90);
        }
        _ => panic!("expected Working"),
    }
}

#[test]
fn current_walks_back_to_open_previous_day() {
    let mut store = SessionStore::empty();
    store.start(&date(2024, 2, 29), ts(2024, 2, 29, 22, 0, 0, 0));
    let r = store.working(&date(2024, 3, 1), ts(2024, 3, 1, 1, 0, 0, 0));
    match r {
        WorkReport::Working { minutes, .. } => assert_eq!(minutes, 180),
        _ => panic!("expected Working"),
    }
}

#[test]
fn summary_single_90_minute_session() {
    let mut store = SessionStore::empty();
    let today = date(2024, 1, 15);
    store.start(&today, ts(2024, 1, 15, 9, 0, 0, 0));
    store.stop(&today, ts(2024, 1, 15, 10, 30, 0, 0));
    let now = ts(2024, 1, 16, 0, 0, 0, 0);
    assert!(store.summary_ready(&now));
    let totals = store.summary(&now);
    assert_eq!(totals.len(), 1);
    assert_eq!(totals[0].year, 2024);
    assert_eq!(totals[0].month, 1);
    assert_eq!(totals[0].minutes, 90);
    // reported as "1 hour 30 min"
    assert_eq!(split_hours(totals[0].minutes), (1, 30));
}

#[test]
fn summary_spanning_two_months() {
    let mut store = SessionStore::empty();
    let d1 = date(2024, 1, 30);
    store.start(&d1, ts(2024, 1, 30, 9, 0, 0, 0));
    store.stop(&d1, ts(2024, 1, 30, 10, 0, 0, 0));
    let d2 = date(2024, 1, 31);
    store.start(&d2, ts(2024, 1, 31, 9, 0, 0, 0));
    store.stop(&d2, ts(2024, 1, 31, 9, 45, 0, 0));
    let d3 = date(2024, 2, 1);
    store.start(&d3, ts(2024, 2, 1, 9, 0, 0, 0));
    store.stop(&d3, ts(2024, 2, 1, 11, 30, 0, 0));
    let now = ts(2024, 3, 1, 0, 0, 0, 0);
    assert!(store.summary_ready(&now));
    let totals = store.summary(&now);
    assert_eq!(totals.len(), 2);
    assert_eq!((totals[0].year, totals[0].month, totals[0].minutes), (2024, 1, 105));
    assert_eq!((totals[1].year, totals[1].month, totals[1].minutes), (2024, 2, 150));
    // combined minutes equal the sum of all individual session durations
    assert_eq!(totals[0].minutes + totals[1].minutes, 60 + 45 + 150);
}

#[test]
fn summary_charges_open_session_against_now() {
    let mut store = SessionStore::empty();
    let today = date(2024, 5, 2);
    store.start(&today, ts(2024, 5, 2, 9, 0, 0, 0));
    let now = ts(2024, 5, 2, 9, 40, 0, 0);
    assert!(store.summary_ready(&now));
    let totals = store.summary(&now);
    assert_eq!(totals.len(), 1);
    assert_eq!(totals[0].minutes, 40);
}

#[test]
fn double_start_shadows_first_session() {
    let mut store = SessionStore::empty();
    let today = date(2024, 1, 15);
    store.start(&today, ts(2024, 1, 15, 9, 0, 0, 0));
    store.start(&today, ts(2024, 1, 15, 9, 30, 0, 0));
    let out = store.stop(&today, ts(2024, 1, 15, 10, 0, 0, 0));
    match out {
        StopOutcome::Stopped { minutes, .. } => assert_eq!(minutes, 30),
        _ => panic!("expected Stopped"),
    }
    // the first session is orphaned: it stays open forever
    assert_eq!(store.records[0].sessions.len(), 2);
    assert!(store.records[0].sessions[0].end.is_none());
    // and summary still charges it against now
    let now = ts(2024, 1, 15, 11, 0, 0, 0);
    let totals = store.summary(&now);
    assert_eq!(totals[0].minutes, 120 + 30);
}

#[test]
fn stop_walks_many_days_back() {
    let mut store = SessionStore::empty();
    store.start(&date(2024, 1, 15), ts(2024, 1, 15, 22, 0, 0, 0));
    let out = store.stop(&date(2024, 3, 15), ts(2024, 3, 15, 10, 30, 0, 0));
    match out {
        StopOutcome::Stopped { date: d, minutes, .. } => {
            assert_eq!(d, date(2024, 1, 15));
            assert_eq!(minutes, 60 * 1440 - 1320 + 630);
        }
        _ => panic!("expected Stopped"),
    }
}

#[test]
fn stop_exhausts_walk_on_empty_store() {
    let mut store = SessionStore::empty();
    let out = store.stop(&date(2024, 6, 1), ts(2024, 6, 1, 12, 0, 0, 0));
    assert!(matches!(out, StopOutcome::NoStartEntry));
}

#[test]
fn prev_day_crosses_month_and_year() {
    assert_eq!(prev_day(&date(2024, 3, 1)), Some(date(2024, 2, 29)));
    assert_eq!(prev_day(&date(2023, 3, 1)), Some(date(2023, 2, 28)));
    assert_eq!(prev_day(&date(2023, 1, 1)), Some(date(2022, 12, 31)));
    assert_eq!(prev_day(&date(2024, 3, 15)), Some(date(2024, 3, 14)));
    assert_eq!(prev_day(&date(0, 1, 1)), None);
}

#[test]
fn day_index_counts_from_minimum_date() {
    assert_eq!(day_index(&date(0, 1, 1)), 0);
    assert_eq!(day_index(&date(0, 1, 2)), 1);
    // year 0 is a leap year
    assert_eq!(day_index(&date(0, 12, 31)), 365);
    assert_eq!(day_index(&date(1, 1, 1)), 366);
}

#[test]
fn date_validity_checks() {
    assert!(date_is_valid(&date(2024, 2, 29)));
    assert!(!date_is_valid(&date(2023, 2, 29)));
    assert!(!date_is_valid(&date(2024, 13, 1)));
    assert!(!date_is_valid(&date(2024, 0, 1)));
    assert!(!date_is_valid(&date(10000, 1, 1)));
}

#[test]
fn minutes_truncate_toward_zero() {
    let a = ts(2024, 1, 1, 9, 0, 0, 0);
    let b = ts(2024, 1, 1, 9, 1, 29, 0);
    assert_eq!(minutes_between(&a, &b), 1);
    assert_eq!(minutes_between(&b, &a), -1);
}

#[test]
fn offsets_place_instants_on_one_axis() {
    // 09:00 at +01:00 is the same instant as 08:00 UTC
    let a = ts(2024, 1, 1, 9, 0, 0, 60);
    let b = ts(2024, 1, 1, 10, 0, 0, 0);
    assert_eq!(minutes_between(&a, &b), 120);
}

#[test]
fn split_hours_truncates() {
    assert_eq!(split_hours(90), (1, 30));
    assert_eq!(split_hours(125), (2, 5));
    assert_eq!(split_hours(59), (0, 59));
    assert_eq!(split_hours(0), (0, 0));
}

#[test]
fn stop_allowed_guards_clock() {
    let mut store = SessionStore::empty();
    let today = date(2024, 1, 15);
    let t1 = ts(2024, 1, 15, 9, 0, 0, 0);
    store.start(&today, t1);
    assert!(!store.stop_allowed(&today, &t1));
    assert!(store.stop_allowed(&today, &ts(2024, 1, 15, 9, 0, 1, 0)));
}

#[test]
fn start_session_helper_records_start() {
    let mut store = SessionStore::empty();
    start_session(&mut store, ts(2024, 6, 1, 8, 0, 0, 120));
    assert_eq!(store.records.len(), 1);
    assert_eq!(store.records[0].date, date(2024, 6, 1));
}
