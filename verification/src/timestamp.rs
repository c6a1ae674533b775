use vstd::prelude::*;
use crate::date::{
    DateKey, date_valid, date_is_valid, day_number, day_index, lemma_day_number_bound,
};

verus! {

/// An instant of local civil time: a calendar date, a time of day, and the
/// local offset from UTC in minutes (as carried by the snapshot format).
#[derive(Clone, Copy, PartialEq, Eq, Structural, Debug)]
pub struct Timestamp {
    pub date: DateKey,
    pub hour: u32,
    pub minute: u32,
    pub second: u32,
    pub offset_minutes: i32,
}

pub open spec fn ts_valid(t: Timestamp) -> bool {
    &&& date_valid(t.date)
    &&& t.hour < 24
    &&& t.minute < 60
    &&& t.second < 60
    &&& -1440 < t.offset_minutes < 1440
}

/// The instant `t` denotes, as seconds on a single absolute axis
/// (seconds since 0000-01-01T00:00:00 UTC), so that instants with different
/// offsets compare and subtract correctly.
pub open spec fn ts_seconds(t: Timestamp) -> int {
    day_number(t.date) * 86400 + t.hour * 3600 + t.minute * 60 + t.second - t.offset_minutes * 60
}

pub proof fn lemma_ts_seconds_bound(t: Timestamp)
    requires
        ts_valid(t),
    ensures
        -100_000 < ts_seconds(t) < 320_000_000_000,
{
    lemma_day_number_bound(t.date);
}

pub fn timestamp_is_valid(t: &Timestamp) -> (b: bool)
    ensures
        b == ts_valid(*t),
{
    date_is_valid(&t.date) && t.hour < 24 && t.minute < 60 && t.second < 60 && -1440
        < t.offset_minutes && t.offset_minutes < 1440
}

pub fn timestamp_seconds(t: &Timestamp) -> (s: i64)
    requires
        ts_valid(*t),
    ensures
        s as int == ts_seconds(*t),
{
    proof {
        lemma_day_number_bound(t.date);
    }
    let days = day_index(&t.date) as i64;
    days * 86400 + (t.hour as i64) * 3600 + (t.minute as i64) * 60 + (t.second as i64) - (
    t.offset_minutes as i64) * 60
}

/// Whole minutes in `n` seconds, truncated toward zero (the rounding the
/// reports use for durations).
pub open spec fn minutes_of_seconds(n: int) -> int {
    if n >= 0 {
        n / 60
    } else {
        -((-n) / 60)
    }
}

/// The duration from `a` to `b` in whole minutes, truncated toward zero.
pub open spec fn duration_minutes(a: Timestamp, b: Timestamp) -> int {
    minutes_of_seconds(ts_seconds(b) - ts_seconds(a))
}

pub fn minutes_between(a: &Timestamp, b: &Timestamp) -> (m: i64)
    requires
        ts_valid(*a),
        ts_valid(*b),
    ensures
        m as int == duration_minutes(*a, *b),
{
    proof {
        lemma_ts_seconds_bound(*a);
        lemma_ts_seconds_bound(*b);
    }
    let sa = timestamp_seconds(a);
    let sb = timestamp_seconds(b);
    if sb >= sa {
        (((sb - sa) as u64) / 60) as i64
    } else {
        -((((sa - sb) as u64) / 60) as i64)
    }
}

} // verus!
