use vstd::prelude::*;

verus! {

/// A calendar date in the proleptic Gregorian calendar.
/// The representable range is 0000-01-01 through 9999-12-31; the backward
/// day-walk used by `stop` and `current` bottoms out at the minimum date.
#[derive(Clone, Copy, PartialEq, Eq, Structural, Debug)]
pub struct DateKey {
    pub year: u32,
    pub month: u32,
    pub day: u32,
}

pub open spec fn is_leap_year(y: int) -> bool {
    (y % 4 == 0 && y % 100 != 0) || y % 400 == 0
}

pub open spec fn days_in_month(y: int, m: int) -> int {
    if m == 2 {
        if is_leap_year(y) { 29 } else { 28 }
    } else if m == 4 || m == 6 || m == 9 || m == 11 {
        30
    } else {
        31
    }
}

pub open spec fn date_valid(d: DateKey) -> bool {
    &&& d.year <= 9999
    &&& 1 <= d.month <= 12
    &&& 1 <= d.day <= days_in_month(d.year as int, d.month as int)
}

pub open spec fn year_length(y: int) -> int {
    if is_leap_year(y) { 366 } else { 365 }
}

pub open spec fn days_before_year(y: nat) -> int
    decreases y,
{
    if y == 0 { 0 } else { days_before_year((y - 1) as nat) + year_length(y - 1) }
}

pub open spec fn days_before_month(y: int, m: int) -> int
    decreases m,
{
    if m <= 1 { 0 } else { days_before_month(y, m - 1) + days_in_month(y, m - 1) }
}

/// The index of a date when all representable dates are counted in order,
/// with 0000-01-01 as day 0.
pub open spec fn day_number(d: DateKey) -> int {
    days_before_year(d.year as nat) + days_before_month(d.year as int, d.month as int) + d.day - 1
}

pub open spec fn is_min_date(d: DateKey) -> bool {
    d.year == 0 && d.month == 1 && d.day == 1
}

/// The calendar day immediately before `d` (meaningful when `d` is valid and
/// not the minimum date).
pub open spec fn prev_date(d: DateKey) -> DateKey {
    if d.day > 1 {
        DateKey { year: d.year, month: d.month, day: (d.day - 1) as u32 }
    } else if d.month > 1 {
        DateKey {
            year: d.year,
            month: (d.month - 1) as u32,
            day: days_in_month(d.year as int, d.month - 1) as u32,
        }
    } else {
        DateKey { year: (d.year - 1) as u32, month: 12, day: 31 }
    }
}

pub proof fn lemma_year_days(y: int)
    ensures
        days_before_month(y, 12) + days_in_month(y, 12) == year_length(y),
{
    reveal_with_fuel(days_before_month, 13);
}

pub proof fn lemma_days_before_month_bound(y: int, m: int)
    requires
        1 <= m <= 12,
    ensures
        0 <= days_before_month(y, m) <= 335,
{
    reveal_with_fuel(days_before_month, 13);
}

pub proof fn lemma_days_before_year_bound(y: nat)
    ensures
        365 * y <= days_before_year(y) <= 366 * y,
    decreases y,
{
    if y > 0 {
        lemma_days_before_year_bound((y - 1) as nat);
    }
}

pub proof fn lemma_day_number_bound(d: DateKey)
    requires
        date_valid(d),
    ensures
        0 <= day_number(d) < 3_700_000,
{
    lemma_days_before_year_bound(d.year as nat);
    lemma_days_before_month_bound(d.year as int, d.month as int);
}

/// Stepping back one day moves the day index down by exactly one and stays
/// inside the representable range.
pub proof fn lemma_prev_date(d: DateKey)
    requires
        date_valid(d),
        !is_min_date(d),
    ensures
        date_valid(prev_date(d)),
        day_number(prev_date(d)) + 1 == day_number(d),
{
    if d.day > 1 {
    } else if d.month > 1 {
    } else {
        lemma_year_days(d.year - 1);
    }
}

pub fn leap_year(y: u32) -> (b: bool)
    ensures
        b == is_leap_year(y as int),
{
    (y % 4 == 0 && y % 100 != 0) || y % 400 == 0
}

pub fn month_days(y: u32, m: u32) -> (n: u32)
    requires
        1 <= m <= 12,
    ensures
        n as int == days_in_month(y as int, m as int),
{
    if m == 2 {
        if leap_year(y) { 29 } else { 28 }
    } else if m == 4 || m == 6 || m == 9 || m == 11 {
        30
    } else {
        31
    }
}

pub fn date_is_valid(d: &DateKey) -> (b: bool)
    ensures
        b == date_valid(*d),
{
    d.year <= 9999 && 1 <= d.month && d.month <= 12 && 1 <= d.day && d.day <= month_days(
        d.year,
        d.month,
    )
}

/// The day index of `d`, computed by summing whole years and then whole
/// months before the date.
pub fn day_index(d: &DateKey) -> (n: u64)
    requires
        date_valid(*d),
    ensures
        n as int == day_number(*d),
{
    proof {
        lemma_days_before_month_bound(d.year as int, d.month as int);
    }
    let mut acc: u64 = 0;
    let mut y: u32 = 0;
    while y < d.year
        invariant
            y <= d.year,
            d.year <= 9999,
            acc as int == days_before_year(y as nat),
            acc <= 366 * (y as u64),
        decreases d.year - y,
    {
        acc = acc + if leap_year(y) { 366 } else { 365 };
        y = y + 1;
    }
    let mut m: u32 = 1;
    let mut macc: u64 = 0;
    while m < d.month
        invariant
            1 <= m <= d.month,
            d.month <= 12,
            macc as int == days_before_month(d.year as int, m as int),
            macc <= 366,
        decreases d.month - m,
    {
        proof {
            lemma_days_before_month_bound(d.year as int, m as int);
            if m + 1 <= 12 {
                lemma_days_before_month_bound(d.year as int, m + 1);
            }
        }
        macc = macc + (month_days(d.year, m) as u64);
        m = m + 1;
    }
    acc + macc + (d.day as u64) - 1
}

/// The previous calendar day, or `None` at the minimum representable date.
pub fn prev_day(d: &DateKey) -> (r: Option<DateKey>)
    requires
        date_valid(*d),
    ensures
        r == if is_min_date(*d) {
            Option::<DateKey>::None
        } else {
            Option::<DateKey>::Some(prev_date(*d))
        },
        !is_min_date(*d) ==> date_valid(prev_date(*d)) && day_number(prev_date(*d)) + 1
            == day_number(*d),
{
    proof {
        if !is_min_date(*d) {
            lemma_prev_date(*d);
        }
    }
    if d.day > 1 {
        Some(DateKey { year: d.year, month: d.month, day: d.day - 1 })
    } else if d.month > 1 {
        Some(DateKey { year: d.year, month: d.month - 1, day: month_days(d.year, d.month - 1) })
    } else if d.year > 0 {
        Some(DateKey { year: d.year - 1, month: 12, day: 31 })
    } else {
        None
    }
}

} // verus!
