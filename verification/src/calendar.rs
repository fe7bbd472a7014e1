//! Days of the calendar.
use crate::clock::floor_div;
use crate::text::{
    beyond_width, lemma_order_of_parts, padded_text, padded_texts_follow_numbers, push_padded,
    push_signed, signed_text, text_before, text_order_is_total,
};
use vstd::prelude::*;
use vstd::string::*;

verus! {

/// Days from 0000-03-01 to 1970-01-01.
pub const DAYS_TO_EPOCH: i64 = 719_468;

/// Days in four hundred years.
pub const DAYS_IN_ERA: i64 = 146_097;

pub open spec fn is_leap(year: int) -> bool {
    year % 4 == 0 && (year % 100 != 0 || year % 400 == 0)
}

pub open spec fn year_length(year: int) -> int {
    if is_leap(year) {
        366
    } else {
        365
    }
}

pub open spec fn month_length(year: int, month: int) -> int {
    if month == 2 {
        if is_leap(year) {
            29
        } else {
            28
        }
    } else if month == 4 || month == 6 || month == 9 || month == 11 {
        30
    } else {
        31
    }
}

/// Leap years among the years before `year`, counted from year 1.
pub open spec fn leaps_before(year: int) -> int {
    (year - 1) / 4 - (year - 1) / 100 + (year - 1) / 400
}

/// Days from 1970-01-01 to the first of January of `year`.
pub open spec fn days_to_year(year: int) -> int {
    365 * (year - 1970) + leaps_before(year) - leaps_before(1970)
}

/// Days from the first of January of `year` to the first of `month`.
pub open spec fn days_to_month(year: int, month: int) -> int
    decreases month,
{
    if month <= 1 {
        0
    } else {
        days_to_month(year, month - 1) + month_length(year, month - 1)
    }
}

pub open spec fn is_date(year: int, month: int, day: int) -> bool {
    1 <= month <= 12 && 1 <= day <= month_length(year, month)
}

/// Days from 1970-01-01 to a date of the Gregorian calendar, which is taken to reach
/// back before its introduction.
pub open spec fn day_number(year: int, month: int, day: int) -> int {
    days_to_year(year) + days_to_month(year, month) + day - 1
}

/// Years of an era of four hundred years that are over after `doe` days, where a year
/// begins on the first of March and a leap day ends it.
spec fn days_to_era_year(yoe: int) -> int {
    365 * yoe + yoe / 4 - yoe / 100
}

proof fn lemma_year_of_era(doe: int, yoe: int)
    requires
        0 <= doe < DAYS_IN_ERA,
        yoe == (doe - doe / 1460 + doe / 36524 - doe / 146_096) / 365,
    ensures
        0 <= yoe < 400,
        days_to_era_year(yoe) <= doe,
        doe < days_to_era_year(yoe + 1) || (yoe == 399 && doe == 146_096),
{
}

/// The days before each month from March on, which come from the leap day on at a steady
/// pace.
proof fn lemma_months_from_march(y: int, mp: int)
    requires
        0 <= mp <= 9,
    ensures
        days_to_month(y, 1) == 0,
        days_to_month(y, 2) == 31,
        days_to_month(y, mp + 3) == (153 * mp + 2) / 5 + year_length(y) - 306,
{
    let leap = year_length(y) - 365;
    assert(days_to_month(y, 1) == 0);
    assert(days_to_month(y, 2) == 31);
    assert(days_to_month(y, 3) == 59 + leap);
    assert(days_to_month(y, 4) == 90 + leap);
    assert(days_to_month(y, 5) == 120 + leap);
    assert(days_to_month(y, 6) == 151 + leap);
    assert(days_to_month(y, 7) == 181 + leap);
    assert(days_to_month(y, 8) == 212 + leap);
    assert(days_to_month(y, 9) == 243 + leap);
    assert(days_to_month(y, 10) == 273 + leap);
    assert(days_to_month(y, 11) == 304 + leap);
    assert(days_to_month(y, 12) == 334 + leap);
}

/// The day number of a date in terms of a year that begins on the first of March:
/// `mp` months after it, on the given day of that month.
proof fn lemma_day_from_march(y: int, mp: int, d: int)
    requires
        0 <= mp <= 11,
    ensures
        mp <= 9 ==> day_number(y, mp + 3, d) == 365 * y + y / 4 - y / 100 + y / 400 + (153 * mp + 2)
            / 5 + d - 1 - DAYS_TO_EPOCH,
        mp >= 10 ==> day_number(y + 1, mp - 9, d) == 365 * y + y / 4 - y / 100 + y / 400 + (153 * mp
            + 2) / 5 + d - 1 - DAYS_TO_EPOCH,
{
    lemma_months_from_march(y + 1, 0);
    if mp <= 9 {
        lemma_months_from_march(y, mp);
        assert(y / 4 - (y - 1) / 4 == if y % 4 == 0 { 1int } else { 0 });
        assert(y / 100 - (y - 1) / 100 == if y % 100 == 0 { 1int } else { 0 });
        assert(y / 400 - (y - 1) / 400 == if y % 400 == 0 { 1int } else { 0 });
        assert(is_leap(y) <==> leaps_before(y + 1) - leaps_before(y) == 1);
    }
}

/// How a year, counted in eras, shares out its leap days.
proof fn lemma_year_in_era(era: int, yoe: int)
    requires
        0 <= yoe < 400,
    ensures
        ({
            let y = yoe + era * 400;
            365 * y + y / 4 - y / 100 + y / 400 == era * DAYS_IN_ERA + days_to_era_year(yoe)
        }),
        is_leap(yoe + era * 400 + 1) <==> (yoe == 399 || days_to_era_year(yoe + 1)
            - days_to_era_year(yoe) == 366),
{
    let y = yoe + era * 400;
    assert(y / 4 == yoe / 4 + era * 100);
    assert(y / 100 == yoe / 100 + era * 4);
    assert(y / 400 == era);
    assert((y + 1) % 4 == (yoe + 1) % 4);
    assert((y + 1) % 100 == (yoe + 1) % 100);
    assert((y + 1) % 400 == (yoe + 1) % 400);
}

/// The month and day that lie `doy` days after the first of March.
proof fn lemma_day_of_march_year(y: int, doy: int, mp: int, d: int)
    requires
        0 <= doy <= 365,
        doy == 365 ==> is_leap(y + 1),
        mp == (5 * doy + 2) / 153,
        d == doy - (153 * mp + 2) / 5 + 1,
    ensures
        0 <= mp <= 11,
        mp <= 9 ==> is_date(y, mp + 3, d),
        mp >= 10 ==> is_date(y + 1, mp - 9, d),
{
}

/// The date that lies `z` days after 1970-01-01.
pub fn civil_from_days(z: i64) -> (r: (i64, u32, u32))
    requires
        z + DAYS_TO_EPOCH <= i64::MAX,
    ensures
        is_date(r.0 as int, r.1 as int, r.2 as int),
        day_number(r.0 as int, r.1 as int, r.2 as int) == z,
{
    let shifted: i64 = z + DAYS_TO_EPOCH;
    let era: i64 = (if shifted >= 0 {
        shifted
    } else {
        shifted - 146_096
    }) / DAYS_IN_ERA;
    assert(era == shifted as int / 146_097);
    let doe: i64 = shifted - era * DAYS_IN_ERA;
    let yoe: i64 = (doe - doe / 1460 + doe / 36524 - doe / 146_096) / 365;
    proof {
        lemma_year_of_era(doe as int, yoe as int);
        lemma_year_in_era(era as int, yoe as int);
    }
    let y: i64 = yoe + era * 400;
    let doy: i64 = doe - (365 * yoe + yoe / 4 - yoe / 100);
    let mp: i64 = (5 * doy + 2) / 153;
    proof {
        lemma_day_of_march_year(y as int, doy as int, mp as int, doy - (153 * mp + 2) / 5 + 1);
        lemma_day_from_march(y as int, mp as int, doy - (153 * mp + 2) / 5 + 1);
    }
    let d: u32 = (doy - (153 * mp + 2) / 5 + 1) as u32;
    let m: u32 = (if mp < 10 {
        mp + 3
    } else {
        mp - 9
    }) as u32;
    (
        if m <= 2 {
            y + 1
        } else {
            y
        },
        m,
        d,
    )
}

/// A year is as long as its months together.
pub proof fn year_is_its_months(year: int)
    ensures
        days_to_year(year + 1) - days_to_year(year) == year_length(year),
        days_to_month(year, 13) == year_length(year),
{
    reveal_with_fuel(days_to_month, 14);
    assert(year / 4 - (year - 1) / 4 == if year % 4 == 0 { 1int } else { 0 });
    assert(year / 100 - (year - 1) / 100 == if year % 100 == 0 { 1int } else { 0 });
    assert(year / 400 - (year - 1) / 400 == if year % 400 == 0 { 1int } else { 0 });
}

/// Whether one date is earlier than another.
pub open spec fn date_before(a: (int, int, int), b: (int, int, int)) -> bool {
    a.0 < b.0 || (a.0 == b.0 && (a.1 < b.1 || (a.1 == b.1 && a.2 < b.2)))
}

proof fn lemma_years_grow(a: int, b: int)
    requires
        a <= b,
    ensures
        days_to_year(a) <= days_to_year(b),
    decreases b - a,
{
    if a < b {
        year_is_its_months(a);
        lemma_years_grow(a + 1, b);
    }
}

proof fn lemma_months_grow(year: int, a: int, b: int)
    requires
        1 <= a <= b,
    ensures
        0 <= days_to_month(year, a) <= days_to_month(year, b),
    decreases b,
{
    if a < b {
        lemma_months_grow(year, a, b - 1);
    } else if 1 < a {
        lemma_months_grow(year, a - 1, a - 1);
    }
}

/// The later of two dates has the larger day number.
pub proof fn day_numbers_follow_dates(a: (int, int, int), b: (int, int, int))
    requires
        is_date(a.0, a.1, a.2),
        is_date(b.0, b.1, b.2),
        date_before(a, b),
    ensures
        day_number(a.0, a.1, a.2) < day_number(b.0, b.1, b.2),
{
    if a.0 < b.0 {
        year_is_its_months(a.0);
        lemma_years_grow(a.0 + 1, b.0);
        lemma_months_grow(a.0, a.1 + 1, 13);
        lemma_months_grow(b.0, 1, b.1);
    } else if a.1 < b.1 {
        lemma_months_grow(a.0, a.1 + 1, b.1);
    }
}

/// A day has one date.
pub proof fn date_is_unique(a: (int, int, int), b: (int, int, int))
    requires
        is_date(a.0, a.1, a.2),
        is_date(b.0, b.1, b.2),
        day_number(a.0, a.1, a.2) == day_number(b.0, b.1, b.2),
    ensures
        a == b,
{
    if date_before(a, b) {
        day_numbers_follow_dates(a, b);
    } else if date_before(b, a) {
        day_numbers_follow_dates(b, a);
    }
}

/// The date that lies `z` days after 1970-01-01.
pub open spec fn date_of(z: int) -> (int, int, int) {
    choose|date: (int, int, int)|
        is_date(date.0, date.1, date.2) && #[trigger] day_number(date.0, date.1, date.2) == z
}

/// A date as year, month and day, with four, two and two digits.
pub open spec fn date_text(date: (int, int, int)) -> Seq<char> {
    signed_text(date.0, 4) + seq!['-'] + padded_text(date.1 as nat, 2) + seq!['-'] + padded_text(
        date.2 as nat,
        2,
    )
}

/// Milliseconds in a day.
pub const DAY_MS: i64 = 86_400_000;

/// The day that a time in milliseconds falls on, counted from the epoch.
pub open spec fn day_of(ms: int) -> int {
    ms / (DAY_MS as int)
}

/// The day that a time in milliseconds falls on, as text.
pub open spec fn day_text(ms: int) -> Seq<char> {
    date_text(date_of(day_of(ms)))
}

/// The day that a time falls on, counted in whole days of universal time, as
/// `YYYY-MM-DD`.
pub fn local_day(ms: i64) -> (r: String)
    ensures
        r@ == day_text(ms as int),
{
    let days_since_epoch: i64 = floor_div(ms, DAY_MS);
    let (y, m, d): (i64, u32, u32) = civil_from_days(days_since_epoch);
    proof {
        let date = date_of(days_since_epoch as int);
        assert(day_number(y as int, m as int, d as int) == days_since_epoch);
        date_is_unique(date, (y as int, m as int, d as int));
        lemma_year_in_range(y as int, m as int, d as int);
        reveal_strlit("-");
    }
    let mut r: String = String::new();
    push_signed(&mut r, y, 4);
    r.append("-");
    push_padded(&mut r, m as u64, 2);
    r.append("-");
    push_padded(&mut r, d as u64, 2);
    assert(r@ =~= day_text(ms as int));
    r
}

/// A date that a time in milliseconds can fall on has a year that can be negated.
proof fn lemma_year_in_range(year: int, month: int, day: int)
    requires
        is_date(year, month, day),
        day_number(year, month, day) >= i64::MIN / 86_400_000 - 1,
    ensures
        year > i64::MIN,
{
    if year <= i64::MIN {
        lemma_months_grow(year, month + 1, 13);
        year_is_its_months(year);
    }
}

/// Every day has a date.
pub proof fn every_day_has_a_date(z: int)
    ensures
        ({
            let date = date_of(z);
            is_date(date.0, date.1, date.2) && day_number(date.0, date.1, date.2) == z
        }),
{
    let shifted = z + DAYS_TO_EPOCH;
    let era = shifted / 146_097;
    let doe = shifted - era * DAYS_IN_ERA;
    let yoe = (doe - doe / 1460 + doe / 36524 - doe / 146_096) / 365;
    lemma_year_of_era(doe, yoe);
    lemma_year_in_era(era, yoe);
    let y = yoe + era * 400;
    let doy = doe - (365 * yoe + yoe / 4 - yoe / 100);
    let mp = (5 * doy + 2) / 153;
    let d = doy - (153 * mp + 2) / 5 + 1;
    lemma_day_of_march_year(y, doy, mp, d);
    lemma_day_from_march(y, mp, d);
    let date = if mp <= 9 {
        (y, mp + 3, d)
    } else {
        (y + 1, mp - 9, d)
    };
    assert(is_date(date.0, date.1, date.2) && day_number(date.0, date.1, date.2) == z);
}

/// Milliseconds from the epoch back to the year 0.
pub const FIRST_MS: i64 = -62_167_219_200_000;

/// Milliseconds from the epoch to the year 10000.
pub const LAST_MS: i64 = 253_402_300_800_000;

/// A time from the year 0 on, and before the year 10000, falls in a year of four digits.
proof fn lemma_four_digit_year(ms: int)
    requires
        FIRST_MS <= ms < LAST_MS,
    ensures
        ({
            let date = date_of(day_of(ms));
            &&& is_date(date.0, date.1, date.2)
            &&& day_number(date.0, date.1, date.2) == day_of(ms)
            &&& 0 <= date.0 <= 9999
        }),
{
    every_day_has_a_date(day_of(ms));
    let date = date_of(day_of(ms));
    assert(-719_528 <= day_of(ms) < 2_932_897);
    lemma_months_grow(date.0, 1, date.1);
    lemma_months_grow(date.0, date.1 + 1, 13);
    year_is_its_months(date.0);
    if date.0 < 0 {
        lemma_years_grow(date.0 + 1, 0);
        assert(days_to_year(0) == -719_528);
    }
    if date.0 > 9999 {
        lemma_years_grow(10000, date.0);
        assert(days_to_year(10000) == 2_932_897);
    }
}

proof fn lemma_day_text_order(a: int, b: int)
    requires
        FIRST_MS <= a < LAST_MS,
        FIRST_MS <= b < LAST_MS,
    ensures
        text_before(day_text(a), day_text(b)) <==> day_of(a) < day_of(b),
        day_text(a).len() == 10,
{
    lemma_four_digit_year(a);
    lemma_four_digit_year(b);
    let p = date_of(day_of(a));
    let q = date_of(day_of(b));
    if day_of(a) == day_of(b) {
        date_is_unique(p, q);
    } else if date_before(p, q) {
        day_numbers_follow_dates(p, q);
    } else if date_before(q, p) {
        day_numbers_follow_dates(q, p);
    }
    reveal_with_fuel(beyond_width, 5);
    padded_texts_follow_numbers(p.0 as nat, q.0 as nat, 4);
    padded_texts_follow_numbers(p.1 as nat, q.1 as nat, 2);
    padded_texts_follow_numbers(p.2 as nat, q.2 as nat, 2);
    let dash = seq!['-'];
    let (py, pm, pd) = (padded_text(p.0 as nat, 4), padded_text(p.1 as nat, 2), padded_text(p.2 as nat, 2));
    let (qy, qm, qd) = (padded_text(q.0 as nat, 4), padded_text(q.1 as nat, 2), padded_text(q.2 as nat, 2));
    assert(day_text(a) =~= py + (dash + (pm + (dash + pd))));
    assert(day_text(b) =~= qy + (dash + (qm + (dash + qd))));
    text_order_is_total(dash, dash);
    lemma_order_of_parts(py, qy, dash + (pm + (dash + pd)), dash + (qm + (dash + qd)));
    lemma_order_of_parts(dash, dash, pm + (dash + pd), qm + (dash + qd));
    lemma_order_of_parts(pm, qm, dash + pd, dash + qd);
    lemma_order_of_parts(dash, dash, pd, qd);
}

/// From the year 0 up to the year 10000 the texts of the days are ordered as the days are.
pub proof fn day_texts_follow_time(a: int, b: int)
    requires
        FIRST_MS <= a < LAST_MS,
        FIRST_MS <= b < LAST_MS,
    ensures
        text_before(day_text(a), day_text(b)) <==> day_of(a) < day_of(b),
        day_text(a) == day_text(b) <==> day_of(a) == day_of(b),
        day_text(a).len() == 10,
{
    lemma_day_text_order(a, b);
    lemma_day_text_order(b, a);
    text_order_is_total(day_text(a), day_text(b));
}

} // verus!
