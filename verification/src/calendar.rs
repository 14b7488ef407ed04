//! Calendar dates as day numbers, and the calendar arithmetic that the
//! recurrence rules need, computed by `chrono`.
//!
//! A date is held as its day number in the proleptic Gregorian calendar,
//! January 1 of year 1 being day 1 (chrono's `num_days_from_ce`). Every day
//! number that chrono hands back lies between `MIN_DAY` and `MAX_DAY`, the day
//! numbers of `NaiveDate::MIN` and `NaiveDate::MAX`. Years, months and month
//! arithmetic are stated by the proleptic Gregorian day count below; the text
//! of a date, read or written, is only named.

use vstd::prelude::*;
use chrono::{Datelike, Duration, Months, NaiveDate};

verus! {

/// Day number of `NaiveDate::MIN`, January 1, 262144 BCE.
pub const MIN_DAY: i32 = -95746129;

/// Day number of `NaiveDate::MAX`, December 31, 262142 CE.
pub const MAX_DAY: i32 = 95745399;

/// Day number of January 1, 1970, `NaiveDate::default()`.
pub const EPOCH_DAY: i32 = 719163;

/// Lowest year of a representable date.
pub const MIN_YEAR: i32 = -262143;

/// Highest year of a representable date.
pub const MAX_YEAR: i32 = 262142;

/// A day number that chrono can represent.
pub open spec fn is_valid_day(day: int) -> bool {
    MIN_DAY <= day <= MAX_DAY
}

/// The day of the week of a day number, Monday being 0 and Sunday 6
/// (day 1, January 1 of year 1, is a Monday).
pub open spec fn weekday_index(day: int) -> int {
    (day - 1) % 7
}

/// The date that `NaiveDate::parse_from_str(s, "%Y-%m-%d")` reads from `s`.
pub uninterp spec fn parsed_ymd(s: Seq<char>) -> Option<int>;

/// The text that `format("%Y-%m-%d")` writes for a date.
pub uninterp spec fn formatted_ymd(day: int) -> Seq<char>;

// ---------------------------------------------------------------------------
// The proleptic Gregorian calendar on day numbers
// ---------------------------------------------------------------------------

/// A leap year of the proleptic Gregorian calendar.
pub open spec fn is_leap_year(y: int) -> bool {
    y % 4 == 0 && (y % 100 != 0 || y % 400 == 0)
}

/// The number of days of month `m` (1 to 12) of year `y`.
pub open spec fn days_in_month(y: int, m: int) -> int {
    if m == 2 {
        if is_leap_year(y) { 29 } else { 28 }
    } else if m == 4 || m == 6 || m == 9 || m == 11 {
        30
    } else {
        31
    }
}

/// The number of days of year `y` before the first of month `m`.
pub open spec fn days_before_month(y: int, m: int) -> int {
    let l: int = if is_leap_year(y) { 1 } else { 0 };
    if m <= 1 {
        0
    } else if m == 2 {
        31
    } else if m == 3 {
        59 + l
    } else if m == 4 {
        90 + l
    } else if m == 5 {
        120 + l
    } else if m == 6 {
        151 + l
    } else if m == 7 {
        181 + l
    } else if m == 8 {
        212 + l
    } else if m == 9 {
        243 + l
    } else if m == 10 {
        273 + l
    } else if m == 11 {
        304 + l
    } else {
        334 + l
    }
}

/// The number of days before January 1 of year `y`, counted from January 1
/// of year 1 (negative for earlier years).
pub open spec fn days_before_year(y: int) -> int {
    365 * (y - 1) + (y - 1) / 4 - (y - 1) / 100 + (y - 1) / 400
}

/// The day number of year `y`, month `m`, day `d`.
pub open spec fn day_number(y: int, m: int, d: int) -> int {
    days_before_year(y) + days_before_month(y, m) + d
}

/// A month from 1 to 12 and a day that the month has.
pub open spec fn is_valid_ymd(y: int, m: int, d: int) -> bool {
    1 <= m <= 12 && 1 <= d <= days_in_month(y, m)
}

/// The year, month and day of a day number.
pub open spec fn civil_of(day: int) -> (int, int, int) {
    choose|c: (int, int, int)| is_valid_ymd(c.0, c.1, c.2) && day_number(c.0, c.1, c.2) == day
}

/// The calendar year of a date (`Datelike::year`).
pub open spec fn year_of(day: int) -> int {
    civil_of(day).0
}

/// The calendar month of a date, 1 to 12 (`Datelike::month`).
pub open spec fn month_of(day: int) -> int {
    civil_of(day).1
}

/// The date with the given year, month and day of month, where there is one
/// and its year is representable (`NaiveDate::from_ymd_opt`).
pub open spec fn day_from_ymd(y: int, m: int, d: int) -> Option<int> {
    if is_valid_ymd(y, m, d) && MIN_YEAR <= y <= MAX_YEAR {
        Some(day_number(y, m, d))
    } else {
        None
    }
}

/// The date `months` months later, the day of month clamped to the end of a
/// shorter month (`NaiveDate::checked_add_months`).
pub open spec fn months_after(day: int, months: int) -> Option<int> {
    if months == 0 {
        Some(day)
    } else {
        let c = civil_of(day);
        let t = c.0 * 12 + c.1 - 1 + months;
        let y = t / 12;
        let m = t % 12 + 1;
        let d = if c.2 <= days_in_month(y, m) { c.2 } else { days_in_month(y, m) };
        day_from_ymd(y, m, d)
    }
}

/// A year has 365 days, 366 in a leap year.
pub proof fn lemma_year_length(y: int)
    ensures
        days_before_year(y + 1) == days_before_year(y) + 365 + (if is_leap_year(y) { 1int } else { 0int }),
{
    let a = y - 1;
    vstd::arithmetic::div_mod::lemma_fundamental_div_mod(a, 4);
    vstd::arithmetic::div_mod::lemma_fundamental_div_mod(a, 100);
    vstd::arithmetic::div_mod::lemma_fundamental_div_mod(a, 400);
    vstd::arithmetic::div_mod::lemma_fundamental_div_mod(y, 4);
    vstd::arithmetic::div_mod::lemma_fundamental_div_mod(y, 100);
    vstd::arithmetic::div_mod::lemma_fundamental_div_mod(y, 400);
    if y % 4 == 0 {
        vstd::arithmetic::div_mod::lemma_fundamental_div_mod_converse(a, 4, y / 4 - 1, 3);
    } else {
        vstd::arithmetic::div_mod::lemma_fundamental_div_mod_converse(a, 4, y / 4, y % 4 - 1);
    }
    if y % 100 == 0 {
        vstd::arithmetic::div_mod::lemma_fundamental_div_mod_converse(a, 100, y / 100 - 1, 99);
    } else {
        vstd::arithmetic::div_mod::lemma_fundamental_div_mod_converse(a, 100, y / 100, y % 100 - 1);
    }
    if y % 400 == 0 {
        vstd::arithmetic::div_mod::lemma_fundamental_div_mod_converse(a, 400, y / 400 - 1, 399);
    } else {
        vstd::arithmetic::div_mod::lemma_fundamental_div_mod_converse(a, 400, y / 400, y % 400 - 1);
    }
}

/// The year after `y` starts later than `y` does, by at least 365 days.
pub proof fn lemma_years_ordered(y: int, z: int)
    requires
        y < z,
    ensures
        days_before_year(y) + 365 <= days_before_year(z),
    decreases z - y,
{
    lemma_year_length(y);
    if y + 1 < z {
        lemma_years_ordered(y + 1, z);
    }
}

/// The month after month `m` of year `y`.
pub open spec fn next_month(y: int, m: int) -> (int, int) {
    if m == 12 { (y + 1, 1) } else { (y, m + 1) }
}

/// Month `m` of year `y` begins `days_in_month(y, m)` days before the month
/// after it.
pub proof fn lemma_month_length(y: int, m: int)
    requires
        1 <= m <= 12,
    ensures
        day_number(next_month(y, m).0, next_month(y, m).1, 1) == day_number(y, m, 1) + days_in_month(y, m),
        28 <= days_in_month(y, m) <= 31,
{
    lemma_year_length(y);
}

/// The dates of year `y` have day numbers from `days_before_year(y) + 1` to
/// `days_before_year(y + 1)`.
pub proof fn lemma_day_in_year(y: int, m: int, d: int)
    requires
        is_valid_ymd(y, m, d),
    ensures
        days_before_year(y) < day_number(y, m, d) <= days_before_year(y + 1),
{
    lemma_year_length(y);
}

/// Two valid dates with the same day number are the same date.
pub proof fn lemma_day_number_injective(a: (int, int, int), b: (int, int, int))
    requires
        is_valid_ymd(a.0, a.1, a.2),
        is_valid_ymd(b.0, b.1, b.2),
        day_number(a.0, a.1, a.2) == day_number(b.0, b.1, b.2),
    ensures
        a == b,
{
    lemma_day_in_year(a.0, a.1, a.2);
    lemma_day_in_year(b.0, b.1, b.2);
    if a.0 < b.0 {
        lemma_years_ordered(a.0 + 1, b.0 + 1);
        if a.0 + 1 < b.0 {
            lemma_years_ordered(a.0 + 1, b.0);
        }
        assert(false);
    }
    if b.0 < a.0 {
        if b.0 + 1 < a.0 {
            lemma_years_ordered(b.0 + 1, a.0);
        }
        assert(false);
    }
}

/// Some year holds day number `day`: searching upwards.
proof fn lemma_year_search_up(day: int, y: int) -> (r: int)
    requires
        days_before_year(y) < day,
    ensures
        days_before_year(r) < day <= days_before_year(r + 1),
    decreases day - days_before_year(y),
{
    lemma_year_length(y);
    if day <= days_before_year(y + 1) {
        y
    } else {
        lemma_year_search_up(day, y + 1)
    }
}

/// Some year holds day number `day`: searching downwards.
proof fn lemma_year_search_down(day: int, y: int) -> (r: int)
    requires
        day <= days_before_year(y + 1),
    ensures
        days_before_year(r) < day <= days_before_year(r + 1),
    decreases days_before_year(y + 1) - day,
{
    lemma_year_length(y);
    if days_before_year(y) < day {
        y
    } else {
        lemma_year_search_down(day, y - 1)
    }
}

/// Every day number is the day number of exactly one valid date, which
/// `civil_of` gives.
pub proof fn lemma_civil_of(day: int)
    ensures
        is_valid_ymd(civil_of(day).0, civil_of(day).1, civil_of(day).2),
        day_number(civil_of(day).0, civil_of(day).1, civil_of(day).2) == day,
{
    let y = if day > 0 { lemma_year_search_up(day, 1) } else { lemma_year_search_down(day, 0) };
    lemma_year_length(y);
    let o = day - days_before_year(y);
    let l: int = if is_leap_year(y) { 1 } else { 0 };
    let m: int = if o <= 31 {
        1
    } else if o <= 59 + l {
        2
    } else if o <= 90 + l {
        3
    } else if o <= 120 + l {
        4
    } else if o <= 151 + l {
        5
    } else if o <= 181 + l {
        6
    } else if o <= 212 + l {
        7
    } else if o <= 243 + l {
        8
    } else if o <= 273 + l {
        9
    } else if o <= 304 + l {
        10
    } else if o <= 334 + l {
        11
    } else {
        12
    };
    let c = (y, m, o - days_before_month(y, m));
    assert(is_valid_ymd(c.0, c.1, c.2) && day_number(c.0, c.1, c.2) == day);
}

/// The date of a valid year, month and day is that year, month and day.
pub proof fn lemma_civil_of_day_number(y: int, m: int, d: int)
    requires
        is_valid_ymd(y, m, d),
    ensures
        civil_of(day_number(y, m, d)) == (y, m, d),
{
    lemma_civil_of(day_number(y, m, d));
    lemma_day_number_injective(civil_of(day_number(y, m, d)), (y, m, d));
}

/// One month after a date lies in the next month, whose first day comes
/// between 28 and 31 days after the first day of the date's month.
pub proof fn lemma_one_month_after(day: int)
    requires
        months_after(day, 1) is Some,
    ensures
        year_of(months_after(day, 1).unwrap()) == next_month(year_of(day), month_of(day)).0,
        month_of(months_after(day, 1).unwrap()) == next_month(year_of(day), month_of(day)).1,
        day_number(year_of(months_after(day, 1).unwrap()), month_of(months_after(day, 1).unwrap()), 1)
            == day_number(year_of(day), month_of(day), 1) + days_in_month(year_of(day), month_of(day)),
        28 <= days_in_month(year_of(day), month_of(day)),
{
    lemma_civil_of(day);
    let c = civil_of(day);
    let t = c.0 * 12 + c.1;
    if c.1 == 12 {
        vstd::arithmetic::div_mod::lemma_fundamental_div_mod_converse(t, 12, c.0 + 1, 0);
    } else {
        vstd::arithmetic::div_mod::lemma_fundamental_div_mod_converse(t, 12, c.0, c.1);
    }
    let n = next_month(c.0, c.1);
    let d = if c.2 <= days_in_month(n.0, n.1) { c.2 } else { days_in_month(n.0, n.1) };
    assert(months_after(day, 1) == Some(day_number(n.0, n.1, d)));
    lemma_civil_of_day_number(n.0, n.1, d);
    lemma_month_length(c.0, c.1);
}

/// A date of a later month of a later or equal year has a larger day number.
pub proof fn lemma_later_month(y: int, m: int, d: int, y2: int, m2: int, d2: int)
    requires
        is_valid_ymd(y, m, d),
        is_valid_ymd(y2, m2, d2),
        y < y2 || (y == y2 && m < m2),
    ensures
        day_number(y, m, d) < day_number(y2, m2, d2),
{
    lemma_day_in_year(y, m, d);
    lemma_day_in_year(y2, m2, d2);
    if y < y2 {
        if y + 1 < y2 {
            lemma_years_ordered(y + 1, y2);
        }
    }
}

/// Adding some months gives a later date.
pub proof fn lemma_months_after_later(day: int, months: int)
    requires
        months > 0,
        months_after(day, months) is Some,
    ensures
        months_after(day, months).unwrap() > day,
{
    lemma_civil_of(day);
    let c = civil_of(day);
    let t = c.0 * 12 + c.1 - 1 + months;
    let y = t / 12;
    let m = t % 12 + 1;
    vstd::arithmetic::div_mod::lemma_fundamental_div_mod(t, 12);
    vstd::arithmetic::div_mod::lemma_mod_bound(t, 12);
    let d = if c.2 <= days_in_month(y, m) { c.2 } else { days_in_month(y, m) };
    assert(y > c.0 || (y == c.0 && m > c.1)) by {
        if y < c.0 {
            assert(t <= 12 * c.0 - 1) by (nonlinear_arith)
                requires t == 12 * y + t % 12, t % 12 < 12, y < c.0;
        }
    }
    lemma_later_month(c.0, c.1, c.2, y, m, d);
}

/// A representable day number lies in a representable year, and a date of a
/// representable year has a representable day number.
pub proof fn lemma_year_range(day: int)
    ensures
        is_valid_day(day) ==> MIN_YEAR <= year_of(day) <= MAX_YEAR,
        forall|y: int, m: int, d: int|
            is_valid_ymd(y, m, d) && MIN_YEAR <= y <= MAX_YEAR ==> is_valid_day(#[trigger] day_number(y, m, d)),
{
    lemma_civil_of(day);
    let c = civil_of(day);
    lemma_day_in_year(c.0, c.1, c.2);
    assert(days_before_year(MIN_YEAR as int) + 1 == MIN_DAY);
    assert(days_before_year(MAX_YEAR + 1) == MAX_DAY);
    if is_valid_day(day) {
        if c.0 < MIN_YEAR {
            if c.0 + 1 < MIN_YEAR {
                lemma_years_ordered(c.0 + 1, MIN_YEAR as int);
            }
        }
        if c.0 > MAX_YEAR {
            if MAX_YEAR + 1 < c.0 {
                lemma_years_ordered(MAX_YEAR + 1, c.0);
            }
        }
    }
    assert forall|y: int, m: int, d: int|
        is_valid_ymd(y, m, d) && MIN_YEAR <= y <= MAX_YEAR implies is_valid_day(#[trigger] day_number(y, m, d)) by {
        lemma_day_in_year(y, m, d);
        if MIN_YEAR < y {
            lemma_years_ordered(MIN_YEAR as int, y);
        }
        if y + 1 < MAX_YEAR + 1 {
            lemma_years_ordered(y + 1, MAX_YEAR + 1);
        }
    }
}

/// The days of the month of `day`, and the first four weeks of the month
/// after it, in day numbers from the first of the month.
pub proof fn lemma_days_around_month(day: int, j: int)
    ensures
        ({
            let y = year_of(day);
            let m = month_of(day);
            let first = day_number(y, m, 1);
            let dim = days_in_month(y, m);
            &&& 1 <= m <= 12
            &&& 28 <= dim <= 31
            &&& first <= day < first + dim
            &&& day - first + 1 == civil_of(day).2
            &&& 0 <= j < dim ==> civil_of(first + j) == (y, m, j + 1)
            &&& dim <= j < dim + 28 ==> month_of(first + j) == next_month(y, m).1
                && year_of(first + j) == next_month(y, m).0
        }),
{
    lemma_civil_of(day);
    let c = civil_of(day);
    lemma_month_length(c.0, c.1);
    let first = day_number(c.0, c.1, 1);
    let dim = days_in_month(c.0, c.1);
    if 0 <= j < dim {
        lemma_civil_of_day_number(c.0, c.1, j + 1);
    }
    if dim <= j < dim + 28 {
        let n = next_month(c.0, c.1);
        lemma_month_length(n.0, n.1);
        lemma_civil_of_day_number(n.0, n.1, j - dim + 1);
    }
}

/// One month after a representable date exists where the first day of the
/// next month is representable.
pub proof fn lemma_one_month_after_exists(day: int)
    requires
        is_valid_day(day),
        day_number(next_month(year_of(day), month_of(day)).0, next_month(year_of(day), month_of(day)).1, 1)
            <= MAX_DAY,
    ensures
        months_after(day, 1) is Some,
{
    lemma_civil_of(day);
    lemma_year_range(day);
    let c = civil_of(day);
    let t = c.0 * 12 + c.1;
    if c.1 == 12 {
        vstd::arithmetic::div_mod::lemma_fundamental_div_mod_converse(t, 12, c.0 + 1, 0);
    } else {
        vstd::arithmetic::div_mod::lemma_fundamental_div_mod_converse(t, 12, c.0, c.1);
    }
    let n = next_month(c.0, c.1);
    lemma_month_length(n.0, n.1);
    lemma_civil_of_day_number(n.0, n.1, 1);
    lemma_day_in_year(n.0, n.1, 1);
    lemma_year_range(day_number(n.0, n.1, 1));
    lemma_month_length(c.0, c.1);
}

/// The day of the month of a date.
pub open spec fn day_of_month(day: int) -> int {
    civil_of(day).2
}

/// Adding months moves the year and month on by that many months and keeps
/// the day of the month, clamped to the last day of a shorter month.
pub proof fn law_months_after_moves_month(day: int, months: int)
    requires
        months >= 0,
        months_after(day, months) is Some,
    ensures
        year_of(months_after(day, months).unwrap()) * 12 + month_of(months_after(day, months).unwrap())
            == year_of(day) * 12 + month_of(day) + months,
        day_of_month(months_after(day, months).unwrap()) == (if day_of_month(day) <= days_in_month(
            year_of(months_after(day, months).unwrap()),
            month_of(months_after(day, months).unwrap()),
        ) {
            day_of_month(day)
        } else {
            days_in_month(year_of(months_after(day, months).unwrap()), month_of(months_after(day, months).unwrap()))
        }),
{
    lemma_civil_of(day);
    if months > 0 {
        let c = civil_of(day);
        let t = c.0 * 12 + c.1 - 1 + months;
        vstd::arithmetic::div_mod::lemma_fundamental_div_mod(t, 12);
        vstd::arithmetic::div_mod::lemma_mod_bound(t, 12);
        let y = t / 12;
        let m = t % 12 + 1;
        let d = if c.2 <= days_in_month(y, m) { c.2 } else { days_in_month(y, m) };
        lemma_civil_of_day_number(y, m, d);
    }
}

/// Adding months to a representable date fails exactly when the year it
/// reaches is not representable; a day of the month that the target month
/// lacks never makes it fail.
pub proof fn law_months_after_fails_only_out_of_range(day: int, months: int)
    requires
        is_valid_day(day),
        months >= 0,
    ensures
        months_after(day, months) is None <==> !(MIN_YEAR <= (year_of(day) * 12 + month_of(day) - 1 + months) / 12
            <= MAX_YEAR),
{
    lemma_civil_of(day);
    lemma_year_range(day);
    let c = civil_of(day);
    let t = c.0 * 12 + c.1 - 1 + months;
    vstd::arithmetic::div_mod::lemma_fundamental_div_mod(t, 12);
    vstd::arithmetic::div_mod::lemma_mod_bound(t, 12);
    if months == 0 {
        vstd::arithmetic::div_mod::lemma_fundamental_div_mod_converse(t, 12, c.0, c.1 - 1);
    } else {
        let y = t / 12;
        let m = t % 12 + 1;
        lemma_month_length(y, m);
    }
}

/// Calls `NaiveDate::parse_from_str(s, "%Y-%m-%d")`; the contract claims that
/// the result is the name `parsed_ymd` of the text and that a parsed date is
/// representable.
#[verifier::external_body]
pub(crate) fn parse_ymd(s: &str) -> (r: Option<i32>)
    ensures
        parsed_ymd(s@) == (match r {
            Some(d) => Some(d as int),
            None => None::<int>,
        }),
        r matches Some(d) ==> is_valid_day(d as int),
{
    match NaiveDate::parse_from_str(s, "%Y-%m-%d") {
        Ok(date) => Some(date.num_days_from_ce()),
        Err(_) => None,
    }
}

/// Calls `NaiveDate::default()`; the contract claims that it is January 1,
/// 1970, as its documentation says.
#[verifier::external_body]
pub(crate) fn default_day() -> (d: i32)
    ensures
        d == EPOCH_DAY,
{
    NaiveDate::default().num_days_from_ce()
}

/// Calls `NaiveDate::format("%Y-%m-%d")` and renders it; the contract claims
/// only that the text is the name `formatted_ymd` of the date.
#[verifier::external_body]
pub(crate) fn format_ymd(day: i32) -> (r: String)
    requires
        is_valid_day(day as int),
    ensures
        r@ == formatted_ymd(day as int),
{
    let date = NaiveDate::from_num_days_from_ce_opt(day).expect("a representable day");
    date.format("%Y-%m-%d").to_string()
}

/// Calls `Datelike::year`; the contract claims that it is the year of the
/// date in the proleptic Gregorian calendar, within the representable years.
#[verifier::external_body]
pub(crate) fn year_of_day(day: i32) -> (y: i32)
    requires
        is_valid_day(day as int),
    ensures
        y as int == year_of(day as int),
{
    NaiveDate::from_num_days_from_ce_opt(day).expect("a representable day").year()
}

/// Calls `Datelike::month`; the contract claims that it is the month of the
/// date in the proleptic Gregorian calendar.
#[verifier::external_body]
pub(crate) fn month_of_day(day: i32) -> (m: u32)
    requires
        is_valid_day(day as int),
    ensures
        m as int == month_of(day as int),
{
    NaiveDate::from_num_days_from_ce_opt(day).expect("a representable day").month()
}

/// Calls `Datelike::weekday` and `Weekday::num_days_from_monday`; the contract
/// claims that the days of the week follow each other without a break, day 1
/// being a Monday.
#[verifier::external_body]
pub(crate) fn weekday_of_day(day: i32) -> (w: u32)
    requires
        is_valid_day(day as int),
    ensures
        w as int == weekday_index(day as int),
{
    NaiveDate::from_num_days_from_ce_opt(day).expect("a representable day").weekday().num_days_from_monday()
}

/// Calls `NaiveDate::from_ymd_opt`; the contract claims that it makes the
/// day number of a valid date of a representable year, and `None` otherwise.
#[verifier::external_body]
pub(crate) fn from_ymd(year: i32, month: u32, day: u32) -> (r: Option<i32>)
    ensures
        day_from_ymd(year as int, month as int, day as int) == (match r {
            Some(d) => Some(d as int),
            None => None::<int>,
        }),
{
    match NaiveDate::from_ymd_opt(year, month, day) {
        Some(date) => Some(date.num_days_from_ce()),
        None => None,
    }
}

/// Calls `date + Duration::days(n)`; the contract claims that the sum is the
/// day number `n` days later, for sums within the representable range (out of
/// it the call panics, which `requires` rules out).
#[verifier::external_body]
pub(crate) fn add_days(day: i32, n: i64) -> (r: i32)
    requires
        is_valid_day(day as int),
        is_valid_day(day + n),
    ensures
        r == day + n,
{
    let date = NaiveDate::from_num_days_from_ce_opt(day).expect("a representable day");
    (date + Duration::days(n)).num_days_from_ce()
}

/// Calls `NaiveDate::checked_add_months`; the contract claims what the
/// source shows: the year and month move on by `months`, the day is clamped to
/// the end of a shorter month, and a year out of range gives `None`.
#[verifier::external_body]
pub(crate) fn add_months(day: i32, months: u32) -> (r: Option<i32>)
    requires
        is_valid_day(day as int),
    ensures
        months_after(day as int, months as int) == (match r {
            Some(d) => Some(d as int),
            None => None::<int>,
        }),
{
    let date = NaiveDate::from_num_days_from_ce_opt(day).expect("a representable day");
    match date.checked_add_months(Months::new(months)) {
        Some(later) => Some(later.num_days_from_ce()),
        None => None,
    }
}

} // verus!
