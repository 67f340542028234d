//! Calendar arithmetic of the viewer: month navigation, month lengths, and
//! the layout of a month's grid of day cells.

use chrono::Datelike;
use vstd::prelude::*;

verus! {

/// The earliest year that `chrono::NaiveDate` represents.
pub const MIN_YEAR: i32 = -262143;

/// The latest year that `chrono::NaiveDate` represents.
pub const MAX_YEAR: i32 = 262142;

pub open spec fn is_leap_year(y: int) -> bool {
    (y % 4 == 0 && y % 100 != 0) || y % 400 == 0
}

/// Number of days of month `m` (1..=12) of year `y` in the proleptic Gregorian calendar.
pub open spec fn month_length(y: int, m: int) -> int {
    if m == 2 {
        if is_leap_year(y) {
            29
        } else {
            28
        }
    } else if m == 4 || m == 6 || m == 9 || m == 11 {
        30
    } else {
        31
    }
}

/// Days of year `y` before the first of month `m`.
pub open spec fn days_before_month(y: int, m: int) -> int
    decreases m,
{
    if m <= 1 {
        0
    } else {
        days_before_month(y, m - 1) + month_length(y, m - 1)
    }
}

/// Days before January 1 of year `y`, counted from January 1 of year 1.
pub open spec fn days_before_year(y: int) -> int {
    let p = y - 1;
    365 * p + p / 4 - p / 100 + p / 400
}

/// The day count of `chrono::Datelike::num_days_from_ce`: January 1 of year 1 is day 1.
pub open spec fn day_number(y: int, m: int, d: int) -> int {
    days_before_year(y) + days_before_month(y, m) + d
}

/// Whether `chrono::NaiveDate::from_ymd_opt(y, m, d)` gives a date.
pub open spec fn valid_date(y: int, m: int, d: int) -> bool {
    &&& MIN_YEAR <= y <= MAX_YEAR
    &&& 1 <= m <= 12
    &&& 1 <= d <= month_length(y, m)
}

/// The weekday number of the date `y-m-d`, from Monday = 0: January 1 of
/// year 1 of the proleptic Gregorian calendar was a Monday.
pub open spec fn weekday(y: int, m: int, d: int) -> int {
    (day_number(y, m, d) - 1) % 7
}

/// `chrono::NaiveDate::from_ymd_opt(y, m, d)`, read as its day number
/// (`num_days_from_ce`) and its weekday (`weekday().num_days_from_monday()`).
/// Stated: a date exists exactly for the valid triples of chrono's year range;
/// its day number counts days of the proleptic Gregorian calendar from
/// January 1 of year 1 as day 1; its weekday counts from Monday.
#[verifier::external_body]
fn chrono_date(y: i32, m: u32, d: u32) -> (r: Option<(i32, u32)>)
    ensures
        r is Some <==> valid_date(y as int, m as int, d as int),
        r matches Some((n, w)) ==> n == day_number(y as int, m as int, d as int) && w == weekday(
            y as int,
            m as int,
            d as int,
        ),
{
    match chrono::NaiveDate::from_ymd_opt(y, m, d) {
        Some(date) => Some((date.num_days_from_ce(), date.weekday().num_days_from_monday())),
        None => None,
    }
}

proof fn lemma_days_before_month_full(y: int)
    ensures
        days_before_month(y, 12) + 31 == 365 + (if is_leap_year(y) {
            1int
        } else {
            0
        }),
{
    reveal_with_fuel(days_before_month, 12);
}

proof fn lemma_year_length(y: int)
    ensures
        days_before_year(y + 1) - days_before_year(y) == 365 + (if is_leap_year(y) {
            1int
        } else {
            0
        }),
{
    assert(y / 4 - (y - 1) / 4 == (if y % 4 == 0 { 1int } else { 0 }));
    assert(y / 100 - (y - 1) / 100 == (if y % 100 == 0 { 1int } else { 0 }));
    assert(y / 400 - (y - 1) / 400 == (if y % 400 == 0 { 1int } else { 0 }));
}

/// The number of days in `month` of `year` (proleptic Gregorian).
pub fn days_in_month(year: i32, month: u32) -> (r: u32)
    requires
        1 <= month <= 12,
        MIN_YEAR <= year,
        month == 12 ==> year < MAX_YEAR,
        month < 12 ==> year <= MAX_YEAR,
    ensures
        r == month_length(year as int, month as int),
{
    let next = if month == 12 {
        chrono_date(year + 1, 1, 1)
    } else {
        chrono_date(year, month + 1, 1)
    };
    let first = chrono_date(year, month, 1);
    match (next, first) {
        (Some((n, _)), Some((f, _))) => {
            proof {
                if month == 12 {
                    lemma_year_length(year as int);
                    lemma_days_before_month_full(year as int);
                }
            }
            (n - f) as u32
        },
        _ => {
            assert(false);
            0
        },
    }
}

/// `(year, month)` moved by `delta` months.
pub open spec fn shifted(year: int, month: int, delta: int) -> (int, int) {
    let total = year * 12 + (month - 1) + delta;
    (total / 12, total % 12 + 1)
}

/// Moves `(year, month)` by `delta` months, across year boundaries.
pub fn shift_month(year: &mut i32, month: &mut u32, delta: i32)
    requires
        i32::MIN <= *old(year) as int * 12 <= i32::MAX,
        i32::MIN <= *old(year) as int * 12 + (*old(month) as i32 as int - 1) <= i32::MAX,
        i32::MIN <= *old(year) as int * 12 + (*old(month) as i32 as int - 1) + delta <= i32::MAX,
        (*old(month) as i32) > i32::MIN,
    ensures
        (*final(year) as int, *final(month) as int) == shifted(
            *old(year) as int,
            *old(month) as i32 as int,
            delta as int,
        ),
        1 <= *final(month) <= 12,
{
    let total = *year * 12 + (*month as i32 - 1) + delta;
    let q = match total.checked_div_euclid(12) {
        Some(q) => q,
        None => {
            assert(false);
            0
        },
    };
    let r = match total.checked_rem_euclid(12) {
        Some(r) => r,
        None => {
            assert(false);
            0
        },
    };
    *year = q;
    *month = r as u32 + 1;
}

/// Moving by `a` months and then by `b` months lands where moving by `a + b`
/// months does, and moving by zero months keeps a valid month.
pub proof fn lemma_shift_compose(year: int, month: int, a: int, b: int)
    requires
        1 <= month <= 12,
    ensures
        shifted(shifted(year, month, a).0, shifted(year, month, a).1, b) == shifted(
            year,
            month,
            a + b,
        ),
        shifted(year, month, 0) == (year, month),
        1 <= shifted(year, month, a).1 <= 12,
{
    let t = year * 12 + (month - 1) + a;
    let p = shifted(year, month, a);
    assert(p.0 * 12 + (p.1 - 1) == t);
    assert((year * 12 + (month - 1)) / 12 == year);
    assert((year * 12 + (month - 1)) % 12 == month - 1);
}

/// The layout of a month in a Monday-first grid of 7 columns: blank cells
/// before the first day, the days, and the rows they take.
pub struct MonthGrid {
    pub pad: u32,
    pub days: u32,
    pub rows: u32,
}

/// The grid of `month` of `year`: the first day falls in column `pad`
/// (its weekday from Monday), and the rows hold the pad and all the days.
pub fn month_grid(year: i32, month: u32) -> (r: MonthGrid)
    requires
        1 <= month <= 12,
        MIN_YEAR <= year,
        month == 12 ==> year < MAX_YEAR,
        month < 12 ==> year <= MAX_YEAR,
    ensures
        r.pad == weekday(year as int, month as int, 1),
        r.pad < 7,
        r.days == month_length(year as int, month as int),
        r.rows == (r.pad + r.days + 6) / 7,
{
    let pad = match chrono_date(year, month, 1) {
        Some((_, w)) => w,
        None => {
            assert(false);
            0
        },
    };
    let days = days_in_month(year, month);
    MonthGrid { pad, days, rows: (pad + days + 6) / 7 }
}

/// Row and column of day `d` (from 1) in a grid whose first `pad` cells are blank.
pub fn day_cell(pad: u32, d: u32) -> (r: (u32, u32))
    requires
        pad < 7,
        1 <= d <= 31,
    ensures
        r.0 == (pad + d - 1) / 7,
        r.1 == (pad + d - 1) % 7,
        r.1 < 7,
{
    let idx = pad + d - 1;
    (idx / 7, idx % 7)
}


proof fn lemma_days_before_month_step(y: int, m1: int, m2: int)
    requires
        1 <= m1 < m2 <= 13,
    ensures
        days_before_month(y, m2) >= days_before_month(y, m1) + month_length(y, m1),
    decreases m2,
{
    if m2 > m1 + 1 {
        lemma_days_before_month_step(y, m1, m2 - 1);
    }
}

proof fn lemma_date_in_year(y: int, m: int, d: int)
    requires
        1 <= m <= 12,
        1 <= d <= month_length(y, m),
    ensures
        days_before_year(y) < day_number(y, m, d) <= days_before_year(y + 1),
{
    if m > 1 {
        lemma_days_before_month_step(y, 1, m);
    }
    lemma_days_before_month_step(y, m, 13);
    lemma_days_before_month_full(y);
    lemma_year_length(y);
}

proof fn lemma_years_ascend(y1: int, y2: int)
    requires
        y1 < y2,
    ensures
        days_before_year(y1 + 1) <= days_before_year(y2),
    decreases y2 - y1,
{
    if y2 > y1 + 1 {
        lemma_years_ascend(y1, y2 - 1);
        lemma_year_length(y2 - 1);
    }
}

/// Calendar order is day-number order: for two dates of the calendar,
/// comparing year first, then month, then day tells which comes first,
/// exactly as their day numbers do.
pub proof fn lemma_date_order(a: (int, int, int), b: (int, int, int))
    requires
        1 <= a.1 <= 12 && 1 <= a.2 <= month_length(a.0, a.1),
        1 <= b.1 <= 12 && 1 <= b.2 <= month_length(b.0, b.1),
    ensures
        (a.0 < b.0 || (a.0 == b.0 && (a.1 < b.1 || (a.1 == b.1 && a.2 <= b.2)))) <==> day_number(
            a.0,
            a.1,
            a.2,
        ) <= day_number(b.0, b.1, b.2),
{
    lemma_date_in_year(a.0, a.1, a.2);
    lemma_date_in_year(b.0, b.1, b.2);
    if a.0 < b.0 {
        lemma_years_ascend(a.0, b.0);
    } else if b.0 < a.0 {
        lemma_years_ascend(b.0, a.0);
    } else if a.1 < b.1 {
        lemma_days_before_month_step(a.0, a.1, b.1);
    } else if b.1 < a.1 {
        lemma_days_before_month_step(a.0, b.1, a.1);
    }
}

} // verus!
