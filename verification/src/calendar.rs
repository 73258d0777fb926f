//! The proleptic Gregorian calendar model: month and year lengths, and the
//! day index (number of days since the start of year 0) that orders dates.

use vstd::prelude::*;

verus! {

/// Earliest representable year of the timeline.
pub const MIN_YEAR: i32 = -262143;

/// Latest representable year of the timeline.
pub const MAX_YEAR: i32 = 262142;

/// A year is a leap year iff it is divisible by 4 but not by 100, or by 400.
pub open spec fn is_leap_year(y: int) -> bool {
    (y % 4 == 0 && y % 100 != 0) || y % 400 == 0
}

/// Number of days in year `y`.
pub open spec fn days_in_year(y: int) -> int {
    if is_leap_year(y) {
        366
    } else {
        365
    }
}

/// Number of days in the zero-based month `m0` of year `y`.
pub open spec fn days_in_month(y: int, m0: int) -> int {
    if m0 == 1 {
        if is_leap_year(y) {
            29
        } else {
            28
        }
    } else if m0 == 3 || m0 == 5 || m0 == 8 || m0 == 10 {
        30
    } else {
        31
    }
}

/// Number of days of year `y` that precede the first day of month `m0`.
pub open spec fn days_before_month(y: int, m0: int) -> int
    decreases m0,
{
    if m0 <= 0 {
        0
    } else {
        days_before_month(y, m0 - 1) + days_in_month(y, m0 - 1)
    }
}

/// Number of days between the first day of year 0 and the first day of year
/// `y`; negative for years before year 0.
pub open spec fn days_before_year(y: int) -> int
    decreases (if y >= 0 { y } else { -y }),
{
    if y == 0 {
        0
    } else if y > 0 {
        days_before_year(y - 1) + days_in_year(y - 1)
    } else {
        days_before_year(y + 1) - days_in_year(y)
    }
}

/// The day index of a calendar date: days since the first day of year 0.
pub open spec fn day_index(y: int, m0: int, d: int) -> int {
    days_before_year(y) + days_before_month(y, m0) + d - 1
}

/// A calendar date is valid when the year is representable, the month exists
/// and the day of month fits the month's length.
pub open spec fn valid_date(y: int, m0: int, d: int) -> bool {
    MIN_YEAR <= y <= MAX_YEAR && 0 <= m0 < 12 && 1 <= d <= days_in_month(y, m0)
}

/// Every month has between 28 and 31 days.
pub proof fn lemma_days_in_month_bounds(y: int, m0: int)
    ensures
        28 <= days_in_month(y, m0) <= 31,
{
}

/// Stepping one year forward adds that year's length to the day count.
pub proof fn lemma_days_before_year_succ(y: int)
    ensures
        days_before_year(y + 1) == days_before_year(y) + days_in_year(y),
{
    if y >= 0 {
        assert(days_before_year(y + 1) == days_before_year(y) + days_in_year(y));
    } else {
        assert(days_before_year(y) == days_before_year(y + 1) - days_in_year(y));
    }
}

/// `days_before_month` grows by at least 28 days per month.
pub proof fn lemma_days_before_month_mono(y: int, i: int, j: int)
    requires
        0 <= i <= j,
    ensures
        days_before_month(y, i) + 28 * (j - i) <= days_before_month(y, j),
    decreases j - i,
{
    if i < j {
        lemma_days_before_month_mono(y, i, j - 1);
        lemma_days_in_month_bounds(y, j - 1);
    }
}

/// The twelve months of a year together cover exactly the year's length.
pub proof fn lemma_days_before_month_full(y: int)
    ensures
        days_before_month(y, 12) == days_in_year(y),
{
    reveal_with_fuel(days_before_month, 13);
}

/// `days_before_year` grows by at least 365 days per year.
pub proof fn lemma_days_before_year_mono(y1: int, y2: int)
    requires
        y1 <= y2,
    ensures
        days_before_year(y1) + 365 * (y2 - y1) <= days_before_year(y2),
    decreases y2 - y1,
{
    if y1 < y2 {
        lemma_days_before_year_mono(y1, y2 - 1);
        lemma_days_before_year_succ(y2 - 1);
    }
}

/// `days_before_year` grows by at most 366 days per year.
pub proof fn lemma_days_before_year_bound(y1: int, y2: int)
    requires
        y1 <= y2,
    ensures
        days_before_year(y2) <= days_before_year(y1) + 366 * (y2 - y1),
    decreases y2 - y1,
{
    if y1 < y2 {
        lemma_days_before_year_bound(y1, y2 - 1);
        lemma_days_before_year_succ(y2 - 1);
    }
}

/// The day index of a valid date of year `y` falls within that year's days.
pub proof fn lemma_day_index_in_year(y: int, m0: int, d: int)
    requires
        valid_date(y, m0, d),
    ensures
        days_before_year(y) <= day_index(y, m0, d) < days_before_year(y + 1),
{
    lemma_days_before_month_mono(y, 0, m0);
    assert(days_before_month(y, m0 + 1) == days_before_month(y, m0) + days_in_month(y, m0));
    lemma_days_before_month_mono(y, m0 + 1, 12);
    lemma_days_before_month_full(y);
    lemma_days_before_year_succ(y);
}

/// The day index respects the lexicographic order of calendar dates.
pub proof fn lemma_day_index_order(y1: int, m1: int, d1: int, y2: int, m2: int, d2: int)
    requires
        valid_date(y1, m1, d1),
        valid_date(y2, m2, d2),
        (y1 < y2) || (y1 == y2 && m1 < m2) || (y1 == y2 && m1 == m2 && d1 < d2),
    ensures
        day_index(y1, m1, d1) < day_index(y2, m2, d2),
{
    if y1 < y2 {
        lemma_day_index_in_year(y1, m1, d1);
        lemma_day_index_in_year(y2, m2, d2);
        lemma_days_before_year_mono(y1 + 1, y2);
    } else if m1 < m2 {
        assert(days_before_month(y1, m1 + 1) == days_before_month(y1, m1) + days_in_month(y1, m1));
        lemma_days_before_month_mono(y1, m1 + 1, m2);
        lemma_days_before_month_mono(y2, m2, m2);
    }
}

/// Two valid dates with equal day indices are the same date.
pub proof fn lemma_day_index_injective(y1: int, m1: int, d1: int, y2: int, m2: int, d2: int)
    requires
        valid_date(y1, m1, d1),
        valid_date(y2, m2, d2),
        day_index(y1, m1, d1) == day_index(y2, m2, d2),
    ensures
        y1 == y2 && m1 == m2 && d1 == d2,
{
    if !(y1 == y2 && m1 == m2 && d1 == d2) {
        if (y1 < y2) || (y1 == y2 && m1 < m2) || (y1 == y2 && m1 == m2 && d1 < d2) {
            lemma_day_index_order(y1, m1, d1, y2, m2, d2);
        } else {
            lemma_day_index_order(y2, m2, d2, y1, m1, d1);
        }
    }
}

} // verus!
