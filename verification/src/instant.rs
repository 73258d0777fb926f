//! Instants on a single UTC-like timeline, minute-grained, held as a calendar
//! date plus a minute of day. The spec-level order is given by `stamp`, the
//! total number of minutes since the start of year 0.

use vstd::prelude::*;
use vstd::arithmetic::div_mod::*;
use crate::calendar::{
    MIN_YEAR, MAX_YEAR, is_leap_year, days_in_month, days_before_month, days_before_year,
    day_index, valid_date, lemma_days_in_month_bounds, lemma_days_before_year_succ,
    lemma_days_before_month_mono, lemma_days_before_month_full, lemma_days_before_year_mono,
    lemma_days_before_year_bound, lemma_day_index_order, lemma_day_index_injective,
};

verus! {

/// A point on the timeline: a valid proleptic Gregorian date and a minute of
/// the day in `0..1440`.
#[derive(Clone, Copy, Debug, PartialEq, Eq, Structural)]
pub struct Instant {
    pub year: i32,
    pub month0: u32,
    pub day: u32,
    pub minute: u32,
}

/// The earliest representable instant: midnight on the first representable day.
pub open spec fn spec_min_instant() -> Instant {
    Instant { year: MIN_YEAR, month0: 0, day: 1, minute: 0 }
}

/// The latest representable instant: the last minute of the last representable day.
pub open spec fn spec_max_instant() -> Instant {
    Instant { year: MAX_YEAR, month0: 11, day: 31, minute: 1439 }
}

/// Day index of the earliest representable date.
pub open spec fn min_day_index() -> int {
    day_index(MIN_YEAR as int, 0, 1)
}

/// Day index of the latest representable date.
pub open spec fn max_day_index() -> int {
    day_index(MAX_YEAR as int, 11, 31)
}

/// The valid calendar date whose day index is `idx`.
pub open spec fn civil_at(idx: int) -> (int, int, int) {
    choose|c: (int, int, int)| valid_date(c.0, c.1, c.2) && day_index(c.0, c.1, c.2) == idx
}

/// The instant at day index `idx` and minute of day `minute`.
pub open spec fn instant_at(idx: int, minute: int) -> Instant {
    Instant {
        year: civil_at(idx).0 as i32,
        month0: civil_at(idx).1 as u32,
        day: civil_at(idx).2 as u32,
        minute: minute as u32,
    }
}

impl Instant {
    /// The date is valid and the minute of day is in range.
    pub open spec fn valid(self) -> bool {
        valid_date(self.year as int, self.month0 as int, self.day as int) && self.minute < 1440
    }

    /// Days since the first day of year 0.
    pub open spec fn index(self) -> int {
        day_index(self.year as int, self.month0 as int, self.day as int)
    }

    /// Minutes since the first minute of year 0: the key that orders instants.
    pub open spec fn stamp(self) -> int {
        self.index() * 1440 + self.minute
    }

    /// Strict chronological order.
    pub open spec fn spec_lt(self, other: Instant) -> bool {
        self.stamp() < other.stamp()
    }

    /// Chronological order.
    pub open spec fn spec_le(self, other: Instant) -> bool {
        self.stamp() <= other.stamp()
    }

    /// Day of week as a residue: instants one day apart differ by one, mod 7.
    pub open spec fn spec_weekday(self) -> int {
        self.index() % 7
    }
}

/// Strict lexicographic order on the stored fields.
pub open spec fn lex_lt(a: Instant, b: Instant) -> bool {
    (a.year < b.year)
    || (a.year == b.year && a.month0 < b.month0)
    || (a.year == b.year && a.month0 == b.month0 && a.day < b.day)
    || (a.year == b.year && a.month0 == b.month0 && a.day == b.day && a.minute < b.minute)
}

/// The lexicographic order of the fields agrees with the order of stamps, and
/// equal stamps mean equal instants.
pub proof fn lemma_stamp_order(a: Instant, b: Instant)
    requires
        a.valid(),
        b.valid(),
    ensures
        lex_lt(a, b) <==> a.stamp() < b.stamp(),
        (a.stamp() == b.stamp()) <==> a == b,
{
    if a.year == b.year && a.month0 == b.month0 && a.day == b.day {
    } else if (a.year < b.year) || (a.year == b.year && a.month0 < b.month0) || (a.year == b.year
        && a.month0 == b.month0 && a.day < b.day) {
        lemma_day_index_order(
            a.year as int, a.month0 as int, a.day as int,
            b.year as int, b.month0 as int, b.day as int,
        );
    } else {
        lemma_day_index_order(
            b.year as int, b.month0 as int, b.day as int,
            a.year as int, a.month0 as int, a.day as int,
        );
    }
}

/// Every valid instant lies between the minimum and maximum instants, and its
/// day index between the minimum and maximum day indices.
pub proof fn lemma_stamp_in_range(i: Instant)
    requires
        i.valid(),
    ensures
        min_day_index() <= i.index() <= max_day_index(),
        spec_min_instant().stamp() <= i.stamp() <= spec_max_instant().stamp(),
{
    if i.year == MAX_YEAR && i.month0 == 11 && i.day == 31 {
    } else {
        lemma_day_index_order(
            i.year as int, i.month0 as int, i.day as int,
            MAX_YEAR as int, 11, 31,
        );
    }
    if i.year == MIN_YEAR && i.month0 == 0 && i.day == 1 {
    } else {
        lemma_day_index_order(
            MIN_YEAR as int, 0, 1,
            i.year as int, i.month0 as int, i.day as int,
        );
    }
}

/// `days_before_year` of a representable year is small enough for exact
/// machine arithmetic.
pub proof fn lemma_days_before_year_range(y: int)
    requires
        MIN_YEAR <= y <= MAX_YEAR,
    ensures
        -96_000_000 <= days_before_year(y) <= 96_000_000,
{
    if y >= 0 {
        lemma_days_before_year_mono(0, y);
        lemma_days_before_year_bound(0, y);
    } else {
        lemma_days_before_year_mono(y, 0);
        lemma_days_before_year_bound(y, 0);
    }
}

/// `days_before_month` never exceeds a year's length.
pub proof fn lemma_days_before_month_range(y: int, m0: int)
    requires
        0 <= m0 <= 12,
    ensures
        0 <= days_before_month(y, m0) <= 366,
{
    lemma_days_before_month_mono(y, 0, m0);
    lemma_days_before_month_mono(y, m0, 12);
    lemma_days_before_month_full(y);
}

/// There is a valid date at every representable day index.
proof fn lemma_civil_exists(idx: int)
    requires
        min_day_index() <= idx <= max_day_index(),
    ensures
        exists|c: (int, int, int)| valid_date(c.0, c.1, c.2) && day_index(c.0, c.1, c.2) == idx,
    decreases idx - min_day_index(),
{
    if idx == min_day_index() {
        let w: (int, int, int) = (MIN_YEAR as int, 0, 1);
        assert(valid_date(w.0, w.1, w.2) && day_index(w.0, w.1, w.2) == idx);
    } else {
        lemma_civil_exists(idx - 1);
        let c = choose|c: (int, int, int)|
            valid_date(c.0, c.1, c.2) && day_index(c.0, c.1, c.2) == idx - 1;
        if c.2 < days_in_month(c.0, c.1) {
            let w: (int, int, int) = (c.0, c.1, c.2 + 1);
            assert(valid_date(w.0, w.1, w.2) && day_index(w.0, w.1, w.2) == idx);
        } else if c.1 < 11 {
            lemma_days_in_month_bounds(c.0, c.1 + 1);
            assert(days_before_month(c.0, c.1 + 1) == days_before_month(c.0, c.1)
                + days_in_month(c.0, c.1));
            let w: (int, int, int) = (c.0, c.1 + 1, 1);
            assert(valid_date(w.0, w.1, w.2) && day_index(w.0, w.1, w.2) == idx);
        } else {
            assert(c.2 == 31);
            if c.0 == MAX_YEAR {
                assert(day_index(c.0, c.1, c.2) == max_day_index());
                assert(false);
            }
            lemma_days_before_year_succ(c.0);
            lemma_days_before_month_full(c.0);
            assert(days_before_month(c.0, 12) == days_before_month(c.0, 11)
                + days_in_month(c.0, 11));
            let w: (int, int, int) = (c.0 + 1, 0, 1);
            assert(valid_date(w.0, w.1, w.2) && day_index(w.0, w.1, w.2) == idx);
        }
    }
}

/// `civil_at` names a valid date with the requested day index.
pub proof fn lemma_civil_at(idx: int)
    requires
        min_day_index() <= idx <= max_day_index(),
    ensures
        valid_date(civil_at(idx).0, civil_at(idx).1, civil_at(idx).2),
        day_index(civil_at(idx).0, civil_at(idx).1, civil_at(idx).2) == idx,
{
    lemma_civil_exists(idx);
}

/// `civil_at` inverts `day_index` on valid dates.
pub proof fn lemma_civil_at_of(y: int, m0: int, d: int)
    requires
        valid_date(y, m0, d),
    ensures
        civil_at(day_index(y, m0, d)) == (y, m0, d),
{
    let w: (int, int, int) = (y, m0, d);
    assert(valid_date(w.0, w.1, w.2) && day_index(w.0, w.1, w.2) == day_index(y, m0, d));
    assert(exists|c: (int, int, int)|
        valid_date(c.0, c.1, c.2) && day_index(c.0, c.1, c.2) == day_index(y, m0, d));
    let c = civil_at(day_index(y, m0, d));
    lemma_day_index_injective(c.0, c.1, c.2, y, m0, d);
}

/// `instant_at` yields a valid instant with the requested index and minute.
pub proof fn lemma_instant_at(idx: int, minute: int)
    requires
        min_day_index() <= idx <= max_day_index(),
        0 <= minute < 1440,
    ensures
        instant_at(idx, minute).valid(),
        instant_at(idx, minute).index() == idx,
        instant_at(idx, minute).minute == minute,
        instant_at(idx, minute).stamp() == idx * 1440 + minute,
{
    lemma_civil_at(idx);
}

/// True iff `y` is a leap year.
pub fn leap_year(y: i32) -> (r: bool)
    requires
        MIN_YEAR <= y <= MAX_YEAR,
    ensures
        r == is_leap_year(y as int),
{
    let yy: u64 = (y as i64 + 280000) as u64;
    proof {
        lemma_mod_multiples_vanish(70000, y as int, 4);
        lemma_mod_multiples_vanish(2800, y as int, 100);
        lemma_mod_multiples_vanish(700, y as int, 400);
    }
    (yy % 4 == 0 && yy % 100 != 0) || yy % 400 == 0
}

/// Length of the zero-based month `m0` of year `y`, in days.
pub fn month_length(y: i32, m0: u32) -> (r: u32)
    requires
        MIN_YEAR <= y <= MAX_YEAR,
    ensures
        r as int == days_in_month(y as int, m0 as int),
        28 <= r <= 31,
{
    if m0 == 1 {
        if leap_year(y) { 29 } else { 28 }
    } else if m0 == 3 || m0 == 5 || m0 == 8 || m0 == 10 {
        30
    } else {
        31
    }
}

/// Length of year `y`, in days.
pub fn year_length(y: i32) -> (r: u32)
    requires
        MIN_YEAR <= y <= MAX_YEAR,
    ensures
        r as int == crate::calendar::days_in_year(y as int),
{
    if leap_year(y) { 366 } else { 365 }
}

impl Instant {
    /// The instant with the given fields, or nothing if they do not name a
    /// valid date and minute of day.
    pub fn new(year: i32, month0: u32, day: u32, minute: u32) -> (r: Option<Instant>)
        ensures
            ({
                let i = (Instant { year, month0, day, minute });
                if i.valid() {
                    r == Some(i)
                } else {
                    r == None::<Instant>
                }
            }),
    {
        if year < MIN_YEAR || year > MAX_YEAR {
            return None;
        }
        if month0 >= 12 {
            return None;
        }
        let ml = month_length(year, month0);
        if day < 1 || day > ml {
            return None;
        }
        if minute >= 1440 {
            return None;
        }
        Some(Instant { year, month0, day, minute })
    }

    /// The earliest representable instant.
    pub fn min_instant() -> (r: Instant)
        ensures
            r == spec_min_instant(),
            r.valid(),
    {
        Instant { year: MIN_YEAR, month0: 0, day: 1, minute: 0 }
    }

    /// The latest representable instant.
    pub fn max_instant() -> (r: Instant)
        ensures
            r == spec_max_instant(),
            r.valid(),
    {
        Instant { year: MAX_YEAR, month0: 11, day: 31, minute: 1439 }
    }

    /// True iff `self` is strictly earlier than `other`.
    pub fn lt(&self, other: &Instant) -> (r: bool)
        requires
            self.valid(),
            other.valid(),
        ensures
            r == self.spec_lt(*other),
    {
        proof {
            lemma_stamp_order(*self, *other);
            lemma_stamp_order(*other, *self);
        }
        if self.year != other.year {
            self.year < other.year
        } else if self.month0 != other.month0 {
            self.month0 < other.month0
        } else if self.day != other.day {
            self.day < other.day
        } else {
            self.minute < other.minute
        }
    }

    /// True iff `self` is at or earlier than `other`.
    pub fn le(&self, other: &Instant) -> (r: bool)
        requires
            self.valid(),
            other.valid(),
        ensures
            r == self.spec_le(*other),
    {
        !other.lt(self)
    }

    /// Days since the first day of year 0.
    fn epoch_days(&self) -> (r: i64)
        requires
            self.valid(),
        ensures
            r as int == self.index(),
    {
        let mut acc: i64 = 0;
        let mut cur: i32 = 0;
        if self.year >= 0 {
            while cur < self.year
                invariant
                    0 <= cur <= self.year,
                    self.valid(),
                    acc as int == days_before_year(cur as int),
                    0 <= acc as int <= 366 * (cur as int),
                decreases self.year - cur,
            {
                let yl = year_length(cur);
                proof {
                    lemma_days_before_year_succ(cur as int);
                }
                acc = acc + yl as i64;
                cur = cur + 1;
            }
        } else {
            while cur > self.year
                invariant
                    self.year <= cur <= 0,
                    self.valid(),
                    acc as int == days_before_year(cur as int),
                    366 * (cur as int) <= acc as int <= 0,
                decreases cur - self.year,
            {
                proof {
                    lemma_days_before_year_succ(cur as int - 1);
                }
                let yl = year_length(cur - 1);
                acc = acc - yl as i64;
                cur = cur - 1;
            }
        }
        let mut m: u32 = 0;
        while m < self.month0
            invariant
                m <= self.month0,
                self.valid(),
                acc as int == days_before_year(self.year as int)
                    + days_before_month(self.year as int, m as int),
                -96_001_000 <= acc as int <= 96_001_000,
            decreases self.month0 - m,
        {
            let ml = month_length(self.year, m);
            proof {
                lemma_days_before_year_range(self.year as int);
                lemma_days_before_month_range(self.year as int, m as int + 1);
            }
            acc = acc + ml as i64;
            m = m + 1;
        }
        acc + self.day as i64 - 1
    }

    /// Day of week of `self`, as a residue in `0..7`; one day later always
    /// means one step further, wrapping after 7.
    pub fn weekday(&self) -> (r: u32)
        requires
            self.valid(),
        ensures
            r as int == self.spec_weekday(),
            r < 7,
    {
        let idx = self.epoch_days();
        proof {
            lemma_days_before_year_range(self.year as int);
            lemma_days_before_month_range(self.year as int, self.month0 as int);
            lemma_mod_multiples_vanish(100_000_000, idx as int, 7);
        }
        let shifted: u64 = (idx + 700_000_000) as u64;
        (shifted % 7) as u32
    }
}

/// Day index reached from `i` after adding `minutes` minutes and `days` days.
pub open spec fn spec_shift_index(i: Instant, minutes: int, days: int) -> int {
    i.index() + days + (i.minute + minutes) / 1440
}

/// Minute of day reached from `i` after adding `minutes` minutes.
pub open spec fn spec_shift_minute(i: Instant, minutes: int) -> int {
    (i.minute + minutes) % 1440
}

/// Pure duration arithmetic: the instant `minutes` minutes and `days` days
/// after `i`, or nothing if that leaves the representable range.
pub open spec fn spec_add_duration(i: Instant, minutes: int, days: int) -> Option<Instant> {
    if spec_shift_index(i, minutes, days) > max_day_index() {
        None
    } else {
        Some(instant_at(spec_shift_index(i, minutes, days), spec_shift_minute(i, minutes)))
    }
}

impl Instant {
    /// The instant `minutes` minutes and `days` days after `self`, or nothing
    /// if the result would pass the end of the representable range.
    pub fn add_duration(&self, minutes: u32, days: u32) -> (r: Option<Instant>)
        requires
            self.valid(),
        ensures
            r == spec_add_duration(*self, minutes as int, days as int),
            (match r {
                Some(t) => t.valid(),
                None => true,
            }),
    {
        let total_min: u64 = self.minute as u64 + minutes as u64;
        let carry: u64 = total_min / 1440;
        let new_min: u32 = (total_min % 1440) as u32;
        let ghost target: int = spec_shift_index(*self, minutes as int, days as int);
        let mut rem: u64 = days as u64 + carry;
        let mut y: i32 = self.year;
        let mut m: u32 = self.month0;
        let mut d: u32 = self.day;
        loop
            invariant
                self.valid(),
                valid_date(y as int, m as int, d as int),
                day_index(y as int, m as int, d as int) + rem as int == target,
                new_min as int == spec_shift_minute(*self, minutes as int),
                new_min < 1440,
                target == spec_shift_index(*self, minutes as int, days as int),
            decreases rem,
        {
            let ml = month_length(y, m);
            if rem <= (ml - d) as u64 {
                let nd = d + rem as u32;
                let result = Instant { year: y, month0: m, day: nd, minute: new_min };
                proof {
                    lemma_stamp_in_range(result);
                    lemma_civil_at_of(y as int, m as int, nd as int);
                }
                return Some(result);
            }
            let step: u64 = (ml - d) as u64 + 1;
            rem = rem - step;
            d = 1;
            if m < 11 {
                assert(days_before_month(y as int, m as int + 1)
                    == days_before_month(y as int, m as int) + days_in_month(y as int, m as int));
                m = m + 1;
            } else {
                if y == MAX_YEAR {
                    return None;
                }
                proof {
                    lemma_days_before_year_succ(y as int);
                    lemma_days_before_month_full(y as int);
                    assert(days_before_month(y as int, 12)
                        == days_before_month(y as int, 11) + days_in_month(y as int, 11));
                }
                m = 0;
                y = y + 1;
            }
        }
    }
}

} // verus!
