//! The repeat step of a recurring instant: a non-negative count of minutes,
//! days and months, applied to an instant by calendar-aware arithmetic.

use vstd::prelude::*;
use vstd::arithmetic::div_mod::{
    lemma_fundamental_div_mod_converse_div, lemma_fundamental_div_mod_converse_mod,
};
use crate::calendar::{MAX_YEAR, days_in_month};
use crate::instant::{Instant, month_length, spec_add_duration};

verus! {

/// A repeat step, decomposed by unit: adding a month is not a fixed duration,
/// while adding minutes and days is.
#[derive(Clone, Copy, Debug, PartialEq, Eq, Structural)]
pub struct RepeatEvery {
    pub minutes: u32,
    pub days: u32,
    pub months: u32,
}

/// The step that repeats nothing.
pub open spec fn spec_zero_repeat() -> RepeatEvery {
    RepeatEvery { minutes: 0, days: 0, months: 0 }
}

/// True iff all three counters of `r` are zero.
pub open spec fn spec_is_zero(r: RepeatEvery) -> bool {
    r.minutes == 0 && r.days == 0 && r.months == 0
}

/// The componentwise sum of two steps fits the concrete counter width.
pub open spec fn spec_sum_fits(a: RepeatEvery, b: RepeatEvery) -> bool {
    a.minutes + b.minutes <= u32::MAX && a.days + b.days <= u32::MAX && a.months + b.months
        <= u32::MAX
}

/// The componentwise sum of two steps.
pub open spec fn spec_sum(a: RepeatEvery, b: RepeatEvery) -> RepeatEvery {
    RepeatEvery {
        minutes: (a.minutes + b.minutes) as u32,
        days: (a.days + b.days) as u32,
        months: (a.months + b.months) as u32,
    }
}

/// The componentwise sum, or nothing where it would overflow the counter width.
pub open spec fn spec_checked_add(a: RepeatEvery, b: RepeatEvery) -> Option<RepeatEvery> {
    if spec_sum_fits(a, b) {
        Some(spec_sum(a, b))
    } else {
        None
    }
}

/// The step `r` applied to the instant `i`: minutes and days first, as pure
/// duration arithmetic; then, if months are present, the month counter is
/// added to the original instant's absolute month index, carrying into the
/// year, while day of month and minute of day come from the duration-shifted
/// intermediate. Nothing is returned where the result leaves the representable
/// range or names a day the target month does not have.
pub open spec fn spec_add_to(r: RepeatEvery, i: Instant) -> Option<Instant> {
    match spec_add_duration(i, r.minutes as int, r.days as int) {
        None => None,
        Some(a) => if r.months == 0 {
            Some(a)
        } else {
            let mm = i.month0 + r.months;
            let y2 = i.year + mm / 12;
            let m2 = mm % 12;
            if y2 > MAX_YEAR as int {
                None
            } else if a.day > days_in_month(y2, m2) {
                None
            } else {
                Some(Instant { year: y2 as i32, month0: m2 as u32, day: a.day, minute: a.minute })
            }
        },
    }
}

/// Applying a step yields a valid instant when it yields one at all.
pub proof fn lemma_add_to_valid(r: RepeatEvery, i: Instant)
    requires
        i.valid(),
    ensures
        (match spec_add_to(r, i) {
            Some(t) => t.valid(),
            None => true,
        }),
{
    match spec_add_duration(i, r.minutes as int, r.days as int) {
        None => {},
        Some(a) => {
            crate::instant::lemma_stamp_in_range(i);
            vstd::arithmetic::div_mod::lemma_div_pos_is_pos(i.minute + r.minutes, 1440);
            crate::instant::lemma_instant_at(
                crate::instant::spec_shift_index(i, r.minutes as int, r.days as int),
                crate::instant::spec_shift_minute(i, r.minutes as int),
            );
            if r.months != 0 {
                let mm = i.month0 + r.months;
                lemma_fundamental_div_mod_converse_mod(mm, 12, mm / 12, mm % 12);
            }
        },
    }
}

/// Applying the zero step returns the instant unchanged.
pub proof fn lemma_add_to_zero(i: Instant)
    requires
        i.valid(),
    ensures
        spec_add_to(spec_zero_repeat(), i) == Some(i),
{
    crate::instant::lemma_stamp_in_range(i);
    vstd::arithmetic::div_mod::lemma_basic_div(i.minute as int, 1440);
    vstd::arithmetic::div_mod::lemma_small_mod(i.minute as nat, 1440);
    crate::instant::lemma_civil_at_of(i.year as int, i.month0 as int, i.day as int);
}

impl RepeatEvery {
    /// The step where all counters are zero: no repetition.
    pub fn zero() -> (r: RepeatEvery)
        ensures
            r == spec_zero_repeat(),
    {
        RepeatEvery { minutes: 0, days: 0, months: 0 }
    }

    /// A step of `n` minutes.
    pub fn minutes(n: u32) -> (r: RepeatEvery)
        ensures
            r == (RepeatEvery { minutes: n, days: 0, months: 0 }),
    {
        RepeatEvery { minutes: n, days: 0, months: 0 }
    }

    /// A step of `n` hours: sixty minutes each.
    pub fn hours(n: u32) -> (r: RepeatEvery)
        requires
            60 * n <= u32::MAX,
        ensures
            r == (RepeatEvery { minutes: (60 * n) as u32, days: 0, months: 0 }),
    {
        RepeatEvery { minutes: 60 * n, days: 0, months: 0 }
    }

    /// A step of `n` days.
    pub fn days(n: u32) -> (r: RepeatEvery)
        ensures
            r == (RepeatEvery { minutes: 0, days: n, months: 0 }),
    {
        RepeatEvery { minutes: 0, days: n, months: 0 }
    }

    /// A step of `n` weeks: seven days each.
    pub fn weeks(n: u32) -> (r: RepeatEvery)
        requires
            7 * n <= u32::MAX,
        ensures
            r == (RepeatEvery { minutes: 0, days: (7 * n) as u32, months: 0 }),
    {
        RepeatEvery { minutes: 0, days: n * 7, months: 0 }
    }

    /// A step of `n` months.
    pub fn months(n: u32) -> (r: RepeatEvery)
        ensures
            r == (RepeatEvery { minutes: 0, days: 0, months: n }),
    {
        RepeatEvery { minutes: 0, days: 0, months: n }
    }

    /// A step of `n` years: twelve months each.
    pub fn years(n: u32) -> (r: RepeatEvery)
        requires
            12 * n <= u32::MAX,
        ensures
            r == (RepeatEvery { minutes: 0, days: 0, months: (12 * n) as u32 }),
    {
        RepeatEvery { minutes: 0, days: 0, months: n * 12 }
    }

    /// True iff `self` repeats nothing.
    pub fn is_zero(&self) -> (r: bool)
        ensures
            r == spec_is_zero(*self),
    {
        self.minutes == 0 && self.days == 0 && self.months == 0
    }

    /// The componentwise sum of `self` and `rhs`.
    pub fn add(&self, rhs: &RepeatEvery) -> (r: RepeatEvery)
        requires
            spec_sum_fits(*self, *rhs),
        ensures
            r == spec_sum(*self, *rhs),
    {
        RepeatEvery {
            minutes: self.minutes + rhs.minutes,
            days: self.days + rhs.days,
            months: self.months + rhs.months,
        }
    }

    /// The componentwise sum of `self` and `rhs`, or nothing exactly where a
    /// counter of the sum would overflow its width.
    pub fn checked_add(&self, rhs: &RepeatEvery) -> (r: Option<RepeatEvery>)
        ensures
            r == spec_checked_add(*self, *rhs),
    {
        if self.minutes <= u32::MAX - rhs.minutes && self.days <= u32::MAX - rhs.days
            && self.months <= u32::MAX - rhs.months {
            Some(self.add(rhs))
        } else {
            None
        }
    }

    /// The instant `self` after `dt`: `dt` plus the days and minutes of the
    /// step, then the months of the step added to `dt`'s month, carrying into
    /// the year. Nothing where the arithmetic leaves the representable range
    /// or the computed month has no such day.
    pub fn add_to(&self, dt: &Instant) -> (r: Option<Instant>)
        requires
            dt.valid(),
        ensures
            r == spec_add_to(*self, *dt),
            (match r {
                Some(t) => t.valid(),
                None => true,
            }),
    {
        proof {
            lemma_add_to_valid(*self, *dt);
        }
        let a = match dt.add_duration(self.minutes, self.days) {
            None => {
                return None;
            },
            Some(a) => a,
        };
        if self.months > 0 {
            let mm: u64 = dt.month0 as u64 + self.months as u64;
            let q: u64 = mm / 12;
            let m2: u32 = (mm % 12) as u32;
            proof {
                lemma_fundamental_div_mod_converse_div(mm as int, 12, mm as int / 12, mm as int % 12);
            }
            let y2: i64 = dt.year as i64 + q as i64;
            if y2 > MAX_YEAR as i64 {
                return None;
            }
            let y2i: i32 = y2 as i32;
            let ml = month_length(y2i, m2);
            if a.day > ml {
                return None;
            }
            Some(Instant { year: y2i, month0: m2, day: a.day, minute: a.minute })
        } else {
            Some(a)
        }
    }
}

} // verus!
