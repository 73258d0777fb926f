//! General properties of the library, stated and proved once and for all:
//! how the step constructors, the checked sum, and the occurrence sequence
//! behave on every input they accept.

use vstd::prelude::*;
use vstd::arithmetic::div_mod::{
    lemma_add_mod_noop, lemma_basic_div, lemma_div_pos_is_pos, lemma_fundamental_div_mod,
    lemma_fundamental_div_mod_converse_div, lemma_fundamental_div_mod_converse_mod,
    lemma_mod_multiples_vanish, lemma_small_mod,
};
use crate::calendar::lemma_day_index_order;
use crate::instant::{
    Instant, lemma_instant_at, lemma_stamp_in_range, spec_add_duration, spec_shift_index,
    spec_shift_minute,
};
use crate::repeat_every::{
    RepeatEvery, lemma_add_to_valid, lemma_add_to_zero, spec_add_to, spec_checked_add, spec_is_zero, spec_sum,
    spec_sum_fits, spec_zero_repeat,
};
use crate::{
    ReDateTime, lemma_first_mem, lemma_occ_elements_valid, lemma_occ_seq_unfold, occ_seq,
    spec_between, spec_done_before, spec_first_after, spec_first_on_or_after, spec_occurrences,
};

verus! {

/// A step is zero exactly when it equals the zero constructor's value.
pub proof fn lemma_is_zero_exact(r: RepeatEvery)
    ensures
        spec_is_zero(r) <==> r == spec_zero_repeat(),
{
}

/// The checked sum fails exactly where a componentwise sum overflows the
/// counter width, and otherwise equals the plain sum.
pub proof fn lemma_checked_add_exact(a: RepeatEvery, b: RepeatEvery)
    ensures
        spec_checked_add(a, b) is Some <==> spec_sum_fits(a, b),
        spec_sum_fits(a, b) ==> spec_checked_add(a, b) == Some(spec_sum(a, b)),
{
}

/// A repeating schedule whose bound is the maximum instant is never done
/// before any point.
pub proof fn lemma_unbounded_never_done(s: ReDateTime, dt: Instant)
    requires
        !spec_is_zero(s.repeat),
        s.until == crate::instant::spec_max_instant(),
    ensures
        !spec_done_before(s, dt),
{
}

/// A step without months moves the day index by the days plus the carry of
/// the minutes, and sets the minute of day to the shifted remainder.
pub proof fn lemma_add_to_duration_only(r: RepeatEvery, i: Instant)
    requires
        i.valid(),
        r.months == 0,
    ensures
        (match spec_add_to(r, i) {
            Some(t) => t.valid() && t.index() == i.index() + r.days + (i.minute + r.minutes)
                / 1440 && t.minute as int == (i.minute + r.minutes) % 1440,
            None => true,
        }),
{
    lemma_stamp_in_range(i);
    lemma_div_pos_is_pos(i.minute + r.minutes, 1440);
    match spec_add_duration(i, r.minutes as int, r.days as int) {
        None => {},
        Some(a) => {
            lemma_instant_at(
                spec_shift_index(i, r.minutes as int, r.days as int),
                spec_shift_minute(i, r.minutes as int),
            );
        },
    }
}

/// A months-only step keeps day of month and minute of day, and adds its
/// month counter to the instant's absolute month index.
pub proof fn lemma_add_to_months_only(r: RepeatEvery, i: Instant)
    requires
        i.valid(),
        r.minutes == 0,
        r.days == 0,
        r.months >= 1,
    ensures
        (match spec_add_to(r, i) {
            Some(t) => t.day == i.day && t.minute == i.minute && t.month0 as int == (i.month0
                + r.months) % 12 && t.year as int == i.year + (i.month0 + r.months) / 12,
            None => true,
        }),
{
    lemma_add_to_zero(i);
    match spec_add_duration(i, 0, 0) {
        None => {
            assert(false);
        },
        Some(a) => {
            assert(a == i);
            lemma_div_pos_is_pos(i.month0 + r.months, 12);
        },
    }
}

/// Applying any step to an instant never moves it earlier.
pub proof fn lemma_add_to_at_or_later(r: RepeatEvery, i: Instant)
    requires
        i.valid(),
    ensures
        (match spec_add_to(r, i) {
            Some(t) => i.spec_le(t),
            None => true,
        }),
{
    lemma_stamp_in_range(i);
    lemma_div_pos_is_pos(i.minute + r.minutes, 1440);
    match spec_add_duration(i, r.minutes as int, r.days as int) {
        None => {},
        Some(a) => {
            let shift = spec_shift_index(i, r.minutes as int, r.days as int);
            let sm = spec_shift_minute(i, r.minutes as int);
            lemma_instant_at(shift, sm);
            lemma_fundamental_div_mod(i.minute + r.minutes, 1440);
            assert(a.stamp() == i.stamp() + r.minutes + 1440 * (r.days as int));
            if r.months != 0 {
                match spec_add_to(r, i) {
                    None => {},
                    Some(t) => {
                        let mm = i.month0 + r.months;
                        lemma_fundamental_div_mod(mm, 12);
                        let y2 = i.year + mm / 12;
                        let m2 = mm % 12;
                        assert(y2 * 12 + m2 == i.year * 12 + mm);
                        assert(t.year as int == y2 && t.month0 as int == m2 && t.day == a.day
                            && t.minute == a.minute);
                        lemma_day_index_order(
                            i.year as int, i.month0 as int, i.day as int,
                            y2, m2, a.day as int,
                        );
                    },
                }
            }
        },
    }
}

/// No occurrence of a schedule comes before its anchor.
pub proof fn lemma_occ_element_not_before_anchor(s: ReDateTime, adder: RepeatEvery, j: int)
    requires
        s.wf(),
        !spec_is_zero(s.repeat),
        0 <= j < occ_seq(s, adder).len(),
    ensures
        s.at.spec_le(occ_seq(s, adder)[j]),
    decreases j,
{
    lemma_occ_seq_unfold(s, adder);
    lemma_add_to_at_or_later(adder, s.at);
    if j > 0 {
        match spec_checked_add(adder, s.repeat) {
            None => {},
            Some(a2) => {
                lemma_occ_element_not_before_anchor(s, a2, j - 1);
                assert(occ_seq(s, adder)[j] == occ_seq(s, a2)[j - 1]);
            },
        }
    }
}

/// What `firstAfter` returns is always a valid instant.
pub proof fn lemma_first_after_valid(s: ReDateTime, df: Instant)
    requires
        s.wf(),
    ensures
        (match spec_first_after(s, df) {
            Some(t) => t.valid(),
            None => true,
        }),
{
    if !spec_is_zero(s.repeat) && !s.until.spec_lt(df) {
        lemma_first_mem(spec_occurrences(s), df);
        match spec_first_on_or_after(spec_occurrences(s), df) {
            Some(t) => {
                let j = choose|j: int|
                    0 <= j < spec_occurrences(s).len() && spec_occurrences(s)[j] == t;
                lemma_occ_elements_valid(s, spec_zero_repeat(), j);
            },
            None => {},
        }
    }
}

/// `firstAfter` never returns an occurrence before the anchor.
pub proof fn lemma_first_after_not_before_anchor(s: ReDateTime, df: Instant)
    requires
        s.wf(),
    ensures
        (match spec_first_after(s, df) {
            Some(t) => s.at.spec_le(t),
            None => true,
        }),
{
    if !spec_is_zero(s.repeat) && !s.until.spec_lt(df) {
        lemma_first_mem(spec_occurrences(s), df);
        match spec_first_on_or_after(spec_occurrences(s), df) {
            Some(t) => {
                let j = choose|j: int|
                    0 <= j < spec_occurrences(s).len() && spec_occurrences(s)[j] == t;
                lemma_occ_element_not_before_anchor(s, spec_zero_repeat(), j);
            },
            None => {},
        }
    }
}

/// A step with months adds its month counter to the instant's absolute month
/// index, whatever its minutes and days do.
proof fn lemma_add_to_month_index(r: RepeatEvery, i: Instant)
    requires
        i.valid(),
        r.months > 0,
    ensures
        (match spec_add_to(r, i) {
            Some(t) => t.valid() && t.year * 12 + t.month0 == i.year * 12 + i.month0 + r.months,
            None => true,
        }),
{
    lemma_add_to_valid(r, i);
    match spec_add_duration(i, r.minutes as int, r.days as int) {
        None => {},
        Some(a) => {
            let mm = i.month0 + r.months;
            lemma_fundamental_div_mod(mm, 12);
        },
    }
}

/// The accumulated steps that arise from repeating `r`: months stay zero for
/// a month-free repeat, and otherwise are zero only in the pristine state.
spec fn step_aligned(adder: RepeatEvery, r: RepeatEvery) -> bool {
    &&& (r.months == 0 ==> adder.months == 0)
    &&& (r.months > 0 ==> adder.months > 0 || (adder.minutes == 0 && adder.days == 0))
}

/// Growing an aligned accumulated step by the repeat step moves the applied
/// instant strictly later.
proof fn lemma_step_increases(adder: RepeatEvery, r: RepeatEvery, i: Instant)
    requires
        i.valid(),
        !spec_is_zero(r),
        step_aligned(adder, r),
        spec_checked_add(adder, r) is Some,
    ensures
        (match (spec_add_to(adder, i), spec_add_to(spec_sum(adder, r), i)) {
            (Some(t1), Some(t2)) => t1.spec_lt(t2),
            _ => true,
        }),
{
    let a2 = spec_sum(adder, r);
    lemma_add_to_valid(adder, i);
    lemma_add_to_valid(a2, i);
    match (spec_add_to(adder, i), spec_add_to(a2, i)) {
        (Some(t1), Some(t2)) => {
            if r.months == 0 {
                lemma_add_to_duration_only(adder, i);
                lemma_add_to_duration_only(a2, i);
                lemma_fundamental_div_mod(i.minute + adder.minutes, 1440);
                lemma_fundamental_div_mod(i.minute + a2.minutes, 1440);
                assert(t1.stamp() == i.stamp() + adder.minutes + 1440 * (adder.days as int));
                assert(t2.stamp() == i.stamp() + a2.minutes + 1440 * (a2.days as int));
            } else {
                if adder.months == 0 {
                    assert(adder == spec_zero_repeat());
                    lemma_add_to_zero(i);
                    assert(t1 == i);
                } else {
                    lemma_add_to_month_index(adder, i);
                }
                lemma_add_to_month_index(a2, i);
                assert(t2.year * 12 + t2.month0 == t1.year * 12 + t1.month0 + r.months);
                lemma_day_index_order(
                    t1.year as int, t1.month0 as int, t1.day as int,
                    t2.year as int, t2.month0 as int, t2.day as int,
                );
            }
        },
        _ => {},
    }
}

/// The first remaining occurrence is the earliest of the remaining ones.
proof fn lemma_occ_min(s: ReDateTime, adder: RepeatEvery, j: int)
    requires
        s.wf(),
        !spec_is_zero(s.repeat),
        step_aligned(adder, s.repeat),
        0 <= j < occ_seq(s, adder).len(),
    ensures
        occ_seq(s, adder)[0].spec_le(occ_seq(s, adder)[j]),
        j > 0 ==> occ_seq(s, adder)[0].spec_lt(occ_seq(s, adder)[j]),
    decreases j,
{
    lemma_occ_seq_unfold(s, adder);
    if j > 0 {
        match spec_checked_add(adder, s.repeat) {
            None => {},
            Some(a2) => {
                lemma_occ_min(s, a2, j - 1);
                assert(occ_seq(s, adder)[j] == occ_seq(s, a2)[j - 1]);
                lemma_occ_seq_unfold(s, a2);
                lemma_step_increases(adder, s.repeat, s.at);
            },
        }
    }
}

/// Occurrences come in strictly increasing order, for any aligned start.
proof fn lemma_occ_sorted_aux(s: ReDateTime, adder: RepeatEvery, j1: int, j2: int)
    requires
        s.wf(),
        !spec_is_zero(s.repeat),
        step_aligned(adder, s.repeat),
        0 <= j1 < j2 < occ_seq(s, adder).len(),
    ensures
        occ_seq(s, adder)[j1].spec_lt(occ_seq(s, adder)[j2]),
    decreases j1,
{
    lemma_occ_seq_unfold(s, adder);
    if j1 == 0 {
        lemma_occ_min(s, adder, j2);
    } else {
        match spec_checked_add(adder, s.repeat) {
            None => {},
            Some(a2) => {
                lemma_occ_sorted_aux(s, a2, j1 - 1, j2 - 1);
                assert(occ_seq(s, adder)[j1] == occ_seq(s, a2)[j1 - 1]);
                assert(occ_seq(s, adder)[j2] == occ_seq(s, a2)[j2 - 1]);
            },
        }
    }
}

/// The occurrence sequence is strictly increasing.
pub proof fn lemma_occurrences_increasing(s: ReDateTime, j1: int, j2: int)
    requires
        s.wf(),
        !spec_is_zero(s.repeat),
        0 <= j1 < j2 < spec_occurrences(s).len(),
    ensures
        spec_occurrences(s)[j1].spec_lt(spec_occurrences(s)[j2]),
{
    lemma_occ_sorted_aux(s, spec_zero_repeat(), j1, j2);
}

/// No occurrence lies past the bound, for any accumulated step.
proof fn lemma_occ_bound_aux(s: ReDateTime, adder: RepeatEvery, j: int)
    requires
        !spec_is_zero(s.repeat),
        0 <= j < occ_seq(s, adder).len(),
    ensures
        occ_seq(s, adder)[j].spec_le(s.until),
    decreases j,
{
    lemma_occ_seq_unfold(s, adder);
    if j > 0 {
        match spec_checked_add(adder, s.repeat) {
            None => {},
            Some(a2) => {
                lemma_occ_bound_aux(s, a2, j - 1);
                assert(occ_seq(s, adder)[j] == occ_seq(s, a2)[j - 1]);
            },
        }
    }
}

/// No occurrence lies past the bound.
pub proof fn lemma_occurrences_within_bound(s: ReDateTime, j: int)
    requires
        !spec_is_zero(s.repeat),
        0 <= j < spec_occurrences(s).len(),
    ensures
        spec_occurrences(s)[j].spec_le(s.until),
{
    lemma_occ_bound_aux(s, spec_zero_repeat(), j);
}

/// On a strictly increasing sequence, the first element at or after `df` is
/// at or before every element at or after `df`.
proof fn lemma_first_min(sq: Seq<Instant>, df: Instant, j: int)
    requires
        0 <= j < sq.len(),
        !sq[j].spec_lt(df),
        forall|a: int, b: int| 0 <= a < b < sq.len() ==> sq[a].spec_lt(sq[b]),
    ensures
        (match spec_first_on_or_after(sq, df) {
            Some(t) => t.spec_le(sq[j]),
            None => false,
        }),
    decreases sq.len(),
{
    if !sq[0].spec_lt(df) {
        if j > 0 {
            assert(sq[0].spec_lt(sq[j]));
        }
    } else {
        assert forall|a: int, b: int| 0 <= a < b < sq.drop_first().len() implies sq.drop_first()[
            a
        ].spec_lt(sq.drop_first()[b]) by {
            assert(sq.drop_first()[a] == sq[a + 1] && sq.drop_first()[b] == sq[b + 1]);
        }
        assert(sq.drop_first()[j - 1] == sq[j]);
        lemma_first_min(sq.drop_first(), df, j - 1);
        assert(spec_first_on_or_after(sq, df) == spec_first_on_or_after(sq.drop_first(), df));
    }
}

/// `between` holds exactly where some occurrence falls in the inclusive
/// window.
pub proof fn lemma_between_exists(s: ReDateTime, df: Instant, dt: Instant)
    requires
        s.wf(),
        !spec_is_zero(s.repeat),
    ensures
        spec_between(s, df, dt) <==> (exists|j: int|
            0 <= j < spec_occurrences(s).len() && df.spec_le(
                #[trigger] spec_occurrences(s)[j],
            ) && spec_occurrences(s)[j].spec_le(dt)),
{
    let occ = spec_occurrences(s);
    if s.until.spec_lt(df) {
        assert forall|j: int| 0 <= j < occ.len() implies !df.spec_le(
            #[trigger] occ[j],
        ) by {
            lemma_occ_bound_aux(s, spec_zero_repeat(), j);
        }
    } else {
        lemma_first_mem(occ, df);
        assert forall|a: int, b: int| 0 <= a < b < occ.len() implies occ[a].spec_lt(occ[b]) by {
            lemma_occ_sorted_aux(s, spec_zero_repeat(), a, b);
        }
        match spec_first_on_or_after(occ, df) {
            Some(t) => {
                let jt = choose|j: int| 0 <= j < occ.len() && occ[j] == t;
                if t.spec_le(dt) {
                    assert(0 <= jt < occ.len() && df.spec_le(occ[jt]) && occ[jt].spec_le(dt));
                } else {
                    if exists|j: int|
                        0 <= j < occ.len() && df.spec_le(#[trigger] occ[j]) && occ[j].spec_le(dt) {
                        let j = choose|j: int|
                            0 <= j < occ.len() && df.spec_le(#[trigger] occ[j]) && occ[j].spec_le(
                                dt,
                            );
                        lemma_first_min(occ, df, j);
                        assert(false);
                    }
                }
            },
            None => {
                if exists|j: int|
                    0 <= j < occ.len() && df.spec_le(#[trigger] occ[j]) && occ[j].spec_le(dt) {
                    let j = choose|j: int|
                        0 <= j < occ.len() && df.spec_le(#[trigger] occ[j]) && occ[j].spec_le(dt);
                    lemma_first_min(occ, df, j);
                    assert(false);
                }
            },
        }
    }
}

/// For a bounded repeating schedule whose anchor does not pass its bound,
/// `doneBefore` holds exactly where every occurrence is strictly earlier
/// than the point asked about.
pub proof fn lemma_done_before_exact(s: ReDateTime, dt: Instant)
    requires
        s.wf(),
        !spec_is_zero(s.repeat),
        s.until != crate::instant::spec_max_instant(),
        s.at.spec_le(s.until),
    ensures
        spec_done_before(s, dt) <==> (forall|j: int|
            0 <= j < spec_occurrences(s).len() ==> (#[trigger] spec_occurrences(s)[j]).spec_lt(
                dt,
            )),
{
    let occ = spec_occurrences(s);
    lemma_add_to_zero(s.at);
    lemma_occ_seq_unfold(s, spec_zero_repeat());
    assert(occ.len() >= 1 && occ[0] == s.at);
    let last = occ[occ.len() - 1];
    assert forall|j: int| 0 <= j < occ.len() implies (#[trigger] occ[j]).spec_le(last) by {
        if j < occ.len() - 1 {
            lemma_occ_sorted_aux(s, spec_zero_repeat(), j, occ.len() - 1);
        }
    }
    if spec_done_before(s, dt) {
        if s.until.spec_lt(dt) {
            assert forall|j: int| 0 <= j < occ.len() implies (#[trigger] occ[j]).spec_lt(dt) by {
                lemma_occ_bound_aux(s, spec_zero_repeat(), j);
            }
        }
    } else {
        assert(!last.spec_lt(dt));
    }
}

/// For a weekly-shaped step every occurrence keeps the anchor's day of week.
proof fn lemma_weekly_occurrences_weekday(s: ReDateTime, adder: RepeatEvery, j: int)
    requires
        s.wf(),
        !spec_is_zero(s.repeat),
        s.repeat.months == 0,
        s.repeat.minutes == 0,
        s.repeat.days % 7 == 0,
        adder.months == 0,
        adder.minutes == 0,
        adder.days % 7 == 0,
        0 <= j < occ_seq(s, adder).len(),
    ensures
        occ_seq(s, adder)[j].spec_weekday() == s.at.spec_weekday(),
    decreases j,
{
    lemma_occ_seq_unfold(s, adder);
    if j == 0 {
        lemma_add_to_duration_only(adder, s.at);
        lemma_basic_div(s.at.minute as int, 1440);
        lemma_fundamental_div_mod(adder.days as int, 7);
        lemma_mod_multiples_vanish(adder.days as int / 7, s.at.index(), 7);
    } else {
        match spec_checked_add(adder, s.repeat) {
            None => {},
            Some(a2) => {
                lemma_add_mod_noop(adder.days as int, s.repeat.days as int, 7);
                lemma_small_mod(0, 7);
                lemma_weekly_occurrences_weekday(s, a2, j - 1);
                assert(occ_seq(s, adder)[j] == occ_seq(s, a2)[j - 1]);
            },
        }
    }
}

/// Weekly repeat preserves the day of week of every occurrence.
pub proof fn lemma_weekly_preserves_weekday(s: ReDateTime, j: int)
    requires
        s.wf(),
        !spec_is_zero(s.repeat),
        s.repeat.months == 0,
        s.repeat.minutes == 0,
        s.repeat.days % 7 == 0,
        0 <= j < spec_occurrences(s).len(),
    ensures
        spec_occurrences(s)[j].spec_weekday() == s.at.spec_weekday(),
{
    lemma_small_mod(0, 7);
    lemma_weekly_occurrences_weekday(s, spec_zero_repeat(), j);
}

/// For a months-only step every occurrence keeps the anchor's day of month
/// and minute, and its absolute month index advances by the accumulated
/// month counter.
proof fn lemma_monthly_occurrences_shape(s: ReDateTime, adder: RepeatEvery, j: int)
    requires
        s.wf(),
        s.repeat.minutes == 0,
        s.repeat.days == 0,
        s.repeat.months >= 1,
        adder.minutes == 0,
        adder.days == 0,
        0 <= j < occ_seq(s, adder).len(),
    ensures
        ({
            let t = occ_seq(s, adder)[j];
            let mm = s.at.month0 + adder.months + j * s.repeat.months;
            t.day == s.at.day && t.minute == s.at.minute && t.month0 as int == mm % 12
                && t.year as int == s.at.year + mm / 12
        }),
    decreases j,
{
    lemma_occ_seq_unfold(s, adder);
    if j == 0 {
        assert(0 * s.repeat.months == 0) by (nonlinear_arith);
        if adder.months == 0 {
            assert(adder == spec_zero_repeat());
            lemma_add_to_zero(s.at);
            lemma_small_mod(s.at.month0 as nat, 12);
            lemma_basic_div(s.at.month0 as int, 12);
        } else {
            lemma_add_to_months_only(adder, s.at);
        }
    } else {
        match spec_checked_add(adder, s.repeat) {
            None => {},
            Some(a2) => {
                assert((j - 1) * s.repeat.months + s.repeat.months == j * s.repeat.months)
                    by (nonlinear_arith);
                lemma_monthly_occurrences_shape(s, a2, j - 1);
                assert(occ_seq(s, adder)[j] == occ_seq(s, a2)[j - 1]);
            },
        }
    }
}

/// Monthly repeat keeps the day of month and minute, and advances the
/// zero-based month by one per step, wrapping after twelve and carrying into
/// the year.
pub proof fn lemma_monthly_repeat_pattern(s: ReDateTime, j: int)
    requires
        s.wf(),
        s.repeat == (RepeatEvery { minutes: 0, days: 0, months: 1 }),
        0 <= j < spec_occurrences(s).len(),
    ensures
        ({
            let t = spec_occurrences(s)[j];
            t.day == s.at.day && t.minute == s.at.minute && t.month0 as int == (s.at.month0 + j)
                % 12 && t.year as int == s.at.year + (s.at.month0 + j) / 12
        }),
{
    lemma_monthly_occurrences_shape(s, spec_zero_repeat(), j);
    assert(j * 1 == j) by (nonlinear_arith);
}

/// Yearly repeat keeps day, month and minute, and advances the year by one
/// per step.
pub proof fn lemma_yearly_repeat_pattern(s: ReDateTime, j: int)
    requires
        s.wf(),
        s.repeat == (RepeatEvery { minutes: 0, days: 0, months: 12 }),
        0 <= j < spec_occurrences(s).len(),
    ensures
        ({
            let t = spec_occurrences(s)[j];
            t.day == s.at.day && t.minute == s.at.minute && t.month0 == s.at.month0 && t.year
                as int == s.at.year + j
        }),
{
    lemma_monthly_occurrences_shape(s, spec_zero_repeat(), j);
    let mm = s.at.month0 + 0 + j * 12;
    assert(mm == j * 12 + s.at.month0);
    lemma_fundamental_div_mod_converse_div(mm, 12, j, s.at.month0 as int);
    lemma_fundamental_div_mod_converse_mod(mm, 12, j, s.at.month0 as int);
    lemma_small_mod(s.at.month0 as nat, 12);
}

} // verus!
