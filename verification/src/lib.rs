//! A small calendar-arithmetic library: recurring instants on a single
//! UTC-like timeline. A `ReDateTime` combines an anchor instant, a repeat
//! step and an inclusive bound, and answers when its occurrences fall.

pub mod calendar;
pub mod codec;
pub mod instant;
pub mod laws;
pub mod repeat_every;

use vstd::prelude::*;
use crate::instant::{Instant, spec_max_instant, spec_min_instant};
use crate::repeat_every::{
    RepeatEvery, lemma_add_to_valid, lemma_add_to_zero, spec_add_to, spec_checked_add,
    spec_is_zero, spec_zero_repeat,
};

verus! {

/// A recurring instant: the first occurrence `at`, a repeat step, and an
/// inclusive upper bound `until` on occurrences. The maximum representable
/// instant as the bound means "unbounded".
#[derive(Clone, Copy, Debug)]
pub struct ReDateTime {
    pub at: Instant,
    pub repeat: RepeatEvery,
    pub until: Instant,
}

/// A traversal of the occurrences of a `ReDateTime`, in chronological order.
/// The accumulated step is applied to the anchor afresh at every element, so
/// each traversal is independent.
#[derive(Clone, Copy, Debug)]
pub struct ReDateTimeIter {
    pub from: ReDateTime,
    pub adder: Option<RepeatEvery>,
}

/// The sum of the three counters of a step; the accumulated step grows by at
/// least this much of the repeat step per occurrence.
pub open spec fn repeat_total(r: RepeatEvery) -> int {
    r.minutes + r.days + r.months
}

/// The occurrences produced from accumulated step `adder` onwards: each
/// element applies the accumulated step to the anchor, and the traversal ends
/// at the first step that overflows, leaves the calendar, or lands past the
/// bound.
pub open spec fn occ_seq(s: ReDateTime, adder: RepeatEvery) -> Seq<Instant>
    decreases 3 * (u32::MAX as int) + 1 - repeat_total(adder)
        when !spec_is_zero(s.repeat)
{
    match spec_add_to(adder, s.at) {
        None => Seq::empty(),
        Some(t) => {
            if s.until.spec_lt(t) {
                Seq::empty()
            } else {
                match spec_checked_add(adder, s.repeat) {
                    None => seq![t],
                    Some(a2) => seq![t] + occ_seq(s, a2),
                }
            }
        },
    }
}

/// All occurrences of `s`, for a non-zero repeat step.
pub open spec fn spec_occurrences(s: ReDateTime) -> Seq<Instant> {
    occ_seq(s, spec_zero_repeat())
}

/// What remains of a traversal: nothing once the accumulated step is gone.
pub open spec fn iter_remaining(it: ReDateTimeIter) -> Seq<Instant> {
    match it.adder {
        None => Seq::empty(),
        Some(x) => occ_seq(it.from, x),
    }
}

/// The first element of `sq` that is not earlier than `df`, if any.
pub open spec fn spec_first_on_or_after(sq: Seq<Instant>, df: Instant) -> Option<Instant>
    decreases sq.len(),
{
    if sq.len() == 0 {
        None
    } else if !sq[0].spec_lt(df) {
        Some(sq[0])
    } else {
        spec_first_on_or_after(sq.drop_first(), df)
    }
}

/// The earliest occurrence of `s` at or after `df`, if any.
pub open spec fn spec_first_after(s: ReDateTime, df: Instant) -> Option<Instant> {
    if spec_is_zero(s.repeat) {
        if s.at.spec_lt(df) {
            None
        } else {
            Some(s.at)
        }
    } else if s.until.spec_lt(df) {
        None
    } else {
        spec_first_on_or_after(spec_occurrences(s), df)
    }
}

/// Whether some occurrence of `s` falls in the inclusive window `[df, dt]`.
pub open spec fn spec_between(s: ReDateTime, df: Instant, dt: Instant) -> bool {
    match spec_first_after(s, df) {
        None => false,
        Some(t) => t.spec_le(dt),
    }
}

/// Whether every occurrence of `s` is strictly earlier than `dt`: for a zero
/// repeat, the single occurrence is; otherwise the schedule must be bounded,
/// and its bound or its final occurrence must come before `dt`.
pub open spec fn spec_done_before(s: ReDateTime, dt: Instant) -> bool {
    if spec_is_zero(s.repeat) {
        s.at.spec_lt(dt)
    } else {
        s.until != spec_max_instant() && (s.until.spec_lt(dt) || (spec_occurrences(s).len() > 0
            && spec_occurrences(s).last().spec_lt(dt)))
    }
}

/// One unfolding of `occ_seq`, with the shape of head and tail spelled out.
pub proof fn lemma_occ_seq_unfold(s: ReDateTime, x: RepeatEvery)
    requires
        !spec_is_zero(s.repeat),
    ensures
        (match spec_add_to(x, s.at) {
            None => occ_seq(s, x) == Seq::<Instant>::empty(),
            Some(t) => {
                if s.until.spec_lt(t) {
                    occ_seq(s, x) == Seq::<Instant>::empty()
                } else {
                    occ_seq(s, x).len() >= 1 && occ_seq(s, x)[0] == t && (match spec_checked_add(
                        x,
                        s.repeat,
                    ) {
                        None => occ_seq(s, x).len() == 1,
                        Some(a2) => occ_seq(s, x).drop_first() == occ_seq(s, a2),
                    })
                }
            },
        }),
{
    match spec_add_to(x, s.at) {
        None => {},
        Some(t) => {
            if !s.until.spec_lt(t) {
                match spec_checked_add(x, s.repeat) {
                    None => {},
                    Some(a2) => {
                        assert(occ_seq(s, x).drop_first() =~= occ_seq(s, a2));
                    },
                }
            }
        },
    }
}

/// Every element of the occurrence sequence is a valid instant.
pub proof fn lemma_occ_elements_valid(s: ReDateTime, adder: RepeatEvery, j: int)
    requires
        s.wf(),
        !spec_is_zero(s.repeat),
        0 <= j < occ_seq(s, adder).len(),
    ensures
        occ_seq(s, adder)[j].valid(),
    decreases j,
{
    lemma_add_to_valid(adder, s.at);
    if j > 0 {
        match spec_checked_add(adder, s.repeat) {
            None => {},
            Some(a2) => {
                lemma_occ_elements_valid(s, a2, j - 1);
            },
        }
    }
}

/// Skipping a prefix of elements earlier than `df` does not change the first
/// element at or after `df`.
pub proof fn lemma_first_skip(sq: Seq<Instant>, df: Instant, k: int)
    requires
        0 <= k <= sq.len(),
        forall|j: int| 0 <= j < k ==> sq[j].spec_lt(df),
    ensures
        spec_first_on_or_after(sq, df) == spec_first_on_or_after(sq.skip(k), df),
    decreases k,
{
    if k == 0 {
        assert(sq.skip(0) =~= sq);
    } else {
        assert(sq[0].spec_lt(df));
        assert forall|j: int| 0 <= j < k - 1 implies sq.drop_first()[j].spec_lt(df) by {
            assert(sq.drop_first()[j] == sq[j + 1]);
        }
        lemma_first_skip(sq.drop_first(), df, k - 1);
        assert(sq.drop_first().skip(k - 1) =~= sq.skip(k));
    }
}

/// A first element at or after `df` is an element of the sequence, and is not
/// earlier than `df`.
pub proof fn lemma_first_mem(sq: Seq<Instant>, df: Instant)
    ensures
        (match spec_first_on_or_after(sq, df) {
            Some(t) => !t.spec_lt(df) && exists|j: int| 0 <= j < sq.len() && sq[j] == t,
            None => true,
        }),
    decreases sq.len(),
{
    if sq.len() == 0 {
    } else if !sq[0].spec_lt(df) {
        assert(0 <= 0 < sq.len() && sq[0] == sq[0]);
    } else {
        lemma_first_mem(sq.drop_first(), df);
        match spec_first_on_or_after(sq.drop_first(), df) {
            Some(t) => {
                let j = choose|j: int| 0 <= j < sq.drop_first().len() && sq.drop_first()[j] == t;
                assert(sq[j + 1] == t);
            },
            None => {},
        }
    }
}

impl ReDateTime {
    /// The anchor and the bound are valid instants.
    pub open spec fn wf(self) -> bool {
        self.at.valid() && self.until.valid()
    }

    /// The schedule with the single occurrence `dt`.
    pub fn at(dt: Instant) -> (r: ReDateTime)
        ensures
            r.at == dt,
            r.repeat == spec_zero_repeat(),
            r.until == spec_max_instant(),
            dt.valid() ==> r.wf(),
    {
        ReDateTime { at: dt, repeat: RepeatEvery::zero(), until: Instant::max_instant() }
    }

    /// The schedule anchored at `dt` repeating every `dur` without bound; a
    /// zero step instead gets the minimum instant as its bound.
    pub fn repeat(dt: Instant, dur: RepeatEvery) -> (r: ReDateTime)
        ensures
            r.at == dt,
            r.repeat == dur,
            r.until == (if spec_is_zero(dur) {
                spec_min_instant()
            } else {
                spec_max_instant()
            }),
            dt.valid() ==> r.wf(),
    {
        let lim = if dur.is_zero() {
            Instant::min_instant()
        } else {
            Instant::max_instant()
        };
        ReDateTime { at: dt, repeat: dur, until: lim }
    }

    /// The schedule anchored at `dt` repeating every `dur` up to `til`,
    /// inclusive.
    pub fn repeat_until(dt: Instant, dur: RepeatEvery, til: Instant) -> (r: ReDateTime)
        ensures
            r.at == dt,
            r.repeat == dur,
            r.until == til,
    {
        ReDateTime { at: dt, repeat: dur, until: til }
    }

    /// A fresh traversal of the occurrences, from the first on.
    pub fn iter(&self) -> (r: ReDateTimeIter)
        ensures
            r.from == *self,
            r.adder == (if spec_is_zero(self.repeat) {
                None::<RepeatEvery>
            } else {
                Some(spec_zero_repeat())
            }),
    {
        let a = if self.repeat.is_zero() {
            None
        } else {
            Some(RepeatEvery::zero())
        };
        ReDateTimeIter { from: *self, adder: a }
    }

    /// True iff every occurrence is strictly earlier than `dt`. An unbounded
    /// schedule is never done. Calling this on a bounded, repeating schedule
    /// whose bound lies at or past `dt` but before its own anchor is ruled
    /// out, as it has no final occurrence to inspect.
    pub fn done_before(&self, dt: &Instant) -> (r: bool)
        requires
            self.wf(),
            dt.valid(),
            spec_is_zero(self.repeat) || self.until == spec_max_instant() || self.until.spec_lt(
                *dt,
            ) || self.at.spec_le(self.until),
        ensures
            r == spec_done_before(*self, *dt),
    {
        if self.repeat.is_zero() {
            return self.at.lt(dt);
        }
        let mx = Instant::max_instant();
        if self.until == mx {
            return false;
        }
        if self.until.lt(dt) {
            return true;
        }
        let ghost occ = spec_occurrences(*self);
        let mut it = self.iter();
        let ghost mut k: int = 0;
        let mut last: Option<Instant> = None;
        proof {
            assert(occ.skip(0) =~= occ);
        }
        loop
            invariant
                self.wf(),
                dt.valid(),
                !spec_is_zero(self.repeat),
                it.from == *self,
                occ == spec_occurrences(*self),
                0 <= k <= occ.len(),
                iter_remaining(it) == occ.skip(k),
                (match last {
                    None => k == 0,
                    Some(l) => k >= 1 && l == occ[k - 1] && l.valid(),
                }),
                self.at.spec_le(self.until),
                !self.until.spec_lt(*dt),
                self.until != spec_max_instant(),
            decreases occ.len() - k,
        {
            let ghost pre = it;
            let n = it.next();
            match n {
                Some(t) => {
                    proof {
                        let x = pre.adder->Some_0;
                        lemma_occ_seq_unfold(*self, x);
                        lemma_add_to_valid(x, self.at);
                        assert(occ.skip(k)[0] == occ[k]);
                        match spec_checked_add(x, self.repeat) {
                            None => {
                                assert(occ.skip(k + 1) =~= Seq::<Instant>::empty());
                            },
                            Some(a2) => {
                                assert(occ.skip(k).drop_first() =~= occ.skip(k + 1));
                            },
                        }
                        k = k + 1;
                    }
                    last = Some(t);
                },
                None => {
                    proof {
                        if pre.adder is Some {
                            lemma_occ_seq_unfold(*self, pre.adder->Some_0);
                        }
                        assert(occ.skip(k).len() == 0);
                        assert(k == occ.len());
                        if k == 0 {
                            lemma_add_to_zero(self.at);
                            lemma_occ_seq_unfold(*self, spec_zero_repeat());
                            assert(false);
                        }
                    }
                    match last {
                        Some(l) => {
                            return l.lt(dt);
                        },
                        None => {
                            return false;
                        },
                    }
                },
            }
        }
    }

    /// True iff some occurrence falls between `df` and `dt`, both inclusive.
    /// `df` must not come later than `dt`.
    pub fn between(&self, df: &Instant, dt: &Instant) -> (r: bool)
        requires
            self.wf(),
            df.valid(),
            dt.valid(),
            df.spec_le(*dt),
        ensures
            r == spec_between(*self, *df, *dt),
    {
        proof {
            crate::laws::lemma_first_after_valid(*self, *df);
        }
        match self.first_after(df) {
            None => false,
            Some(d) => d.le(dt),
        }
    }

    /// The earliest occurrence at or after `df`, or nothing if every
    /// occurrence is earlier than `df` or past the bound.
    pub fn first_after(&self, df: &Instant) -> (r: Option<Instant>)
        requires
            self.wf(),
            df.valid(),
        ensures
            r == spec_first_after(*self, *df),
    {
        if self.repeat.is_zero() {
            if self.at.lt(df) {
                return None;
            }
            return Some(self.at);
        }
        if self.until.lt(df) {
            return None;
        }
        let ghost occ = spec_occurrences(*self);
        let mut it = self.iter();
        let ghost mut k: int = 0;
        proof {
            assert(occ.skip(0) =~= occ);
        }
        loop
            invariant
                self.wf(),
                df.valid(),
                !spec_is_zero(self.repeat),
                it.from == *self,
                occ == spec_occurrences(*self),
                0 <= k <= occ.len(),
                iter_remaining(it) == occ.skip(k),
                forall|j: int| 0 <= j < k ==> occ[j].spec_lt(*df),
                !self.until.spec_lt(*df),
            decreases occ.len() - k,
        {
            let ghost pre = it;
            let n = it.next();
            match n {
                Some(t) => {
                    proof {
                        let x = pre.adder->Some_0;
                        lemma_occ_seq_unfold(*self, x);
                        lemma_add_to_valid(x, self.at);
                        assert(occ.skip(k)[0] == occ[k]);
                    }
                    if !t.lt(df) {
                        proof {
                            lemma_first_skip(occ, *df, k);
                        }
                        return Some(t);
                    }
                    proof {
                        let x = pre.adder->Some_0;
                        match spec_checked_add(x, self.repeat) {
                            None => {
                                assert(occ.skip(k + 1) =~= Seq::<Instant>::empty());
                            },
                            Some(a2) => {
                                assert(occ.skip(k).drop_first() =~= occ.skip(k + 1));
                            },
                        }
                        k = k + 1;
                    }
                },
                None => {
                    proof {
                        if pre.adder is Some {
                            lemma_occ_seq_unfold(*self, pre.adder->Some_0);
                        }
                        assert(occ.skip(k).len() == 0);
                        lemma_first_skip(occ, *df, k);
                    }
                    return None;
                },
            }
        }
    }
}

impl ReDateTimeIter {
    /// The next occurrence: the accumulated step applied to the anchor, if it
    /// lands at or before the bound; the accumulated step then grows by the
    /// repeat step, or is retired on counter overflow.
    pub fn next(&mut self) -> (r: Option<Instant>)
        requires
            old(self).from.wf(),
        ensures
            final(self).from == old(self).from,
            (match old(self).adder {
                None => r == None::<Instant> && final(self).adder == None::<RepeatEvery>,
                Some(x) => final(self).adder == spec_checked_add(x, old(self).from.repeat) && r
                    == (match spec_add_to(x, old(self).from.at) {
                    Some(t) => if t.spec_le(old(self).from.until) {
                        Some(t)
                    } else {
                        None::<Instant>
                    },
                    None => None::<Instant>,
                }),
            }),
    {
        let x = match &self.adder {
            None => {
                return None;
            },
            Some(x) => *x,
        };
        self.adder = x.checked_add(&self.from.repeat);
        if let Some(n) = x.add_to(&self.from.at) {
            if n.le(&self.from.until) {
                return Some(n);
            }
        }
        None
    }
}

} // verus!
