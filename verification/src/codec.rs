//! A reversible mapping between a schedule and a flat record of its eleven
//! plain fields, so that an instance can be stored or transmitted and
//! rebuilt with identical field values.

use vstd::prelude::*;
use crate::calendar::{MAX_YEAR, MIN_YEAR, days_in_month};
use crate::instant::{Instant, month_length};
use crate::repeat_every::RepeatEvery;
use crate::ReDateTime;

verus! {

/// The record of a schedule: anchor fields, step counters, bound fields.
pub open spec fn spec_encode(s: ReDateTime) -> Seq<i64> {
    seq![
        s.at.year as i64,
        s.at.month0 as i64,
        s.at.day as i64,
        s.at.minute as i64,
        s.repeat.minutes as i64,
        s.repeat.days as i64,
        s.repeat.months as i64,
        s.until.year as i64,
        s.until.month0 as i64,
        s.until.day as i64,
        s.until.minute as i64,
    ]
}

/// The schedule a record names, or nothing unless the record has exactly the
/// eleven fields and each is in range for its place.
pub open spec fn spec_decode(v: Seq<i64>) -> Option<ReDateTime> {
    if v.len() == 11 && MIN_YEAR as int <= v[0] <= MAX_YEAR as int && 0 <= v[1] < 12 && 1 <= v[2]
        <= days_in_month(v[0] as int, v[1] as int) && 0 <= v[3] < 1440 && 0 <= v[4] <= u32::MAX
        && 0 <= v[5] <= u32::MAX && 0 <= v[6] <= u32::MAX && MIN_YEAR as int <= v[7] <= MAX_YEAR
        as int && 0 <= v[8] < 12 && 1 <= v[9] <= days_in_month(v[7] as int, v[8] as int) && 0
        <= v[10] < 1440 {
        Some(
            ReDateTime {
                at: Instant {
                    year: v[0] as i32,
                    month0: v[1] as u32,
                    day: v[2] as u32,
                    minute: v[3] as u32,
                },
                repeat: RepeatEvery {
                    minutes: v[4] as u32,
                    days: v[5] as u32,
                    months: v[6] as u32,
                },
                until: Instant {
                    year: v[7] as i32,
                    month0: v[8] as u32,
                    day: v[9] as u32,
                    minute: v[10] as u32,
                },
            },
        )
    } else {
        None
    }
}

/// Encoding a well-formed schedule and decoding the record yields the
/// schedule back, field for field.
pub proof fn lemma_codec_round_trip(s: ReDateTime)
    requires
        s.wf(),
    ensures
        spec_decode(spec_encode(s)) == Some(s),
{
}

impl ReDateTime {
    /// The record of this schedule's fields.
    pub fn encode(&self) -> (r: Vec<i64>)
        ensures
            r@ == spec_encode(*self),
    {
        let mut v: Vec<i64> = Vec::new();
        v.push(self.at.year as i64);
        v.push(self.at.month0 as i64);
        v.push(self.at.day as i64);
        v.push(self.at.minute as i64);
        v.push(self.repeat.minutes as i64);
        v.push(self.repeat.days as i64);
        v.push(self.repeat.months as i64);
        v.push(self.until.year as i64);
        v.push(self.until.month0 as i64);
        v.push(self.until.day as i64);
        v.push(self.until.minute as i64);
        proof {
            assert(v@ =~= spec_encode(*self));
        }
        v
    }

    /// The schedule a record names, or nothing where the record's length or a
    /// field's range is wrong.
    pub fn decode(v: &Vec<i64>) -> (r: Option<ReDateTime>)
        ensures
            r == spec_decode(v@),
    {
        if v.len() != 11 {
            return None;
        }
        let ay = v[0];
        let am = v[1];
        let ad = v[2];
        let amin = v[3];
        if ay < MIN_YEAR as i64 || ay > MAX_YEAR as i64 || am < 0 || am >= 12 {
            return None;
        }
        let aml = month_length(ay as i32, am as u32);
        if ad < 1 || ad > aml as i64 || amin < 0 || amin >= 1440 {
            return None;
        }
        let rm = v[4];
        let rd = v[5];
        let rmo = v[6];
        if rm < 0 || rm > u32::MAX as i64 || rd < 0 || rd > u32::MAX as i64 || rmo < 0 || rmo
            > u32::MAX as i64 {
            return None;
        }
        let uy = v[7];
        let um = v[8];
        let ud = v[9];
        let umin = v[10];
        if uy < MIN_YEAR as i64 || uy > MAX_YEAR as i64 || um < 0 || um >= 12 {
            return None;
        }
        let uml = month_length(uy as i32, um as u32);
        if ud < 1 || ud > uml as i64 || umin < 0 || umin >= 1440 {
            return None;
        }
        Some(
            ReDateTime {
                at: Instant {
                    year: ay as i32,
                    month0: am as u32,
                    day: ad as u32,
                    minute: amin as u32,
                },
                repeat: RepeatEvery { minutes: rm as u32, days: rd as u32, months: rmo as u32 },
                until: Instant {
                    year: uy as i32,
                    month0: um as u32,
                    day: ud as u32,
                    minute: umin as u32,
                },
            },
        )
    }
}

} // verus!

