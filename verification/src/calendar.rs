//! Calendar arithmetic: validity of timestamps, day-of-week, and the
//! weekend window used by the attendance ratios.

use vstd::prelude::*;

verus! {

/// A wall-clock instant with second precision.
///
/// A timestamp names one column of the accumulated table.
#[derive(Clone, Copy, PartialEq, Eq, Structural, Debug)]
pub struct Timestamp {
    pub year: u32,
    pub month: u32,
    pub day: u32,
    pub hour: u32,
    pub minute: u32,
    pub second: u32,
}

/// True for leap years of the proleptic Gregorian calendar.
pub open spec fn spec_is_leap(y: int) -> bool {
    y % 4 == 0 && (y % 100 != 0 || y % 400 == 0)
}

/// Number of days in a month.
pub open spec fn spec_days_in_month(y: int, m: int) -> int {
    if m == 2 {
        if spec_is_leap(y) {
            29
        } else {
            28
        }
    } else if m == 4 || m == 6 || m == 9 || m == 11 {
        30
    } else {
        31
    }
}

/// Serial day number of a calendar date (proleptic Gregorian),
/// increasing by one per day; only differences and remainders of it
/// are ever used.
pub open spec fn spec_day_number(y: int, m: int, d: int) -> int {
    let yy = if m <= 2 { y - 1 } else { y };
    let era = yy / 400;
    let yoe = yy - era * 400;
    let mp = if m > 2 { m - 3 } else { m + 9 };
    let doy = (153 * mp + 2) / 5 + d - 1;
    let doe = yoe * 365 + yoe / 4 - yoe / 100 + doy;
    era * 146097 + doe
}

/// Day of week, numbered Monday = 0 .. Sunday = 6.
pub open spec fn spec_weekday(y: int, m: int, d: int) -> int {
    (spec_day_number(y, m, d) + 2) % 7
}

/// The weekend window: strictly after Friday, or Friday from 18:00 on.
pub open spec fn spec_in_weekend(t: Timestamp) -> bool {
    spec_weekday(t.year as int, t.month as int, t.day as int) >= 5 || (spec_weekday(
        t.year as int,
        t.month as int,
        t.day as int,
    ) == 4 && t.hour >= 18)
}

impl Timestamp {
    /// A valid calendar date and time of day; years are kept to four
    /// digits so that the persisted column name has a fixed width.
    pub open spec fn wf(self) -> bool {
        &&& 1000 <= self.year <= 9999
        &&& 1 <= self.month <= 12
        &&& 1 <= self.day <= spec_days_in_month(self.year as int, self.month as int)
        &&& self.hour <= 23
        &&& self.minute <= 59
        &&& self.second <= 59
    }

    /// Day of week of this timestamp's date, Monday = 0 .. Sunday = 6.
    pub fn weekday(&self) -> (w: u32)
        requires
            self.wf(),
        ensures
            w == spec_weekday(self.year as int, self.month as int, self.day as int),
            w <= 6,
    {
        let y: u64 = if self.month <= 2 {
            (self.year - 1) as u64
        } else {
            self.year as u64
        };
        let era: u64 = y / 400;
        let yoe: u64 = y - era * 400;
        let mp: u64 = if self.month > 2 {
            (self.month - 3) as u64
        } else {
            (self.month + 9) as u64
        };
        let doy: u64 = (153 * mp + 2) / 5 + self.day as u64 - 1;
        let doe: u64 = yoe * 365 + yoe / 4 - yoe / 100 + doy;
        let n: u64 = era * 146097 + doe;
        ((n + 2) % 7) as u32
    }

    /// Whether this timestamp falls in the weekend window
    /// (Friday 18:00 through the end of Sunday).
    pub fn is_weekend(&self) -> (b: bool)
        requires
            self.wf(),
        ensures
            b == spec_in_weekend(*self),
    {
        let w = self.weekday();
        w >= 5 || (w == 4 && self.hour >= 18)
    }
}

} // verus!
