//! Calendar dates of the save's game calendar: every year has 365 days and
//! the usual month lengths, with no leap days. A date is ordered by its
//! absolute day index, which all comparisons and durations go through.

use vstd::prelude::*;

verus! {

/// A calendar date. Well-formed dates (see [`Date::wf`]) have a month in
/// `1..=12` and a day that exists in that month.
#[derive(Clone, Copy, PartialEq, Eq, Structural, Hash, Debug)]
pub struct Date {
    pub year: u16,
    pub month: u8,
    pub day: u8,
}

/// Number of days in month `m` (1-based) of the 365-day game calendar.
pub open spec fn days_in_month(m: int) -> int {
    if m == 2 {
        28
    } else if m == 4 || m == 6 || m == 9 || m == 11 {
        30
    } else {
        31
    }
}

/// Number of days in the months strictly before month `m` (1-based).
pub open spec fn days_before_month(m: int) -> int {
    if m == 1 {
        0
    } else if m == 2 {
        31
    } else if m == 3 {
        59
    } else if m == 4 {
        90
    } else if m == 5 {
        120
    } else if m == 6 {
        151
    } else if m == 7 {
        181
    } else if m == 8 {
        212
    } else if m == 9 {
        243
    } else if m == 10 {
        273
    } else if m == 11 {
        304
    } else {
        334
    }
}

impl Date {
    /// The date names a real day of the calendar.
    pub open spec fn wf(self) -> bool {
        &&& 1 <= self.month <= 12
        &&& 1 <= self.day <= days_in_month(self.month as int)
    }

    /// Absolute day index: days elapsed since day 1 of month 1 of year 0.
    pub open spec fn index_spec(self) -> int {
        self.year * 365 + days_before_month(self.month as int) + self.day - 1
    }

    pub fn new(year: u16, month: u8, day: u8) -> (d: Date)
        requires
            1 <= month <= 12,
            1 <= day <= days_in_month(month as int),
        ensures
            d == (Date { year, month, day }),
            d.wf(),
    {
        Date { year, month, day }
    }

    /// The absolute day index as a machine integer. The largest well-formed
    /// date maps to 65535 * 365 + 364, far below `u32::MAX`.
    pub fn day_index(&self) -> (r: u32)
        requires
            self.wf(),
        ensures
            r == self.index_spec(),
    {
        let before: u32 = if self.month == 1 {
            0
        } else if self.month == 2 {
            31
        } else if self.month == 3 {
            59
        } else if self.month == 4 {
            90
        } else if self.month == 5 {
            120
        } else if self.month == 6 {
            151
        } else if self.month == 7 {
            181
        } else if self.month == 8 {
            212
        } else if self.month == 9 {
            243
        } else if self.month == 10 {
            273
        } else if self.month == 11 {
            304
        } else {
            334
        };
        (self.year as u32) * 365 + before + (self.day as u32) - 1
    }

    pub fn le(&self, other: &Date) -> (r: bool)
        requires
            self.wf(),
            other.wf(),
        ensures
            r == (self.index_spec() <= other.index_spec()),
    {
        self.day_index() <= other.day_index()
    }

    pub fn lt(&self, other: &Date) -> (r: bool)
        requires
            self.wf(),
            other.wf(),
        ensures
            r == (self.index_spec() < other.index_spec()),
    {
        self.day_index() < other.day_index()
    }

    /// Signed number of days from `self` forward to `other`.
    pub fn days_until(&self, other: &Date) -> (r: i32)
        requires
            self.wf(),
            other.wf(),
        ensures
            r == other.index_spec() - self.index_spec(),
    {
        let a: u32 = self.day_index();
        let b: u32 = other.day_index();
        if b >= a {
            (b - a) as i32
        } else {
            0 - ((a - b) as i32)
        }
    }
}

} // verus!
