//! Calendar arithmetic on proleptic Gregorian dates.
//!
//! A [`Date`] is a plain (year, month, day) triple. The module defines
//! validity, a total calendar order, predecessor/successor of a day, the
//! length of a month, and shifting a (month, year) pair by a number of
//! months.

use vstd::prelude::*;

verus! {

pub const DAYS_PER_WEEK: u8 = 7;

pub const MONTHS_PER_YEAR: u8 = 12;

/// A proleptic Gregorian calendar date, held as plain values.
/// Years are limited to what the save format can carry (a `u16`).
#[derive(Clone, Copy, PartialEq, Eq, Structural, Debug, Hash)]
pub struct Date {
    pub year: u16,
    /// Calendar month, 1 to 12.
    pub month: u8,
    /// Day of month, 1 to the month's length.
    pub day: u8,
}

/// A year has 366 days when divisible by 4, except century years not
/// divisible by 400.
pub open spec fn is_leap_year(year: int) -> bool {
    year % 4 == 0 && (year % 100 != 0 || year % 400 == 0)
}

/// Number of days of the given month in the given year.
pub open spec fn spec_days_in_month(year: int, month: int) -> int {
    if month == 2 {
        if is_leap_year(year) {
            29
        } else {
            28
        }
    } else if month == 4 || month == 6 || month == 9 || month == 11 {
        30
    } else {
        31
    }
}

impl Date {
    /// The date names an actual calendar day.
    pub open spec fn wf(self) -> bool {
        &&& 1 <= self.month <= 12
        &&& 1 <= self.day <= spec_days_in_month(self.year as int, self.month as int)
    }

    /// A measure that is strictly increasing in calendar order, so two valid
    /// dates compare by calendar order exactly when their measures do.
    /// The coefficients only need to dominate the ranges of the lower fields.
    pub open spec fn ord(self) -> int {
        600 * self.year + 40 * self.month + self.day
    }

    /// `self` is on or before `other` in calendar order.
    pub open spec fn on_or_before(self, other: Date) -> bool {
        self.ord() <= other.ord()
    }

    /// `self` is strictly before `other` in calendar order.
    pub open spec fn before(self, other: Date) -> bool {
        self.ord() < other.ord()
    }

    /// The earliest representable date.
    pub open spec fn is_min(self) -> bool {
        self == (Date { year: 0, month: 1, day: 1 })
    }

    /// The latest representable date.
    pub open spec fn is_max(self) -> bool {
        self == (Date { year: 0xffff, month: 12, day: 31 })
    }

    /// The previous calendar day.
    pub open spec fn spec_pred(self) -> Date
        recommends
            self.wf(),
            !self.is_min(),
    {
        if self.day > 1 {
            Date { year: self.year, month: self.month, day: (self.day - 1) as u8 }
        } else if self.month > 1 {
            Date {
                year: self.year,
                month: (self.month - 1) as u8,
                day: spec_days_in_month(self.year as int, self.month - 1) as u8,
            }
        } else {
            Date { year: (self.year - 1) as u16, month: 12, day: 31 }
        }
    }

    /// The next calendar day.
    pub open spec fn spec_succ(self) -> Date
        recommends
            self.wf(),
            !self.is_max(),
    {
        if self.day < spec_days_in_month(self.year as int, self.month as int) {
            Date { year: self.year, month: self.month, day: (self.day + 1) as u8 }
        } else if self.month < 12 {
            Date { year: self.year, month: (self.month + 1) as u8, day: 1 }
        } else {
            Date { year: (self.year + 1) as u16, month: 1, day: 1 }
        }
    }

    /// The previous calendar day of a valid, non-minimal date.
    pub fn pred(self) -> (r: Date)
        requires
            self.wf(),
            !self.is_min(),
        ensures
            r == self.spec_pred(),
            r.wf(),
            r.ord() < self.ord(),
    {
        if self.day > 1 {
            Date { year: self.year, month: self.month, day: self.day - 1 }
        } else if self.month > 1 {
            Date {
                year: self.year,
                month: self.month - 1,
                day: days_in_month(self.year as i32, self.month - 1),
            }
        } else {
            Date { year: self.year - 1, month: 12, day: 31 }
        }
    }

    /// The next calendar day of a valid, non-maximal date.
    pub fn succ(self) -> (r: Date)
        requires
            self.wf(),
            !self.is_max(),
        ensures
            r == self.spec_succ(),
            r.wf(),
            self.ord() < r.ord(),
    {
        if self.day < days_in_month(self.year as i32, self.month) {
            Date { year: self.year, month: self.month, day: self.day + 1 }
        } else if self.month < 12 {
            Date { year: self.year, month: self.month + 1, day: 1 }
        } else {
            Date { year: self.year + 1, month: 1, day: 1 }
        }
    }

    /// Whether `self` is on or before `other` in calendar order.
    pub fn le(self, other: Date) -> (r: bool)
        requires
            self.wf(),
            other.wf(),
        ensures
            r == self.on_or_before(other),
    {
        if self.year != other.year {
            self.year < other.year
        } else if self.month != other.month {
            self.month < other.month
        } else {
            self.day <= other.day
        }
    }
}

/// Two valid dates are the same exactly when their measures agree: the
/// measure is injective on valid dates.
pub proof fn lemma_ord_injective(a: Date, b: Date)
    requires
        a.wf(),
        b.wf(),
    ensures
        a == b <==> a.ord() == b.ord(),
{
}

/// Between two distinct valid dates there is no valid date with a measure
/// strictly between the first date's and its successor's: the successor is
/// the immediately following calendar day.
pub proof fn lemma_succ_on_or_before(d: Date, bound: Date)
    requires
        d.wf(),
        bound.wf(),
        d.before(bound),
    ensures
        !d.is_max(),
        d.spec_succ().on_or_before(bound),
{
}

/// Stepping back one day and then forward one day returns to the same date.
pub proof fn lemma_pred_succ_identity(d: Date)
    requires
        d.wf(),
        !d.is_min(),
    ensures
        d.spec_pred().wf(),
        d.spec_pred().ord() < d.ord(),
        d.spec_pred().spec_succ() == d,
{
}

/// Stepping forward one day and then back one day returns to the same date.
pub proof fn lemma_succ_pred_identity(d: Date)
    requires
        d.wf(),
        !d.is_max(),
    ensures
        d.spec_succ().wf(),
        d.ord() < d.spec_succ().ord(),
        d.spec_succ().spec_pred() == d,
{
}

/// Number of days of the given month, matching the Gregorian calendar rules
/// (including 29-day Februaries in leap years).
pub fn days_in_month(year: i32, month: u8) -> (r: u8)
    requires
        1 <= month <= 12,
    ensures
        r == spec_days_in_month(year as int, month as int),
{
    if month == 2 {
        if year % 4 == 0 && (year % 100 != 0 || year % 400 == 0) {
            29
        } else {
            28
        }
    } else if month == 4 || month == 6 || month == 9 || month == 11 {
        30
    } else {
        31
    }
}

/// What shifting `month` by `offset` months yields: a new month and year.
/// Wrapping below January moves one year back; overshooting December moves
/// one year forward and keeps `offset` itself as the month, which is the
/// intended wrap only for offsets that land at most one year ahead.
pub open spec fn spec_month_year_offset(month: int, year: int, offset: int) -> (int, int) {
    let shifted = month + offset;
    if shifted < 1 {
        (shifted + 12, year - 1)
    } else if shifted > 12 {
        (offset, year + 1)
    } else {
        (shifted, year)
    }
}

/// Shift a (month, year) pair by `offset` months.
pub fn month_year_offset(month: i32, year: i32, offset: i32) -> (r: (i32, i32))
    requires
        i32::MIN <= month + offset <= i32::MAX,
        month + offset < 1 ==> i32::MIN <= year - 1,
        month + offset > 12 ==> year + 1 <= i32::MAX,
    ensures
        (r.0 as int, r.1 as int) == spec_month_year_offset(month as int, year as int, offset as int),
{
    let new_month: i32 = month + offset;
    if new_month < 1 {
        (new_month + 12, year - 1)
    } else if new_month > 12 {
        (offset, year + 1)
    } else {
        (new_month, year)
    }
}

/// For a month in 1 to 12 and an offset between -11 and 1, the shifted month
/// is again in 1 to 12, and the year moves by exactly the number of year
/// boundaries the shift crosses.
pub proof fn lemma_month_year_offset_in_range(month: int, year: int, offset: int)
    requires
        1 <= month <= 12,
        -11 <= offset <= 1,
    ensures
        ({
            let (new_month, new_year) = spec_month_year_offset(month, year, offset);
            &&& 1 <= new_month <= 12
            &&& new_month == ((month - 1 + offset) % 12) + 1
            &&& new_year == year + (month - 1 + offset) / 12
        }),
{
    let shifted = month + offset;
    if shifted < 1 {
        assert((month - 1 + offset) % 12 == month + offset + 11 && (month - 1 + offset) / 12
            == -1) by {
            lemma_small_mod_div(month - 1 + offset);
        }
    } else if shifted > 12 {
        assert((month - 1 + offset) % 12 == 0 && (month - 1 + offset) / 12 == 1) by {
            lemma_small_mod_div(month - 1 + offset);
        }
    } else {
        assert((month - 1 + offset) % 12 == month - 1 + offset && (month - 1 + offset) / 12
            == 0) by {
            lemma_small_mod_div(month - 1 + offset);
        }
    }
}

/// Division and remainder of a small value by 12, spelled out for the three
/// twelves around zero.
proof fn lemma_small_mod_div(v: int)
    requires
        -12 <= v <= 23,
    ensures
        v < 0 ==> v % 12 == v + 12 && v / 12 == -1,
        0 <= v < 12 ==> v % 12 == v && v / 12 == 0,
        12 <= v ==> v % 12 == v - 12 && v / 12 == 1,
{
    if v < 0 {
        assert(v % 12 == v + 12 && v / 12 == -1) by (nonlinear_arith)
            requires
                -12 <= v < 0,
        ;
    } else if v < 12 {
        assert(v % 12 == v && v / 12 == 0) by (nonlinear_arith)
            requires
                0 <= v < 12,
        ;
    } else {
        assert(v % 12 == v - 12 && v / 12 == 1) by (nonlinear_arith)
            requires
                12 <= v <= 23,
        ;
    }
}

} // verus!
