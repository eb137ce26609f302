//! Calendar dates as day counts, with weekday arithmetic that skips weekends.
//!
//! A `Date` holds the number of days since the start of the common era
//! (0001-01-01 is day 1, a Monday), so `day % 7 == 0` means Sunday,
//! `1` Monday, ..., `6` Saturday.
use vstd::arithmetic::div_mod::{lemma_fundamental_div_mod, lemma_fundamental_div_mod_converse};
use vstd::prelude::*;

verus! {

/// Days below this margin, or above `u64::MAX` minus it, are kept out of the
/// trading-day arithmetic so that no step of it can overflow.
pub const DAY_MARGIN: u64 = 16;

/// The largest year `from_ymd` accepts.
pub const MAX_YEAR: u64 = 262143;

/// A calendar date, counted in days from the start of the common era.
#[derive(Debug, Clone, Copy, PartialEq, Eq, Structural)]
pub struct Date {
    pub day: u64,
}

impl View for Date {
    type V = int;

    open spec fn view(&self) -> int {
        self.day as int
    }
}

/// Weekday index of a day count: 0 is Sunday, 1 Monday, ..., 6 Saturday.
pub open spec fn weekday_of(day: int) -> int {
    day % 7
}

/// The next trading day strictly after `day`: Friday jumps to Monday,
/// Saturday to Monday, every other day to the day after.
pub open spec fn next_day(day: int) -> int {
    if weekday_of(day) == 5 {
        day + 3
    } else if weekday_of(day) == 6 {
        day + 2
    } else {
        day + 1
    }
}

/// The previous trading day strictly before `day`: Monday jumps back to
/// Friday, Sunday to Friday, every other day to the day before.
pub open spec fn prev_day(day: int) -> int {
    if weekday_of(day) == 1 {
        day - 3
    } else if weekday_of(day) == 0 {
        day - 2
    } else {
        day - 1
    }
}

/// The closest trading day at or before `day`: Saturday and Sunday step back
/// to Friday, weekdays stay put.
pub open spec fn closest_day(day: int) -> int {
    if weekday_of(day) == 6 {
        day - 1
    } else if weekday_of(day) == 0 {
        day - 2
    } else {
        day
    }
}

/// A day count far enough from both ends of `u64` for every step of the
/// trading-day and session arithmetic.
pub open spec fn date_in_range(d: Date) -> bool {
    DAY_MARGIN <= d.day && d.day <= u64::MAX - DAY_MARGIN
}

impl Date {
    /// The closest trading day at or before this one.
    pub fn closest_trading_day(&self) -> (r: Date)
        requires
            self.day >= 2,
        ensures
            r@ == closest_day(self@),
    {
        let w: u64 = self.day % 7;
        if w == 6 {
            Date { day: self.day - 1 }
        } else if w == 0 {
            Date { day: self.day - 2 }
        } else {
            Date { day: self.day }
        }
    }

    /// The next trading day strictly after this one.
    pub fn next_trading_day(&self) -> (r: Date)
        requires
            self.day + 3 <= u64::MAX,
        ensures
            r@ == next_day(self@),
    {
        let w: u64 = self.day % 7;
        if w == 5 {
            Date { day: self.day + 3 }
        } else if w == 6 {
            Date { day: self.day + 2 }
        } else {
            Date { day: self.day + 1 }
        }
    }

    /// The previous trading day strictly before this one.
    pub fn prev_trading_day(&self) -> (r: Date)
        requires
            self.day >= 3,
        ensures
            r@ == prev_day(self@),
    {
        let w: u64 = self.day % 7;
        if w == 1 {
            Date { day: self.day - 3 }
        } else if w == 0 {
            Date { day: self.day - 2 }
        } else {
            Date { day: self.day - 1 }
        }
    }
}

/// Stepping back one trading day and then forward one trading day returns to
/// the start, for every date that is itself a trading day (Monday to Friday).
pub proof fn lemma_next_prev_roundtrip(day: int)
    requires
        1 <= weekday_of(day) <= 5,
    ensures
        next_day(prev_day(day)) == day,
{
    let q: int = day / 7;
    let r: int = day % 7;
    lemma_fundamental_div_mod(day, 7);
    if r == 1 {
        lemma_fundamental_div_mod_converse(day - 3, 7, q - 1, 5);
    } else {
        lemma_fundamental_div_mod_converse(day - 1, 7, q, r - 1);
    }
}

/// Stepping forward one trading day and then back one trading day returns to
/// the start, for every date that is itself a trading day (Monday to Friday).
pub proof fn lemma_prev_next_roundtrip(day: int)
    requires
        1 <= weekday_of(day) <= 5,
    ensures
        prev_day(next_day(day)) == day,
{
    let q: int = day / 7;
    let r: int = day % 7;
    lemma_fundamental_div_mod(day, 7);
    if r == 5 {
        lemma_fundamental_div_mod_converse(day + 3, 7, q + 1, 1);
    } else {
        lemma_fundamental_div_mod_converse(day + 1, 7, q, r + 1);
    }
}

/// Whether `y` is a leap year of the Gregorian calendar.
pub open spec fn is_leap_year(y: int) -> bool {
    (y % 4 == 0 && y % 100 != 0) || y % 400 == 0
}

/// How many days the month `m` of year `y` has.
pub open spec fn days_in_month(y: int, m: int) -> int {
    if m == 2 {
        if is_leap_year(y) {
            29
        } else {
            28
        }
    } else if m == 4 || m == 6 || m == 9 || m == 11 {
        30
    } else {
        31
    }
}

/// Whether year, month and day name a real Gregorian date that `from_ymd`
/// accepts.
pub open spec fn valid_ymd(y: int, m: int, d: int) -> bool {
    &&& 1 <= y <= MAX_YEAR
    &&& 1 <= m <= 12
    &&& 1 <= d <= days_in_month(y, m)
}

/// The day count of a Gregorian date, counting 0001-01-01 as day 1. The
/// year is shifted so that it starts in March, which puts the leap day last;
/// whole days are then summed per 400-year era, per year, and per month.
pub open spec fn day_of_ymd(y: int, m: int, d: int) -> int {
    let yy: int = if m <= 2 {
        y - 1
    } else {
        y
    };
    let era: int = yy / 400;
    let yoe: int = yy % 400;
    let mp: int = (m + 9) % 12;
    let doy: int = (153 * mp + 2) / 5 + d - 1;
    let doe: int = yoe * 365 + yoe / 4 - yoe / 100 + doy;
    era * 146097 + doe - 305
}

/// Build a `Date` from a Gregorian year, month and day. Returns `None`
/// exactly when the triple does not name a real date in the supported years.
pub fn from_ymd(y: u64, m: u64, d: u64) -> (r: Option<Date>)
    ensures
        r is Some <==> valid_ymd(y as int, m as int, d as int),
        r matches Some(dt) ==> dt@ == day_of_ymd(y as int, m as int, d as int),
        r matches Some(dt) ==> 1 <= dt.day <= 96000000,
{
    if y < 1 || y > MAX_YEAR || m < 1 || m > 12 {
        return None;
    }
    let leap: bool = (y % 4 == 0 && y % 100 != 0) || y % 400 == 0;
    let dim: u64 = if m == 2 {
        if leap {
            29
        } else {
            28
        }
    } else if m == 4 || m == 6 || m == 9 || m == 11 {
        30
    } else {
        31
    };
    if d < 1 || d > dim {
        return None;
    }
    let yy: u64 = if m <= 2 {
        y - 1
    } else {
        y
    };
    let era: u64 = yy / 400;
    let yoe: u64 = yy % 400;
    proof {
        lemma_fundamental_div_mod(yy as int, 400);
    }
    let mp: u64 = (m + 9) % 12;
    let doy: u64 = (153 * mp + 2) / 5 + d - 1;
    let doe: u64 = yoe * 365 + yoe / 4 - yoe / 100 + doy;
    Some(Date { day: era * 146097 + doe - 305 })
}

} // verus!
