//! Calendar dates of the proleptic Gregorian calendar, years 1 through 9999.
//!
//! A `Date` carries its year, month and day together with a cached day index
//! (days elapsed since January 1 of year 1), so that ordering, distance and
//! successor computations are plain integer arithmetic.

use vstd::prelude::*;
use vstd::arithmetic::div_mod::{
    lemma_fundamental_div_mod, lemma_fundamental_div_mod_converse_div,
    lemma_fundamental_div_mod_converse_mod,
};

verus! {

pub open spec fn is_leap_year(y: int) -> bool {
    (y % 4 == 0 && y % 100 != 0) || y % 400 == 0
}

pub open spec fn days_in_month(y: int, m: int) -> int {
    if m == 2 {
        if is_leap_year(y) { 29 } else { 28 }
    } else if m == 4 || m == 6 || m == 9 || m == 11 {
        30
    } else {
        31
    }
}

/// Days of year `y` that precede the first day of month `m`.
pub open spec fn days_before_month(y: int, m: int) -> int {
    let plain: int = if m == 1 { 0 }
        else if m == 2 { 31 }
        else if m == 3 { 59 }
        else if m == 4 { 90 }
        else if m == 5 { 120 }
        else if m == 6 { 151 }
        else if m == 7 { 181 }
        else if m == 8 { 212 }
        else if m == 9 { 243 }
        else if m == 10 { 273 }
        else if m == 11 { 304 }
        else { 334 };
    plain + if m > 2 && is_leap_year(y) { 1int } else { 0int }
}

/// Leap years among years 1..y (exclusive of y itself).
pub open spec fn leap_years_before(y: int) -> int {
    (y - 1) / 4 - (y - 1) / 100 + (y - 1) / 400
}

pub open spec fn is_valid_ymd(y: int, m: int, d: int) -> bool {
    1 <= y <= 9999 && 1 <= m <= 12 && 1 <= d <= days_in_month(y, m)
}

/// Days elapsed since January 1 of year 1 (that day itself has index 0).
pub open spec fn day_number(y: int, m: int, d: int) -> int {
    365 * (y - 1) + leap_years_before(y) + days_before_month(y, m) + (d - 1)
}

/// The day index of December 31, 9999, the largest supported date.
pub open spec fn max_day_index() -> int {
    day_number(9999, 12, 31)
}

/// A calendar date. `num` caches `day_number(year, month, day)`.
#[derive(Clone, Copy, PartialEq, Eq, Structural, Debug, Hash)]
pub struct Date {
    pub year: u32,
    pub month: u32,
    pub day: u32,
    pub num: u32,
}

impl Date {
    pub open spec fn wf(self) -> bool {
        is_valid_ymd(self.year as int, self.month as int, self.day as int)
            && self.num as int == day_number(self.year as int, self.month as int, self.day as int)
    }

    pub open spec fn index(self) -> int {
        self.num as int
    }

    /// Number of days in the given month, as a runtime value.
    fn month_length(y: u32, m: u32) -> (r: u32)
        requires
            1 <= m <= 12,
        ensures
            r as int == days_in_month(y as int, m as int),
    {
        if m == 2 {
            if (y % 4 == 0 && y % 100 != 0) || y % 400 == 0 { 29 } else { 28 }
        } else if m == 4 || m == 6 || m == 9 || m == 11 {
            30
        } else {
            31
        }
    }

    fn month_prefix(y: u32, m: u32) -> (r: u32)
        requires
            1 <= m <= 12,
        ensures
            r as int == days_before_month(y as int, m as int),
    {
        let plain: u32 = if m == 1 { 0 }
            else if m == 2 { 31 }
            else if m == 3 { 59 }
            else if m == 4 { 90 }
            else if m == 5 { 120 }
            else if m == 6 { 151 }
            else if m == 7 { 181 }
            else if m == 8 { 212 }
            else if m == 9 { 243 }
            else if m == 10 { 273 }
            else if m == 11 { 304 }
            else { 334 };
        let leap_extra: u32 = if m > 2 && ((y % 4 == 0 && y % 100 != 0) || y % 400 == 0) { 1 } else { 0 };
        plain + leap_extra
    }

    fn compute_num(y: u32, m: u32, d: u32) -> (r: u32)
        requires
            is_valid_ymd(y as int, m as int, d as int),
        ensures
            r as int == day_number(y as int, m as int, d as int),
    {
        let years: u32 = 365 * (y - 1);
        let leaps: u32 = (y - 1) / 4 - (y - 1) / 100 + (y - 1) / 400;
        assert(leaps as int == leap_years_before(y as int)) by {
            assert((y - 1) / 100 <= (y - 1) / 4) by {
                vstd::arithmetic::div_mod::lemma_div_is_ordered_by_denominator(y as int - 1, 4, 100);
            }
        }
        years + leaps + Self::month_prefix(y, m) + (d - 1)
    }

    /// Builds the date if the components form a valid calendar date.
    pub fn from_ymd(y: u32, m: u32, d: u32) -> (r: Option<Date>)
        ensures
            r is Some <==> is_valid_ymd(y as int, m as int, d as int),
            r matches Some(dt) ==> dt.wf() && dt.year == y && dt.month == m && dt.day == d,
    {
        if 1 <= y && y <= 9999 && 1 <= m && m <= 12 && 1 <= d && d <= Self::month_length(y, m) {
            Some(Date { year: y, month: m, day: d, num: Self::compute_num(y, m, d) })
        } else {
            None
        }
    }

    pub fn day_index(&self) -> (r: u32)
        ensures
            r as int == self.index(),
    {
        self.num
    }

    /// The next calendar day.
    pub fn next_day(&self) -> (r: Date)
        requires
            self.wf(),
            self.index() < max_day_index(),
        ensures
            r.wf(),
            r.index() == self.index() + 1,
    {
        proof {
            lemma_day_number_le_max(self.year as int, self.month as int, self.day as int);
        }
        let dim = Self::month_length(self.year, self.month);
        if self.day < dim {
            Date { year: self.year, month: self.month, day: self.day + 1, num: self.num + 1 }
        } else if self.month < 12 {
            Date { year: self.year, month: self.month + 1, day: 1, num: self.num + 1 }
        } else {
            proof {
                lemma_leap_years_step(self.year as int);
            }
            Date { year: self.year + 1, month: 1, day: 1, num: self.num + 1 }
        }
    }

    /// The date written `YYYYMMDD`.
    pub fn format_compact(&self) -> (r: String)
        requires
            self.wf(),
        ensures
            r@.len() == 8,
            r@[0] == ((self.year / 1000 + 48) as u8) as char,
            r@[1] == ((self.year / 100 % 10 + 48) as u8) as char,
            r@[2] == ((self.year / 10 % 10 + 48) as u8) as char,
            r@[3] == ((self.year % 10 + 48) as u8) as char,
            r@[4] == ((self.month / 10 + 48) as u8) as char,
            r@[5] == ((self.month % 10 + 48) as u8) as char,
            r@[6] == ((self.day / 10 + 48) as u8) as char,
            r@[7] == ((self.day % 10 + 48) as u8) as char,
    {
        let mut v: Vec<u8> = Vec::new();
        v.push((self.year / 1000) as u8 + 48);
        v.push((self.year / 100 % 10) as u8 + 48);
        v.push((self.year / 10 % 10) as u8 + 48);
        v.push((self.year % 10) as u8 + 48);
        v.push((self.month / 10) as u8 + 48);
        v.push((self.month % 10) as u8 + 48);
        v.push((self.day / 10) as u8 + 48);
        v.push((self.day % 10) as u8 + 48);
        crate::text::ascii_to_string(v)
    }
}

/// One year adds 365 days plus one more when the year just ended was a leap year.
proof fn lemma_leap_years_step(y: int)
    requires
        1 <= y,
    ensures
        leap_years_before(y + 1) == leap_years_before(y) + if is_leap_year(y) { 1int } else { 0int },
{
    lemma_div_step(y, 4);
    lemma_div_step(y, 100);
    lemma_div_step(y, 400);
    if y % 100 == 0 {
        assert(y % 4 == 0) by {
            lemma_mod_divisor_multiple(y, 4, 25);
        }
    }
    if y % 400 == 0 {
        assert(y % 100 == 0) by {
            lemma_mod_divisor_multiple(y, 100, 4);
        }
    }
}

/// Dividing `n` and `n - 1` by `k` differ exactly when `k` divides `n`.
proof fn lemma_div_step(n: int, k: int)
    requires
        1 <= n,
        1 <= k,
    ensures
        n / k - (n - 1) / k == if n % k == 0 { 1int } else { 0int },
{
    let q = n / k;
    let r = n % k;
    lemma_fundamental_div_mod(n, k);
    if r == 0 {
        assert(n - 1 == (q - 1) * k + (k - 1)) by (nonlinear_arith)
            requires n == k * q;
        lemma_fundamental_div_mod_converse_div(n - 1, k, q - 1, k - 1);
    } else {
        assert(n - 1 == q * k + (r - 1)) by (nonlinear_arith)
            requires n == k * q + r;
        lemma_fundamental_div_mod_converse_div(n - 1, k, q, r - 1);
    }
}

/// If `k * j` divides `n` then so does `k`.
proof fn lemma_mod_divisor_multiple(n: int, k: int, j: int)
    requires
        1 <= k,
        1 <= j,
        n % (k * j) == 0,
    ensures
        n % k == 0,
{
    assert(1 <= k * j) by (nonlinear_arith)
        requires 1 <= k && 1 <= j;
    let q = n / (k * j);
    lemma_fundamental_div_mod(n, k * j);
    assert(n == (k * j) * q);
    assert(n == (j * q) * k) by (nonlinear_arith)
        requires n == (k * j) * q;
    lemma_fundamental_div_mod_converse_mod(n, k, j * q, 0);
}

/// `365 * n + leap_years_before(n + 1)` grows with `n`.
proof fn lemma_year_days_monotonic(n1: int, n2: int)
    requires
        0 <= n1 <= n2,
    ensures
        365 * n1 + leap_years_before(n1 + 1) <= 365 * n2 + leap_years_before(n2 + 1),
    decreases n2 - n1,
{
    if n1 < n2 {
        lemma_year_days_monotonic(n1, n2 - 1);
        lemma_div_step(n2, 4);
        lemma_div_step(n2, 100);
        lemma_div_step(n2, 400);
        if n2 % 100 == 0 {
            lemma_mod_divisor_multiple(n2, 4, 25);
        }
    }
}

/// No valid date lies beyond December 31, 9999.
pub proof fn lemma_day_number_le_max(y: int, m: int, d: int)
    requires
        is_valid_ymd(y, m, d),
    ensures
        day_number(y, m, d) <= max_day_index(),
{
    lemma_year_days_monotonic(y - 1, 9998);
    assert(days_before_month(y, m) + (d - 1) <= 365);
}

} // verus!
