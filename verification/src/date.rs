//! Plain calendar dates with day-granularity arithmetic.
//!
//! A `Date` is a proleptic Gregorian year/month/day triple. Its mathematical
//! model is `day_index`: the number of days since the first of January of
//! year 1, a day which fell on a Monday, so that `day_index % 7` is the
//! Monday-first weekday position of the date.

use crate::weekday::Weekday;
use vstd::arithmetic::div_mod::lemma_div_is_ordered;
use vstd::arithmetic::div_mod::lemma_fundamental_div_mod;
use vstd::arithmetic::div_mod::lemma_fundamental_div_mod_converse;
use vstd::arithmetic::div_mod::lemma_mod_bound;
use vstd::arithmetic::div_mod::lemma_mod_multiples_basic;
use vstd::arithmetic::mul::lemma_mul_is_associative;
use vstd::arithmetic::mul::lemma_mul_is_commutative;
use vstd::arithmetic::mul::lemma_mul_is_distributive_add;
use vstd::prelude::*;

verus! {

/// The earliest representable year.
pub const MIN_YEAR: i32 = 1;

/// The latest representable year.
pub const MAX_YEAR: i32 = 9999;

/// True iff `y` is a Gregorian leap year.
pub open spec fn is_leap_year(y: int) -> bool {
    y % 4 == 0 && (y % 100 != 0 || y % 400 == 0)
}

/// The number of days of month `m` of year `y`.
pub open spec fn days_in_month_of(y: int, m: int) -> int {
    if m == 2 {
        if is_leap_year(y) {
            29
        } else {
            28
        }
    } else if m == 4 || m == 6 || m == 9 || m == 11 {
        30
    } else {
        31
    }
}

/// The number of days of year `y` that lie before month `m`.
pub open spec fn days_before_month(y: int, m: int) -> int {
    let adj: int = if is_leap_year(y) {
        1
    } else {
        0
    };
    if m <= 1 {
        0
    } else if m == 2 {
        31
    } else if m == 3 {
        59 + adj
    } else if m == 4 {
        90 + adj
    } else if m == 5 {
        120 + adj
    } else if m == 6 {
        151 + adj
    } else if m == 7 {
        181 + adj
    } else if m == 8 {
        212 + adj
    } else if m == 9 {
        243 + adj
    } else if m == 10 {
        273 + adj
    } else if m == 11 {
        304 + adj
    } else {
        334 + adj
    }
}

/// The number of days that lie before the first of January of year `y`,
/// counted from the first of January of year 1.
pub open spec fn days_before_year(y: int) -> int {
    365 * (y - 1) + (y - 1) / 4 - (y - 1) / 100 + (y - 1) / 400
}

/// A calendar date.
#[derive(Clone, Copy, PartialEq, Eq, Structural, Debug)]
pub struct Date {
    pub year: i32,
    pub month: u8,
    pub day: u8,
}

impl Date {
    /// A well-formed date: the year is representable, the month is a month,
    /// and the day exists in that month of that year.
    pub open spec fn valid(self) -> bool {
        &&& MIN_YEAR <= self.year <= MAX_YEAR
        &&& 1 <= self.month <= 12
        &&& 1 <= self.day <= days_in_month_of(self.year as int, self.month as int)
    }

    /// Days since the first of January of year 1 (which has index 0).
    pub open spec fn day_index(self) -> int {
        days_before_year(self.year as int) + days_before_month(
            self.year as int,
            self.month as int,
        ) + self.day - 1
    }

    /// Monday-first weekday position of the date: day 0 was a Monday.
    pub open spec fn weekday_index(self) -> int {
        self.day_index() % 7
    }

    /// Months since January of year 1.
    pub open spec fn month_index(self) -> int {
        12 * (self.year - 1) + self.month - 1
    }
}

/// The day index of the latest representable date.
pub open spec fn max_day_index() -> int {
    days_before_year(MAX_YEAR as int) + 364
}

/// The month index of the latest representable month.
pub open spec fn max_month_index() -> int {
    12 * (MAX_YEAR as int) - 1
}

/// Dividing `n` by `d` rounds the quotient up by one exactly when `n` is a
/// multiple of `d`, compared with dividing `n - 1`.
proof fn lemma_div_step(n: int, d: int)
    requires
        n >= 1,
        d >= 2,
    ensures
        n / d == (n - 1) / d + if n % d == 0 {
            1int
        } else {
            0int
        },
{
    let q = (n - 1) / d;
    let r = (n - 1) % d;
    lemma_fundamental_div_mod(n - 1, d);
    lemma_mod_bound(n - 1, d);
    if r + 1 == d {
        assert(d * (q + 1) == d * q + d * 1) by {
            lemma_mul_is_distributive_add(d, q, 1);
        }
        assert(n == (q + 1) * d + 0) by {
            lemma_mul_is_commutative(d, q + 1);
        }
        lemma_fundamental_div_mod_converse(n, d, q + 1, 0);
    } else {
        assert(n == q * d + (r + 1)) by {
            lemma_mul_is_commutative(d, q);
        }
        lemma_fundamental_div_mod_converse(n, d, q, r + 1);
    }
}

/// A year contributes 366 days when it is a leap year and 365 otherwise.
proof fn lemma_days_before_year_step(y: int)
    requires
        y >= 1,
    ensures
        days_before_year(y + 1) == days_before_year(y) + if is_leap_year(y) {
            366int
        } else {
            365int
        },
{
    lemma_div_step(y, 4);
    lemma_div_step(y, 100);
    lemma_div_step(y, 400);
    if y % 100 == 0 {
        lemma_fundamental_div_mod(y, 100);
        assert(y == 4 * (25 * (y / 100))) by {
            lemma_mul_is_associative(4, 25, y / 100);
        }
        assert(y == (25 * (y / 100)) * 4) by {
            lemma_mul_is_commutative(4, 25 * (y / 100));
        }
        lemma_mod_multiples_basic(25 * (y / 100), 4);
        assert(y % 4 == 0);
    }
    if y % 400 == 0 {
        lemma_fundamental_div_mod(y, 400);
        assert(y == 4 * (100 * (y / 400))) by {
            lemma_mul_is_associative(4, 100, y / 400);
        }
        assert(y == (4 * (y / 400)) * 100) by {
            lemma_mul_is_associative(4, y / 400, 100);
            lemma_mul_is_commutative(y / 400, 100);
            lemma_mul_is_associative(4, 100, y / 400);
            lemma_mul_is_commutative(4, 100 * (y / 400));
        }
        lemma_mod_multiples_basic(4 * (y / 400), 100);
        assert(y % 100 == 0);
    }
}

/// Later years never have earlier first days: each year adds at least 365.
proof fn lemma_days_before_year_monotone(y1: int, y2: int)
    requires
        1 <= y1 <= y2,
    ensures
        days_before_year(y1) + 365 * (y2 - y1) <= days_before_year(y2),
    decreases y2 - y1,
{
    if y1 < y2 {
        lemma_days_before_year_step(y2 - 1);
        lemma_days_before_year_monotone(y1, y2 - 1);
    }
}

/// The day index of a valid date lies within its year's days.
proof fn lemma_day_index_in_year(d: Date)
    requires
        d.valid(),
    ensures
        days_before_year(d.year as int) <= d.day_index(),
        d.day_index() <= days_before_year(d.year as int) + 364 + if is_leap_year(
            d.year as int,
        ) {
            1int
        } else {
            0int
        },
{
}

/// Every valid date's day index lies between zero and the largest one.
pub proof fn lemma_day_index_le_max(d: Date)
    requires
        d.valid(),
    ensures
        0 <= d.day_index() <= max_day_index(),
{
    lemma_day_index_in_year(d);
    lemma_days_before_year_monotone(1, d.year as int);
    if d.year < MAX_YEAR {
        lemma_days_before_year_step(d.year as int);
        lemma_days_before_year_monotone(d.year as int + 1, MAX_YEAR as int);
    }
}

/// The largest day index, as a number.
pub proof fn lemma_max_day_index_value()
    ensures
        max_day_index() == 3652058,
{
}

/// Lexicographic order on the year, month and day fields.
pub open spec fn lex_lt(a: Date, b: Date) -> bool {
    ||| a.year < b.year
    ||| (a.year == b.year && a.month < b.month)
    ||| (a.year == b.year && a.month == b.month && a.day < b.day)
}

/// Field-wise lexicographic order agrees with the order of day indices.
pub proof fn lemma_lex_order(a: Date, b: Date)
    requires
        a.valid(),
        b.valid(),
    ensures
        lex_lt(a, b) <==> a.day_index() < b.day_index(),
        a == b <==> a.day_index() == b.day_index(),
{
    if lex_lt(a, b) {
        lemma_lex_order_forward(a, b);
    }
    if lex_lt(b, a) {
        lemma_lex_order_forward(b, a);
    }
    if !lex_lt(a, b) && !lex_lt(b, a) {
        assert(a == b);
    }
}

/// One direction of `lemma_lex_order`.
proof fn lemma_lex_order_forward(a: Date, b: Date)
    requires
        a.valid(),
        b.valid(),
        lex_lt(a, b),
    ensures
        a.day_index() < b.day_index(),
{
    if a.year < b.year {
        lemma_day_index_in_year(a);
        lemma_day_index_in_year(b);
        lemma_days_before_year_step(a.year as int);
        lemma_days_before_year_monotone(a.year as int + 1, b.year as int);
    }
}

/// A strictly larger month index means a lexicographically later date,
/// whatever the day fields hold.
pub proof fn lemma_month_index_order(a: Date, b: Date)
    requires
        a.valid(),
        b.valid(),
        a.month_index() < b.month_index(),
    ensures
        lex_lt(a, b),
        a.day_index() < b.day_index(),
{
    lemma_lex_order(a, b);
}

/// Valid dates with the same month index lie in the same month of the
/// same year.
pub proof fn lemma_month_index_unique(a: Date, b: Date)
    requires
        a.valid(),
        b.valid(),
        a.month_index() == b.month_index(),
    ensures
        a.year == b.year,
        a.month == b.month,
{
}

/// What `add_months_spec` yields on a valid date with room in the
/// calendar: a valid date the given number of months later, whose day is
/// the original's unless the target month is too short for it.
pub proof fn lemma_add_months_spec(d: Date, n: int)
    requires
        d.valid(),
        n >= 0,
        d.month_index() + n <= max_month_index(),
    ensures
        add_months_spec(d, n).valid(),
        add_months_spec(d, n).month_index() == d.month_index() + n,
        add_months_spec(d, n).day <= d.day,
        d.day <= 28 ==> add_months_spec(d, n).day == d.day,
{
    let t = d.month_index() + n;
    lemma_mod_bound(t, 12);
    lemma_fundamental_div_mod(t, 12);
    lemma_div_is_ordered(0, t, 12);
    lemma_div_is_ordered(t, max_month_index(), 12);
}

/// True iff `y` is a leap year; the machine test.
pub fn is_leap(y: i32) -> (r: bool)
    requires
        MIN_YEAR <= y,
    ensures
        r == is_leap_year(y as int),
{
    let u = y as u32;
    u % 4 == 0 && (u % 100 != 0 || u % 400 == 0)
}

/// The number of days of month `month` of year `year`.
pub fn days_in_month(year: i32, month: u8) -> (d: u8)
    requires
        MIN_YEAR <= year,
        1 <= month <= 12,
    ensures
        d as int == days_in_month_of(year as int, month as int),
{
    if month == 2 {
        if is_leap(year) {
            29
        } else {
            28
        }
    } else if month == 4 || month == 6 || month == 9 || month == 11 {
        30
    } else {
        31
    }
}

/// The number of days of year `year` that lie before month `month`.
fn month_days_before(year: i32, month: u8) -> (d: u16)
    requires
        MIN_YEAR <= year,
        1 <= month <= 12,
    ensures
        d as int == days_before_month(year as int, month as int),
{
    let adj: u16 = if is_leap(year) {
        1
    } else {
        0
    };
    if month == 1 {
        0
    } else if month == 2 {
        31
    } else if month == 3 {
        59 + adj
    } else if month == 4 {
        90 + adj
    } else if month == 5 {
        120 + adj
    } else if month == 6 {
        151 + adj
    } else if month == 7 {
        181 + adj
    } else if month == 8 {
        212 + adj
    } else if month == 9 {
        243 + adj
    } else if month == 10 {
        273 + adj
    } else if month == 11 {
        304 + adj
    } else {
        334 + adj
    }
}

impl Date {
    /// The date with the given fields, if they form a valid date.
    pub fn from_ymd(year: i32, month: u8, day: u8) -> (r: Option<Date>)
        ensures
            match r {
                Some(d) => d == (Date { year, month, day }) && d.valid(),
                None => !(Date { year, month, day }).valid(),
            },
    {
        if MIN_YEAR <= year && year <= MAX_YEAR && 1 <= month && month <= 12 {
            let dim = days_in_month(year, month);
            if 1 <= day && day <= dim {
                return Some(Date { year, month, day });
            }
        }
        None
    }

    /// Days since the first of January of year 1.
    pub fn day_number(&self) -> (n: u64)
        requires
            self.valid(),
        ensures
            n as int == self.day_index(),
    {
        let y = (self.year - 1) as u64;
        let base = 365 * y + y / 4 - y / 100 + y / 400;
        let dbm = month_days_before(self.year, self.month);
        base + dbm as u64 + (self.day - 1) as u64
    }

    /// The weekday on which the date falls.
    pub fn weekday(&self) -> (w: Weekday)
        requires
            self.valid(),
        ensures
            w.idx() == self.weekday_index(),
    {
        let n = self.day_number();
        proof {
            lemma_mod_bound(n as int, 7);
        }
        Weekday::from_index((n % 7) as u8)
    }

    /// The next calendar day.
    pub fn succ(&self) -> (r: Date)
        requires
            self.valid(),
            self.day_index() < max_day_index(),
        ensures
            r.valid(),
            r.day_index() == self.day_index() + 1,
    {
        let dim = days_in_month(self.year, self.month);
        if self.day < dim {
            Date { year: self.year, month: self.month, day: self.day + 1 }
        } else if self.month < 12 {
            Date { year: self.year, month: self.month + 1, day: 1 }
        } else {
            proof {
                lemma_days_before_year_step(self.year as int);
                lemma_day_index_in_year(*self);
            }
            Date { year: self.year + 1, month: 1, day: 1 }
        }
    }

    /// The previous calendar day.
    pub fn pred(&self) -> (r: Date)
        requires
            self.valid(),
            self.day_index() > 0,
        ensures
            r.valid(),
            r.day_index() == self.day_index() - 1,
    {
        if self.day > 1 {
            Date { year: self.year, month: self.month, day: self.day - 1 }
        } else if self.month > 1 {
            let dim = days_in_month(self.year, self.month - 1);
            Date { year: self.year, month: self.month - 1, day: dim }
        } else {
            proof {
                lemma_days_before_year_step(self.year as int - 1);
            }
            let dim = days_in_month(self.year - 1, 12);
            Date { year: self.year - 1, month: 12, day: dim }
        }
    }

    /// The date a given number of days later.
    pub fn add_days(&self, n: u64) -> (r: Date)
        requires
            self.valid(),
            self.day_index() + n <= max_day_index(),
        ensures
            r.valid(),
            r.day_index() == self.day_index() + n,
    {
        let mut d: Date = *self;
        let mut i: u64 = 0;
        while i < n
            invariant
                i <= n,
                d.valid(),
                d.day_index() == self.day_index() + i,
                self.day_index() + n <= max_day_index(),
            decreases n - i,
        {
            d = d.succ();
            i += 1;
        }
        d
    }

    /// The date a given number of days earlier.
    pub fn sub_days(&self, n: u64) -> (r: Date)
        requires
            self.valid(),
            n <= self.day_index(),
        ensures
            r.valid(),
            r.day_index() == self.day_index() - n,
    {
        let mut d: Date = *self;
        let mut i: u64 = 0;
        while i < n
            invariant
                i <= n,
                d.valid(),
                d.day_index() == self.day_index() - i,
                n <= self.day_index(),
            decreases n - i,
        {
            d = d.pred();
            i += 1;
        }
        d
    }

    /// True iff the date falls strictly before the other.
    pub fn is_before(&self, other: &Date) -> (r: bool)
        requires
            self.valid(),
            other.valid(),
        ensures
            r == (self.day_index() < other.day_index()),
    {
        proof {
            lemma_lex_order(*self, *other);
        }
        if self.year != other.year {
            self.year < other.year
        } else if self.month != other.month {
            self.month < other.month
        } else {
            self.day < other.day
        }
    }
}

/// The date a given number of calendar months later, clamped to the last
/// day of the target month when the day of month would not exist there.
pub open spec fn add_months_spec(d: Date, n: int) -> Date {
    let t = d.month_index() + n;
    let y = t / 12 + 1;
    let m = t % 12 + 1;
    let day = if d.day as int <= days_in_month_of(y, m) {
        d.day as int
    } else {
        days_in_month_of(y, m)
    };
    Date { year: y as i32, month: m as u8, day: day as u8 }
}

impl Date {
    /// The date a given number of calendar months later, preserving the day
    /// of month, clamped to the length of the target month.
    pub fn add_months(&self, n: u64) -> (r: Date)
        requires
            self.valid(),
            self.month_index() + n <= max_month_index(),
        ensures
            r == add_months_spec(*self, n as int),
            r.valid(),
            r.month_index() == self.month_index() + n,
            r.day <= self.day,
            self.day <= 28 ==> r.day == self.day,
    {
        let t = (self.year as u64 - 1) * 12 + (self.month as u64 - 1) + n;
        proof {
            assert(t as int == self.month_index() + n);
            lemma_div_is_ordered(t as int, max_month_index(), 12);
            lemma_mod_bound(t as int, 12);
            lemma_fundamental_div_mod(t as int, 12);
        }
        let y2 = (t / 12 + 1) as i32;
        let m2 = (t % 12 + 1) as u8;
        let dim = days_in_month(y2, m2);
        let day2 = if self.day <= dim {
            self.day
        } else {
            dim
        };
        Date { year: y2, month: m2, day: day2 }
    }

    /// The same month and day in another year.
    pub fn with_year(&self, y: i32) -> (r: Date)
        requires
            self.valid(),
            MIN_YEAR <= y <= MAX_YEAR,
            self.month == 2 && self.day == 29 ==> is_leap_year(y as int),
        ensures
            r == (Date { year: y, month: self.month, day: self.day }),
            r.valid(),
    {
        Date { year: y, month: self.month, day: self.day }
    }
}

/// The number of whole years from `base` to `d`: the difference of the
/// year fields, less one when `d`'s month and day fall earlier in the year
/// than `base`'s.
pub open spec fn years_between(d: Date, base: Date) -> int {
    d.year - base.year - if d.month < base.month || (d.month == base.month && d.day < base.day) {
        1int
    } else {
        0int
    }
}

impl Date {
    /// The number of whole years from `base` to the date.
    pub fn years_since(&self, base: &Date) -> (n: u64)
        requires
            self.valid(),
            base.valid(),
            base.day_index() <= self.day_index(),
        ensures
            n as int == years_between(*self, *base),
    {
        proof {
            lemma_lex_order(*self, *base);
        }
        let earlier_md = self.month < base.month || (self.month == base.month && self.day
            < base.day);
        let adj: i32 = if earlier_md {
            1
        } else {
            0
        };
        ((self.year - base.year) - adj) as u64
    }
}

/// The number of whole calendar months between the months of two dates,
/// ignoring their day fields; negative when `from_date`'s month is the
/// earlier one.
pub fn get_months_since(from_date: Date, start_date: Date) -> (n: i32)
    requires
        from_date.valid(),
        start_date.valid(),
    ensures
        n as int == from_date.month_index() - start_date.month_index(),
{
    let years_diff = from_date.year - start_date.year;
    let years_months = years_diff * 12;
    from_date.month as i32 - start_date.month as i32 + years_months
}

} // verus!
