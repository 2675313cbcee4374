//! The recurrence engine.
//!
//! A rule is an anchor date, a set of allowed weekdays, a recurrence kind
//! and a positive interval. `match_repeating_date` decides whether a date
//! is an occurrence of a rule; `find_next_date` computes the next
//! occurrence strictly after a reference date.

use crate::date::add_months_spec;
use crate::date::lemma_lex_order;
use crate::date::max_day_index;
use crate::date::max_month_index;
use crate::date::years_between;
use crate::date::Date;
use crate::date::MAX_YEAR;
use crate::weekday::days_until;
use crate::weekday::first_set_from;
use crate::weekday::lemma_first_set_from_properties;
use crate::weekday::next_in_mask;
use crate::weekday::Weekday;
use crate::weekday::WeekdayFlags;
use vstd::arithmetic::div_mod::lemma_add_mod_noop;
use vstd::arithmetic::div_mod::lemma_div_is_ordered;
use vstd::arithmetic::div_mod::lemma_fundamental_div_mod;
use vstd::arithmetic::div_mod::lemma_fundamental_div_mod_converse;
use vstd::arithmetic::div_mod::lemma_hoist_over_denominator;
use vstd::arithmetic::div_mod::lemma_mod_bound;
use vstd::arithmetic::div_mod::lemma_mod_multiples_basic;
use vstd::arithmetic::div_mod::lemma_mod_multiples_vanish;
use vstd::arithmetic::div_mod::lemma_mul_mod_noop_left;
use vstd::arithmetic::div_mod::lemma_mul_mod_noop_right;
use vstd::arithmetic::div_mod::lemma_small_mod;
use vstd::arithmetic::mul::lemma_mul_inequality;
use vstd::arithmetic::mul::lemma_mul_is_associative;
use vstd::arithmetic::mul::lemma_mul_is_commutative;
use vstd::arithmetic::mul::lemma_mul_is_distributive_add;
use vstd::prelude::*;

verus! {

/// Why `find_next_date` rejected a rule.
#[derive(Clone, Copy, PartialEq, Eq, Structural, Debug)]
pub enum RepeatingDateError {
    /// The date to advance from precedes the rule's anchor date.
    StartDateBeforeBound,
    /// The anchor date's own weekday is not allowed by the rule's mask.
    WrongWeekday,
}

/// The unit of a recurrence rule.
#[derive(Clone, Copy, PartialEq, Eq, Structural, Debug)]
pub enum Repeating {
    Daily,
    Weekly,
    Monthly,
    Yearly,
}

/// A day index `t` is a daily occurrence of the rule anchored at day index
/// `s`: on the day grid of step `i` and on an allowed weekday.
pub open spec fn daily_matches_at(t: int, s: int, m: WeekdayFlags, i: int) -> bool {
    &&& t >= s
    &&& m.has_idx(t % 7)
    &&& (t - s) % i == 0
}

/// A day index `t` is a weekly occurrence of the rule anchored at day index
/// `s`: a whole number of `i`-week blocks past the anchor's Monday-started
/// week, on an allowed weekday.
pub open spec fn weekly_matches_at(t: int, s: int, m: WeekdayFlags, i: int) -> bool {
    &&& t >= s
    &&& m.has_idx(t % 7)
    &&& (t / 7 - s / 7) % i == 0
}

/// The candidate date is an occurrence of the rule.
pub open spec fn matches_spec(c: Date, s: Date, m: WeekdayFlags, kind: Repeating, i: int) -> bool {
    match kind {
        Repeating::Daily => daily_matches_at(c.day_index(), s.day_index(), m, i),
        Repeating::Weekly => weekly_matches_at(c.day_index(), s.day_index(), m, i),
        Repeating::Monthly => {
            &&& c.day_index() >= s.day_index()
            &&& m.has_idx(c.weekday_index())
            &&& c.day == s.day
            &&& c.month_index() - s.month_index() > 0
            &&& (c.month_index() - s.month_index()) % i == 0
        },
        Repeating::Yearly => {
            &&& c.day_index() >= s.day_index()
            &&& m.has_idx(c.weekday_index())
            &&& c.day == s.day
            &&& c.month == s.month
            &&& years_between(c, s) > 0
            &&& years_between(c, s) % i == 0
        },
    }
}

/// Whole Monday-started weeks between two day indices: the floored day
/// count, plus one when the later date falls earlier in its week, equals
/// the difference of week indices.
proof fn lemma_weekly_weeks(dc: int, ds: int)
    requires
        0 <= ds <= dc,
    ensures
        (dc - ds) / 7 + (if dc % 7 < ds % 7 {
            1int
        } else {
            0int
        }) == dc / 7 - ds / 7,
{
    let wc = dc / 7;
    let ws = ds / 7;
    let pc = dc % 7;
    let ps = ds % 7;
    lemma_fundamental_div_mod(dc, 7);
    lemma_fundamental_div_mod(ds, 7);
    lemma_mod_bound(dc, 7);
    lemma_mod_bound(ds, 7);
    if pc >= ps {
        lemma_fundamental_div_mod_converse(dc - ds, 7, wc - ws, pc - ps);
    } else {
        lemma_fundamental_div_mod_converse(dc - ds, 7, wc - ws - 1, pc - ps + 7);
    }
}

/// Decide whether `date_to_check` is an occurrence of the rule given by
/// `start_date`, `weekdays`, `repeat` and `interval`. Never fails: a date
/// that is no occurrence only yields `false`.
pub fn match_repeating_date(
    date_to_check: Date,
    start_date: Date,
    weekdays: WeekdayFlags,
    repeat: Repeating,
    interval: u64,
) -> (r: bool)
    requires
        date_to_check.valid(),
        start_date.valid(),
        interval >= 1,
    ensures
        r == matches_spec(date_to_check, start_date, weekdays, repeat, interval as int),
{
    if date_to_check.is_before(&start_date) {
        return false;
    }
    if !weekdays.has_weekday(date_to_check.weekday()) {
        return false;
    }
    let dc = date_to_check.day_number();
    let ds = start_date.day_number();
    let date_diff_days = dc - ds;
    match repeat {
        Repeating::Daily => date_diff_days % interval == 0,
        Repeating::Weekly => {
            let weeks = date_diff_days / 7;
            let is_new_week: u64 = if dc % 7 < ds % 7 {
                1
            } else {
                0
            };
            proof {
                lemma_weekly_weeks(dc as int, ds as int);
            }
            (weeks + is_new_week) % interval == 0
        },
        Repeating::Monthly => {
            let month_diff = crate::date::get_months_since(date_to_check, start_date);
            date_to_check.day == start_date.day && month_diff > 0 && (month_diff as u64) % interval
                == 0
        },
        Repeating::Yearly => {
            let years = date_to_check.years_since(&start_date);
            date_to_check.day == start_date.day && date_to_check.month == start_date.month && years
                > 0 && years % interval == 0
        },
    }
}

/// Every residue is reachable as a multiple of `r` modulo 7, since 7 is
/// prime: some `j` below 7 has `(j * r) % 7 == t`.
proof fn lemma_mod7_inverse(r: int, t: int)
    requires
        1 <= r < 7,
        0 <= t < 7,
    ensures
        exists|j: int| 0 <= j < 7 && #[trigger] ((j * r) % 7) == t,
{
    let p: int = if r == 1 {
        1
    } else if r == 2 {
        4
    } else if r == 3 {
        5
    } else if r == 4 {
        2
    } else if r == 5 {
        3
    } else {
        6
    };
    if r == 1 {
        assert((p * r) % 7 == 1);
    } else if r == 2 {
        assert((p * r) % 7 == 1);
    } else if r == 3 {
        assert((p * r) % 7 == 1);
    } else if r == 4 {
        assert((p * r) % 7 == 1);
    } else if r == 5 {
        assert((p * r) % 7 == 1);
    } else {
        assert((p * r) % 7 == 1);
    }
    let j = (t * p) % 7;
    lemma_mod_bound(t * p, 7);
    assert((j * r) % 7 == ((t * p) * r) % 7) by {
        lemma_mul_mod_noop_left(t * p, r, 7);
    }
    assert((t * p) * r == t * (p * r)) by {
        lemma_mul_is_associative(t, p, r);
    }
    assert((t * (p * r)) % 7 == (t * ((p * r) % 7)) % 7) by {
        lemma_mul_mod_noop_right(t, p * r, 7);
    }
    lemma_small_mod(t as nat, 7nat);
    assert((j * r) % 7 == t);
}

/// The day-grid candidate `j` steps past the first grid point lands on an
/// allowed weekday.
pub open spec fn daily_candidate_allowed(
    m: WeekdayFlags,
    s: int,
    d0: int,
    i: int,
    j: int,
) -> bool {
    m.has_idx((s + d0 + j * i) % 7)
}

/// Among any seven consecutive day-grid candidates one lands on an allowed
/// weekday, because the grid either keeps the anchor's weekday or walks
/// through every weekday.
proof fn lemma_daily_witness(s: int, d0: int, i: int, m: WeekdayFlags)
    requires
        i >= 1,
        d0 % i == 0,
        0 <= s,
        0 <= d0,
        m.has_idx(s % 7),
    ensures
        exists|j: int| 0 <= j <= 6 && #[trigger] daily_candidate_allowed(m, s, d0, i, j),
{
    let r = i % 7;
    lemma_mod_bound(i, 7);
    if r == 0 {
        lemma_fundamental_div_mod(d0, i);
        lemma_fundamental_div_mod(i, 7);
        assert(d0 == (7 * (i / 7)) * (d0 / i));
        assert(d0 == 7 * ((i / 7) * (d0 / i))) by {
            lemma_mul_is_associative(7, i / 7, d0 / i);
        }
        lemma_mod_multiples_vanish((i / 7) * (d0 / i), s, 7);
        assert((s + d0 + 0 * i) % 7 == s % 7);
        assert(daily_candidate_allowed(m, s, d0, i, 0));
    } else {
        let base = (s + d0) % 7;
        lemma_mod_bound(s + d0, 7);
        lemma_mod_bound(s, 7);
        let t = if base <= s % 7 {
            s % 7 - base
        } else {
            s % 7 - base + 7
        };
        lemma_mod7_inverse(r, t);
        let j = choose|j: int| 0 <= j < 7 && #[trigger] ((j * r) % 7) == t;
        assert((j * i) % 7 == (j * r) % 7) by {
            lemma_mul_mod_noop_right(j, i, 7);
        }
        lemma_add_mod_noop(s + d0, j * i, 7);
        assert((s + d0 + j * i) % 7 == (base + t) % 7);
        if base <= s % 7 {
            lemma_small_mod((s % 7) as nat, 7nat);
        } else {
            vstd::arithmetic::div_mod::lemma_mod_add_multiples_vanish(s % 7, 7);
            lemma_small_mod((s % 7) as nat, 7nat);
        }
        assert((s + d0 + j * i) % 7 == s % 7);
        assert(daily_candidate_allowed(m, s, d0, i, j));
    }
}

/// A day count that is a multiple of `i` and exceeds `delta` is at least
/// the next multiple of `i` past `delta`.
proof fn lemma_next_multiple(delta: int, i: int, u: int)
    requires
        i >= 1,
        0 <= delta,
        u > delta,
        u % i == 0,
    ensures
        u >= delta - delta % i + i,
{
    let qd = delta / i;
    let qu = u / i;
    lemma_fundamental_div_mod(delta, i);
    lemma_mod_bound(delta, i);
    lemma_fundamental_div_mod(u, i);
    if qu <= qd {
        lemma_mul_inequality(qu, qd, i);
        assert(qu * i <= qd * i);
        assert(i * qu <= i * qd) by {
            lemma_mul_is_commutative(qu, i);
            lemma_mul_is_commutative(qd, i);
        }
        assert(false);
    }
    lemma_mul_inequality(qd + 1, qu, i);
    assert((qd + 1) * i <= qu * i);
    assert(i * (qd + 1) == i * qd + i) by {
        lemma_mul_is_distributive_add(i, qd, 1);
    }
    assert(i * (qd + 1) <= i * qu) by {
        lemma_mul_is_commutative(qd + 1, i);
        lemma_mul_is_commutative(qu, i);
    }
}

/// The next daily occurrence: the first point of the `interval`-day grid
/// strictly past `from_date`, advanced along the grid to an allowed
/// weekday.
fn next_daily_date(from_date: Date, start_date: Date, weekdays: WeekdayFlags, interval: u64) -> (r:
    Date)
    requires
        from_date.valid(),
        start_date.valid(),
        interval >= 1,
        start_date.day_index() <= from_date.day_index(),
        weekdays.has_idx(start_date.weekday_index()),
        from_date.day_index() + 7 * interval <= max_day_index(),
    ensures
        r.valid(),
        r.day_index() > from_date.day_index(),
        matches_spec(r, start_date, weekdays, Repeating::Daily, interval as int),
        forall|t: int|
            from_date.day_index() < t < r.day_index() ==> !daily_matches_at(
                t,
                start_date.day_index(),
                weekdays,
                interval as int,
            ),
{
    let df = from_date.day_number();
    let ds = start_date.day_number();
    let date_delta_days = df - ds;
    let date_delta_mod = date_delta_days % interval;
    let ghost ii: int = interval as int;
    let ghost dsg: int = ds as int;
    let ghost dfg: int = df as int;
    let ghost q0: int = (dfg - dsg) / ii + 1;
    proof {
        crate::date::lemma_max_day_index_value();
        lemma_mod_bound(dfg - dsg, ii);
        lemma_fundamental_div_mod(dfg - dsg, ii);
    }
    let d0 = date_delta_days - date_delta_mod + interval;
    let ghost d0g: int = d0 as int;
    proof {
        assert(d0g == ii * q0) by {
            lemma_mul_is_distributive_add(ii, q0 - 1, 1);
        }
        assert(d0g % ii == 0) by {
            lemma_mod_multiples_basic(q0, ii);
            lemma_mul_is_commutative(q0, ii);
        }
        lemma_daily_witness(dsg, d0g, ii, weekdays);
        assert forall|t: int| dfg < t < dsg + d0g implies !daily_matches_at(
            t,
            dsg,
            weekdays,
            ii,
        ) by {
            if (t - dsg) % ii == 0 {
                lemma_next_multiple(dfg - dsg, ii, t - dsg);
            }
        }
    }
    let mut date = start_date.add_days(d0);
    let ghost mut j: int = 0;
    while !weekdays.has_weekday(date.weekday())
        invariant
            from_date.valid(),
            start_date.valid(),
            date.valid(),
            interval >= 1,
            ii == interval as int,
            dsg == start_date.day_index(),
            dfg == from_date.day_index(),
            dsg <= dfg,
            dfg + 7 * ii <= max_day_index(),
            d0g == ii * q0,
            q0 >= 1,
            dfg < dsg + d0g,
            d0g <= dfg - dsg + ii,
            0 <= j,
            date.day_index() == dsg + d0g + j * ii,
            exists|jw: int|
                0 <= jw <= 6 && j <= jw && #[trigger] daily_candidate_allowed(
                    weekdays,
                    dsg,
                    d0g,
                    ii,
                    jw,
                ),
            forall|t: int| dfg < t < date.day_index() ==> !daily_matches_at(t, dsg, weekdays, ii),
        decreases 7 - j,
    {
        let ghost prev: int = date.day_index();
        proof {
            assert(!daily_candidate_allowed(weekdays, dsg, d0g, ii, j));
            let jw = choose|jw: int|
                0 <= jw <= 6 && j <= jw && #[trigger] daily_candidate_allowed(
                    weekdays,
                    dsg,
                    d0g,
                    ii,
                    jw,
                );
            assert(j < jw);
            assert((j + 1) * ii <= 6 * ii) by {
                lemma_mul_inequality(j + 1, 6, ii);
            }
            assert(j * ii >= 0) by {
                vstd::arithmetic::mul::lemma_mul_nonnegative(j, ii);
            }
            assert((j + 1) * ii == j * ii + ii) by {
                lemma_mul_is_distributive_add(ii, j, 1);
                lemma_mul_is_commutative(ii, j);
                lemma_mul_is_commutative(ii, j + 1);
            }
            assert(prev + ii <= dfg + 7 * ii);
        }
        date = date.add_days(interval);
        proof {
            j = j + 1;
            assert(date.day_index() == dsg + d0g + j * ii);
            assert forall|t: int| dfg < t < date.day_index() implies !daily_matches_at(
                t,
                dsg,
                weekdays,
                ii,
            ) by {
                if t >= prev {
                    let e = t - prev;
                    assert(t - dsg == ii * (q0 + (j - 1)) + e) by {
                        lemma_mul_is_distributive_add(ii, q0, j - 1);
                        lemma_mul_is_commutative(ii, j - 1);
                    }
                    if e == 0 {
                        assert(!weekdays.has_idx(t % 7));
                    } else {
                        assert((t - dsg) % ii == e) by {
                            lemma_mod_multiples_vanish(q0 + (j - 1), e, ii);
                            lemma_small_mod(e as nat, ii as nat);
                        }
                    }
                }
            }
        }
    }
    proof {
        assert(daily_candidate_allowed(weekdays, dsg, d0g, ii, j));
        assert((date.day_index() - dsg) % ii == 0) by {
            assert(date.day_index() - dsg == ii * (q0 + j)) by {
                lemma_mul_is_distributive_add(ii, q0, j);
                lemma_mul_is_commutative(ii, j);
            }
            lemma_mod_multiples_basic(q0 + j, ii);
            lemma_mul_is_commutative(q0 + j, ii);
        }
        assert(j * ii >= 0) by {
            vstd::arithmetic::mul::lemma_mul_nonnegative(j, ii);
        }
    }
    date
}

/// The day index that `find_next_weekstart` lands on: the anchor plus the
/// least multiple of `7 * i` days strictly past `from`, pulled back to the
/// earliest allowed weekday of that week unless every weekday is allowed.
pub open spec fn next_weekstart_day(from: Date, start: Date, m: WeekdayFlags, i: int) -> int {
    let delta = from.day_index() - start.day_index();
    let boundary = start.day_index() + (delta / (7 * i) + 1) * (7 * i);
    if m.is_all_spec() {
        boundary
    } else {
        boundary - (start.weekday_index() - first_set_from(m.bits, 0))
    }
}

/// The start of the next valid interval-week window after `from_date`:
/// land on the next whole multiple of `interval` weeks counted from
/// `start_date`, then, unless the mask is unrestricted, shift backward to
/// the earliest allowed weekday of that week.
pub fn find_next_weekstart(
    from_date: Date,
    start_date: Date,
    weekdays: WeekdayFlags,
    interval: u64,
) -> (r: Date)
    requires
        from_date.valid(),
        start_date.valid(),
        interval >= 1,
        start_date.day_index() <= from_date.day_index(),
        from_date.day_index() + 7 * interval <= max_day_index(),
        weekdays.nonempty_spec(),
        first_set_from(weekdays.bits, 0) <= start_date.weekday_index(),
    ensures
        r.valid(),
        r.day_index() == next_weekstart_day(from_date, start_date, weekdays, interval as int),
        r.weekday_index() == if weekdays.is_all_spec() {
            start_date.weekday_index()
        } else {
            first_set_from(weekdays.bits, 0)
        },
        r.day_index() / 7 == (start_date.day_index() + ((from_date.day_index()
            - start_date.day_index()) / (7 * interval) + 1) * (7 * interval)) / 7,
{
    let df = from_date.day_number();
    let ds = start_date.day_number();
    let date_delta_days = df - ds;
    let is_any_weekday_valid = weekdays.is_all();
    proof {
        crate::date::lemma_day_index_le_max(from_date);
        assert(7 * (interval as int) <= max_day_index());
        crate::date::lemma_max_day_index_value();
    }
    let days_needed_weekly = 7 * interval;
    let days_needed_total = days_needed_weekly + date_delta_days;
    let fix = days_needed_total % days_needed_weekly;
    let day_offset = days_needed_total - fix;
    let ghost step: int = 7 * (interval as int);
    let ghost q: int = date_delta_days as int / step;
    proof {
        lemma_mod_bound(days_needed_total as int, step);
        lemma_fundamental_div_mod(days_needed_total as int, step);
        assert(days_needed_total as int / step == q + 1) by {
            vstd::arithmetic::div_mod::lemma_div_plus_one(date_delta_days as int, step);
        }
        assert(day_offset as int == step * (q + 1));
        assert(day_offset as int == (q + 1) * step) by {
            lemma_mul_is_commutative(step, q + 1);
        }
        assert(ds as int + day_offset as int <= df as int + step) by {
            assert(day_offset <= days_needed_total);
        }
    }
    let date = start_date.add_days(day_offset);
    proof {
        assert(day_offset as int == 7 * ((interval as int) * (q + 1))) by {
            lemma_mul_is_associative(7, interval as int, q + 1);
        }
        lemma_mod_multiples_vanish((interval as int) * (q + 1), ds as int, 7);
        assert(date.day_index() % 7 == ds as int % 7);
        assert(date.weekday_index() == start_date.weekday_index());
        lemma_first_set_from_properties(weekdays.bits, 0);
    }
    let result_weekday = date.weekday();
    let previous_weekday = weekdays.first_valid_weekday_bitwise();
    let weekdays_offset_abs: u8 = if is_any_weekday_valid {
        0
    } else {
        result_weekday.number() - previous_weekday.number()
    };
    proof {
        assert(weekdays_offset_abs as int <= date.day_index());
    }
    let r = date.sub_days(weekdays_offset_abs as u64);
    proof {
        if !weekdays.is_all_spec() {
            let low = first_set_from(weekdays.bits, 0);
            let b = date.day_index() / 7;
            lemma_fundamental_div_mod(date.day_index(), 7);
            lemma_mod_bound(date.day_index(), 7);
            assert(r.day_index() == 7 * b + low);
            lemma_fundamental_div_mod_converse(r.day_index(), 7, b, low);
            assert(r.day_index() % 7 == low);
            assert(r.day_index() / 7 == date.day_index() / 7);
        }
    }
    r
}

/// The offset, in days, from a day at week position `p` to the candidate
/// the weekly search tries first: zero when every weekday is allowed, else
/// the circular distance to the next allowed weekday.
pub open spec fn weekly_cand_offset(m: WeekdayFlags, p: int) -> int {
    if m.is_all_spec() {
        0
    } else {
        (next_in_mask(m, p) - p) % 7
    }
}

/// The next weekly occurrence: first the next allowed weekday within the
/// current week if it already satisfies the rule, else the start of the
/// next valid interval-week window.
fn next_weekly_date(from_date: Date, start_date: Date, weekdays: WeekdayFlags, interval: u64) -> (r:
    Date)
    requires
        from_date.valid(),
        start_date.valid(),
        interval >= 1,
        start_date.day_index() <= from_date.day_index(),
        weekdays.has_idx(start_date.weekday_index()),
        from_date.day_index() + 7 * interval <= max_day_index(),
    ensures
        r.valid(),
        r.day_index() > from_date.day_index(),
        matches_spec(r, start_date, weekdays, Repeating::Weekly, interval as int),
        ({
            let df = from_date.day_index();
            let cf = df + weekly_cand_offset(weekdays, df % 7);
            r.day_index() == if cf > df && weekly_matches_at(
                cf,
                start_date.day_index(),
                weekdays,
                interval as int,
            ) {
                cf
            } else {
                next_weekstart_day(from_date, start_date, weekdays, interval as int)
            }
        }),
{
    let ghost ii: int = interval as int;
    let ghost ds: int = start_date.day_index();
    let ghost df: int = from_date.day_index();
    let ghost ws: int = start_date.weekday_index();
    let ghost pf: int = from_date.weekday_index();
    proof {
        lemma_first_set_from_properties(weekdays.bits, 0);
        lemma_mod_bound(ds, 7);
        lemma_mod_bound(df, 7);
    }
    let from_wd = from_date.weekday();
    let is_any = weekdays.is_all();
    let du: u64 = if is_any {
        0
    } else {
        let next_wd = weekdays.next_weekday_bitwise(from_wd);
        days_until(from_wd, next_wd) as u64
    };
    proof {
        assert(du as int == weekly_cand_offset(weekdays, pf));
        lemma_mod_bound(next_in_mask(weekdays, pf) - pf, 7);
    }
    let date = from_date.add_days(du);
    let ghost cf: int = df + weekly_cand_offset(weekdays, pf);
    let ok1 = from_date.is_before(&date);
    let candidate_hit = if ok1 {
        match_repeating_date(date, start_date, weekdays, Repeating::Weekly, interval)
    } else {
        false
    };
    if candidate_hit {
        return date;
    }
    // The candidate within the current week is no occurrence after
    // `from_date`; fall back to the next interval-week boundary.
    let r = find_next_weekstart(from_date, start_date, weekdays, interval);
    proof {
        let step = 7 * ii;
        let delta = df - ds;
        let q = delta / step;
        let boundary = ds + (q + 1) * step;
        assert(step >= 7) by {
            lemma_mul_inequality(1, ii, 7);
            lemma_mul_is_commutative(ii, 7);
        }
        lemma_fundamental_div_mod(delta, step);
        lemma_mod_bound(delta, step);
        assert((q + 1) * step == step * q + step) by {
            lemma_mul_is_distributive_add(step, q, 1);
            lemma_mul_is_commutative(step, q + 1);
        }
        assert(df < boundary <= df + step);
        // The boundary keeps the anchor's weekday and its week is a whole
        // number of interval-week blocks past the anchor's week.
        assert((q + 1) * step == 7 * (ii * (q + 1))) by {
            lemma_mul_is_associative(7, ii, q + 1);
            lemma_mul_is_commutative(ii, q + 1);
            lemma_mul_is_commutative(step, q + 1);
        }
        assert(boundary % 7 == ds % 7) by {
            lemma_mod_multiples_vanish(ii * (q + 1), ds, 7);
        }
        assert(boundary / 7 == ds / 7 + ii * (q + 1)) by {
            lemma_hoist_over_denominator(ds, ii * (q + 1), 7nat);
            lemma_mul_is_commutative(ii * (q + 1), 7);
        }
        assert((boundary / 7 - ds / 7) % ii == 0) by {
            lemma_mod_multiples_basic(q + 1, ii);
            lemma_mul_is_commutative(q + 1, ii);
        }
        let b = boundary / 7;
        lemma_fundamental_div_mod(boundary, 7);
        lemma_mod_bound(boundary, 7);
        assert(boundary == 7 * b + ws);
        assert(r.day_index() / 7 == b);
        assert((r.day_index() / 7 - ds / 7) % ii == 0);
        if weekdays.is_all_spec() {
            assert(r.day_index() == boundary);
            assert(weekdays.has_idx(r.day_index() % 7));
            assert(r.day_index() > df);
        } else {
            let low = first_set_from(weekdays.bits, 0);
            assert(0 <= low <= ws);
            assert(r.day_index() == boundary - (ws - low));
            assert(r.day_index() % 7 == low && weekdays.has_idx(low));
            // Strictly past `from_date`: either `from_date` sits in an
            // earlier week than the boundary, or it sits in the boundary's
            // week, where a position at or past the earliest allowed
            // weekday would have let the first candidate succeed.
            let wf = df / 7;
            lemma_fundamental_div_mod(df, 7);
            assert(df == 7 * wf + pf);
            lemma_div_is_ordered(df, boundary, 7);
            assert(wf <= b);
            if wf < b {
                assert(7 * (wf + 1) <= 7 * b);
                assert(df < 7 * b <= r.day_index());
            } else {
                assert(pf < ws);
                if pf < low {
                    assert(r.day_index() == 7 * b + low > df);
                } else {
                    // low <= pf < ws: derive the candidate's success.
                    lemma_first_set_from_properties(weekdays.bits, pf + 1);
                    let nx = first_set_from(weekdays.bits, pf + 1);
                    assert(nx <= ws);
                    assert(pf + 1 <= nx && crate::weekday::bit_at(weekdays.bits, nx));
                    assert(next_in_mask(weekdays, pf) == nx);
                    assert(weekly_cand_offset(weekdays, pf) == nx - pf) by {
                        lemma_small_mod((nx - pf) as nat, 7nat);
                    }
                    assert(cf == 7 * wf + nx);
                    assert(cf > df);
                    lemma_fundamental_div_mod_converse(cf, 7, wf, nx);
                    assert(cf % 7 == nx && cf / 7 == b);
                    assert(weekdays.has_idx(cf % 7));
                    assert((cf / 7 - ds / 7) % ii == 0);
                    assert(weekly_matches_at(cf, ds, weekdays, ii));
                    assert(false);
                }
            }
        }
        assert(r.day_index() >= ds + step - 6);
        assert(weekly_matches_at(r.day_index(), ds, weekdays, ii));
    }
    r
}

/// The difference of two multiples of a positive `i` is a multiple, and
/// two different multiples differ by at least `i`.
proof fn lemma_multiple_diff(a: int, b: int, i: int)
    requires
        i >= 1,
        a % i == 0,
        b % i == 0,
    ensures
        (a - b) % i == 0,
        a - b == i * ((a - b) / i),
        b < a ==> b + i <= a,
{
    lemma_fundamental_div_mod(a, i);
    lemma_fundamental_div_mod(b, i);
    assert(a - b == i * (a / i - b / i)) by {
        vstd::arithmetic::mul::lemma_mul_is_distributive_sub(i, a / i, b / i);
    }
    lemma_fundamental_div_mod_converse(a - b, i, a / i - b / i, 0);
    if b < a {
        if a / i <= b / i {
            lemma_mul_inequality(a / i, b / i, i);
            assert(i * (a / i) <= i * (b / i)) by {
                lemma_mul_is_commutative(a / i, i);
                lemma_mul_is_commutative(b / i, i);
            }
            assert(false);
        }
        lemma_mul_inequality(b / i + 1, a / i, i);
        assert(i * (b / i + 1) == i * (b / i) + i) by {
            lemma_mul_is_distributive_add(i, b / i, 1);
        }
        assert(i * (b / i + 1) <= i * (a / i)) by {
            lemma_mul_is_commutative(b / i + 1, i);
            lemma_mul_is_commutative(a / i, i);
        }
    }
}

/// The month step to the first monthly candidate: the least multiple of
/// `i` months at which the anchor, advanced by that many months with its
/// day clamped, lands strictly after `from`.
pub open spec fn monthly_first_delta(from: Date, start: Date, i: int) -> int {
    let mdiff = from.month_index() - start.month_index();
    let floor = mdiff - mdiff % i;
    if add_months_spec(start, floor).day_index() > from.day_index() {
        floor
    } else {
        floor + i
    }
}

/// Some monthly candidate within the hundred-step cap lands on an allowed
/// weekday.
pub open spec fn monthly_hit_within_cap(from: Date, start: Date, m: WeekdayFlags, i: int) -> bool {
    exists|j: int|
        0 <= j < 100 && m.has_idx(
            #[trigger] monthly_candidate(
                start,
                monthly_first_delta(from, start, i),
                i,
                j,
            ).weekday_index(),
        )
}

/// Each monthly candidate is valid, sits the stated number of months past
/// the anchor, and keeps the anchor's day when that day is at most 28.
proof fn lemma_monthly_chain(start: Date, m0: int, i: int, j: int)
    requires
        start.valid(),
        i >= 1,
        m0 >= 0,
        j >= 0,
        start.month_index() + m0 + j * i <= max_month_index(),
    ensures
        monthly_candidate(start, m0, i, j).valid(),
        monthly_candidate(start, m0, i, j).day <= start.day,
        start.day <= 28 ==> monthly_candidate(start, m0, i, j).day == start.day,
        monthly_candidate(start, m0, i, j).month_index() == start.month_index() + m0 + j * i,
    decreases j,
{
    if j == 0 {
        assert(j * i == 0) by {
            vstd::arithmetic::mul::lemma_mul_by_zero_is_zero(i);
        }
        crate::date::lemma_add_months_spec(start, m0);
    } else {
        assert((j - 1) * i <= j * i && 0 <= (j - 1) * i) by {
            lemma_mul_inequality(j - 1, j, i);
            vstd::arithmetic::mul::lemma_mul_nonnegative(j - 1, i);
        }
        lemma_monthly_chain(start, m0, i, j - 1);
        assert(j * i == (j - 1) * i + i) by {
            lemma_mul_is_distributive_add(i, j - 1, 1);
            lemma_mul_is_commutative(i, j - 1);
            lemma_mul_is_commutative(i, j);
        }
        crate::date::lemma_add_months_spec(monthly_candidate(start, m0, i, j - 1), i);
    }
}

/// The chain of monthly candidates: the anchor advanced by `m0` months,
/// then repeatedly by `i` more months, each step clamping the day to the
/// target month's length.
pub open spec fn monthly_candidate(start: Date, m0: int, i: int, j: int) -> Date
    decreases j,
{
    if j <= 0 {
        add_months_spec(start, m0)
    } else {
        add_months_spec(monthly_candidate(start, m0, i, j - 1), i)
    }
}

/// The next monthly occurrence: the anchor advanced by whole months to
/// the first interval-multiple that lands strictly after `from_date`,
/// then by further intervals to an allowed weekday, giving up after one
/// hundred attempts.
fn next_monthly_date(
    from_date: Date,
    start_date: Date,
    weekdays: WeekdayFlags,
    interval: u64,
) -> (r: Date)
    requires
        from_date.valid(),
        start_date.valid(),
        interval >= 1,
        start_date.day_index() <= from_date.day_index(),
        weekdays.has_idx(start_date.weekday_index()),
        start_date.month_index() + monthly_first_delta(from_date, start_date, interval as int)
            + 100 * interval <= max_month_index(),
    ensures
        r.valid(),
        r.day_index() > from_date.day_index(),
        exists|j: int|
            0 <= j <= 100 && r == #[trigger] monthly_candidate(
                start_date,
                monthly_first_delta(from_date, start_date, interval as int),
                interval as int,
                j,
            ) && (forall|jj: int|
                0 <= jj < j ==> !weekdays.has_idx(
                    #[trigger] monthly_candidate(
                        start_date,
                        monthly_first_delta(from_date, start_date, interval as int),
                        interval as int,
                        jj,
                    ).weekday_index(),
                )) && (j < 100 ==> weekdays.has_idx(r.weekday_index())),
        (start_date.day <= 28 && monthly_hit_within_cap(
            from_date,
            start_date,
            weekdays,
            interval as int,
        )) ==> matches_spec(r, start_date, weekdays, Repeating::Monthly, interval as int) && (
        forall|x: Date|
            x.valid() && from_date.day_index() < x.day_index() < r.day_index()
                ==> !matches_spec(x, start_date, weekdays, Repeating::Monthly, interval as int)),
{
    let ghost ii: int = interval as int;
    let ghost ms: int = start_date.month_index();
    let ghost mdiff: int = from_date.month_index() - start_date.month_index();
    let ghost floor_g: int = mdiff - mdiff % ii;
    let ghost m0: int = monthly_first_delta(from_date, start_date, ii);
    proof {
        lemma_lex_order(start_date, from_date);
        assert(mdiff >= 0);
        lemma_mod_bound(mdiff, ii);
        lemma_fundamental_div_mod(mdiff, ii);
        assert(floor_g == ii * (mdiff / ii));
        assert(floor_g % ii == 0) by {
            lemma_mod_multiples_basic(mdiff / ii, ii);
            lemma_mul_is_commutative(mdiff / ii, ii);
        }
        assert((floor_g + ii) % ii == 0) by {
            assert(floor_g + ii == ii * (mdiff / ii + 1)) by {
                lemma_mul_is_distributive_add(ii, mdiff / ii, 1);
            }
            lemma_mod_multiples_basic(mdiff / ii + 1, ii);
            lemma_mul_is_commutative(mdiff / ii + 1, ii);
        }
    }
    let month_diff = crate::date::get_months_since(from_date, start_date);
    let md = month_diff as u64;
    let rr = md % interval;
    let mf = md - rr;
    let cand_floor = start_date.add_months(mf);
    let use_floor = from_date.is_before(&cand_floor);
    proof {
        crate::date::lemma_add_months_spec(start_date, floor_g);
        if floor_g == 0 {
            // Advancing by zero months reproduces the anchor, which is
            // never strictly after `from_date`.
            crate::date::lemma_month_index_unique(add_months_spec(start_date, 0), start_date);
            assert(add_months_spec(start_date, 0) == start_date);
        }
        assert(m0 % ii == 0 && m0 >= 1);
    }
    let delta = if use_floor {
        mf
    } else {
        mf + interval
    };
    let mut date = start_date.add_months(delta);
    proof {
        if !use_floor {
            assert(date.month_index() == ms + floor_g + ii > ms + mdiff);
            crate::date::lemma_month_index_order(from_date, date);
        }
        assert(date == monthly_candidate(start_date, m0, ii, 0));
    }
    let mut counter: u64 = 0;
    while counter < 100 && !weekdays.has_weekday(date.weekday())
        invariant
            from_date.valid(),
            start_date.valid(),
            date.valid(),
            interval >= 1,
            ii == interval as int,
            ms == start_date.month_index(),
            mdiff == from_date.month_index() - ms,
            mdiff >= 0,
            m0 == monthly_first_delta(from_date, start_date, ii),
            m0 % ii == 0,
            m0 >= 1,
            m0 + ii > mdiff,
            ms + m0 + 100 * ii <= max_month_index(),
            counter <= 100,
            date == monthly_candidate(start_date, m0, ii, counter as int),
            date.month_index() == ms + m0 + counter as int * ii,
            date.day <= start_date.day,
            start_date.day <= 28 ==> date.day == start_date.day,
            date.day_index() > from_date.day_index(),
            forall|jj: int|
                0 <= jj < counter as int ==> !weekdays.has_idx(
                    #[trigger] monthly_candidate(start_date, m0, ii, jj).weekday_index(),
                ),
        decreases 100 - counter,
    {
        proof {
            assert((counter as int + 1) * ii <= 100 * ii) by {
                lemma_mul_inequality(counter as int + 1, 100, ii);
            }
            assert((counter as int + 1) * ii == counter as int * ii + ii) by {
                lemma_mul_is_distributive_add(ii, counter as int, 1);
                lemma_mul_is_commutative(ii, counter as int);
                lemma_mul_is_commutative(ii, counter as int + 1);
            }
            assert((counter as int + 1) * ii >= 1 * ii) by {
                lemma_mul_inequality(1, counter as int + 1, ii);
            }
        }
        date = date.add_months(interval);
        counter += 1;
        proof {
            crate::date::lemma_month_index_order(from_date, date);
        }
    }
    proof {
        let jfin = counter as int;
        if start_date.day <= 28 && monthly_hit_within_cap(from_date, start_date, weekdays, ii) {
            if counter == 100 {
                let jx = choose|j: int|
                    0 <= j < 100 && weekdays.has_idx(
                        #[trigger] monthly_candidate(start_date, m0, ii, j).weekday_index(),
                    );
                assert(!weekdays.has_idx(
                    monthly_candidate(start_date, m0, ii, jx).weekday_index(),
                ));
                assert(false);
            }
            assert(weekdays.has_idx(date.weekday_index()));
            assert((date.month_index() - ms) % ii == 0) by {
                assert((jfin * ii) % ii == 0) by {
                    lemma_mod_multiples_basic(jfin, ii);
                }
                lemma_add_mod_noop(m0, jfin * ii, ii);
                lemma_small_mod(0nat, ii as nat);
            }
            crate::date::lemma_month_index_order(start_date, date);
            assert(matches_spec(date, start_date, weekdays, Repeating::Monthly, ii));
            assert forall|x: Date|
                x.valid() && from_date.day_index() < x.day_index()
                    < date.day_index() implies !matches_spec(
                x,
                start_date,
                weekdays,
                Repeating::Monthly,
                ii,
            ) by {
                if matches_spec(x, start_date, weekdays, Repeating::Monthly, ii) {
                    let kk = x.month_index() - ms;
                    if kk < m0 {
                        lemma_multiple_diff(m0, kk, ii);
                        assert(kk <= floor_g);
                        if kk < floor_g {
                            crate::date::lemma_month_index_order(x, from_date);
                            assert(false);
                        } else {
                            crate::date::lemma_add_months_spec(start_date, floor_g);
                            let cf = add_months_spec(start_date, floor_g);
                            crate::date::lemma_month_index_unique(x, cf);
                            assert(x == cf);
                            // `m0 != floor_g`, so the floor candidate did
                            // not land after `from_date`.
                            assert(cf.day_index() <= from_date.day_index());
                            assert(false);
                        }
                    } else {
                        lemma_multiple_diff(kk, m0, ii);
                        let jj = (kk - m0) / ii;
                        assert(kk - m0 == ii * jj);
                        assert(jj >= 0) by {
                            if jj <= -1 {
                                lemma_mul_inequality(jj, -1, ii);
                                assert(ii * jj <= ii * (-1)) by {
                                    lemma_mul_is_commutative(jj, ii);
                                    lemma_mul_is_commutative(-1, ii);
                                }
                                assert(false);
                            }
                        }
                        assert(ms + m0 + jj * ii == x.month_index()) by {
                            lemma_mul_is_commutative(ii, jj);
                        }
                        lemma_monthly_chain(start_date, m0, ii, jj);
                        let cj = monthly_candidate(start_date, m0, ii, jj);
                        crate::date::lemma_month_index_unique(x, cj);
                        assert(x == cj);
                        assert(x.month_index() < date.month_index()) by {
                            if date.month_index() < x.month_index() {
                                crate::date::lemma_month_index_order(date, x);
                                assert(false);
                            }
                            if date.month_index() == x.month_index() {
                                crate::date::lemma_month_index_unique(x, date);
                                assert(x == date);
                                assert(false);
                            }
                        }
                        assert(jj * ii < jfin * ii);
                        assert(jj < jfin) by {
                            vstd::arithmetic::mul::lemma_mul_strict_inequality_converse(
                                jj,
                                jfin,
                                ii,
                            );
                        }
                        assert(!weekdays.has_idx(cj.weekday_index()));
                        assert(false);
                    }
                }
            }
        }
    }
    date
}

/// The yearly candidate `n` whole years past the anchor, keeping its month
/// and day.
pub open spec fn yearly_candidate(start: Date, n: int) -> Date {
    Date { year: (start.year + n) as i32, month: start.month, day: start.day }
}

/// The year step to the first yearly candidate: the least multiple of `i`
/// years strictly past the whole years already elapsed at `from`.
pub open spec fn yearly_first_delta(yb: int, i: int) -> int {
    yb - yb % i + i
}

/// The yearly candidate tried after `j` extra interval steps.
pub open spec fn yearly_candidate_j(start: Date, yb: int, i: int, j: int) -> Date {
    yearly_candidate(start, yearly_first_delta(yb, i) + j * i)
}

/// Some yearly candidate within the hundred-step cap lands on an allowed
/// weekday.
pub open spec fn yearly_hit_within_cap(start: Date, yb: int, m: WeekdayFlags, i: int) -> bool {
    exists|j: int|
        0 <= j < 100 && m.has_idx(#[trigger] yearly_candidate_j(start, yb, i, j).weekday_index())
}

/// The next yearly occurrence: the anchor's month and day in the first
/// interval-multiple year past `from_date`, advanced by further intervals
/// to an allowed weekday, giving up after one hundred attempts.
fn next_yearly_date(from_date: Date, start_date: Date, weekdays: WeekdayFlags, interval: u64) -> (r:
    Date)
    requires
        from_date.valid(),
        start_date.valid(),
        interval >= 1,
        start_date.day_index() <= from_date.day_index(),
        weekdays.has_idx(start_date.weekday_index()),
        start_date.year + yearly_first_delta(years_between(from_date, start_date), interval as int)
            + 100 * interval <= MAX_YEAR,
        forall|j: int|
            0 <= j <= 100 ==> (#[trigger] yearly_candidate_j(
                start_date,
                years_between(from_date, start_date),
                interval as int,
                j,
            )).valid(),
    ensures
        r.valid(),
        r.day_index() > from_date.day_index(),
        exists|j: int|
            0 <= j <= 100 && r == #[trigger] yearly_candidate_j(
                start_date,
                years_between(from_date, start_date),
                interval as int,
                j,
            ) && (forall|jj: int|
                0 <= jj < j ==> !weekdays.has_idx(
                    #[trigger] yearly_candidate_j(
                        start_date,
                        years_between(from_date, start_date),
                        interval as int,
                        jj,
                    ).weekday_index(),
                )) && (j < 100 ==> weekdays.has_idx(r.weekday_index())),
        yearly_hit_within_cap(
            start_date,
            years_between(from_date, start_date),
            weekdays,
            interval as int,
        ) ==> matches_spec(r, start_date, weekdays, Repeating::Yearly, interval as int) && (
        forall|x: Date|
            x.valid() && from_date.day_index() < x.day_index() < r.day_index()
                ==> !matches_spec(x, start_date, weekdays, Repeating::Yearly, interval as int)),
{
    let ghost ii: int = interval as int;
    let ghost yb: int = years_between(from_date, start_date);
    let ghost syg: int = start_date.year as int;
    let ghost n0: int = yearly_first_delta(yb, ii);
    proof {
        lemma_lex_order(start_date, from_date);
        assert(yb >= 0);
        lemma_mod_bound(yb, ii);
        lemma_fundamental_div_mod(yb, ii);
        assert(n0 % ii == 0) by {
            assert(n0 == ii * (yb / ii + 1)) by {
                lemma_mul_is_distributive_add(ii, yb / ii, 1);
            }
            lemma_mod_multiples_basic(yb / ii + 1, ii);
            lemma_mul_is_commutative(yb / ii + 1, ii);
        }
        assert(n0 >= yb + 1);
        assert((yearly_candidate_j(start_date, yb, ii, 0)).valid());
        assert(0 * ii == 0);
        assert(100 * ii >= 0) by {
            vstd::arithmetic::mul::lemma_mul_nonnegative(100, ii);
        }
        assert(1 <= syg + n0 <= MAX_YEAR);
        assert(ii <= n0) by {
            vstd::arithmetic::div_mod::lemma_div_pos_is_pos(yb, ii);
            vstd::arithmetic::mul::lemma_mul_nonnegative(ii, yb / ii);
        }
        assert(yb <= from_date.year - syg);
    }
    let years_delta = from_date.years_since(&start_date);
    let rr = years_delta % interval;
    let y0 = (start_date.year as u64) + (years_delta - rr) + interval;
    proof {
        assert(y0 as int == syg + n0);
    }
    let mut date = start_date.with_year(y0 as i32);
    let mut counter: u64 = 0;
    while counter < 100 && !weekdays.has_weekday(date.weekday())
        invariant
            from_date.valid(),
            start_date.valid(),
            date.valid(),
            interval >= 1,
            ii == interval as int,
            yb == years_between(from_date, start_date),
            yb >= 0,
            syg == start_date.year as int,
            n0 == yearly_first_delta(yb, ii),
            n0 % ii == 0,
            n0 >= yb + 1,
            n0 >= ii,
            syg + n0 + 100 * ii <= MAX_YEAR,
            forall|j: int|
                0 <= j <= 100 ==> (#[trigger] yearly_candidate_j(start_date, yb, ii, j)).valid(),
            counter <= 100,
            date == yearly_candidate_j(start_date, yb, ii, counter as int),
            date.year as int == syg + n0 + counter as int * ii,
            date.month == start_date.month,
            date.day == start_date.day,
            forall|jj: int|
                0 <= jj < counter as int ==> !weekdays.has_idx(
                    #[trigger] yearly_candidate_j(start_date, yb, ii, jj).weekday_index(),
                ),
        decreases 100 - counter,
    {
        proof {
            assert((counter as int + 1) * ii == counter as int * ii + ii) by {
                lemma_mul_is_distributive_add(ii, counter as int, 1);
                lemma_mul_is_commutative(ii, counter as int);
                lemma_mul_is_commutative(ii, counter as int + 1);
            }
            assert((counter as int + 1) * ii <= 100 * ii) by {
                lemma_mul_inequality(counter as int + 1, 100, ii);
            }
            assert(counter as int * ii >= 0) by {
                vstd::arithmetic::mul::lemma_mul_nonnegative(counter as int, ii);
            }
            assert((yearly_candidate_j(start_date, yb, ii, counter as int + 1)).valid());
        }
        let ny = ((date.year as u64) + interval) as i32;
        date = date.with_year(ny);
        counter += 1;
    }
    proof {
        let jfin = counter as int;
        assert(jfin * ii >= 0) by {
            vstd::arithmetic::mul::lemma_mul_nonnegative(jfin, ii);
        }
        // Strictly past `from_date`.
        let earlier_md = from_date.month < start_date.month || (from_date.month
            == start_date.month && from_date.day < start_date.day);
        if earlier_md {
            assert(yb == from_date.year - start_date.year - 1);
            assert(crate::date::lex_lt(from_date, date));
        } else {
            assert(yb == from_date.year - start_date.year);
            assert(date.year as int > from_date.year as int);
            assert(crate::date::lex_lt(from_date, date));
        }
        lemma_lex_order(from_date, date);
        // The occurrence claims under a weekday hit within the cap.
        if yearly_hit_within_cap(start_date, yb, weekdays, ii) {
            if counter == 100 {
                let jx = choose|j: int|
                    0 <= j < 100 && weekdays.has_idx(
                        #[trigger] yearly_candidate_j(start_date, yb, ii, j).weekday_index(),
                    );
                assert(!weekdays.has_idx(
                    yearly_candidate_j(start_date, yb, ii, jx).weekday_index(),
                ));
                assert(false);
            }
            assert(weekdays.has_idx(date.weekday_index()));
            let delta_fin = n0 + jfin * ii;
            assert(years_between(date, start_date) == delta_fin);
            assert(delta_fin % ii == 0) by {
                assert((jfin * ii) % ii == 0) by {
                    lemma_mod_multiples_basic(jfin, ii);
                }
                lemma_add_mod_noop(n0, jfin * ii, ii);
                lemma_small_mod(0nat, ii as nat);
            }
            assert(crate::date::lex_lt(start_date, date));
            lemma_lex_order(start_date, date);
            assert(matches_spec(date, start_date, weekdays, Repeating::Yearly, ii));
            assert forall|x: Date|
                x.valid() && from_date.day_index() < x.day_index()
                    < date.day_index() implies !matches_spec(
                x,
                start_date,
                weekdays,
                Repeating::Yearly,
                ii,
            ) by {
                if matches_spec(x, start_date, weekdays, Repeating::Yearly, ii) {
                    let dx = years_between(x, start_date);
                    assert(dx == x.year - syg);
                    if dx < n0 {
                        lemma_multiple_diff(n0, dx, ii);
                        assert(dx <= yb);
                        if earlier_md {
                            assert(crate::date::lex_lt(x, from_date));
                            lemma_lex_order(x, from_date);
                        } else {
                            assert(!crate::date::lex_lt(from_date, x));
                            lemma_lex_order(from_date, x);
                        }
                        assert(false);
                    } else {
                        lemma_multiple_diff(dx, n0, ii);
                        let jj = (dx - n0) / ii;
                        assert(dx - n0 == ii * jj);
                        assert(jj >= 0) by {
                            if jj <= -1 {
                                lemma_mul_inequality(jj, -1, ii);
                                assert(ii * jj <= ii * (-1)) by {
                                    lemma_mul_is_commutative(jj, ii);
                                    lemma_mul_is_commutative(-1, ii);
                                }
                                assert(false);
                            }
                        }
                        assert(n0 + jj * ii == dx) by {
                            lemma_mul_is_commutative(ii, jj);
                        }
                        let cj = yearly_candidate_j(start_date, yb, ii, jj);
                        assert(x == cj);
                        assert((x.year as int) < (date.year as int)) by {
                            lemma_lex_order(x, date);
                        }
                        assert(jj * ii < jfin * ii);
                        assert(jj < jfin) by {
                            vstd::arithmetic::mul::lemma_mul_strict_inequality_converse(
                                jj,
                                jfin,
                                ii,
                            );
                        }
                        assert(!weekdays.has_idx(cj.weekday_index()));
                        assert(false);
                    }
                }
            }
        }
    }
    date
}
/// Whether `find_next_date` accepts the rule at all: the reference date
/// does not precede the anchor, and the anchor's weekday is allowed.
pub open spec fn rule_accepted(from: Date, start: Date, m: WeekdayFlags) -> bool {
    start.day_index() <= from.day_index() && m.has_idx(start.weekday_index())
}

/// The room and progress conditions under which `find_next_date` can
/// advance a rule of the given kind without leaving the representable
/// calendar.
pub open spec fn next_date_feasible(
    from: Date,
    start: Date,
    m: WeekdayFlags,
    repeat: Repeating,
    i: int,
) -> bool {
    match repeat {
        Repeating::Daily => from.day_index() + 7 * i <= max_day_index(),
        Repeating::Weekly => from.day_index() + 7 * i <= max_day_index(),
        Repeating::Monthly => start.month_index() + monthly_first_delta(from, start, i) + 100 * i
            <= max_month_index(),
        Repeating::Yearly => {
            &&& start.year + yearly_first_delta(years_between(from, start), i) + 100 * i
                <= MAX_YEAR
            &&& forall|j: int|
                0 <= j <= 100 ==> (#[trigger] yearly_candidate_j(
                    start,
                    years_between(from, start),
                    i,
                    j,
                )).valid()
        },
    }
}

/// What `find_next_date` promises of a successful result.
pub open spec fn next_date_post(
    d: Date,
    from: Date,
    start: Date,
    m: WeekdayFlags,
    repeat: Repeating,
    i: int,
) -> bool {
    &&& d.valid()
    &&& d.day_index() > from.day_index()
    &&& match repeat {
        Repeating::Daily => {
            &&& matches_spec(d, start, m, repeat, i)
            &&& forall|t: int|
                from.day_index() < t < d.day_index() ==> !daily_matches_at(
                    t,
                    start.day_index(),
                    m,
                    i,
                )
        },
        Repeating::Weekly => {
            &&& matches_spec(d, start, m, repeat, i)
            &&& ({
                let cf = from.day_index() + weekly_cand_offset(m, from.day_index() % 7);
                d.day_index() == if cf > from.day_index() && weekly_matches_at(
                    cf,
                    start.day_index(),
                    m,
                    i,
                ) {
                    cf
                } else {
                    next_weekstart_day(from, start, m, i)
                }
            })
        },
        Repeating::Monthly => {
            &&& exists|j: int|
                0 <= j <= 100 && d == #[trigger] monthly_candidate(
                    start,
                    monthly_first_delta(from, start, i),
                    i,
                    j,
                ) && (forall|jj: int|
                    0 <= jj < j ==> !m.has_idx(
                        #[trigger] monthly_candidate(
                            start,
                            monthly_first_delta(from, start, i),
                            i,
                            jj,
                        ).weekday_index(),
                    )) && (j < 100 ==> m.has_idx(d.weekday_index()))
            &&& ((start.day <= 28 && monthly_hit_within_cap(from, start, m, i))
                ==> matches_spec(d, start, m, repeat, i) && (forall|x: Date|
                x.valid() && from.day_index() < x.day_index() < d.day_index()
                    ==> !matches_spec(x, start, m, repeat, i)))
        },
        Repeating::Yearly => {
            &&& exists|j: int|
                0 <= j <= 100 && d == #[trigger] yearly_candidate_j(
                    start,
                    years_between(from, start),
                    i,
                    j,
                ) && (forall|jj: int|
                    0 <= jj < j ==> !m.has_idx(
                        #[trigger] yearly_candidate_j(
                            start,
                            years_between(from, start),
                            i,
                            jj,
                        ).weekday_index(),
                    )) && (j < 100 ==> m.has_idx(d.weekday_index()))
            &&& (yearly_hit_within_cap(start, years_between(from, start), m, i)
                ==> matches_spec(d, start, m, repeat, i) && (forall|x: Date|
                x.valid() && from.day_index() < x.day_index() < d.day_index()
                    ==> !matches_spec(x, start, m, repeat, i)))
        },
    }
}

/// The next occurrence of the rule strictly after `from_date`.
///
/// Fails with `StartDateBeforeBound` when `from_date` precedes the anchor
/// and with `WrongWeekday` when the anchor's own weekday is not allowed by
/// the mask; otherwise returns the next occurrence per the rule's kind.
///
/// Every result is strictly after `from_date`. A daily result is the
/// earliest occurrence after `from_date`; so is a monthly result whenever
/// the anchor's day of month is at most 28 (month-length clamping cannot
/// move it) and a candidate within the hundred-step cap lands on an
/// allowed weekday, and a yearly result whenever such a candidate exists;
/// on those same conditions the result satisfies `match_repeating_date`.
/// A weekly result satisfies it always, and equals the candidate-or-week-
/// boundary date that `next_date_post` writes out.
pub fn find_next_date(
    from_date: Date,
    start_date: Date,
    weekdays: WeekdayFlags,
    repeat: Repeating,
    interval: u64,
) -> (r: Result<Date, RepeatingDateError>)
    requires
        from_date.valid(),
        start_date.valid(),
        interval >= 1,
        rule_accepted(from_date, start_date, weekdays) ==> next_date_feasible(
            from_date,
            start_date,
            weekdays,
            repeat,
            interval as int,
        ),
    ensures
        r == Err::<Date, RepeatingDateError>(RepeatingDateError::StartDateBeforeBound)
            <==> from_date.day_index() < start_date.day_index(),
        r == Err::<Date, RepeatingDateError>(RepeatingDateError::WrongWeekday) <==> (
        start_date.day_index() <= from_date.day_index() && !weekdays.has_idx(
            start_date.weekday_index(),
        )),
        r is Ok <==> rule_accepted(from_date, start_date, weekdays),
        r matches Ok(d) ==> next_date_post(
            d,
            from_date,
            start_date,
            weekdays,
            repeat,
            interval as int,
        ),
{
    if from_date.is_before(&start_date) {
        return Err(RepeatingDateError::StartDateBeforeBound);
    }
    if !weekdays.has_weekday(start_date.weekday()) {
        return Err(RepeatingDateError::WrongWeekday);
    }
    match repeat {
        Repeating::Daily => Ok(next_daily_date(from_date, start_date, weekdays, interval)),
        Repeating::Weekly => Ok(next_weekly_date(from_date, start_date, weekdays, interval)),
        Repeating::Monthly => Ok(next_monthly_date(from_date, start_date, weekdays, interval)),
        Repeating::Yearly => Ok(next_yearly_date(from_date, start_date, weekdays, interval)),
    }
}

} // verus!
