use recurrence::find_next_date;
use recurrence::match_repeating_date;
use recurrence::Date;
use recurrence::Repeating;
use recurrence::RepeatingDateError;
use recurrence::WeekdayFlags;

fn d(year: i32, month: u8, day: u8) -> Date {
    Date::from_ymd(year, month, day).unwrap()
}

fn tue_thu() -> WeekdayFlags {
    WeekdayFlags::tue().union(WeekdayFlags::thu())
}

fn check_next(
    start: Date,
    from: Date,
    weekdays: WeekdayFlags,
    repeat: Repeating,
    interval: u64,
    expected: Date,
) {
    let result = find_next_date(from, start, weekdays, repeat, interval).unwrap();
    assert_eq!(expected, result);
    assert!(weekdays.contains(WeekdayFlags::from_weekday(result.weekday())));
    assert!(match_repeating_date(result, start, weekdays, repeat, interval));
}

#[test]
fn next_daily_cases() {
    let s = d(2023, 9, 12);
    check_next(s, d(2023, 9, 12), tue_thu(), Repeating::Daily, 2, d(2023, 9, 14));
    check_next(s, d(2023, 9, 14), tue_thu(), Repeating::Daily, 2, d(2023, 9, 26));
    check_next(
        s,
        d(2023, 9, 14),
        tue_thu().union(WeekdayFlags::fri()),
        Repeating::Daily,
        2,
        d(2023, 9, 22),
    );
    check_next(s, d(2023, 9, 12), tue_thu(), Repeating::Daily, 1, d(2023, 9, 14));
    check_next(s, d(2023, 9, 21), tue_thu(), Repeating::Daily, 3, d(2023, 10, 3));
}

#[test]
fn next_weekly_cases() {
    let s = d(2023, 9, 12);
    check_next(s, d(2023, 9, 12), tue_thu(), Repeating::Weekly, 2, d(2023, 9, 14));
    check_next(s, d(2023, 9, 14), tue_thu(), Repeating::Weekly, 2, d(2023, 9, 26));
    check_next(s, d(2023, 9, 12), tue_thu(), Repeating::Weekly, 1, d(2023, 9, 14));
    check_next(s, d(2023, 9, 13), tue_thu(), Repeating::Weekly, 1, d(2023, 9, 14));
    check_next(s, d(2023, 9, 13), WeekdayFlags::tue(), Repeating::Weekly, 1, d(2023, 9, 19));
    check_next(s, d(2023, 9, 14), tue_thu(), Repeating::Weekly, 3, d(2023, 10, 3));
    check_next(s, d(2023, 9, 21), tue_thu(), Repeating::Weekly, 3, d(2023, 10, 3));
    check_next(s, d(2023, 9, 20), tue_thu(), Repeating::Weekly, 3, d(2023, 10, 3));
    check_next(s, d(2023, 9, 21), tue_thu(), Repeating::Weekly, 2, d(2023, 9, 26));
    check_next(s, d(2023, 11, 30), tue_thu(), Repeating::Weekly, 2, d(2023, 12, 5));
    check_next(s, d(2023, 9, 20), tue_thu(), Repeating::Weekly, 2, d(2023, 9, 26));
    check_next(
        s,
        d(2023, 9, 14),
        tue_thu().union(WeekdayFlags::fri()),
        Repeating::Weekly,
        2,
        d(2023, 9, 15),
    );
}

#[test]
fn next_monthly_cases() {
    let s = d(2023, 9, 12);
    check_next(s, d(2023, 9, 12), tue_thu(), Repeating::Monthly, 1, d(2023, 10, 12));
    check_next(
        s,
        d(2023, 9, 12),
        tue_thu().union(WeekdayFlags::sun()),
        Repeating::Monthly,
        2,
        d(2023, 11, 12),
    );
    check_next(s, d(2023, 10, 12), tue_thu(), Repeating::Monthly, 2, d(2024, 3, 12));
    check_next(s, d(2024, 3, 12), tue_thu(), Repeating::Monthly, 2, d(2024, 9, 12));
    check_next(s, d(2023, 12, 12), tue_thu(), Repeating::Monthly, 2, d(2024, 3, 12));
    check_next(s, d(2023, 12, 12), tue_thu(), Repeating::Monthly, 5, d(2024, 12, 12));
}

#[test]
fn next_yearly_cases() {
    let s = d(2023, 9, 12);
    check_next(s, d(2023, 9, 12), tue_thu(), Repeating::Yearly, 1, d(2024, 9, 12));
    check_next(
        s,
        d(2023, 9, 12),
        tue_thu().union(WeekdayFlags::fri()),
        Repeating::Yearly,
        2,
        d(2025, 9, 12),
    );
    check_next(s, d(2023, 9, 12), WeekdayFlags::any(), Repeating::Yearly, 2, d(2025, 9, 12));
    check_next(s, d(2023, 12, 12), WeekdayFlags::any(), Repeating::Yearly, 3, d(2026, 9, 12));
}

#[test]
fn next_monthly_uses_current_grid_month() {
    // The month offset of `from` is already a multiple of the interval and
    // the anchor's day of that month still lies ahead: the earliest
    // occurrence is in `from`'s own month, not one interval later.
    let s = d(2023, 9, 12);
    check_next(s, d(2023, 10, 5), WeekdayFlags::any(), Repeating::Monthly, 1, d(2023, 10, 12));
    check_next(s, d(2023, 11, 3), WeekdayFlags::any(), Repeating::Monthly, 2, d(2023, 11, 12));
    // Past the anchor's day in an on-grid month, the next grid month wins.
    check_next(s, d(2023, 10, 12), WeekdayFlags::any(), Repeating::Monthly, 1, d(2023, 11, 12));
    check_next(s, d(2023, 10, 13), WeekdayFlags::any(), Repeating::Monthly, 1, d(2023, 11, 12));
}

#[test]
fn next_yearly_realigns_to_interval_grid() {
    // Whole years elapsed off the interval grid: the candidate years snap
    // back to multiples of the interval from the anchor.
    let s = d(2023, 9, 12);
    check_next(s, d(2024, 10, 15), WeekdayFlags::any(), Repeating::Yearly, 2, d(2025, 9, 12));
    check_next(s, d(2026, 1, 1), WeekdayFlags::any(), Repeating::Yearly, 3, d(2026, 9, 12));
}

#[test]
fn monthly_clamps_short_months() {
    let s = d(2023, 1, 31);
    let r = find_next_date(s, s, WeekdayFlags::any(), Repeating::Monthly, 1).unwrap();
    assert_eq!(d(2023, 2, 28), r);
    // The clamped date is not itself an occurrence: the matcher demands
    // the anchor's exact day of month.
    assert!(!match_repeating_date(r, s, WeekdayFlags::any(), Repeating::Monthly, 1));
}

#[test]
fn yearly_leap_anchor_with_aligned_interval() {
    // Every twentieth year from 2044 on skips the non-leap century years,
    // so a rule anchored on a February 29 stays on valid dates.
    let s = d(2024, 2, 29);
    let r = find_next_date(s, s, WeekdayFlags::any(), Repeating::Yearly, 20).unwrap();
    assert_eq!(d(2044, 2, 29), r);
    assert!(match_repeating_date(r, s, WeekdayFlags::any(), Repeating::Yearly, 20));
}

#[test]
fn weekly_repeat_match_cases() {
    let s = d(2023, 9, 12);
    assert!(match_repeating_date(d(2023, 9, 26), s, tue_thu(), Repeating::Weekly, 2));
    assert!(match_repeating_date(d(2023, 9, 14), s, tue_thu(), Repeating::Weekly, 2));
    assert!(!match_repeating_date(d(2023, 9, 15), s, tue_thu(), Repeating::Weekly, 2));
    assert!(match_repeating_date(d(2023, 9, 19), s, tue_thu(), Repeating::Weekly, 1));
    assert!(!match_repeating_date(d(2023, 9, 26), s, tue_thu(), Repeating::Weekly, 3));
    assert!(!match_repeating_date(d(2023, 9, 26), s, WeekdayFlags::mon(), Repeating::Weekly, 3));
}

#[test]
fn daily_repeat_match_cases() {
    let s = d(2023, 9, 12);
    let tue_wed = WeekdayFlags::tue().union(WeekdayFlags::wed());
    assert!(match_repeating_date(d(2023, 9, 13), s, tue_wed, Repeating::Daily, 1));
    assert!(match_repeating_date(d(2023, 9, 14), s, tue_thu(), Repeating::Daily, 2));
    assert!(match_repeating_date(d(2023, 10, 3), s, tue_wed, Repeating::Daily, 1));
    assert!(!match_repeating_date(d(2023, 10, 2), s, tue_wed, Repeating::Daily, 1));
    let tue_fri = WeekdayFlags::tue().union(WeekdayFlags::fri());
    assert!(match_repeating_date(d(2023, 9, 22), s, tue_fri, Repeating::Daily, 10));
    let mon_fri = WeekdayFlags::mon().union(WeekdayFlags::fri());
    assert!(match_repeating_date(d(2023, 10, 2), s, mon_fri, Repeating::Daily, 10));
}

#[test]
fn monthly_repeat_match_cases() {
    let s = d(2023, 9, 12);
    let any = WeekdayFlags::any();
    assert!(!match_repeating_date(d(2023, 9, 14), s, any, Repeating::Monthly, 2));
    assert!(!match_repeating_date(d(2023, 9, 14), s, any, Repeating::Monthly, 1));
    assert!(match_repeating_date(d(2023, 11, 12), s, any, Repeating::Monthly, 2));
    assert!(!match_repeating_date(d(2023, 11, 13), s, any, Repeating::Monthly, 1));
    assert!(match_repeating_date(d(2023, 10, 12), s, any, Repeating::Monthly, 1));
    assert!(match_repeating_date(d(2023, 12, 12), s, any, Repeating::Monthly, 1));
    assert!(!match_repeating_date(d(2023, 10, 12), s, any, Repeating::Monthly, 2));
}

#[test]
fn yearly_repeat_match_cases() {
    let s = d(2023, 9, 12);
    let any = WeekdayFlags::any();
    assert!(!match_repeating_date(d(2023, 9, 14), s, any, Repeating::Yearly, 1));
    assert!(match_repeating_date(d(2025, 9, 12), s, any, Repeating::Yearly, 2));
    assert!(!match_repeating_date(d(2024, 11, 13), s, any, Repeating::Yearly, 1));
    assert!(match_repeating_date(d(2024, 9, 12), s, any, Repeating::Yearly, 1));
    assert!(match_repeating_date(d(2025, 9, 12), s, any, Repeating::Yearly, 1));
    assert!(!match_repeating_date(d(2024, 10, 12), s, any, Repeating::Yearly, 2));
}

#[test]
fn start_date_before_bound_error() {
    let s = d(2023, 9, 12);
    let from = d(2023, 9, 11);
    let any = WeekdayFlags::any();
    for repeat in [Repeating::Daily, Repeating::Weekly, Repeating::Monthly, Repeating::Yearly] {
        let r = find_next_date(from, s, any, repeat, 1);
        assert_eq!(Err(RepeatingDateError::StartDateBeforeBound), r);
        let r3 = find_next_date(from, s, WeekdayFlags::mon(), repeat, 3);
        assert_eq!(Err(RepeatingDateError::StartDateBeforeBound), r3);
    }
}

#[test]
fn wrong_weekday_error() {
    // 2023-09-12 is a Tuesday; a mask without Tuesday rejects the rule.
    let s = d(2023, 9, 12);
    let mon = WeekdayFlags::mon();
    for repeat in [Repeating::Daily, Repeating::Weekly, Repeating::Monthly, Repeating::Yearly] {
        let r = find_next_date(d(2023, 9, 20), s, mon, repeat, 1);
        assert_eq!(Err(RepeatingDateError::WrongWeekday), r);
        let r4 = find_next_date(s, s, mon, repeat, 4);
        assert_eq!(Err(RepeatingDateError::WrongWeekday), r4);
    }
}
