use recurrence::days_until;
use recurrence::find_next_weekstart;
use recurrence::get_months_since;
use recurrence::Date;
use recurrence::Weekday;
use recurrence::WeekdayFlags;

fn d(year: i32, month: u8, day: u8) -> Date {
    Date::from_ymd(year, month, day).unwrap()
}

const ALL_DAYS: [Weekday; 7] = [
    Weekday::Mon,
    Weekday::Tue,
    Weekday::Wed,
    Weekday::Thu,
    Weekday::Fri,
    Weekday::Sat,
    Weekday::Sun,
];

fn mask_from_bits(bits: u8) -> WeekdayFlags {
    let mut m = WeekdayFlags::from_weekday(ALL_DAYS[0]);
    let mut first = true;
    for (i, w) in ALL_DAYS.iter().enumerate() {
        if bits & (1u8 << i) != 0 {
            let single = WeekdayFlags::from_weekday(*w);
            if first {
                m = single;
                first = false;
            } else {
                m = m.union(single);
            }
        }
    }
    assert!(!first);
    m
}

#[test]
fn weekday_roundtrip_and_numbers() {
    for (i, w) in ALL_DAYS.iter().enumerate() {
        assert_eq!(i as u8, w.number());
        let single = WeekdayFlags::from_weekday(*w);
        assert_eq!(*w, single.to_weekday());
        assert!(single.contains(single));
        assert!(!single.is_all());
    }
}

#[test]
fn named_masks() {
    assert!(WeekdayFlags::any().is_all());
    let rebuilt = WeekdayFlags::midweek().union(WeekdayFlags::weekend());
    assert!(rebuilt.is_all());
    assert!(WeekdayFlags::midweek().contains(WeekdayFlags::wed()));
    assert!(!WeekdayFlags::midweek().contains(WeekdayFlags::sat()));
    assert!(WeekdayFlags::weekend().contains(WeekdayFlags::sun()));
    assert_eq!(Weekday::Sat, WeekdayFlags::weekend().first_valid_weekday_bitwise());
    assert_eq!(Weekday::Mon, WeekdayFlags::any().first_valid_weekday_bitwise());
}

#[test]
fn next_weekday_agrees_with_bitwise() {
    // The linear scan and the bit-mask search are two spellings of the same
    // circular next-weekday search: they must agree on every nonempty mask
    // and every current weekday.
    for bits in 1u8..128 {
        let m = mask_from_bits(bits);
        for w in ALL_DAYS {
            let a = m.next_weekday(w);
            let b = m.next_weekday_bitwise(w);
            assert_eq!(a, b);
            assert!(m.contains(WeekdayFlags::from_weekday(a)));
        }
    }
}

#[test]
fn next_weekday_wraps() {
    let m = WeekdayFlags::tue().union(WeekdayFlags::thu());
    assert_eq!(Weekday::Thu, m.next_weekday(Weekday::Tue));
    assert_eq!(Weekday::Tue, m.next_weekday(Weekday::Thu));
    assert_eq!(Weekday::Tue, m.next_weekday(Weekday::Fri));
    let single = WeekdayFlags::wed();
    assert_eq!(Weekday::Wed, single.next_weekday(Weekday::Wed));
}

#[test]
fn first_valid_weekday_scans_low_end() {
    let m = WeekdayFlags::tue().union(WeekdayFlags::sat());
    assert_eq!(Weekday::Tue, m.first_valid_weekday(Weekday::Fri));
    assert_eq!(Weekday::Mon, m.first_valid_weekday(Weekday::Mon));
    assert_eq!(Weekday::Tue, m.first_valid_weekday_bitwise());
}

#[test]
fn extract_weekdays_lists_members_in_order() {
    let m = WeekdayFlags::mon().union(WeekdayFlags::wed()).union(WeekdayFlags::sun());
    assert_eq!(vec![Weekday::Mon, Weekday::Wed, Weekday::Sun], m.extract_weekdays());
    assert_eq!(ALL_DAYS.to_vec(), WeekdayFlags::any().extract_weekdays());
}

#[test]
fn days_until_wraps_over_week_end() {
    assert_eq!(0, days_until(Weekday::Mon, Weekday::Mon));
    assert_eq!(2, days_until(Weekday::Tue, Weekday::Thu));
    assert_eq!(5, days_until(Weekday::Thu, Weekday::Tue));
    assert_eq!(6, days_until(Weekday::Sun, Weekday::Sat));
    assert_eq!(1, days_until(Weekday::Sun, Weekday::Mon));
}

#[test]
fn known_weekdays() {
    assert_eq!(Weekday::Mon, d(2023, 9, 18).weekday());
    assert_eq!(Weekday::Tue, d(2023, 9, 12).weekday());
    assert_eq!(Weekday::Thu, d(2023, 9, 21).weekday());
    assert_eq!(Weekday::Mon, d(1, 1, 1).weekday());
    assert_eq!(Weekday::Thu, d(2024, 2, 29).weekday());
}

#[test]
fn date_validation() {
    assert!(Date::from_ymd(2023, 2, 29).is_none());
    assert!(Date::from_ymd(2024, 2, 29).is_some());
    assert!(Date::from_ymd(2023, 4, 31).is_none());
    assert!(Date::from_ymd(2023, 13, 1).is_none());
    assert!(Date::from_ymd(2023, 0, 1).is_none());
    assert!(Date::from_ymd(0, 1, 1).is_none());
    assert!(Date::from_ymd(10000, 1, 1).is_none());
    assert!(Date::from_ymd(9999, 12, 31).is_some());
}

#[test]
fn day_arithmetic_crosses_month_and_year_ends() {
    assert_eq!(d(2024, 3, 1), d(2024, 2, 29).add_days(1));
    assert_eq!(d(2024, 1, 1), d(2023, 12, 31).add_days(1));
    assert_eq!(d(2023, 12, 31), d(2024, 1, 1).sub_days(1));
    assert_eq!(d(2024, 2, 29), d(2024, 2, 1).add_days(28));
    assert_eq!(366, d(2024, 9, 12).day_number() - d(2023, 9, 12).day_number());
    assert_eq!(365, d(2024, 2, 28).day_number() - d(2023, 2, 28).day_number());
}

#[test]
fn add_months_preserves_or_clamps_day() {
    assert_eq!(d(2023, 10, 19), d(2023, 9, 19).add_months(1));
    assert_eq!(d(2024, 1, 19), d(2023, 9, 19).add_months(4));
    assert_eq!(d(2023, 2, 28), d(2023, 1, 31).add_months(1));
    assert_eq!(d(2024, 2, 29), d(2024, 1, 31).add_months(1));
}

#[test]
fn months_and_years_between() {
    assert_eq!(0, get_months_since(d(2023, 9, 30), d(2023, 9, 1)));
    assert_eq!(3, get_months_since(d(2023, 12, 12), d(2023, 9, 12)));
    assert_eq!(-3, get_months_since(d(2023, 9, 12), d(2023, 12, 12)));
    assert_eq!(16, get_months_since(d(2025, 1, 3), d(2023, 9, 28)));
    assert_eq!(0, d(2024, 9, 11).years_since(&d(2023, 9, 12)));
    assert_eq!(1, d(2024, 9, 12).years_since(&d(2023, 9, 12)));
    assert_eq!(2, d(2025, 12, 1).years_since(&d(2023, 9, 12)));
}

#[test]
fn weekstart_lands_on_interval_boundary() {
    // Anchor Thursday 2023-09-21, single allowed weekday Thursday: the next
    // one-week window starts a week later, on the anchor's weekday.
    let thu = WeekdayFlags::thu();
    let s = d(2023, 9, 21);
    assert_eq!(d(2023, 9, 28), find_next_weekstart(s, s, thu, 1));
    assert_eq!(d(2023, 10, 5), find_next_weekstart(s, s, thu, 2));
    // With Tuesday also allowed the window is pulled back to Tuesday.
    let tue_thu = WeekdayFlags::tue().union(WeekdayFlags::thu());
    assert_eq!(d(2023, 9, 26), find_next_weekstart(s, s, tue_thu, 1));
    // An unrestricted mask keeps the boundary day itself.
    assert_eq!(d(2023, 9, 28), find_next_weekstart(s, s, WeekdayFlags::any(), 1));
}
