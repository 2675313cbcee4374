use recurrence::find_next_date;
use recurrence::match_repeating_date;
use recurrence::Date;
use recurrence::Repeating;
use recurrence::WeekdayFlags;

fn d(year: i32, month: u8, day: u8) -> Date {
    Date::from_ymd(year, month, day).unwrap()
}

#[test]
fn daily_schedule_10_repeats() {
    let limit: i32 = 10;
    let weekdays = WeekdayFlags::midweek();
    let start_date = d(2023, 9, 18);
    let dates_in_range: [(i32, u8, u8); 9] = [
        (2023, 9, 19),
        (2023, 9, 20),
        (2023, 9, 21),
        (2023, 9, 22),
        (2023, 9, 25),
        (2023, 9, 26),
        (2023, 9, 27),
        (2023, 9, 28),
        (2023, 9, 29),
    ];

    let mut counter: i32 = 1;
    let mut result = start_date;
    for (y, m, dy) in dates_in_range {
        result = find_next_date(result, start_date, weekdays, Repeating::Daily, 1).unwrap();

        assert_eq!(d(y, m, dy), result);
        assert!(weekdays.contains(WeekdayFlags::from_weekday(result.weekday())));
        assert!(match_repeating_date(result, start_date, weekdays, Repeating::Daily, 1));

        counter += 1;
    }

    assert_eq!(limit, counter);
}

#[test]
fn bi_daily_schedule_5_repeats() {
    let limit: i32 = 5;
    let weekdays = WeekdayFlags::midweek();
    let start_date = d(2023, 9, 18);
    let dates_in_range: [(i32, u8, u8); 4] =
        [(2023, 9, 20), (2023, 9, 22), (2023, 9, 26), (2023, 9, 28)];

    let mut counter: i32 = 1;
    let mut result = start_date;
    for (y, m, dy) in dates_in_range {
        result = find_next_date(result, start_date, weekdays, Repeating::Daily, 2).unwrap();

        assert_eq!(d(y, m, dy), result);
        assert!(weekdays.contains(WeekdayFlags::from_weekday(result.weekday())));
        assert!(match_repeating_date(result, start_date, weekdays, Repeating::Daily, 2));

        counter += 1;
    }

    assert_eq!(limit, counter);
}

#[test]
fn weekly_schedule_14_repeats() {
    let limit: i32 = 14;
    let weekdays = WeekdayFlags::thu();
    let start_date = d(2023, 9, 21);
    let dates_in_range: [(i32, u8, u8); 13] = [
        (2023, 9, 28),
        (2023, 10, 5),
        (2023, 10, 12),
        (2023, 10, 19),
        (2023, 10, 26),
        (2023, 11, 2),
        (2023, 11, 9),
        (2023, 11, 16),
        (2023, 11, 23),
        (2023, 11, 30),
        (2023, 12, 7),
        (2023, 12, 14),
        (2023, 12, 21),
    ];

    let mut counter: i32 = 1;
    let mut result = start_date;
    for (y, m, dy) in dates_in_range {
        result = find_next_date(result, start_date, weekdays, Repeating::Weekly, 1).unwrap();

        assert_eq!(d(y, m, dy), result);
        assert!(weekdays.contains(WeekdayFlags::from_weekday(result.weekday())));
        assert!(match_repeating_date(result, start_date, weekdays, Repeating::Weekly, 1));

        counter += 1;
    }

    assert_eq!(limit, counter);
}

#[test]
fn bi_weekly_schedule_7_repeats() {
    let limit: i32 = 7;
    let weekdays = WeekdayFlags::thu();
    let start_date = d(2023, 9, 21);
    let dates_in_range: [(i32, u8, u8); 6] = [
        (2023, 10, 5),
        (2023, 10, 19),
        (2023, 11, 2),
        (2023, 11, 16),
        (2023, 11, 30),
        (2023, 12, 14),
    ];

    let mut counter: i32 = 1;
    let mut result = start_date;
    for (y, m, dy) in dates_in_range {
        result = find_next_date(result, start_date, weekdays, Repeating::Weekly, 2).unwrap();

        assert_eq!(d(y, m, dy), result);
        assert!(weekdays.contains(WeekdayFlags::from_weekday(result.weekday())));
        assert!(match_repeating_date(result, start_date, weekdays, Repeating::Weekly, 2));

        counter += 1;
    }

    assert_eq!(limit, counter);
}

#[test]
fn weekly_schedule_15_repeats_moredays() {
    let limit: i32 = 15;
    let weekdays = WeekdayFlags::mon()
        .union(WeekdayFlags::wed())
        .union(WeekdayFlags::fri())
        .union(WeekdayFlags::sat());
    let start_date = d(2023, 10, 11);
    let dates_in_range: [(i32, u8, u8); 14] = [
        (2023, 10, 13),
        (2023, 10, 14),
        (2023, 10, 16),
        (2023, 10, 18),
        (2023, 10, 20),
        (2023, 10, 21),
        (2023, 10, 23),
        (2023, 10, 25),
        (2023, 10, 27),
        (2023, 10, 28),
        (2023, 10, 30),
        (2023, 11, 1),
        (2023, 11, 3),
        (2023, 11, 4),
    ];

    let mut counter: i32 = 1;
    let mut result = start_date;
    for (y, m, dy) in dates_in_range {
        result = find_next_date(result, start_date, weekdays, Repeating::Weekly, 1).unwrap();

        assert_eq!(d(y, m, dy), result);
        assert!(weekdays.contains(WeekdayFlags::from_weekday(result.weekday())));
        assert!(match_repeating_date(result, start_date, weekdays, Repeating::Weekly, 1));

        counter += 1;
    }

    assert_eq!(limit, counter);
}

#[test]
fn weekly_schedule_3_weeks_moredays() {
    let limit: i32 = 5;
    let weekdays = WeekdayFlags::mon()
        .union(WeekdayFlags::wed())
        .union(WeekdayFlags::fri())
        .union(WeekdayFlags::sat());
    let start_date = d(2023, 10, 11);
    let dates_in_range: [(i32, u8, u8); 4] =
        [(2023, 10, 13), (2023, 10, 14), (2023, 10, 30), (2023, 11, 1)];

    let mut counter: i32 = 1;
    let mut result = start_date;
    for (y, m, dy) in dates_in_range {
        result = find_next_date(result, start_date, weekdays, Repeating::Weekly, 3).unwrap();

        assert_eq!(d(y, m, dy), result);
        assert!(weekdays.contains(WeekdayFlags::from_weekday(result.weekday())));
        assert!(match_repeating_date(result, start_date, weekdays, Repeating::Weekly, 3));

        counter += 1;
    }

    assert_eq!(limit, counter);
}

#[test]
fn monthly_schedule_until_date() {
    let limit: usize = 6;
    let weekdays = WeekdayFlags::any();
    let start_date = d(2023, 9, 19);
    let dates_in_range: [(i32, u8, u8); 5] = [
        (2023, 10, 19),
        (2023, 11, 19),
        (2023, 12, 19),
        (2024, 1, 19),
        (2024, 2, 19),
    ];
    let final_date = d(2024, 2, 19);

    let mut counter: usize = 0;
    let mut result = start_date;
    while result.is_before(&final_date) {
        result = find_next_date(result, start_date, weekdays, Repeating::Monthly, 1).unwrap();

        let (y, m, dy) = dates_in_range[counter];
        assert_eq!(d(y, m, dy), result);
        assert!(weekdays.contains(WeekdayFlags::from_weekday(result.weekday())));
        assert!(match_repeating_date(result, start_date, weekdays, Repeating::Monthly, 1));

        counter += 1;
    }

    assert_eq!(limit, counter + 1);
}

#[test]
fn bi_monthly_schedule_until_date() {
    let limit: usize = 6;
    let weekdays = WeekdayFlags::any();
    let start_date = d(2023, 9, 19);
    let dates_in_range: [(i32, u8, u8); 5] = [
        (2023, 11, 19),
        (2024, 1, 19),
        (2024, 3, 19),
        (2024, 5, 19),
        (2024, 7, 19),
    ];
    let final_date = d(2024, 6, 19);

    let mut counter: usize = 0;
    let mut result = start_date;
    while result.is_before(&final_date) {
        result = find_next_date(result, start_date, weekdays, Repeating::Monthly, 2).unwrap();

        let (y, m, dy) = dates_in_range[counter];
        assert_eq!(d(y, m, dy), result);
        assert!(weekdays.contains(WeekdayFlags::from_weekday(result.weekday())));
        assert!(match_repeating_date(result, start_date, weekdays, Repeating::Monthly, 2));

        counter += 1;
    }

    assert_eq!(limit, counter + 1);
}
