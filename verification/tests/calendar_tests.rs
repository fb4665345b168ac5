use dystonse_gtfs_data::calendar::{
    epoch_seconds_from_date, moment_of_date_and_time, split_day_seconds, weekday_from_date, Date,
};

#[test]
fn weekdays_come_out_right() {
    // The Unix epoch began on a Thursday.
    assert_eq!(weekday_from_date(&Date { year: 1970, month: 1, day: 1 }), 3);
    // 2023-11-14 was a Tuesday.
    assert_eq!(weekday_from_date(&Date { year: 2023, month: 11, day: 14 }), 1);
    // 2023-11-19 was a Sunday.
    assert_eq!(weekday_from_date(&Date { year: 2023, month: 11, day: 19 }), 6);
}

#[test]
fn midnight_timestamps_come_out_right() {
    assert_eq!(epoch_seconds_from_date(&Date { year: 1970, month: 1, day: 1 }), 0);
    assert_eq!(
        epoch_seconds_from_date(&Date { year: 2023, month: 11, day: 14 }),
        1_699_920_000
    );
}

#[test]
fn day_seconds_split_like_floor_division() {
    assert_eq!(split_day_seconds(0), (0, 0));
    assert_eq!(split_day_seconds(86_399), (0, 86_399));
    assert_eq!(split_day_seconds(86_400), (1, 0));
    assert_eq!(split_day_seconds(90_000), (1, 3_600));
    assert_eq!(split_day_seconds(-1), (-1, 86_399));
    assert_eq!(split_day_seconds(-86_400), (-1, 0));
}

#[test]
fn moments_roll_over_midnight() {
    // Tuesday plus 25 hours lands on Wednesday at one o'clock.
    let tuesday = Date { year: 2023, month: 11, day: 14 };
    let m = moment_of_date_and_time(&tuesday, 25 * 3600);
    assert_eq!(m.weekday, 2);
    assert_eq!(m.hour, 1);
    assert_eq!(m.minute, 0);

    // A negative offset reaches back into Monday evening.
    let m = moment_of_date_and_time(&tuesday, -3600);
    assert_eq!(m.weekday, 0);
    assert_eq!(m.hour, 23);
}

#[test]
fn date_validity_follows_the_calendar() {
    assert!(Date { year: 2023, month: 11, day: 14 }.is_valid());
    assert!(Date { year: 2024, month: 2, day: 29 }.is_valid());
    assert!(!Date { year: 2023, month: 2, day: 29 }.is_valid());
    assert!(!Date { year: 2023, month: 0, day: 1 }.is_valid());
    assert!(!Date { year: 2023, month: 13, day: 1 }.is_valid());
    assert!(!Date { year: 2023, month: 4, day: 31 }.is_valid());
    assert!(Date { year: 2000, month: 2, day: 29 }.is_valid());
    assert!(!Date { year: 1900, month: 2, day: 29 }.is_valid());
}
