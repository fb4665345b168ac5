use dystonse_gtfs_data::time_slots::{TimeOfWeek, TimeSlot};

/// Every minute of a full calendar week is matched by exactly one slot.
#[test]
fn every_minute_matches_exactly_one_slot() {
    let slots = TimeSlot::all();
    for weekday in 0u8..7 {
        for hour in 0u8..24 {
            for minute in 0u8..60 {
                let t = TimeOfWeek::new(weekday, hour, minute);
                let matching = slots.iter().filter(|s| s.matches(t)).count();
                assert_eq!(
                    matching, 1,
                    "weekday {} hour {} minute {}",
                    weekday, hour, minute
                );
            }
        }
    }
}

#[test]
fn from_datetime_picks_the_matching_slot() {
    for weekday in 0u8..7 {
        for hour in 0u8..24 {
            let t = TimeOfWeek::new(weekday, hour, 17);
            let slot = TimeSlot::from_datetime(t);
            assert!(slot.matches(t));
        }
    }
}

/// The night slot before a workday covers Sunday evening, per the slot
/// table: Sunday lies in the Sunday-to-Thursday range.
#[test]
fn sunday_half_past_eleven_is_a_night_before_workday() {
    let t = TimeOfWeek::new(6, 23, 30);
    assert_eq!(TimeSlot::from_datetime(t).id, 10);
}

#[test]
fn thursday_nine_in_the_evening_is_slot_ten() {
    let t = TimeOfWeek::new(3, 21, 0);
    assert_eq!(TimeSlot::from_datetime(t).id, 10);
}

#[test]
fn saturday_morning_is_slot_eight() {
    let t = TimeOfWeek::new(5, 10, 0);
    assert_eq!(TimeSlot::from_datetime(t).id, 8);
}

#[test]
fn tuesday_seven_in_the_morning_is_slot_two() {
    let t = TimeOfWeek::new(1, 7, 0);
    assert_eq!(TimeSlot::from_datetime(t).id, 2);
}

#[test]
fn friday_night_is_a_night_before_a_weekend_day() {
    let t = TimeOfWeek::new(4, 22, 0);
    assert_eq!(TimeSlot::from_datetime(t).id, 11);
}

#[test]
fn saturday_small_hours_are_still_the_weekend_night() {
    let t = TimeOfWeek::new(5, 2, 0);
    assert_eq!(TimeSlot::from_datetime(t).id, 11);
}
