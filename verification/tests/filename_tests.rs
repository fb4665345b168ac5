use dystonse_gtfs_data::calendar::Date;
use dystonse_gtfs_data::cache::FileCache;
use dystonse_gtfs_data::filenames::{
    date_from_filename, date_time_from_filename, plan_rt_file, FilenameError, RtDisposition,
};

#[test]
fn reads_the_first_date_in_a_name() {
    let d = date_from_filename(&b"data/rt/gtfsrt-2023-11-14T08:15:00.pb".to_vec()).unwrap();
    assert_eq!(d, Date { year: 2023, month: 11, day: 14 });
}

#[test]
fn a_name_without_a_date_is_refused() {
    assert_eq!(
        date_from_filename(&b"schedule.zip".to_vec()),
        Err(FilenameError::FilenameDateMissing)
    );
}

#[test]
fn a_date_with_impossible_values_is_refused() {
    assert_eq!(
        date_from_filename(&b"rt-2023-13-01.pb".to_vec()),
        Err(FilenameError::FilenameDateInvalid)
    );
    assert_eq!(
        date_from_filename(&b"rt-2023-02-30.pb".to_vec()),
        Err(FilenameError::FilenameDateInvalid)
    );
}

#[test]
fn leap_days_are_understood() {
    assert!(date_from_filename(&b"rt-2024-02-29.pb".to_vec()).is_ok());
    assert_eq!(
        date_from_filename(&b"rt-2023-02-29.pb".to_vec()),
        Err(FilenameError::FilenameDateInvalid)
    );
}

fn schedules() -> Vec<Vec<u8>> {
    vec![
        b"schedule/vbn-2023-01-01.zip".to_vec(),
        b"schedule/vbn-2023-03-01.zip".to_vec(),
    ]
}

#[test]
fn realtime_files_pair_with_the_newest_older_schedule() {
    let s = schedules();
    let oldest = Date { year: 2023, month: 1, day: 1 };
    assert_eq!(
        plan_rt_file(&s, &oldest, &b"rt/vbn-2023-02-15.pb".to_vec()),
        RtDisposition::Group(0)
    );
    assert_eq!(
        plan_rt_file(&s, &oldest, &b"rt/vbn-2023-03-02.pb".to_vec()),
        RtDisposition::Group(1)
    );
}

#[test]
fn realtime_files_older_than_every_schedule_are_skipped() {
    let s = schedules();
    let oldest = Date { year: 2023, month: 1, day: 1 };
    assert_eq!(
        plan_rt_file(&s, &oldest, &b"rt/vbn-2022-12-31.pb".to_vec()),
        RtDisposition::TooOld
    );
    // Equal to the oldest schedule date also counts as too old.
    assert_eq!(
        plan_rt_file(&s, &oldest, &b"rt/vbn-2023-01-01.pb".to_vec()),
        RtDisposition::TooOld
    );
}

#[test]
fn realtime_files_without_a_date_are_quarantined() {
    let s = schedules();
    let oldest = Date { year: 2023, month: 1, day: 1 };
    assert_eq!(
        plan_rt_file(&s, &oldest, &b"rt/broken.pb".to_vec()),
        RtDisposition::BadDate
    );
}

#[test]
fn reads_a_full_moment_from_a_name() {
    let r = date_time_from_filename(&b"rt/vbn-2023-11-14T08:15:30.pb".to_vec()).unwrap();
    assert_eq!(r.0, Date { year: 2023, month: 11, day: 14 });
    assert_eq!(r.1, 8 * 3600 + 15 * 60 + 30);
}

#[test]
fn a_moment_with_impossible_values_is_refused() {
    assert_eq!(
        date_time_from_filename(&b"rt/vbn-2023-11-14T25:00:00.pb".to_vec()),
        Err(FilenameError::FilenameDateInvalid)
    );
    assert_eq!(
        date_time_from_filename(&b"rt/vbn-2023-11-14.pb".to_vec()),
        Err(FilenameError::FilenameDateMissing)
    );
}

#[test]
fn the_file_cache_reloads_only_on_a_changed_key() {
    let mut cache = FileCache::new();
    assert!(cache.needs_reload(&b"a.zip".to_vec(), 100));
    assert!(!cache.needs_reload(&b"a.zip".to_vec(), 100));
    assert!(cache.needs_reload(&b"a.zip".to_vec(), 101));
    assert!(cache.needs_reload(&b"b.zip".to_vec(), 101));
    assert!(!cache.needs_reload(&b"b.zip".to_vec(), 101));
}
