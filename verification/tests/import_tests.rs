use dystonse_gtfs_data::calendar::Date;
use dystonse_gtfs_data::correlator::get_event_times;
use dystonse_gtfs_data::event_type::EventType;
use dystonse_gtfs_data::feed::{StopTimeUpdateData, TripDescriptorData, TripUpdateData};
use dystonse_gtfs_data::importer::{ImportError, PerScheduleImporter};
use dystonse_gtfs_data::schedule::{Schedule, StopTime, Trip};
use dystonse_gtfs_data::store::{RealtimeTable, Record};

fn push_varint(out: &mut Vec<u8>, mut v: u64) {
    loop {
        let byte = (v & 0x7f) as u8;
        v >>= 7;
        if v == 0 {
            out.push(byte);
            break;
        }
        out.push(byte | 0x80);
    }
}

fn push_tag(out: &mut Vec<u8>, field: u64, wire: u64) {
    push_varint(out, (field << 3) | wire);
}

fn push_bytes(out: &mut Vec<u8>, field: u64, data: &[u8]) {
    push_tag(out, field, 2);
    push_varint(out, data.len() as u64);
    out.extend_from_slice(data);
}

fn push_uint(out: &mut Vec<u8>, field: u64, v: u64) {
    push_tag(out, field, 0);
    push_varint(out, v);
}

fn push_int32(out: &mut Vec<u8>, field: u64, v: i32) {
    push_tag(out, field, 0);
    push_varint(out, (v as i64) as u64);
}

/// A single-trip feed with one stop-time update.
fn one_stop_feed(
    timestamp: u64,
    arrival_delay: Option<i32>,
    departure_delay: Option<i32>,
) -> Vec<u8> {
    let mut ev_a = Vec::new();
    let mut ev_d = Vec::new();
    let mut stu = Vec::new();
    push_uint(&mut stu, 1, 2);
    if let Some(d) = arrival_delay {
        push_int32(&mut ev_a, 1, d);
        push_bytes(&mut stu, 2, &ev_a);
    }
    if let Some(d) = departure_delay {
        push_int32(&mut ev_d, 1, d);
        push_bytes(&mut stu, 3, &ev_d);
    }
    push_bytes(&mut stu, 4, b"S2");

    let mut td = Vec::new();
    push_bytes(&mut td, 1, b"T1");
    push_bytes(&mut td, 2, b"08:00:00");
    push_bytes(&mut td, 3, b"20231114");
    push_bytes(&mut td, 5, b"R1");

    let mut tu = Vec::new();
    push_bytes(&mut tu, 1, &td);
    push_bytes(&mut tu, 2, &stu);

    let mut entity = Vec::new();
    push_bytes(&mut entity, 1, b"e1");
    push_bytes(&mut entity, 3, &tu);

    let mut header = Vec::new();
    push_bytes(&mut header, 1, b"2.0");
    push_uint(&mut header, 3, timestamp);

    let mut msg = Vec::new();
    push_bytes(&mut msg, 1, &header);
    push_bytes(&mut msg, 2, &entity);
    msg
}

fn sample_schedule() -> Schedule {
    Schedule {
        trips: vec![Trip {
            id: b"T1".to_vec(),
            route_id: b"R1".to_vec(),
            route_variant: Some(b"7".to_vec()),
            stop_times: vec![
                StopTime {
                    stop_id: b"S1".to_vec(),
                    stop_sequence: 1,
                    arrival_time: Some(28_700),
                    departure_time: Some(28_800),
                },
                StopTime {
                    stop_id: b"S2".to_vec(),
                    stop_sequence: 2,
                    arrival_time: Some(28_800),
                    departure_time: Some(28_830),
                },
            ],
        }],
    }
}

fn importer() -> PerScheduleImporter {
    PerScheduleImporter::new(sample_schedule(), b"src1".to_vec(), b"sched-2023-11-01.zip".to_vec())
}

fn probe_key() -> Record {
    Record {
        source: b"src1".to_vec(),
        route_id: b"R1".to_vec(),
        route_variant: b"7".to_vec(),
        trip_id: b"T1".to_vec(),
        date: Date { year: 2023, month: 11, day: 14 },
        stop_sequence: 2,
        stop_id: Vec::new(),
        time_of_recording: 0,
        delay_arrival: None,
        delay_departure: None,
        schedule_file_name: Vec::new(),
    }
}

/// Fresh insert: one feed yields one row with the reported delays and the
/// header timestamp as the time of recording.
#[test]
fn fresh_insert_writes_one_row() {
    let imp = importer();
    let mut table = RealtimeTable::new();
    let bytes = one_stop_feed(1_700_000_000, Some(30), Some(45));
    let count = imp
        .handle_realtime_file(&b"rt-2023-11-14.pb".to_vec(), &bytes, &mut table)
        .unwrap();
    assert_eq!(count, 1);
    assert_eq!(table.rows.len(), 1);
    let row = table.get(&probe_key()).unwrap();
    assert_eq!(row.delay_arrival, Some(30));
    assert_eq!(row.delay_departure, Some(45));
    assert_eq!(row.time_of_recording, 1_700_000_000);
    assert_eq!(row.stop_id, b"S2".to_vec());
    assert_eq!(row.schedule_file_name, b"sched-2023-11-01.zip".to_vec());
}

/// Upsert freshness: an older write leaves the row alone, a fresher one
/// replaces it.
#[test]
fn upsert_keeps_the_freshest_row() {
    let imp = importer();
    let mut table = RealtimeTable::new();
    let name = b"rt-2023-11-14.pb".to_vec();
    imp.handle_realtime_file(&name, &one_stop_feed(1_700_000_000, Some(30), Some(45)), &mut table)
        .unwrap();

    // Older recording time with different delays: row unchanged.
    imp.handle_realtime_file(&name, &one_stop_feed(1_699_999_000, Some(99), Some(99)), &mut table)
        .unwrap();
    let row = table.get(&probe_key()).unwrap();
    assert_eq!(row.delay_arrival, Some(30));
    assert_eq!(row.time_of_recording, 1_700_000_000);

    // Fresher recording time: row replaced.
    imp.handle_realtime_file(&name, &one_stop_feed(1_700_000_100, Some(50), Some(45)), &mut table)
        .unwrap();
    let row = table.get(&probe_key()).unwrap();
    assert_eq!(row.delay_arrival, Some(50));
    assert_eq!(row.time_of_recording, 1_700_000_100);
    assert_eq!(table.rows.len(), 1);
}

/// An equal recording time never replaces the stored row.
#[test]
fn equal_recording_time_keeps_the_first_row() {
    let imp = importer();
    let mut table = RealtimeTable::new();
    let name = b"rt-2023-11-14.pb".to_vec();
    imp.handle_realtime_file(&name, &one_stop_feed(1_700_000_000, Some(30), Some(45)), &mut table)
        .unwrap();
    imp.handle_realtime_file(&name, &one_stop_feed(1_700_000_000, Some(77), Some(77)), &mut table)
        .unwrap();
    let row = table.get(&probe_key()).unwrap();
    assert_eq!(row.delay_arrival, Some(30));
}

/// No delay at all: nothing is written.
#[test]
fn update_without_delays_writes_no_row() {
    let imp = importer();
    let mut table = RealtimeTable::new();
    let bytes = one_stop_feed(1_700_000_000, None, None);
    let count = imp
        .handle_realtime_file(&b"rt-2023-11-14.pb".to_vec(), &bytes, &mut table)
        .unwrap();
    assert_eq!(count, 0);
    assert_eq!(table.rows.len(), 0);
}

/// The correlator's intermediate triple obeys estimate = schedule + delay.
#[test]
fn correlation_triple_carries_the_delay() {
    let schedule = sample_schedule();
    let trip = &schedule.trips[0];
    let epoch: i64 = 1_699_920_000;
    let times = get_event_times(Some(30), epoch, EventType::Arrival, trip, 2);
    assert_eq!(times.delay, Some(30));
    assert_eq!(times.schedule, Some(epoch + 28_800));
    assert_eq!(times.estimate, Some(epoch + 28_800 + 30));
    assert_eq!(times.estimate.unwrap() - times.schedule.unwrap(), 30);
}

fn plain_trip_update() -> TripUpdateData {
    TripUpdateData {
        trip: Some(TripDescriptorData {
            trip_id: Some(b"T1".to_vec()),
            route_id: Some(b"R1".to_vec()),
            start_time: Some(b"08:00:00".to_vec()),
            start_date: Some(b"20231114".to_vec()),
        }),
        stop_time_updates: vec![StopTimeUpdateData {
            stop_sequence: Some(2),
            stop_id: Some(b"S2".to_vec()),
            arrival_delay: Some(30),
            departure_delay: Some(45),
        }],
    }
}

#[test]
fn trip_without_route_id_is_skipped() {
    let imp = importer();
    let mut tu = plain_trip_update();
    tu.trip.as_mut().unwrap().route_id = None;
    assert_eq!(imp.process_trip_update(&tu, 1).unwrap_err(), ImportError::MissingRouteId);
}

#[test]
fn trip_without_trip_id_is_skipped() {
    let imp = importer();
    let mut tu = plain_trip_update();
    tu.trip.as_mut().unwrap().trip_id = None;
    assert_eq!(imp.process_trip_update(&tu, 1).unwrap_err(), ImportError::MissingTripId);
}

#[test]
fn trip_without_start_date_is_skipped() {
    let imp = importer();
    let mut tu = plain_trip_update();
    tu.trip.as_mut().unwrap().start_date = None;
    assert_eq!(imp.process_trip_update(&tu, 1).unwrap_err(), ImportError::MissingStartDate);
}

#[test]
fn trip_with_malformed_start_date_is_skipped() {
    let imp = importer();
    let mut tu = plain_trip_update();
    tu.trip.as_mut().unwrap().start_date = Some(b"20231399".to_vec());
    assert_eq!(imp.process_trip_update(&tu, 1).unwrap_err(), ImportError::InvalidStartDate);
}

#[test]
fn trip_without_start_time_is_skipped() {
    let imp = importer();
    let mut tu = plain_trip_update();
    tu.trip.as_mut().unwrap().start_time = None;
    assert_eq!(imp.process_trip_update(&tu, 1).unwrap_err(), ImportError::MissingStartTime);
}

#[test]
fn trip_with_malformed_start_time_is_skipped() {
    let imp = importer();
    let mut tu = plain_trip_update();
    tu.trip.as_mut().unwrap().start_time = Some(b"25:00:00".to_vec());
    assert_eq!(imp.process_trip_update(&tu, 1).unwrap_err(), ImportError::InvalidStartTime);
}

#[test]
fn unknown_trip_is_reported() {
    let imp = importer();
    let mut tu = plain_trip_update();
    tu.trip.as_mut().unwrap().trip_id = Some(b"T9".to_vec());
    assert_eq!(imp.process_trip_update(&tu, 1).unwrap_err(), ImportError::TripNotInSchedule);
}

#[test]
fn stop_time_update_without_stop_id_is_reported() {
    let imp = importer();
    let mut tu = plain_trip_update();
    tu.stop_time_updates[0].stop_id = None;
    assert_eq!(imp.process_trip_update(&tu, 1).unwrap_err(), ImportError::MissingStopId);
}

#[test]
fn stop_time_update_without_sequence_is_reported() {
    let imp = importer();
    let mut tu = plain_trip_update();
    tu.stop_time_updates[0].stop_sequence = None;
    assert_eq!(
        imp.process_trip_update(&tu, 1).unwrap_err(),
        ImportError::MissingStopSequence
    );
}

#[test]
fn missing_route_variant_is_reported() {
    let mut schedule = sample_schedule();
    schedule.trips[0].route_variant = None;
    let imp = PerScheduleImporter::new(schedule, b"src1".to_vec(), b"s".to_vec());
    let tu = plain_trip_update();
    assert_eq!(
        imp.process_trip_update(&tu, 1).unwrap_err(),
        ImportError::MissingRouteVariant
    );
}

/// The start-time deviation against the schedule is reported, not fatal.
#[test]
fn start_time_delta_is_computed() {
    let imp = importer();
    let tu = plain_trip_update();
    let outcome = imp.process_trip_update(&tu, 1).unwrap();
    // Realtime start 08:00:00 = 28 800 s, first departure 28 800 s.
    assert_eq!(outcome.start_time_delta, Some(0));
    assert_eq!(outcome.rows.len(), 1);

    let mut late = plain_trip_update();
    late.trip.as_mut().unwrap().start_time = Some(b"08:00:30".to_vec());
    let outcome = imp.process_trip_update(&late, 1).unwrap();
    assert_eq!(outcome.start_time_delta, Some(30));
}

/// A stop sequence absent from the schedule yields the empty triple and
/// so no row.
#[test]
fn unknown_stop_sequence_writes_no_row() {
    let imp = importer();
    let mut tu = plain_trip_update();
    tu.stop_time_updates[0].stop_sequence = Some(9);
    let outcome = imp.process_trip_update(&tu, 1).unwrap();
    assert_eq!(outcome.rows.len(), 0);
}
