use dystonse_gtfs_data::calendar::Date;
use dystonse_gtfs_data::event_type::{EventPair, EventType};
use dystonse_gtfs_data::store::{BatchedStatements, RealtimeTable, Record, MAX_BATCH_SIZE};

fn record(trip: &[u8], seq: u32, tor: u64, arr: i64) -> Record {
    Record {
        source: b"src1".to_vec(),
        route_id: b"R1".to_vec(),
        route_variant: b"7".to_vec(),
        trip_id: trip.to_vec(),
        date: Date { year: 2023, month: 11, day: 14 },
        stop_sequence: seq,
        stop_id: b"S".to_vec(),
        time_of_recording: tor,
        delay_arrival: Some(arr),
        delay_departure: None,
        schedule_file_name: b"sched".to_vec(),
    }
}

/// Whatever the order of arrival, the stored row carries the largest
/// recording time of its key.
#[test]
fn any_interleaving_keeps_the_freshest_write() {
    let writes = vec![
        record(b"T1", 1, 500, 1),
        record(b"T2", 1, 900, 2),
        record(b"T1", 1, 700, 3),
        record(b"T1", 1, 600, 4),
        record(b"T2", 1, 100, 5),
    ];
    // Apply in several different orders; per key the largest time wins.
    let orders: Vec<Vec<usize>> = vec![
        vec![0, 1, 2, 3, 4],
        vec![4, 3, 2, 1, 0],
        vec![2, 0, 4, 1, 3],
    ];
    for order in orders {
        let mut table = RealtimeTable::new();
        for &i in &order {
            table.upsert(record(
                &writes[i].trip_id,
                writes[i].stop_sequence,
                writes[i].time_of_recording,
                writes[i].delay_arrival.unwrap(),
            ));
        }
        assert_eq!(table.rows.len(), 2);
        let t1 = table.get(&record(b"T1", 1, 0, 0)).unwrap();
        assert_eq!(t1.time_of_recording, 700);
        assert_eq!(t1.delay_arrival, Some(3));
        let t2 = table.get(&record(b"T2", 1, 0, 0)).unwrap();
        assert_eq!(t2.time_of_recording, 900);
    }
}

#[test]
fn apply_batch_equals_row_by_row_upserts() {
    let batch = vec![
        record(b"T1", 1, 10, 1),
        record(b"T1", 2, 10, 2),
        record(b"T1", 1, 20, 3),
    ];
    let mut via_batch = RealtimeTable::new();
    via_batch.apply_batch(batch);
    let mut one_by_one = RealtimeTable::new();
    one_by_one.upsert(record(b"T1", 1, 10, 1));
    one_by_one.upsert(record(b"T1", 2, 10, 2));
    one_by_one.upsert(record(b"T1", 1, 20, 3));
    assert_eq!(via_batch.rows.len(), one_by_one.rows.len());
    let a = via_batch.get(&record(b"T1", 1, 0, 0)).unwrap();
    let b = one_by_one.get(&record(b"T1", 1, 0, 0)).unwrap();
    assert_eq!(a.time_of_recording, b.time_of_recording);
    assert_eq!(a.delay_arrival, b.delay_arrival);
}

/// The buffer hands out one full batch the moment it exceeds the cap.
#[test]
fn buffer_flushes_past_the_cap() {
    let mut batched = BatchedStatements::new();
    for i in 0..MAX_BATCH_SIZE {
        let out = batched.add_parameter_set(record(b"T1", i as u32, 1, 0));
        assert!(out.is_none(), "no flush before the cap is exceeded");
    }
    let out = batched.add_parameter_set(record(b"T9", 1, 1, 0));
    let batch = out.expect("one past the cap flushes");
    assert_eq!(batch.len(), MAX_BATCH_SIZE + 1);
    let rest = batched.write_to_database();
    assert_eq!(rest.len(), 0);
}

#[test]
fn final_flush_returns_the_remainder() {
    let mut batched = BatchedStatements::new();
    batched.add_parameter_set(record(b"T1", 1, 1, 0));
    batched.add_parameter_set(record(b"T1", 2, 1, 0));
    let rest = batched.write_to_database();
    assert_eq!(rest.len(), 2);
    assert_eq!(batched.write_to_database().len(), 0);
}

#[test]
fn event_pairs_are_indexed_by_kind() {
    let mut pair = EventPair { arrival: 1u32, departure: 2u32 };
    assert_eq!(*pair.get(EventType::Arrival), 1);
    assert_eq!(*pair.get(EventType::Departure), 2);
    pair.set(EventType::Departure, 9);
    assert_eq!(*pair.get(EventType::Departure), 9);
    assert_eq!(*pair.get(EventType::Arrival), 1);
}
