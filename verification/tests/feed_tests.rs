use dystonse_gtfs_data::feed::{decode_feed, decode_feed_file, FeedError};

fn push_varint(out: &mut Vec<u8>, mut v: u64) {
    loop {
        let byte = (v & 0x7f) as u8;
        v >>= 7;
        if v == 0 {
            out.push(byte);
            break;
        }
        out.push(byte | 0x80);
    }
}

fn push_tag(out: &mut Vec<u8>, field: u64, wire: u64) {
    push_varint(out, (field << 3) | wire);
}

fn push_bytes(out: &mut Vec<u8>, field: u64, data: &[u8]) {
    push_tag(out, field, 2);
    push_varint(out, data.len() as u64);
    out.extend_from_slice(data);
}

fn push_uint(out: &mut Vec<u8>, field: u64, v: u64) {
    push_tag(out, field, 0);
    push_varint(out, v);
}

fn push_int32(out: &mut Vec<u8>, field: u64, v: i32) {
    push_tag(out, field, 0);
    push_varint(out, (v as i64) as u64);
}

fn stop_time_event(delay: i32) -> Vec<u8> {
    let mut e = Vec::new();
    push_int32(&mut e, 1, delay);
    e
}

pub struct StuSpec {
    pub stop_sequence: Option<u32>,
    pub stop_id: Option<&'static str>,
    pub arrival_delay: Option<i32>,
    pub departure_delay: Option<i32>,
}

fn stop_time_update(s: &StuSpec) -> Vec<u8> {
    let mut u = Vec::new();
    if let Some(seq) = s.stop_sequence {
        push_uint(&mut u, 1, seq as u64);
    }
    if let Some(d) = s.arrival_delay {
        push_bytes(&mut u, 2, &stop_time_event(d));
    }
    if let Some(d) = s.departure_delay {
        push_bytes(&mut u, 3, &stop_time_event(d));
    }
    if let Some(id) = s.stop_id {
        push_bytes(&mut u, 4, id.as_bytes());
    }
    u
}

pub struct TripSpec {
    pub trip_id: Option<&'static str>,
    pub route_id: Option<&'static str>,
    pub start_time: Option<&'static str>,
    pub start_date: Option<&'static str>,
    pub stops: Vec<StuSpec>,
}

fn trip_update(t: &TripSpec) -> Vec<u8> {
    let mut td = Vec::new();
    if let Some(v) = t.trip_id {
        push_bytes(&mut td, 1, v.as_bytes());
    }
    if let Some(v) = t.start_time {
        push_bytes(&mut td, 2, v.as_bytes());
    }
    if let Some(v) = t.start_date {
        push_bytes(&mut td, 3, v.as_bytes());
    }
    if let Some(v) = t.route_id {
        push_bytes(&mut td, 5, v.as_bytes());
    }
    let mut tu = Vec::new();
    push_bytes(&mut tu, 1, &td);
    for s in &t.stops {
        push_bytes(&mut tu, 2, &stop_time_update(s));
    }
    tu
}

pub fn feed_bytes(timestamp: Option<u64>, trips: &[TripSpec]) -> Vec<u8> {
    let mut header = Vec::new();
    push_bytes(&mut header, 1, b"2.0");
    if let Some(ts) = timestamp {
        push_uint(&mut header, 3, ts);
    }
    let mut msg = Vec::new();
    push_bytes(&mut msg, 1, &header);
    for (i, t) in trips.iter().enumerate() {
        let mut entity = Vec::new();
        push_bytes(&mut entity, 1, format!("e{}", i).as_bytes());
        push_bytes(&mut entity, 3, &trip_update(t));
        push_bytes(&mut msg, 2, &entity);
    }
    msg
}

fn sample_trip() -> TripSpec {
    TripSpec {
        trip_id: Some("T1"),
        route_id: Some("R1"),
        start_time: Some("08:00:00"),
        start_date: Some("20231114"),
        stops: vec![StuSpec {
            stop_sequence: Some(2),
            stop_id: Some("S2"),
            arrival_delay: Some(30),
            departure_delay: Some(45),
        }],
    }
}

#[test]
fn decodes_a_full_feed() {
    let bytes = feed_bytes(Some(1_700_000_000), &[sample_trip()]);
    let msg = decode_feed(&bytes).unwrap();
    assert_eq!(msg.timestamp, Some(1_700_000_000));
    assert_eq!(msg.entities.len(), 1);
    let tu = msg.entities[0].as_ref().unwrap();
    let td = tu.trip.as_ref().unwrap();
    assert_eq!(td.trip_id.as_deref(), Some(b"T1".as_slice()));
    assert_eq!(td.route_id.as_deref(), Some(b"R1".as_slice()));
    assert_eq!(td.start_time.as_deref(), Some(b"08:00:00".as_slice()));
    assert_eq!(td.start_date.as_deref(), Some(b"20231114".as_slice()));
    assert_eq!(tu.stop_time_updates.len(), 1);
    let stu = &tu.stop_time_updates[0];
    assert_eq!(stu.stop_sequence, Some(2));
    assert_eq!(stu.stop_id.as_deref(), Some(b"S2".as_slice()));
    assert_eq!(stu.arrival_delay, Some(30));
    assert_eq!(stu.departure_delay, Some(45));
}

#[test]
fn decodes_negative_delays() {
    let mut t = sample_trip();
    t.stops[0].arrival_delay = Some(-75);
    t.stops[0].departure_delay = None;
    let bytes = feed_bytes(Some(1), &[t]);
    let msg = decode_feed(&bytes).unwrap();
    let tu = msg.entities[0].as_ref().unwrap();
    assert_eq!(tu.stop_time_updates[0].arrival_delay, Some(-75));
    assert_eq!(tu.stop_time_updates[0].departure_delay, None);
}

#[test]
fn rejects_truncated_bytes() {
    let mut bytes = feed_bytes(Some(1_700_000_000), &[sample_trip()]);
    bytes.truncate(bytes.len() - 3);
    assert_eq!(decode_feed(&bytes).unwrap_err(), FeedError::FeedDecodeError);
}

#[test]
fn rejects_a_feed_without_a_header_timestamp() {
    let bytes = feed_bytes(None, &[sample_trip()]);
    assert_eq!(decode_feed(&bytes).unwrap_err(), FeedError::MissingHeaderTimestamp);
}

#[test]
fn skips_unknown_fields() {
    let mut bytes = feed_bytes(Some(7), &[]);
    // An unknown length-delimited field and an unknown varint field.
    push_bytes(&mut bytes, 9, b"ignored");
    push_uint(&mut bytes, 10, 12345);
    let msg = decode_feed(&bytes).unwrap();
    assert_eq!(msg.timestamp, Some(7));
}

#[test]
fn unwraps_a_zip_wrapped_feed() {
    let inner = feed_bytes(Some(42), &[sample_trip()]);
    let cursor = std::io::Cursor::new(Vec::new());
    let mut writer = zip::ZipWriter::new(cursor);
    let options = zip::write::SimpleFileOptions::default();
    writer.start_file("feed.pb", options).unwrap();
    std::io::Write::write_all(&mut writer, &inner).unwrap();
    let archive = writer.finish().unwrap().into_inner();

    let name = b"gtfsrt-2023-11-14T08:00:00.zip".to_vec();
    let msg = decode_feed_file(&name, &archive).unwrap();
    assert_eq!(msg.timestamp, Some(42));
    assert_eq!(msg.entities.len(), 1);

    // The same bytes under a plain name are not a raw feed.
    let plain_name = b"gtfsrt-2023-11-14.pb".to_vec();
    assert!(decode_feed_file(&plain_name, &archive).is_err());
}
