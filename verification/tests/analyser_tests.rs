use dystonse_gtfs_data::analyser::{
    departure_delays_at_stop, filter_by_variant, generate_curves_for_stop_pair, join_pairs,
    make_stop_curve, make_stop_pair_curves, round_to_twelve, DbItem,
};
use dystonse_gtfs_data::calendar::Date;
use dystonse_gtfs_data::event_type::EventType;
use dystonse_gtfs_data::schedule::{StopTime, Trip};
use dystonse_gtfs_data::time_slots::TimeSlot;

fn item(
    trip: &[u8],
    day: u8,
    stop: &[u8],
    dep: Option<i64>,
    arr: Option<i64>,
    variant: u64,
) -> DbItem {
    DbItem {
        delay_arrival: arr,
        delay_departure: dep,
        date: Some(Date { year: 2023, month: 11, day }),
        trip_id: trip.to_vec(),
        stop_id: stop.to_vec(),
        route_variant: variant,
    }
}

#[test]
fn rounding_goes_to_the_nearest_multiple_of_twelve() {
    assert_eq!(round_to_twelve(0), 0);
    assert_eq!(round_to_twelve(5), 0);
    assert_eq!(round_to_twelve(6), 12);
    assert_eq!(round_to_twelve(29), 24);
    assert_eq!(round_to_twelve(30), 36);
    assert_eq!(round_to_twelve(-5), 0);
    assert_eq!(round_to_twelve(-30), -24);
    assert_eq!(round_to_twelve(-31), -36);
}

/// Join symmetry: the joined pairs are exactly the vehicle runs present
/// at both stops with both delays inside the band.
#[test]
fn joins_exactly_the_common_runs() {
    let at_a = vec![
        item(b"T1", 14, b"A", Some(30), None, 7),
        item(b"T2", 14, b"A", Some(60), None, 7),
        item(b"T3", 14, b"A", Some(90), None, 7),
        item(b"T4", 14, b"A", Some(4000), None, 7),
        item(b"T5", 14, b"A", None, None, 7),
    ];
    let at_b = vec![
        item(b"T1", 14, b"B", None, Some(45), 7),
        item(b"T3", 15, b"B", None, Some(70), 7),
        item(b"T4", 14, b"B", None, Some(10), 7),
        item(b"T5", 14, b"B", None, Some(20), 7),
        item(b"T6", 14, b"B", None, Some(30), 7),
    ];
    let pairs = join_pairs(&at_a, &at_b);
    // T1 joins; T2 has no partner; T3's partner ran another day; T4 is
    // beyond the band; T5 has no departure delay at A.
    assert_eq!(pairs, vec![(round_to_twelve(30), round_to_twelve(45))]);
}

#[test]
fn join_uses_the_first_matching_run() {
    let at_a = vec![item(b"T1", 14, b"A", Some(0), None, 7)];
    let at_b = vec![
        item(b"T1", 14, b"B", None, Some(12), 7),
        item(b"T1", 14, b"B", None, Some(999), 7),
    ];
    let pairs = join_pairs(&at_a, &at_b);
    assert_eq!(pairs, vec![(0, 12)]);
}

#[test]
fn variant_filter_keeps_the_variant_in_order() {
    let rows = vec![
        item(b"T1", 14, b"A", Some(1), None, 7),
        item(b"T2", 14, b"A", Some(2), None, 8),
        item(b"T3", 14, b"A", Some(3), None, 7),
    ];
    let kept = filter_by_variant(rows, 7);
    assert_eq!(kept.len(), 2);
    assert_eq!(kept[0].trip_id, b"T1".to_vec());
    assert_eq!(kept[1].trip_id, b"T3".to_vec());
}

#[test]
fn departure_delays_are_collected_per_stop() {
    let rows = vec![
        item(b"T1", 14, b"A", Some(5), None, 7),
        item(b"T2", 14, b"B", Some(6), None, 7),
        item(b"T3", 14, b"A", None, Some(7), 7),
        item(b"T4", 14, b"A", Some(8), None, 7),
    ];
    let delays = departure_delays_at_stop(&rows, &b"A".to_vec());
    assert_eq!(delays, vec![5, 8]);
}

/// Conditional curves reject windows whose span stays under 13 seconds.
#[test]
fn narrow_conditional_curves_are_rejected() {
    // All outbound delays within 12 seconds of each other.
    let mut pairs: Vec<(i64, i64)> = Vec::new();
    for i in 0..50i64 {
        pairs.push((i, (i % 2) * 12));
    }
    let curves = generate_curves_for_stop_pair(&pairs);
    assert!(curves.is_empty());
}

#[test]
fn wide_conditional_curves_are_kept() {
    let mut pairs: Vec<(i64, i64)> = Vec::new();
    for i in 0..60i64 {
        pairs.push((i, i * 3));
    }
    let curves = generate_curves_for_stop_pair(&pairs);
    assert!(!curves.is_empty());
    for (_mid, c) in &curves {
        assert!(c.xs.last().unwrap() - c.xs.first().unwrap() >= 13);
    }
}

/// The slot of the scheduled moment of an observation: a Tuesday trip
/// scheduled at 07:00 falls in the second slot.
#[test]
fn observation_moments_are_classified() {
    let trip = Trip {
        id: b"T1".to_vec(),
        route_id: b"R1".to_vec(),
        route_variant: Some(b"7".to_vec()),
        stop_times: vec![StopTime {
            stop_id: b"A".to_vec(),
            stop_sequence: 1,
            arrival_time: Some(7 * 3600),
            departure_time: Some(7 * 3600 + 30),
        }],
    };
    // 2023-11-14 is a Tuesday.
    let row = item(b"T1", 14, b"A", Some(0), Some(0), 7);
    let slots = TimeSlot::all();
    let mut matching = 0;
    for slot in &slots {
        if slot.matches_item(&row, &trip, EventType::Arrival) {
            matching += 1;
            assert_eq!(slot.id, 2);
        }
    }
    assert_eq!(matching, 1);

    // A scheduled time past midnight rolls into the next day: 25:30 on
    // Saturday evening is half past one in the Saturday-Sunday night.
    let night_trip = Trip {
        id: b"T2".to_vec(),
        route_id: b"R1".to_vec(),
        route_variant: Some(b"7".to_vec()),
        stop_times: vec![StopTime {
            stop_id: b"A".to_vec(),
            stop_sequence: 1,
            arrival_time: Some(25 * 3600 + 1800),
            departure_time: None,
        }],
    };
    // 2023-11-18 is a Saturday; 25:30 from its midnight is Sunday 01:30,
    // which belongs to the night before a workday.
    let row = item(b"T2", 18, b"A", Some(0), Some(0), 7);
    for slot in &slots {
        if slot.matches_item(&row, &night_trip, EventType::Arrival) {
            assert_eq!(slot.id, 10);
        }
    }
}

#[test]
fn event_type_keys_round_trip() {
    assert_eq!(EventType::from_int(EventType::Arrival.to_int()), EventType::Arrival);
    assert_eq!(EventType::from_int(EventType::Departure.to_int()), EventType::Departure);
    assert_eq!(EventType::Arrival.to_int(), 1);
    assert_eq!(EventType::Departure.to_int(), 2);
}

/// Per-stop curves need at least eleven observations.
#[test]
fn stop_curves_gate_on_eleven_observations() {
    let ten: Vec<i64> = (0..10).collect();
    assert!(make_stop_curve(&ten).is_none());
    let eleven: Vec<i64> = (0..11).collect();
    let (curve, _) = make_stop_curve(&eleven).unwrap();
    assert_eq!(curve.xs.len(), 11);
    assert_eq!(curve.total, 11);
    // A delay outside the accepted band blocks the curve.
    let mut wild: Vec<i64> = (0..11).collect();
    wild[0] = 2_000_000;
    assert!(make_stop_curve(&wild).is_none());
    // Eleven copies of one value hold no distribution.
    let flat: Vec<i64> = vec![5; 11];
    assert!(make_stop_curve(&flat).is_none());
}

/// Stop-pair curves need at least twenty-one joined pairs.
#[test]
fn stop_pair_curves_gate_on_twenty_one_pairs() {
    let twenty: Vec<(i64, i64)> = (0..20).map(|i| (i, i * 3)).collect();
    assert!(make_stop_pair_curves(&twenty).is_none());
    let sixty: Vec<(i64, i64)> = (0..60).map(|i| (i, i * 3)).collect();
    let gated = make_stop_pair_curves(&sixty).unwrap();
    let direct = generate_curves_for_stop_pair(&sixty);
    assert_eq!(gated.len(), direct.len());
    for ((m1, c1), (m2, c2)) in gated.iter().zip(direct.iter()) {
        assert_eq!(m1, m2);
        assert_eq!(c1.xs, c2.xs);
        assert_eq!(c1.cums, c2.cums);
    }
}
