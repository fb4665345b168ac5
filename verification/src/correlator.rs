//! Correlation of one reported stop-time event against the schedule.
//!
//! Given the delay a feed reported for an event, the scheduled moment is
//! looked up by the stop ordinal in the schedule trip, and the triple
//! (schedule, estimate, delay) is formed with estimate = schedule + delay.
//! Whenever anything needed is absent - the event, its delay, the
//! stop-time, or its scheduled time - the empty triple is produced.

use vstd::prelude::*;
use crate::event_type::EventType;
use crate::schedule::{StopTime, Trip};

verus! {

/// The three times of one correlated event; logically
/// estimate = schedule + delay whenever they are present.
#[derive(Clone, Copy, Debug)]
pub struct EventTimes {
    pub schedule: Option<i64>,
    pub estimate: Option<i64>,
    pub delay: Option<i64>,
}

impl EventTimes {
    /// The empty triple.
    pub fn empty() -> (e: EventTimes)
        ensures
            e.schedule is None && e.estimate is None && e.delay is None,
    {
        EventTimes { schedule: None, estimate: None, delay: None }
    }

    /// Whether nothing was correlated.
    pub fn is_empty(&self) -> (r: bool)
        ensures
            r == (self.schedule is None && self.estimate is None && self.delay is None),
    {
        self.schedule.is_none() && self.estimate.is_none() && self.delay.is_none()
    }
}

/// Index of the first stop-time with the given ordinal.
pub open spec fn first_stop_time_index(sts: Seq<StopTime>, seq: u32, i: int) -> Option<int>
    decreases sts.len() - i,
{
    if i < 0 || i >= sts.len() {
        None
    } else if sts[i].stop_sequence as u32 == seq {
        Some(i)
    } else {
        first_stop_time_index(sts, seq, i + 1)
    }
}

/// The scheduled time the given event kind has at stop-time `st`.
pub open spec fn spec_time_for(st: StopTime, et: EventType) -> Option<u32> {
    if et is Departure {
        st.departure_time
    } else {
        st.arrival_time
    }
}

/// What the correlator produces: the scheduled moment as an absolute
/// instant, the estimate shifted by the delay, and the delay itself - or
/// the empty triple when the event, the stop-time or its scheduled time is
/// absent.
pub open spec fn spec_event_times(
    sts: Seq<StopTime>,
    event_delay: Option<i32>,
    epoch: int,
    et: EventType,
    seq: u32,
) -> EventTimes {
    match event_delay {
        None => EventTimes { schedule: None, estimate: None, delay: None },
        Some(d) => match first_stop_time_index(sts, seq, 0) {
            None => EventTimes { schedule: None, estimate: None, delay: None },
            Some(i) => match spec_time_for(sts[i], et) {
                None => EventTimes { schedule: None, estimate: None, delay: None },
                Some(t) => EventTimes {
                    schedule: Some((epoch + t) as i64),
                    estimate: Some((epoch + t + d) as i64),
                    delay: Some(d as i64),
                },
            },
        },
    }
}

/// The first quantifier-free match is the first match.
proof fn lemma_first_stop_time_converse(sts: Seq<StopTime>, seq: u32, r: Option<int>)
    requires
        match r {
            Some(i) => 0 <= i < sts.len() && sts[i].stop_sequence as u32 == seq
                && forall|j: int| 0 <= j < i ==> sts[j].stop_sequence as u32 != seq,
            None => forall|j: int| 0 <= j < sts.len() ==> sts[j].stop_sequence as u32 != seq,
        },
    ensures
        first_stop_time_index(sts, seq, 0) == r,
{
    lemma_first_stop_time_char(sts, seq, 0);
    match (r, first_stop_time_index(sts, seq, 0)) {
        (Some(i), Some(j)) => {
            if i < j {
                assert(sts[i].stop_sequence as u32 != seq);
            } else if j < i {
                assert(sts[j].stop_sequence as u32 != seq);
            }
        },
        (Some(i), None) => {
            assert(sts[i].stop_sequence as u32 != seq);
        },
        (None, Some(j)) => {
            assert(sts[j].stop_sequence as u32 != seq);
        },
        (None, None) => {},
    }
}

/// What `first_stop_time_index` promises.
proof fn lemma_first_stop_time_char(sts: Seq<StopTime>, seq: u32, i: int)
    requires
        0 <= i <= sts.len(),
    ensures
        match first_stop_time_index(sts, seq, i) {
            Some(j) => i <= j < sts.len() && sts[j].stop_sequence as u32 == seq
                && forall|m: int| i <= m < j ==> sts[m].stop_sequence as u32 != seq,
            None => forall|m: int| i <= m < sts.len() ==> sts[m].stop_sequence as u32 != seq,
        },
    decreases sts.len() - i,
{
    if i < sts.len() && sts[i].stop_sequence as u32 != seq {
        lemma_first_stop_time_char(sts, seq, i + 1);
    }
}

/// Correlates one reported event of a trip against the schedule.
pub fn get_event_times(
    event_delay: Option<i32>,
    start_date_epoch: i64,
    event_type: EventType,
    schedule_trip: &Trip,
    stop_sequence: u32,
) -> (r: EventTimes)
    requires
        -62_200_000_000 <= start_date_epoch <= 253_500_000_000,
    ensures
        r == spec_event_times(
            schedule_trip.stop_times@,
            event_delay,
            start_date_epoch as int,
            event_type,
            stop_sequence,
        ),
{
    let delay = match event_delay {
        Some(d) => d,
        None => {
            return EventTimes::empty();
        },
    };
    let st_index = schedule_trip.find_stop_time(stop_sequence);
    proof {
        lemma_first_stop_time_converse(
            schedule_trip.stop_times@,
            stop_sequence,
            match st_index {
                Some(i) => Some(i as int),
                None => None,
            },
        );
    }
    let i = match st_index {
        Some(i) => i,
        None => {
            return EventTimes::empty();
        },
    };
    let event_time = schedule_trip.stop_times[i].time_for(event_type);
    match event_time {
        None => EventTimes::empty(),
        Some(t) => {
            let schedule = start_date_epoch + (t as i64);
            let estimate = schedule + (delay as i64);
            EventTimes {
                schedule: Some(schedule),
                estimate: Some(estimate),
                delay: Some(delay as i64),
            }
        },
    }
}

/// Correlation identity: wherever the correlator yields a non-empty triple
/// for a reported delay `d` at a scheduled time, the triple carries exactly
/// `d`, and estimate - schedule == d.
pub proof fn lemma_correlation_identity(
    sts: Seq<StopTime>,
    d: i32,
    epoch: int,
    et: EventType,
    seq: u32,
)
    requires
        -62_200_000_000 <= epoch <= 253_500_000_000,
        spec_event_times(sts, Some(d), epoch, et, seq).delay is Some,
    ensures
        ({
            let r = spec_event_times(sts, Some(d), epoch, et, seq);
            &&& r.delay == Some(d as i64)
            &&& r.schedule is Some
            &&& r.estimate is Some
            &&& r.estimate.unwrap() - r.schedule.unwrap() == d
        }),
{
}

} // verus!
