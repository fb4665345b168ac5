//! The per-schedule importer: from a decoded feed to observation rows.
//!
//! For one schedule, the importer walks a feed's trip updates, correlates
//! every stop-time update against the schedule trip, and produces the rows
//! that the batched writer upserts. Per-trip failures carry an error kind
//! and leave the other trips untouched.

use vstd::prelude::*;
use crate::calendar::{Date, valid_date, epoch_of_civil};
use crate::correlator::{EventTimes, get_event_times, spec_event_times};
use crate::event_type::EventType;
use crate::feed::{
    FeedError, FeedMessageData, StopTimeUpdateData, StopTimeUpdateV, TripUpdateData, TripUpdateV,
};
use crate::schedule::{Schedule, Trip, first_trip_index};
use crate::store::{
    BatchedStatements, RealtimeTable, Record, RecordV, apply_upserts, lemma_apply_upserts_concat,
};
use crate::util::copy_bytes;

verus! {

/// Why one trip update or stop-time update could not be imported.
#[derive(Clone, Copy, Debug, PartialEq, Eq, Structural)]
pub enum ImportError {
    MissingRouteId,
    MissingTripId,
    MissingStartDate,
    InvalidStartDate,
    MissingStartTime,
    InvalidStartTime,
    TripNotInSchedule,
    MissingRouteVariant,
    MissingStopId,
    MissingStopSequence,
}

/// An ASCII decimal digit.
pub open spec fn is_digit(c: u8) -> bool {
    48 <= c <= 57
}

/// The value of an ASCII decimal digit.
pub open spec fn digit_val(c: u8) -> int {
    c - 48
}

/// The calendar date written as eight digits, year first, when the eight
/// bytes are digits and form a valid date.
pub open spec fn spec_parse_date(s: Seq<u8>) -> Option<Date> {
    if s.len() == 8 && (forall|i: int| 0 <= i < 8 ==> is_digit(#[trigger] s[i])) {
        let d = Date {
            year: (digit_val(s[0]) * 1000 + digit_val(s[1]) * 100 + digit_val(s[2]) * 10
                + digit_val(s[3])) as i32,
            month: (digit_val(s[4]) * 10 + digit_val(s[5])) as u8,
            day: (digit_val(s[6]) * 10 + digit_val(s[7])) as u8,
        };
        if valid_date(d) {
            Some(d)
        } else {
            None
        }
    } else {
        None
    }
}

/// Reads a start date written as eight digits, year first.
pub fn parse_start_date(s: &Vec<u8>) -> (r: Option<Date>)
    ensures
        r == spec_parse_date(s@),
{
    if s.len() != 8 {
        return None;
    }
    let mut i: usize = 0;
    while i < 8
        invariant
            0 <= i <= 8,
            s@.len() == 8,
            forall|j: int| 0 <= j < i ==> is_digit(#[trigger] s@[j]),
        decreases 8 - i,
    {
        if s[i] < 48 || s[i] > 57 {
            return None;
        }
        i = i + 1;
    }
    let year: i32 = (s[0] - 48) as i32 * 1000 + (s[1] - 48) as i32 * 100
        + (s[2] - 48) as i32 * 10 + (s[3] - 48) as i32;
    let month: u8 = (s[4] - 48) * 10 + (s[5] - 48);
    let day: u8 = (s[6] - 48) * 10 + (s[7] - 48);
    let d = Date { year, month, day };
    if d.is_valid() {
        Some(d)
    } else {
        None
    }
}

/// The seconds from midnight written as `HH:MM:SS`, when the shape and the
/// three numbers are in range.
pub open spec fn spec_parse_time(s: Seq<u8>) -> Option<u32> {
    if s.len() == 8 && is_digit(s[0]) && is_digit(s[1]) && s[2] == 58 && is_digit(s[3])
        && is_digit(s[4]) && s[5] == 58 && is_digit(s[6]) && is_digit(s[7]) {
        let h = digit_val(s[0]) * 10 + digit_val(s[1]);
        let m = digit_val(s[3]) * 10 + digit_val(s[4]);
        let sec = digit_val(s[6]) * 10 + digit_val(s[7]);
        if h < 24 && m < 60 && sec < 60 {
            Some((h * 3600 + m * 60 + sec) as u32)
        } else {
            None
        }
    } else {
        None
    }
}

/// Reads a start time written as `HH:MM:SS`.
pub fn parse_start_time(s: &Vec<u8>) -> (r: Option<u32>)
    ensures
        r == spec_parse_time(s@),
{
    if s.len() != 8 {
        return None;
    }
    if s[2] != 58 || s[5] != 58 {
        return None;
    }
    if s[0] < 48 || s[0] > 57 || s[1] < 48 || s[1] > 57 || s[3] < 48 || s[3] > 57
        || s[4] < 48 || s[4] > 57 || s[6] < 48 || s[6] > 57 || s[7] < 48 || s[7] > 57 {
        return None;
    }
    let h: u32 = (s[0] - 48) as u32 * 10 + (s[1] - 48) as u32;
    let m: u32 = (s[3] - 48) as u32 * 10 + (s[4] - 48) as u32;
    let sec: u32 = (s[6] - 48) as u32 * 10 + (s[7] - 48) as u32;
    if h < 24 && m < 60 && sec < 60 {
        Some(h * 3600 + m * 60 + sec)
    } else {
        None
    }
}


/// An empty correlation triple.
pub open spec fn et_empty(e: EventTimes) -> bool {
    e.schedule is None && e.estimate is None && e.delay is None
}

/// The row one stop-time update yields, if any: nothing when neither event
/// correlates; an error when a required field is absent.
pub open spec fn spec_stu_record(
    stu: StopTimeUpdateV,
    trip: Trip,
    trip_id: Seq<u8>,
    route_id: Seq<u8>,
    date: Date,
    epoch: int,
    source: Seq<u8>,
    filename: Seq<u8>,
    tor: u64,
) -> Result<Option<RecordV>, ImportError> {
    match stu.stop_id {
        None => Err(ImportError::MissingStopId),
        Some(sid) => match stu.stop_sequence {
            None => Err(ImportError::MissingStopSequence),
            Some(seq) => {
                let arr = spec_event_times(
                    trip.stop_times@, stu.arrival_delay, epoch, EventType::Arrival, seq);
                let dep = spec_event_times(
                    trip.stop_times@, stu.departure_delay, epoch, EventType::Departure, seq);
                if et_empty(arr) && et_empty(dep) {
                    Ok(None)
                } else {
                    match trip.route_variant {
                        None => Err(ImportError::MissingRouteVariant),
                        Some(rv) => Ok(Some(RecordV {
                            source: source,
                            route_id: route_id,
                            route_variant: rv@,
                            trip_id: trip_id,
                            date: date,
                            stop_sequence: seq,
                            stop_id: sid,
                            time_of_recording: tor,
                            delay_arrival: arr.delay,
                            delay_departure: dep.delay,
                            schedule_file_name: filename,
                        })),
                    }
                }
            },
        },
    }
}

/// A stop-time update carrying no delay at all yields no row.
pub proof fn lemma_empty_row_suppression(
    stu: StopTimeUpdateV,
    trip: Trip,
    trip_id: Seq<u8>,
    route_id: Seq<u8>,
    date: Date,
    epoch: int,
    source: Seq<u8>,
    filename: Seq<u8>,
    tor: u64,
)
    requires
        stu.arrival_delay is None,
        stu.departure_delay is None,
    ensures
        match spec_stu_record(stu, trip, trip_id, route_id, date, epoch, source, filename, tor) {
            Ok(row) => row is None,
            Err(_) => true,
        },
{
}

/// The view of a produced row result.
pub open spec fn record_result_view(r: Result<Option<Record>, ImportError>)
    -> Result<Option<RecordV>, ImportError> {
    match r {
        Ok(Some(rec)) => Ok(Some(rec@)),
        Ok(None) => Ok(None),
        Err(e) => Err(e),
    }
}

/// The importer for one schedule: the parsed schedule, the source tag of
/// the data set, and the short name of the schedule file, which every row
/// carries.
#[derive(Debug)]
pub struct PerScheduleImporter {
    pub schedule: Schedule,
    pub source: Vec<u8>,
    pub filename: Vec<u8>,
}

impl PerScheduleImporter {
    /// Bundles a schedule with the source tag and schedule file name.
    pub fn new(schedule: Schedule, source: Vec<u8>, filename: Vec<u8>) -> (s: Self)
        ensures
            s.schedule == schedule && s.source == source && s.filename == filename,
    {
        PerScheduleImporter { schedule, source, filename }
    }

    /// Correlates one stop-time update and builds its row, if one is owed.
    pub fn process_stop_time_update(
        &self,
        stu: &StopTimeUpdateData,
        date: Date,
        epoch: i64,
        schedule_trip: &Trip,
        trip_id: &Vec<u8>,
        route_id: &Vec<u8>,
        time_of_recording: u64,
    ) -> (r: Result<Option<Record>, ImportError>)
        requires
            -62_200_000_000 <= epoch <= 253_500_000_000,
        ensures
            record_result_view(r) == spec_stu_record(
                stu@,
                *schedule_trip,
                trip_id@,
                route_id@,
                date,
                epoch as int,
                self.source@,
                self.filename@,
                time_of_recording,
            ),
    {
        let stop_id = match &stu.stop_id {
            Some(v) => v,
            None => {
                return Err(ImportError::MissingStopId);
            },
        };
        let stop_sequence = match stu.stop_sequence {
            Some(v) => v,
            None => {
                return Err(ImportError::MissingStopSequence);
            },
        };
        let arrival = get_event_times(
            stu.arrival_delay, epoch, EventType::Arrival, schedule_trip, stop_sequence);
        let departure = get_event_times(
            stu.departure_delay, epoch, EventType::Departure, schedule_trip, stop_sequence);
        if arrival.is_empty() && departure.is_empty() {
            return Ok(None);
        }
        let route_variant = match &schedule_trip.route_variant {
            Some(v) => v,
            None => {
                return Err(ImportError::MissingRouteVariant);
            },
        };
        Ok(Some(Record {
            source: copy_bytes(&self.source),
            route_id: copy_bytes(route_id),
            route_variant: copy_bytes(route_variant),
            trip_id: copy_bytes(trip_id),
            date,
            stop_sequence,
            stop_id: copy_bytes(stop_id),
            time_of_recording,
            delay_arrival: arrival.delay,
            delay_departure: departure.delay,
            schedule_file_name: copy_bytes(&self.filename),
        }))
    }
}


/// The rows the first `n` stop-time updates of a trip yield, or the first
/// error among them.
pub open spec fn spec_stu_rows(
    stus: Seq<StopTimeUpdateV>,
    n: int,
    trip: Trip,
    trip_id: Seq<u8>,
    route_id: Seq<u8>,
    date: Date,
    epoch: int,
    source: Seq<u8>,
    filename: Seq<u8>,
    tor: u64,
) -> Result<Seq<RecordV>, ImportError>
    decreases n,
{
    if n <= 0 {
        Ok(Seq::empty())
    } else {
        match spec_stu_rows(stus, n - 1, trip, trip_id, route_id, date, epoch, source,
            filename, tor) {
            Err(e) => Err(e),
            Ok(rows) => match spec_stu_record(stus[n - 1], trip, trip_id, route_id, date,
                epoch, source, filename, tor) {
                Err(e) => Err(e),
                Ok(None) => Ok(rows),
                Ok(Some(r)) => Ok(rows.push(r)),
            },
        }
    }
}

/// An error among the first stop-time updates stays the result.
proof fn lemma_stu_rows_err_persists(
    stus: Seq<StopTimeUpdateV>,
    n: int,
    m: int,
    trip: Trip,
    trip_id: Seq<u8>,
    route_id: Seq<u8>,
    date: Date,
    epoch: int,
    source: Seq<u8>,
    filename: Seq<u8>,
    tor: u64,
)
    requires
        0 <= n <= m,
        spec_stu_rows(stus, n, trip, trip_id, route_id, date, epoch, source, filename, tor)
            is Err,
    ensures
        spec_stu_rows(stus, m, trip, trip_id, route_id, date, epoch, source, filename, tor)
            == spec_stu_rows(stus, n, trip, trip_id, route_id, date, epoch, source,
                filename, tor),
    decreases m - n,
{
    if n < m {
        lemma_stu_rows_err_persists(stus, n, m - 1, trip, trip_id, route_id, date, epoch,
            source, filename, tor);
    }
}

/// The rows a whole trip update yields, or why the trip was skipped.
pub open spec fn spec_trip_rows(
    tu: TripUpdateV,
    trips: Seq<Trip>,
    source: Seq<u8>,
    filename: Seq<u8>,
    tor: u64,
) -> Result<Seq<RecordV>, ImportError> {
    match tu.trip {
        None => Err(ImportError::MissingRouteId),
        Some(td) => match td.route_id {
            None => Err(ImportError::MissingRouteId),
            Some(route_id) => match td.trip_id {
                None => Err(ImportError::MissingTripId),
                Some(trip_id) => match td.start_date {
                    None => Err(ImportError::MissingStartDate),
                    Some(sd) => match spec_parse_date(sd) {
                        None => Err(ImportError::InvalidStartDate),
                        Some(date) => match td.start_time {
                            None => Err(ImportError::MissingStartTime),
                            Some(st) => match spec_parse_time(st) {
                                None => Err(ImportError::InvalidStartTime),
                                Some(_secs) => match first_trip_index(trips, trip_id, 0) {
                                    None => Err(ImportError::TripNotInSchedule),
                                    Some(ti) => spec_stu_rows(
                                        tu.stop_time_updates,
                                        tu.stop_time_updates.len() as int,
                                        trips[ti],
                                        trip_id,
                                        route_id,
                                        date,
                                        epoch_of_civil(
                                            date.year as int,
                                            date.month as int,
                                            date.day as int,
                                        ),
                                        source,
                                        filename,
                                        tor,
                                    ),
                                },
                            },
                        },
                    },
                },
            },
        },
    }
}

/// The difference between the feed's start time and the schedule's first
/// departure, where both are known: a nonzero value is worth reporting,
/// never fatal.
pub open spec fn spec_start_time_delta(tu: TripUpdateV, trips: Seq<Trip>) -> Option<i64> {
    match tu.trip {
        None => None,
        Some(td) => match (td.trip_id, td.start_time) {
            (Some(trip_id), Some(st)) => match spec_parse_time(st) {
                None => None,
                Some(secs) => match first_trip_index(trips, trip_id, 0) {
                    None => None,
                    Some(ti) => if trips[ti].stop_times@.len() > 0 {
                        match trips[ti].stop_times@[0].departure_time {
                            Some(dep) => Some((secs - dep) as i64),
                            None => None,
                        }
                    } else {
                        None
                    },
                },
            },
            _ => None,
        },
    }
}

/// What importing one trip update produced: its rows, and the start-time
/// deviation against the schedule, where one could be computed.
#[derive(Debug)]
pub struct TripImport {
    pub rows: Vec<Record>,
    pub start_time_delta: Option<i64>,
}

impl PerScheduleImporter {
    /// Imports one trip update: every stop-time update of the trip is
    /// correlated, and the trip is skipped whole on its first error.
    pub fn process_trip_update(&self, tu: &TripUpdateData, time_of_recording: u64)
        -> (r: Result<TripImport, ImportError>)
        ensures
            match r {
                Ok(ti) => spec_trip_rows(tu@, self.schedule.trips@, self.source@,
                    self.filename@, time_of_recording)
                    == Ok::<Seq<RecordV>, ImportError>(
                        ti.rows@.map_values(|rec: Record| rec@))
                    && ti.start_time_delta == spec_start_time_delta(tu@,
                        self.schedule.trips@),
                Err(e) => spec_trip_rows(tu@, self.schedule.trips@, self.source@,
                    self.filename@, time_of_recording) == Err::<Seq<RecordV>, ImportError>(e),
            },
    {
        let td = match &tu.trip {
            Some(td) => td,
            None => {
                return Err(ImportError::MissingRouteId);
            },
        };
        let route_id = match &td.route_id {
            Some(v) => v,
            None => {
                return Err(ImportError::MissingRouteId);
            },
        };
        let trip_id = match &td.trip_id {
            Some(v) => v,
            None => {
                return Err(ImportError::MissingTripId);
            },
        };
        let sd = match &td.start_date {
            Some(v) => v,
            None => {
                return Err(ImportError::MissingStartDate);
            },
        };
        let date = match parse_start_date(sd) {
            Some(d) => d,
            None => {
                return Err(ImportError::InvalidStartDate);
            },
        };
        let st = match &td.start_time {
            Some(v) => v,
            None => {
                return Err(ImportError::MissingStartTime);
            },
        };
        let secs = match parse_start_time(st) {
            Some(s) => s,
            None => {
                return Err(ImportError::InvalidStartTime);
            },
        };
        let found = self.schedule.find_trip(trip_id);
        proof {
            crate::schedule::lemma_first_trip_converse(
                self.schedule.trips@,
                trip_id@,
                match found {
                    Some(i) => Some(i as int),
                    None => None,
                },
            );
        }
        let ti = match found {
            Some(i) => i,
            None => {
                return Err(ImportError::TripNotInSchedule);
            },
        };
        let schedule_trip = &self.schedule.trips[ti];
        proof {
            assert(valid_date(date));
        }
        let epoch = crate::calendar::epoch_seconds_from_date(&date);
        let start_time_delta: Option<i64> = if schedule_trip.stop_times.len() > 0 {
            match schedule_trip.stop_times[0].departure_time {
                Some(dep) => Some(secs as i64 - dep as i64),
                None => None,
            }
        } else {
            None
        };
        let ghost stus_v = tu@.stop_time_updates;
        let mut rows: Vec<Record> = Vec::new();
        proof {
            assert(rows@.map_values(|rec: Record| rec@) =~= Seq::<RecordV>::empty());
        }
        let mut i: usize = 0;
        while i < tu.stop_time_updates.len()
            invariant
                0 <= i <= tu.stop_time_updates@.len(),
                stus_v == tu@.stop_time_updates,
                stus_v.len() == tu.stop_time_updates@.len(),
                -62_200_000_000 <= epoch <= 253_500_000_000,
                epoch as int == epoch_of_civil(date.year as int, date.month as int,
                    date.day as int),
                *schedule_trip == self.schedule.trips@[ti as int],
                ti < self.schedule.trips@.len(),
                spec_trip_rows(tu@, self.schedule.trips@, self.source@, self.filename@,
                    time_of_recording)
                    == spec_stu_rows(stus_v, stus_v.len() as int, *schedule_trip, trip_id@,
                        route_id@, date, epoch as int, self.source@, self.filename@,
                        time_of_recording),
                spec_stu_rows(stus_v, i as int, *schedule_trip, trip_id@, route_id@, date,
                    epoch as int, self.source@, self.filename@, time_of_recording)
                    == Ok::<Seq<RecordV>, ImportError>(
                        rows@.map_values(|rec: Record| rec@)),
            decreases tu.stop_time_updates@.len() - i,
        {
            let stu = &tu.stop_time_updates[i];
            proof {
                assert(stus_v[i as int] == stu@);
            }
            match self.process_stop_time_update(stu, date, epoch, schedule_trip, trip_id,
                route_id, time_of_recording) {
                Err(e) => {
                    proof {
                        lemma_stu_rows_err_persists(stus_v, i as int + 1, stus_v.len() as int,
                            *schedule_trip, trip_id@, route_id@, date, epoch as int,
                            self.source@, self.filename@, time_of_recording);
                    }
                    return Err(e);
                },
                Ok(None) => {},
                Ok(Some(rec)) => {
                    let ghost rows_pre = rows@;
                    let ghost rec_v = rec@;
                    rows.push(rec);
                    proof {
                        assert(rows@.map_values(|r: Record| r@)
                            =~= rows_pre.map_values(|r: Record| r@).push(rec_v));
                    }
                },
            }
            i = i + 1;
        }
        Ok(TripImport { rows, start_time_delta })
    }
}


/// The rows the first `n` entities of a feed yield; trips that fail are
/// skipped, entities without a trip update contribute nothing.
pub open spec fn spec_feed_rows(
    entities: Seq<Option<TripUpdateV>>,
    n: int,
    trips: Seq<Trip>,
    source: Seq<u8>,
    filename: Seq<u8>,
    tor: u64,
) -> Seq<RecordV>
    decreases n,
{
    if n <= 0 {
        Seq::empty()
    } else {
        let prev = spec_feed_rows(entities, n - 1, trips, source, filename, tor);
        match entities[n - 1] {
            None => prev,
            Some(tu) => match spec_trip_rows(tu, trips, source, filename, tor) {
                Ok(rows) => prev + rows,
                Err(_) => prev,
            },
        }
    }
}

impl PerScheduleImporter {
    /// Imports every trip update of a decoded feed; a failing trip is
    /// skipped and the others are kept.
    pub fn process_message(&self, msg: &FeedMessageData) -> (rows: Vec<Record>)
        requires
            msg.timestamp is Some,
        ensures
            rows@.map_values(|rec: Record| rec@) == spec_feed_rows(
                msg@.entities,
                msg@.entities.len() as int,
                self.schedule.trips@,
                self.source@,
                self.filename@,
                msg.timestamp.unwrap(),
            ),
    {
        let tor = match msg.timestamp {
            Some(t) => t,
            None => {
                proof {
                    assert(false);
                }
                0
            },
        };
        let ghost ents_v = msg@.entities;
        let mut rows: Vec<Record> = Vec::new();
        proof {
            assert(rows@.map_values(|rec: Record| rec@) =~= Seq::<RecordV>::empty());
        }
        let mut i: usize = 0;
        while i < msg.entities.len()
            invariant
                0 <= i <= msg.entities@.len(),
                ents_v == msg@.entities,
                ents_v.len() == msg.entities@.len(),
                rows@.map_values(|rec: Record| rec@) == spec_feed_rows(ents_v, i as int,
                    self.schedule.trips@, self.source@, self.filename@, tor),
            decreases msg.entities@.len() - i,
        {
            proof {
                assert(ents_v[i as int] == match msg.entities@[i as int] {
                    Some(t) => Some(t@),
                    None => None::<TripUpdateV>,
                });
            }
            match &msg.entities[i] {
                None => {},
                Some(tu) => {
                    match self.process_trip_update(tu, tor) {
                        Ok(ti) => {
                            let mut imported = ti;
                            let ghost rows_pre = rows@;
                            let ghost sub = imported.rows@;
                            rows.append(&mut imported.rows);
                            proof {
                                assert(rows@.map_values(|rec: Record| rec@)
                                    =~= rows_pre.map_values(|rec: Record| rec@)
                                        + sub.map_values(|rec: Record| rec@));
                            }
                        },
                        Err(_e) => {},
                    }
                },
            }
            i = i + 1;
        }
        rows
    }
}

/// Feeds rows through the batched writer into the table: every flushed
/// batch is applied in order, and a final flush empties the buffer, so the
/// table ends as if each row had been upserted one after the other.
pub fn record_rows(table: &mut RealtimeTable, rows: Vec<Record>)
    requires
        old(table).wf(),
    ensures
        final(table).rows@ == apply_upserts(old(table).rows@, rows@),
        final(table).wf(),
{
    let ghost table0 = old(table).rows@;
    let ghost orig = rows@;
    let mut batched = BatchedStatements::new();
    let mut rows = rows;
    let n = rows.len();
    proof {
        assert(orig.len() == n as int);
        assert(orig.subrange(0, 0) =~= Seq::<Record>::empty());
        assert(Seq::<Record>::empty() + batched.buffer@ =~= orig.subrange(0, 0));
    }
    let ghost mut applied: Seq<Record> = Seq::empty();
    let mut done: usize = 0;
    while rows.len() > 0
        invariant
            table.wf(),
            orig.len() <= usize::MAX,
            done + rows@.len() == orig.len(),
            rows@ == orig.subrange(done as int, orig.len() as int),
            applied + batched.buffer@ == orig.subrange(0, done as int),
            table.rows@ == apply_upserts(table0, applied),
        decreases rows@.len(),
    {
        let r = rows.remove(0);
        proof {
            assert(r == orig[done as int]);
            assert(rows@ =~= orig.subrange(done as int + 1, orig.len() as int));
            assert(orig.subrange(0, done as int + 1)
                =~= orig.subrange(0, done as int).push(r));
        }
        let ghost buffer_pre = batched.buffer@;
        let ghost applied_pre = applied;
        match batched.add_parameter_set(r) {
            Some(batch) => {
                let ghost batch_v = batch@;
                table.apply_batch(batch);
                proof {
                    lemma_apply_upserts_concat(table0, applied_pre, batch_v);
                    applied = applied_pre + batch_v;
                    assert(applied + batched.buffer@
                        =~= (applied_pre + buffer_pre).push(r));
                    assert((applied_pre + buffer_pre).push(r)
                        =~= orig.subrange(0, done as int).push(r));
                }
            },
            None => {
                proof {
                    assert(applied + batched.buffer@
                        =~= (applied_pre + buffer_pre).push(r));
                    assert((applied_pre + buffer_pre).push(r)
                        =~= orig.subrange(0, done as int).push(r));
                }
            },
        }
        done = done + 1;
    }
    let tail = batched.write_to_database();
    let ghost tail_v = tail@;
    table.apply_batch(tail);
    proof {
        lemma_apply_upserts_concat(table0, applied, tail_v);
        assert(applied + tail_v =~= orig.subrange(0, done as int));
        assert(orig.subrange(0, done as int) =~= orig);
    }
}

impl PerScheduleImporter {
    /// Handles one realtime file end to end: the bytes are unwrapped and
    /// decoded, every trip update is correlated, and the produced rows are
    /// upserted into the table through the batched writer. It succeeds
    /// exactly when the file decodes as a feed carrying a header timestamp;
    /// each failure names its cause and leaves the table untouched.
    pub fn handle_realtime_file(
        &self,
        name: &Vec<u8>,
        bytes: &Vec<u8>,
        table: &mut RealtimeTable,
    ) -> (r: Result<usize, FeedError>)
        requires
            old(table).wf(),
        ensures
            final(table).wf(),
            match r {
                Ok(count) => exists|msgv: crate::feed::FeedMessageV, rows: Seq<Record>|
                    #![trigger spec_feed_rows(msgv.entities, msgv.entities.len() as int,
                        self.schedule.trips@, self.source@, self.filename@,
                        msgv.timestamp->Some_0), apply_upserts(old(table).rows@, rows)]
                    {
                        &&& crate::feed::spec_raw_feed_bytes(name@, bytes@) matches Some(data)
                            && crate::feed::spec_parse_feed(data) == Some(msgv)
                        &&& msgv.timestamp is Some
                        &&& rows.map_values(|rec: Record| rec@)
                            == spec_feed_rows(msgv.entities, msgv.entities.len() as int,
                                self.schedule.trips@, self.source@, self.filename@,
                                msgv.timestamp->Some_0)
                        &&& rows.len() == count
                        &&& final(table).rows@ == apply_upserts(old(table).rows@, rows)
                    },
                Err(e) => *final(table) == *old(table) && match e {
                    FeedError::FeedDecodeError => crate::feed::spec_raw_feed_bytes(
                        name@, bytes@) is None
                        || crate::feed::spec_parse_feed(crate::feed::spec_raw_feed_bytes(
                            name@, bytes@)->Some_0) is None,
                    FeedError::MissingHeaderTimestamp => crate::feed::spec_raw_feed_bytes(
                        name@, bytes@) matches Some(data)
                        && crate::feed::spec_parse_feed(data) matches Some(m)
                        && m.timestamp is None,
                },
            },
    {
        let msg = match crate::feed::decode_feed_file(name, bytes) {
            Ok(m) => m,
            Err(e) => {
                return Err(e);
            },
        };
        let rows = self.process_message(&msg);
        let count = rows.len();
        let ghost rows_v = rows@;
        record_rows(table, rows);
        proof {
            assert(rows_v.map_values(|rec: Record| rec@) == spec_feed_rows(
                msg@.entities, msg@.entities.len() as int, self.schedule.trips@,
                self.source@, self.filename@, msg.timestamp.unwrap()));
        }
        Ok(count)
    }
}

} // verus!
