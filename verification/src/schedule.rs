//! In-memory model of the static schedule.
//!
//! The loader that turns a schedule package into these values is an external
//! collaborator; the library only requires what its logic reads: trips found
//! by id, and per trip an ordered list of stop-times with their stop
//! reference, ordinal and scheduled seconds-from-midnight (which may exceed
//! one day). Identifiers are kept as byte strings.

use vstd::prelude::*;
use crate::event_type::EventType;
use crate::util::bytes_eq;

verus! {

/// One scheduled stop within a trip.
#[derive(Clone, Debug)]
pub struct StopTime {
    pub stop_id: Vec<u8>,
    pub stop_sequence: u16,
    pub arrival_time: Option<u32>,
    pub departure_time: Option<u32>,
}

impl StopTime {
    /// Scheduled arrival widened to a signed count of seconds.
    pub open spec fn spec_arrival_i64(&self) -> Option<i64> {
        match self.arrival_time {
            Some(t) => Some(t as i64),
            None => None,
        }
    }

    /// Scheduled departure widened to a signed count of seconds.
    pub open spec fn spec_departure_i64(&self) -> Option<i64> {
        match self.departure_time {
            Some(t) => Some(t as i64),
            None => None,
        }
    }

    /// The scheduled time of the given event kind at this stop.
    pub fn time_for(&self, e_t: EventType) -> (r: Option<u32>)
        ensures
            r == if e_t is Departure {
                self.departure_time
            } else {
                self.arrival_time
            },
    {
        if e_t == EventType::Departure {
            self.departure_time
        } else {
            self.arrival_time
        }
    }
}

/// One trip of the schedule: an ordered sequence of stop-times on a route
/// variant.
#[derive(Clone, Debug)]
pub struct Trip {
    pub id: Vec<u8>,
    pub route_id: Vec<u8>,
    pub route_variant: Option<Vec<u8>>,
    pub stop_times: Vec<StopTime>,
}

impl Trip {
    /// Index of the first stop-time whose ordinal equals `stop_sequence`.
    pub fn find_stop_time(&self, stop_sequence: u32) -> (r: Option<usize>)
        ensures
            match r {
                Some(i) => i < self.stop_times@.len()
                    && self.stop_times@[i as int].stop_sequence as u32 == stop_sequence
                    && forall|j: int| 0 <= j < i
                        ==> self.stop_times@[j].stop_sequence as u32 != stop_sequence,
                None => forall|j: int| 0 <= j < self.stop_times@.len()
                    ==> self.stop_times@[j].stop_sequence as u32 != stop_sequence,
            },
    {
        let mut i: usize = 0;
        while i < self.stop_times.len()
            invariant
                0 <= i <= self.stop_times@.len(),
                forall|j: int| 0 <= j < i
                    ==> self.stop_times@[j].stop_sequence as u32 != stop_sequence,
            decreases self.stop_times@.len() - i,
        {
            if self.stop_times[i].stop_sequence as u32 == stop_sequence {
                return Some(i);
            }
            i = i + 1;
        }
        None
    }

    /// Index of the first stop-time at the given stop.
    pub fn find_stop_time_by_stop(&self, stop_id: &Vec<u8>) -> (r: Option<usize>)
        ensures
            match r {
                Some(i) => i < self.stop_times@.len()
                    && self.stop_times@[i as int].stop_id@ == stop_id@
                    && forall|j: int| 0 <= j < i
                        ==> self.stop_times@[j].stop_id@ != stop_id@,
                None => forall|j: int| 0 <= j < self.stop_times@.len()
                    ==> self.stop_times@[j].stop_id@ != stop_id@,
            },
    {
        let mut i: usize = 0;
        while i < self.stop_times.len()
            invariant
                0 <= i <= self.stop_times@.len(),
                forall|j: int| 0 <= j < i ==> self.stop_times@[j].stop_id@ != stop_id@,
            decreases self.stop_times@.len() - i,
        {
            if bytes_eq(&self.stop_times[i].stop_id, stop_id) {
                return Some(i);
            }
            i = i + 1;
        }
        None
    }
}

/// The queryable in-memory schedule: the trips the loader produced.
#[derive(Clone, Debug)]
pub struct Schedule {
    pub trips: Vec<Trip>,
}

impl Schedule {
    /// Index of the first trip with the given id.
    pub fn find_trip(&self, trip_id: &Vec<u8>) -> (r: Option<usize>)
        ensures
            match r {
                Some(i) => i < self.trips@.len()
                    && self.trips@[i as int].id@ == trip_id@
                    && forall|j: int| 0 <= j < i ==> self.trips@[j].id@ != trip_id@,
                None => forall|j: int| 0 <= j < self.trips@.len()
                    ==> self.trips@[j].id@ != trip_id@,
            },
    {
        let mut i: usize = 0;
        while i < self.trips.len()
            invariant
                0 <= i <= self.trips@.len(),
                forall|j: int| 0 <= j < i ==> self.trips@[j].id@ != trip_id@,
            decreases self.trips@.len() - i,
        {
            if bytes_eq(&self.trips[i].id, trip_id) {
                return Some(i);
            }
            i = i + 1;
        }
        None
    }
}


/// Index of the first trip with the given id.
pub open spec fn first_trip_index(trips: Seq<Trip>, id: Seq<u8>, i: int) -> Option<int>
    decreases trips.len() - i,
{
    if i < 0 || i >= trips.len() {
        None
    } else if trips[i].id@ == id {
        Some(i)
    } else {
        first_trip_index(trips, id, i + 1)
    }
}

/// What `first_trip_index` promises.
pub proof fn lemma_first_trip_char(trips: Seq<Trip>, id: Seq<u8>, i: int)
    requires
        0 <= i <= trips.len(),
    ensures
        match first_trip_index(trips, id, i) {
            Some(j) => i <= j < trips.len() && trips[j].id@ == id
                && forall|m: int| i <= m < j ==> trips[m].id@ != id,
            None => forall|m: int| i <= m < trips.len() ==> trips[m].id@ != id,
        },
    decreases trips.len() - i,
{
    if i < trips.len() && trips[i].id@ != id {
        lemma_first_trip_char(trips, id, i + 1);
    }
}

/// The first quantifier-free match is the first match.
pub proof fn lemma_first_trip_converse(trips: Seq<Trip>, id: Seq<u8>, r: Option<int>)
    requires
        match r {
            Some(i) => 0 <= i < trips.len() && trips[i].id@ == id
                && forall|j: int| 0 <= j < i ==> trips[j].id@ != id,
            None => forall|j: int| 0 <= j < trips.len() ==> trips[j].id@ != id,
        },
    ensures
        first_trip_index(trips, id, 0) == r,
{
    lemma_first_trip_char(trips, id, 0);
    match (r, first_trip_index(trips, id, 0)) {
        (Some(i), Some(j)) => {
            if i < j {
                assert(trips[i].id@ != id);
            } else if j < i {
                assert(trips[j].id@ != id);
            }
        },
        (Some(i), None) => {
            assert(trips[i].id@ != id);
        },
        (None, Some(j)) => {
            assert(trips[j].id@ != id);
        },
        (None, None) => {},
    }
}

} // verus!
