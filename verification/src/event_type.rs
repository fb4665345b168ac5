//! Arrival/departure event kinds and pairs of per-kind values.

use vstd::prelude::*;
use crate::schedule::StopTime;

verus! {

/// The two kinds of stop-time events.
#[derive(Clone, Copy, Debug, Hash, PartialEq, Eq, Structural)]
pub enum EventType {
    Arrival,
    Departure,
}

impl EventType {
    /// The stable small integer under which this kind is persisted.
    pub open spec fn spec_int(self) -> u8 {
        match self {
            EventType::Arrival => 1,
            EventType::Departure => 2,
        }
    }

    /// Integer key of this kind.
    pub fn to_int(&self) -> (r: u8)
        ensures
            r == self.spec_int(),
    {
        match self {
            EventType::Arrival => 1,
            EventType::Departure => 2,
        }
    }

    /// Kind for an integer key; only the two keys in use are accepted.
    pub fn from_int(i: u8) -> (r: EventType)
        requires
            i == 1 || i == 2,
        ensures
            r.spec_int() == i,
    {
        if i == 1 {
            EventType::Arrival
        } else {
            EventType::Departure
        }
    }

    /// The scheduled time of this kind of event at a stop, as a signed count
    /// of seconds from midnight.
    pub fn get_time_from_stop_time(&self, st: &StopTime) -> (r: Option<i64>)
        ensures
            r == match *self {
                EventType::Arrival => st.spec_arrival_i64(),
                EventType::Departure => st.spec_departure_i64(),
            },
    {
        let time = match self {
            EventType::Arrival => st.arrival_time,
            EventType::Departure => st.departure_time,
        };
        match time {
            Some(t) => Some(t as i64),
            None => None,
        }
    }
}

/// A pair of values, one per event kind.
#[derive(Clone, Copy, Debug, Hash, PartialEq, Eq)]
pub struct EventPair<T> {
    pub arrival: T,
    pub departure: T,
}

impl<T> EventPair<T> {
    /// The component belonging to the given event kind.
    pub fn get(&self, event_type: EventType) -> (r: &T)
        ensures
            *r == match event_type {
                EventType::Arrival => self.arrival,
                EventType::Departure => self.departure,
            },
    {
        match event_type {
            EventType::Arrival => &self.arrival,
            EventType::Departure => &self.departure,
        }
    }

    /// Replaces the component belonging to the given event kind.
    pub fn set(&mut self, event_type: EventType, value: T)
        ensures
            match event_type {
                EventType::Arrival => final(self).arrival == value
                    && final(self).departure == old(self).departure,
                EventType::Departure => final(self).departure == value
                    && final(self).arrival == old(self).arrival,
            },
    {
        match event_type {
            EventType::Arrival => {
                self.arrival = value;
            },
            EventType::Departure => {
                self.departure = value;
            },
        }
    }
}

/// Access to the per-kind scheduled time of anything that carries one time
/// per event kind.
pub trait GetByEventType {
    fn get_time(&self, e_t: EventType) -> Option<u32>;
}

impl GetByEventType for StopTime {
    fn get_time(&self, e_t: EventType) -> Option<u32> {
        self.time_for(e_t)
    }
}

} // verus!
