//! Decoding of binary trip-update feeds.
//!
//! The feed is a protocol-buffer message; the library reads the subset it
//! needs - the header timestamp and, per entity, the trip update with its
//! trip descriptor and stop-time updates - and skips every other field.
//! The wire grammar is written down once as specification functions, and
//! the executable decoder is proved to follow them byte for byte. Repeated
//! occurrences of a singular field keep the last one; unknown fields of the
//! four scalar wire shapes are skipped; anything else is a decode error.

use vstd::prelude::*;

verus! {

/// Errors of the feed decoder.
#[derive(Clone, Copy, Debug, PartialEq, Eq, Structural)]
pub enum FeedError {
    /// Truncated or malformed wire data, or an archive that would not open.
    FeedDecodeError,
    /// A well-formed feed without the global header timestamp.
    MissingHeaderTimestamp,
}

/// One varint, little-endian base-128: `acc` and `shift` carry the bits
/// already read. More than 64 bits is malformed.
pub open spec fn spec_varint(b: Seq<u8>, i: int, shift: u64, acc: u64) -> Option<(u64, int)>
    decreases b.len() - i,
{
    if i < 0 || i >= b.len() || shift >= 64 {
        None
    } else {
        let byte = b[i];
        let acc2 = (acc | (((byte & 0x7f) as u64) << shift)) as u64;
        if byte & 0x80 == 0 {
            Some((acc2, i + 1))
        } else {
            spec_varint(b, i + 1, (shift + 7) as u64, acc2)
        }
    }
}

/// A varint ends strictly after it starts, within the buffer.
pub proof fn lemma_varint_advances(b: Seq<u8>, i: int, shift: u64, acc: u64)
    ensures
        match spec_varint(b, i, shift, acc) {
            Some((v, j)) => i < j <= b.len(),
            None => true,
        },
    decreases b.len() - i,
{
    if 0 <= i < b.len() && shift < 64 {
        if b[i] & 0x80 != 0 {
            lemma_varint_advances(
                b,
                i + 1,
                (shift + 7) as u64,
                (acc | (((b[i] & 0x7f) as u64) << shift)) as u64,
            );
        }
    }
}

/// Reads one varint starting at `start`.
pub fn read_varint(b: &Vec<u8>, start: usize) -> (r: Option<(u64, usize)>)
    ensures
        match r {
            Some((v, j)) => spec_varint(b@, start as int, 0, 0) == Some((v, j as int))
                && start < j <= b@.len(),
            None => spec_varint(b@, start as int, 0, 0) is None,
        },
{
    let mut i = start;
    let mut shift: u64 = 0;
    let mut acc: u64 = 0;
    loop
        invariant
            start <= i,
            spec_varint(b@, start as int, 0, 0) == spec_varint(b@, i as int, shift, acc),
        decreases b@.len() - i as int,
    {
        if i >= b.len() || shift >= 64 {
            return None;
        }
        let byte = b[i];
        acc = acc | (((byte & 0x7f) as u64) << shift);
        if byte & 0x80 == 0 {
            proof {
                lemma_varint_advances(b@, start as int, 0, 0);
            }
            return Some((acc, i + 1));
        }
        i = i + 1;
        shift = shift + 7;
    }
}

/// Where a field body of the given wire shape ends, bounded by `end`.
pub open spec fn spec_skip(b: Seq<u8>, i: int, end: int, wire: u64) -> Option<int> {
    if wire == 0 {
        match spec_varint(b, i, 0, 0) {
            Some((v, j)) => if j <= end {
                Some(j)
            } else {
                None
            },
            None => None,
        }
    } else if wire == 1 {
        if i + 8 <= end {
            Some(i + 8)
        } else {
            None
        }
    } else if wire == 5 {
        if i + 4 <= end {
            Some(i + 4)
        } else {
            None
        }
    } else if wire == 2 {
        match spec_varint(b, i, 0, 0) {
            Some((len, j)) => if j + len <= end {
                Some(j + len)
            } else {
                None
            },
            None => None,
        }
    } else {
        None
    }
}

/// A skipped field body never moves backwards and stays within `end`.
pub proof fn lemma_skip_advances(b: Seq<u8>, i: int, end: int, wire: u64)
    requires
        0 <= i <= end <= b.len(),
    ensures
        match spec_skip(b, i, end, wire) {
            Some(j) => i <= j <= end,
            None => true,
        },
{
    lemma_varint_advances(b, i, 0, 0);
}

/// Skips one field body of the given wire shape.
pub fn skip_field(b: &Vec<u8>, i: usize, end: usize, wire: u64) -> (r: Option<usize>)
    requires
        i <= end <= b@.len(),
    ensures
        match r {
            Some(j) => spec_skip(b@, i as int, end as int, wire) == Some(j as int)
                && i <= j <= end,
            None => spec_skip(b@, i as int, end as int, wire) is None,
        },
{
    proof {
        lemma_skip_advances(b@, i as int, end as int, wire);
    }
    if wire == 0 {
        match read_varint(b, i) {
            Some((_v, j)) => if j <= end {
                Some(j)
            } else {
                None
            },
            None => None,
        }
    } else if wire == 1 {
        if end - i >= 8 {
            Some(i + 8)
        } else {
            None
        }
    } else if wire == 5 {
        if end - i >= 4 {
            Some(i + 4)
        } else {
            None
        }
    } else if wire == 2 {
        match read_varint(b, i) {
            Some((len, j)) => {
                if j <= end && len <= (end - j) as u64 {
                    Some(j + (len as usize))
                } else {
                    None
                }
            },
            None => None,
        }
    } else {
        None
    }
}

/// Copies the byte range `[start, end)` out of the buffer.
pub fn copy_range(b: &Vec<u8>, start: usize, end: usize) -> (v: Vec<u8>)
    requires
        start <= end <= b@.len(),
    ensures
        v@ == b@.subrange(start as int, end as int),
{
    let mut v: Vec<u8> = Vec::new();
    let mut i = start;
    while i < end
        invariant
            start <= i <= end <= b@.len(),
            v@ == b@.subrange(start as int, i as int),
        decreases end - i,
    {
        v.push(b[i]);
        proof {
            assert(v@ =~= b@.subrange(start as int, i as int + 1));
        }
        i = i + 1;
    }
    v
}


/// The extracted fields of one stop-time event pair holder: a stop-time
/// update names the stop, its ordinal, and the delays reported for arrival
/// and departure. A reported event without a delay value counts as absent.
#[derive(Clone, Debug)]
pub struct StopTimeUpdateData {
    pub stop_sequence: Option<u32>,
    pub stop_id: Option<Vec<u8>>,
    pub arrival_delay: Option<i32>,
    pub departure_delay: Option<i32>,
}

/// Specification-level image of `StopTimeUpdateData`.
pub struct StopTimeUpdateV {
    pub stop_sequence: Option<u32>,
    pub stop_id: Option<Seq<u8>>,
    pub arrival_delay: Option<i32>,
    pub departure_delay: Option<i32>,
}

impl View for StopTimeUpdateData {
    type V = StopTimeUpdateV;

    open spec fn view(&self) -> StopTimeUpdateV {
        StopTimeUpdateV {
            stop_sequence: self.stop_sequence,
            stop_id: match self.stop_id {
                Some(v) => Some(v@),
                None => None,
            },
            arrival_delay: self.arrival_delay,
            departure_delay: self.departure_delay,
        }
    }
}

/// The extracted fields of a trip descriptor.
#[derive(Clone, Debug)]
pub struct TripDescriptorData {
    pub trip_id: Option<Vec<u8>>,
    pub route_id: Option<Vec<u8>>,
    pub start_time: Option<Vec<u8>>,
    pub start_date: Option<Vec<u8>>,
}

/// Specification-level image of `TripDescriptorData`.
pub struct TripDescriptorV {
    pub trip_id: Option<Seq<u8>>,
    pub route_id: Option<Seq<u8>>,
    pub start_time: Option<Seq<u8>>,
    pub start_date: Option<Seq<u8>>,
}

impl View for TripDescriptorData {
    type V = TripDescriptorV;

    open spec fn view(&self) -> TripDescriptorV {
        TripDescriptorV {
            trip_id: match self.trip_id {
                Some(v) => Some(v@),
                None => None,
            },
            route_id: match self.route_id {
                Some(v) => Some(v@),
                None => None,
            },
            start_time: match self.start_time {
                Some(v) => Some(v@),
                None => None,
            },
            start_date: match self.start_date {
                Some(v) => Some(v@),
                None => None,
            },
        }
    }
}

/// One trip update: its descriptor and its stop-time updates, in feed order.
#[derive(Clone, Debug)]
pub struct TripUpdateData {
    pub trip: Option<TripDescriptorData>,
    pub stop_time_updates: Vec<StopTimeUpdateData>,
}

/// Specification-level image of `TripUpdateData`.
pub struct TripUpdateV {
    pub trip: Option<TripDescriptorV>,
    pub stop_time_updates: Seq<StopTimeUpdateV>,
}

impl View for TripUpdateData {
    type V = TripUpdateV;

    open spec fn view(&self) -> TripUpdateV {
        TripUpdateV {
            trip: match self.trip {
                Some(t) => Some(t@),
                None => None,
            },
            stop_time_updates: self.stop_time_updates@.map_values(|u: StopTimeUpdateData| u@),
        }
    }
}

/// The decoded feed: the header timestamp and, per entity, the trip update
/// it carried, if any, in feed order.
#[derive(Clone, Debug)]
pub struct FeedMessageData {
    pub timestamp: Option<u64>,
    pub entities: Vec<Option<TripUpdateData>>,
}

/// Specification-level image of `FeedMessageData`.
pub struct FeedMessageV {
    pub timestamp: Option<u64>,
    pub entities: Seq<Option<TripUpdateV>>,
}

impl View for FeedMessageData {
    type V = FeedMessageV;

    open spec fn view(&self) -> FeedMessageV {
        FeedMessageV {
            timestamp: self.timestamp,
            entities: self.entities@.map_values(|e: Option<TripUpdateData>| match e {
                Some(t) => Some(t@),
                None => None,
            }),
        }
    }
}

/// Stop-time event body: field 1 is the delay, as a 32-bit varint; the rest
/// is skipped. Later occurrences replace earlier ones.
pub open spec fn spec_parse_event(b: Seq<u8>, i: int, end: int, acc: Option<i32>)
    -> Option<Option<i32>>
    decreases end - i,
    via spec_parse_event_dec
{
    if !(0 <= i <= end <= b.len()) {
        None
    } else if i == end {
        Some(acc)
    } else {
        match spec_varint(b, i, 0, 0) {
            None => None,
            Some((tag, j)) => if j > end {
                None
            } else if tag >> 3 == 1 && tag & 7 == 0 {
                match spec_varint(b, j, 0, 0) {
                    None => None,
                    Some((v, k)) => if k <= end {
                        spec_parse_event(b, k, end, Some(v as i32))
                    } else {
                        None
                    },
                }
            } else {
                match spec_skip(b, j, end, tag & 7) {
                    None => None,
                    Some(k) => spec_parse_event(b, k, end, acc),
                }
            },
        }
    }
}

#[via_fn]
proof fn spec_parse_event_dec(b: Seq<u8>, i: int, end: int, acc: Option<i32>) {
    lemma_varint_advances(b, i, 0, 0);
    match spec_varint(b, i, 0, 0) {
        Some((tag, j)) => {
            lemma_varint_advances(b, j, 0, 0);
            if 0 <= j <= end <= b.len() {
                lemma_skip_advances(b, j, end, tag & 7);
            }
        },
        None => {},
    }
}

/// Reads a stop-time event body.
fn parse_event(b: &Vec<u8>, start: usize, end: usize) -> (r: Option<Option<i32>>)
    requires
        start <= end <= b@.len(),
    ensures
        r == spec_parse_event(b@, start as int, end as int, None),
{
    let mut i = start;
    let mut acc: Option<i32> = None;
    loop
        invariant
            start <= i <= end <= b@.len(),
            spec_parse_event(b@, start as int, end as int, None)
                == spec_parse_event(b@, i as int, end as int, acc),
        decreases end - i,
    {
        if i == end {
            return Some(acc);
        }
        let (tag, j) = match read_varint(b, i) {
            Some(t) => t,
            None => {
                return None;
            },
        };
        if j > end {
            return None;
        }
        if tag >> 3 == 1 && tag & 7 == 0 {
            let (v, k) = match read_varint(b, j) {
                Some(t) => t,
                None => {
                    return None;
                },
            };
            if k > end {
                return None;
            }
            acc = Some(#[verifier::truncate] (v as i32));
            i = k;
        } else {
            let k = match skip_field(b, j, end, tag & 7) {
                Some(k) => k,
                None => {
                    return None;
                },
            };
            i = k;
        }
    }
}

/// The empty stop-time update accumulator.
pub open spec fn stu_empty() -> StopTimeUpdateV {
    StopTimeUpdateV { stop_sequence: None, stop_id: None, arrival_delay: None, departure_delay: None }
}

/// Stop-time update body: field 1 the stop ordinal, field 4 the stop id,
/// fields 2 and 3 the arrival and departure events, whose delay (when the
/// event parses and carries one) is kept.
pub open spec fn spec_parse_stu(b: Seq<u8>, i: int, end: int, acc: StopTimeUpdateV)
    -> Option<StopTimeUpdateV>
    decreases end - i,
    via spec_parse_stu_dec
{
    if !(0 <= i <= end <= b.len()) {
        None
    } else if i == end {
        Some(acc)
    } else {
        match spec_varint(b, i, 0, 0) {
            None => None,
            Some((tag, j)) => if j > end {
                None
            } else if tag >> 3 == 1 && tag & 7 == 0 {
                match spec_varint(b, j, 0, 0) {
                    None => None,
                    Some((v, k)) => if k <= end {
                        spec_parse_stu(b, k, end, StopTimeUpdateV {
                            stop_sequence: Some(v as u32),
                            stop_id: acc.stop_id,
                            arrival_delay: acc.arrival_delay,
                            departure_delay: acc.departure_delay,
                        })
                    } else {
                        None
                    },
                }
            } else if tag >> 3 == 4 && tag & 7 == 2 {
                match spec_varint(b, j, 0, 0) {
                    None => None,
                    Some((len, j2)) => if j2 + len <= end {
                        spec_parse_stu(b, j2 + len, end, StopTimeUpdateV {
                            stop_sequence: acc.stop_sequence,
                            stop_id: Some(b.subrange(j2, j2 + len)),
                            arrival_delay: acc.arrival_delay,
                            departure_delay: acc.departure_delay,
                        })
                    } else {
                        None
                    },
                }
            } else if tag >> 3 == 2 && tag & 7 == 2 {
                match spec_varint(b, j, 0, 0) {
                    None => None,
                    Some((len, j2)) => if j2 + len <= end {
                        match spec_parse_event(b, j2, j2 + len, None) {
                            None => None,
                            Some(ev) => spec_parse_stu(b, j2 + len, end, StopTimeUpdateV {
                                stop_sequence: acc.stop_sequence,
                                stop_id: acc.stop_id,
                                arrival_delay: ev,
                                departure_delay: acc.departure_delay,
                            }),
                        }
                    } else {
                        None
                    },
                }
            } else if tag >> 3 == 3 && tag & 7 == 2 {
                match spec_varint(b, j, 0, 0) {
                    None => None,
                    Some((len, j2)) => if j2 + len <= end {
                        match spec_parse_event(b, j2, j2 + len, None) {
                            None => None,
                            Some(ev) => spec_parse_stu(b, j2 + len, end, StopTimeUpdateV {
                                stop_sequence: acc.stop_sequence,
                                stop_id: acc.stop_id,
                                arrival_delay: acc.arrival_delay,
                                departure_delay: ev,
                            }),
                        }
                    } else {
                        None
                    },
                }
            } else {
                match spec_skip(b, j, end, tag & 7) {
                    None => None,
                    Some(k) => spec_parse_stu(b, k, end, acc),
                }
            },
        }
    }
}

#[via_fn]
proof fn spec_parse_stu_dec(b: Seq<u8>, i: int, end: int, acc: StopTimeUpdateV) {
    lemma_varint_advances(b, i, 0, 0);
    match spec_varint(b, i, 0, 0) {
        Some((tag, j)) => {
            lemma_varint_advances(b, j, 0, 0);
            if 0 <= j <= end <= b.len() {
                lemma_skip_advances(b, j, end, tag & 7);
            }
        },
        None => {},
    }
}

/// Reads a stop-time update body.
fn parse_stu(b: &Vec<u8>, start: usize, end: usize) -> (r: Option<StopTimeUpdateData>)
    requires
        start <= end <= b@.len(),
    ensures
        match r {
            Some(u) => spec_parse_stu(b@, start as int, end as int, stu_empty()) == Some(u@),
            None => spec_parse_stu(b@, start as int, end as int, stu_empty()) is None,
        },
{
    let mut i = start;
    let mut acc = StopTimeUpdateData {
        stop_sequence: None,
        stop_id: None,
        arrival_delay: None,
        departure_delay: None,
    };
    loop
        invariant
            start <= i <= end <= b@.len(),
            spec_parse_stu(b@, start as int, end as int, stu_empty())
                == spec_parse_stu(b@, i as int, end as int, acc@),
        decreases end - i,
    {
        if i == end {
            return Some(acc);
        }
        let (tag, j) = match read_varint(b, i) {
            Some(t) => t,
            None => {
                return None;
            },
        };
        if j > end {
            return None;
        }
        if tag >> 3 == 1 && tag & 7 == 0 {
            let (v, k) = match read_varint(b, j) {
                Some(t) => t,
                None => {
                    return None;
                },
            };
            if k > end {
                return None;
            }
            acc.stop_sequence = Some(#[verifier::truncate] (v as u32));
            i = k;
        } else if tag >> 3 == 4 && tag & 7 == 2 {
            let (len, j2) = match read_varint(b, j) {
                Some(t) => t,
                None => {
                    return None;
                },
            };
            if !(j2 <= end && len <= (end - j2) as u64) {
                return None;
            }
            let k = j2 + (len as usize);
            acc.stop_id = Some(copy_range(b, j2, k));
            i = k;
        } else if tag >> 3 == 2 && tag & 7 == 2 {
            let (len, j2) = match read_varint(b, j) {
                Some(t) => t,
                None => {
                    return None;
                },
            };
            if !(j2 <= end && len <= (end - j2) as u64) {
                return None;
            }
            let k = j2 + (len as usize);
            match parse_event(b, j2, k) {
                Some(ev) => {
                    acc.arrival_delay = ev;
                    i = k;
                },
                None => {
                    return None;
                },
            }
        } else if tag >> 3 == 3 && tag & 7 == 2 {
            let (len, j2) = match read_varint(b, j) {
                Some(t) => t,
                None => {
                    return None;
                },
            };
            if !(j2 <= end && len <= (end - j2) as u64) {
                return None;
            }
            let k = j2 + (len as usize);
            match parse_event(b, j2, k) {
                Some(ev) => {
                    acc.departure_delay = ev;
                    i = k;
                },
                None => {
                    return None;
                },
            }
        } else {
            let k = match skip_field(b, j, end, tag & 7) {
                Some(k) => k,
                None => {
                    return None;
                },
            };
            i = k;
        }
    }
}


/// The empty trip descriptor accumulator.
pub open spec fn td_empty() -> TripDescriptorV {
    TripDescriptorV { trip_id: None, route_id: None, start_time: None, start_date: None }
}

/// Trip descriptor body: field 1 the trip id, field 5 the route id, field 2
/// the start time, field 3 the start date, all byte strings.
pub open spec fn spec_parse_td(b: Seq<u8>, i: int, end: int, acc: TripDescriptorV)
    -> Option<TripDescriptorV>
    decreases end - i,
    via spec_parse_td_dec
{
    if !(0 <= i <= end <= b.len()) {
        None
    } else if i == end {
        Some(acc)
    } else {
        match spec_varint(b, i, 0, 0) {
            None => None,
            Some((tag, j)) => if j > end {
                None
            } else if tag & 7 == 2 && (tag >> 3 == 1 || tag >> 3 == 5 || tag >> 3 == 2
                || tag >> 3 == 3) {
                match spec_varint(b, j, 0, 0) {
                    None => None,
                    Some((len, j2)) => if j2 + len <= end {
                        let bytes = b.subrange(j2, j2 + len);
                        spec_parse_td(b, j2 + len, end, TripDescriptorV {
                            trip_id: if tag >> 3 == 1 { Some(bytes) } else { acc.trip_id },
                            route_id: if tag >> 3 == 5 { Some(bytes) } else { acc.route_id },
                            start_time: if tag >> 3 == 2 { Some(bytes) } else { acc.start_time },
                            start_date: if tag >> 3 == 3 { Some(bytes) } else { acc.start_date },
                        })
                    } else {
                        None
                    },
                }
            } else {
                match spec_skip(b, j, end, tag & 7) {
                    None => None,
                    Some(k) => spec_parse_td(b, k, end, acc),
                }
            },
        }
    }
}

#[via_fn]
proof fn spec_parse_td_dec(b: Seq<u8>, i: int, end: int, acc: TripDescriptorV) {
    lemma_varint_advances(b, i, 0, 0);
    match spec_varint(b, i, 0, 0) {
        Some((tag, j)) => {
            lemma_varint_advances(b, j, 0, 0);
            if 0 <= j <= end <= b.len() {
                lemma_skip_advances(b, j, end, tag & 7);
            }
        },
        None => {},
    }
}

/// Reads a trip descriptor body.
fn parse_td(b: &Vec<u8>, start: usize, end: usize) -> (r: Option<TripDescriptorData>)
    requires
        start <= end <= b@.len(),
    ensures
        match r {
            Some(t) => spec_parse_td(b@, start as int, end as int, td_empty()) == Some(t@),
            None => spec_parse_td(b@, start as int, end as int, td_empty()) is None,
        },
{
    let mut i = start;
    let mut acc = TripDescriptorData {
        trip_id: None,
        route_id: None,
        start_time: None,
        start_date: None,
    };
    loop
        invariant
            start <= i <= end <= b@.len(),
            spec_parse_td(b@, start as int, end as int, td_empty())
                == spec_parse_td(b@, i as int, end as int, acc@),
        decreases end - i,
    {
        if i == end {
            return Some(acc);
        }
        let (tag, j) = match read_varint(b, i) {
            Some(t) => t,
            None => {
                return None;
            },
        };
        if j > end {
            return None;
        }
        let field = tag >> 3;
        if tag & 7 == 2 && (field == 1 || field == 5 || field == 2 || field == 3) {
            let (len, j2) = match read_varint(b, j) {
                Some(t) => t,
                None => {
                    return None;
                },
            };
            if !(j2 <= end && len <= (end - j2) as u64) {
                return None;
            }
            let k = j2 + (len as usize);
            let bytes = copy_range(b, j2, k);
            if field == 1 {
                acc.trip_id = Some(bytes);
            } else if field == 5 {
                acc.route_id = Some(bytes);
            } else if field == 2 {
                acc.start_time = Some(bytes);
            } else {
                acc.start_date = Some(bytes);
            }
            i = k;
        } else {
            let k = match skip_field(b, j, end, tag & 7) {
                Some(k) => k,
                None => {
                    return None;
                },
            };
            i = k;
        }
    }
}

/// The empty trip update accumulator.
pub open spec fn tu_empty() -> TripUpdateV {
    TripUpdateV { trip: None, stop_time_updates: Seq::empty() }
}

/// Trip update body: field 1 the trip descriptor, field 2 one more
/// stop-time update, appended in feed order.
pub open spec fn spec_parse_tu(b: Seq<u8>, i: int, end: int, acc: TripUpdateV)
    -> Option<TripUpdateV>
    decreases end - i,
    via spec_parse_tu_dec
{
    if !(0 <= i <= end <= b.len()) {
        None
    } else if i == end {
        Some(acc)
    } else {
        match spec_varint(b, i, 0, 0) {
            None => None,
            Some((tag, j)) => if j > end {
                None
            } else if tag >> 3 == 1 && tag & 7 == 2 {
                match spec_varint(b, j, 0, 0) {
                    None => None,
                    Some((len, j2)) => if j2 + len <= end {
                        match spec_parse_td(b, j2, j2 + len, td_empty()) {
                            None => None,
                            Some(td) => spec_parse_tu(b, j2 + len, end, TripUpdateV {
                                trip: Some(td),
                                stop_time_updates: acc.stop_time_updates,
                            }),
                        }
                    } else {
                        None
                    },
                }
            } else if tag >> 3 == 2 && tag & 7 == 2 {
                match spec_varint(b, j, 0, 0) {
                    None => None,
                    Some((len, j2)) => if j2 + len <= end {
                        match spec_parse_stu(b, j2, j2 + len, stu_empty()) {
                            None => None,
                            Some(u) => spec_parse_tu(b, j2 + len, end, TripUpdateV {
                                trip: acc.trip,
                                stop_time_updates: acc.stop_time_updates.push(u),
                            }),
                        }
                    } else {
                        None
                    },
                }
            } else {
                match spec_skip(b, j, end, tag & 7) {
                    None => None,
                    Some(k) => spec_parse_tu(b, k, end, acc),
                }
            },
        }
    }
}

#[via_fn]
proof fn spec_parse_tu_dec(b: Seq<u8>, i: int, end: int, acc: TripUpdateV) {
    lemma_varint_advances(b, i, 0, 0);
    match spec_varint(b, i, 0, 0) {
        Some((tag, j)) => {
            lemma_varint_advances(b, j, 0, 0);
            if 0 <= j <= end <= b.len() {
                lemma_skip_advances(b, j, end, tag & 7);
            }
        },
        None => {},
    }
}

/// Reads a trip update body.
fn parse_tu(b: &Vec<u8>, start: usize, end: usize) -> (r: Option<TripUpdateData>)
    requires
        start <= end <= b@.len(),
    ensures
        match r {
            Some(t) => spec_parse_tu(b@, start as int, end as int, tu_empty()) == Some(t@),
            None => spec_parse_tu(b@, start as int, end as int, tu_empty()) is None,
        },
{
    let mut i = start;
    let mut acc = TripUpdateData { trip: None, stop_time_updates: Vec::new() };
    proof {
        assert(acc@.stop_time_updates =~= tu_empty().stop_time_updates);
    }
    loop
        invariant
            start <= i <= end <= b@.len(),
            spec_parse_tu(b@, start as int, end as int, tu_empty())
                == spec_parse_tu(b@, i as int, end as int, acc@),
        decreases end - i,
    {
        if i == end {
            return Some(acc);
        }
        let (tag, j) = match read_varint(b, i) {
            Some(t) => t,
            None => {
                return None;
            },
        };
        if j > end {
            return None;
        }
        if tag >> 3 == 1 && tag & 7 == 2 {
            let (len, j2) = match read_varint(b, j) {
                Some(t) => t,
                None => {
                    return None;
                },
            };
            if !(j2 <= end && len <= (end - j2) as u64) {
                return None;
            }
            let k = j2 + (len as usize);
            match parse_td(b, j2, k) {
                Some(td) => {
                    acc.trip = Some(td);
                    i = k;
                },
                None => {
                    return None;
                },
            }
        } else if tag >> 3 == 2 && tag & 7 == 2 {
            let (len, j2) = match read_varint(b, j) {
                Some(t) => t,
                None => {
                    return None;
                },
            };
            if !(j2 <= end && len <= (end - j2) as u64) {
                return None;
            }
            let k = j2 + (len as usize);
            match parse_stu(b, j2, k) {
                Some(u) => {
                    let ghost acc_pre = acc@;
                    let ghost uv = u@;
                    acc.stop_time_updates.push(u);
                    proof {
                        assert(acc@.stop_time_updates
                            =~= acc_pre.stop_time_updates.push(uv));
                    }
                    i = k;
                },
                None => {
                    return None;
                },
            }
        } else {
            let k = match skip_field(b, j, end, tag & 7) {
                Some(k) => k,
                None => {
                    return None;
                },
            };
            i = k;
        }
    }
}

/// Feed header body: field 3 is the global timestamp.
pub open spec fn spec_parse_header(b: Seq<u8>, i: int, end: int, acc: Option<u64>)
    -> Option<Option<u64>>
    decreases end - i,
    via spec_parse_header_dec
{
    if !(0 <= i <= end <= b.len()) {
        None
    } else if i == end {
        Some(acc)
    } else {
        match spec_varint(b, i, 0, 0) {
            None => None,
            Some((tag, j)) => if j > end {
                None
            } else if tag >> 3 == 3 && tag & 7 == 0 {
                match spec_varint(b, j, 0, 0) {
                    None => None,
                    Some((v, k)) => if k <= end {
                        spec_parse_header(b, k, end, Some(v))
                    } else {
                        None
                    },
                }
            } else {
                match spec_skip(b, j, end, tag & 7) {
                    None => None,
                    Some(k) => spec_parse_header(b, k, end, acc),
                }
            },
        }
    }
}

#[via_fn]
proof fn spec_parse_header_dec(b: Seq<u8>, i: int, end: int, acc: Option<u64>) {
    lemma_varint_advances(b, i, 0, 0);
    match spec_varint(b, i, 0, 0) {
        Some((tag, j)) => {
            lemma_varint_advances(b, j, 0, 0);
            if 0 <= j <= end <= b.len() {
                lemma_skip_advances(b, j, end, tag & 7);
            }
        },
        None => {},
    }
}

/// Reads a feed header body.
fn parse_header(b: &Vec<u8>, start: usize, end: usize) -> (r: Option<Option<u64>>)
    requires
        start <= end <= b@.len(),
    ensures
        r == spec_parse_header(b@, start as int, end as int, None),
{
    let mut i = start;
    let mut acc: Option<u64> = None;
    loop
        invariant
            start <= i <= end <= b@.len(),
            spec_parse_header(b@, start as int, end as int, None)
                == spec_parse_header(b@, i as int, end as int, acc),
        decreases end - i,
    {
        if i == end {
            return Some(acc);
        }
        let (tag, j) = match read_varint(b, i) {
            Some(t) => t,
            None => {
                return None;
            },
        };
        if j > end {
            return None;
        }
        if tag >> 3 == 3 && tag & 7 == 0 {
            let (v, k) = match read_varint(b, j) {
                Some(t) => t,
                None => {
                    return None;
                },
            };
            if k > end {
                return None;
            }
            acc = Some(v);
            i = k;
        } else {
            let k = match skip_field(b, j, end, tag & 7) {
                Some(k) => k,
                None => {
                    return None;
                },
            };
            i = k;
        }
    }
}

/// Feed entity body: field 3 is the trip update; entities carrying none
/// (vehicle positions, alerts) yield nothing.
pub open spec fn spec_parse_entity(b: Seq<u8>, i: int, end: int, acc: Option<TripUpdateV>)
    -> Option<Option<TripUpdateV>>
    decreases end - i,
    via spec_parse_entity_dec
{
    if !(0 <= i <= end <= b.len()) {
        None
    } else if i == end {
        Some(acc)
    } else {
        match spec_varint(b, i, 0, 0) {
            None => None,
            Some((tag, j)) => if j > end {
                None
            } else if tag >> 3 == 3 && tag & 7 == 2 {
                match spec_varint(b, j, 0, 0) {
                    None => None,
                    Some((len, j2)) => if j2 + len <= end {
                        match spec_parse_tu(b, j2, j2 + len, tu_empty()) {
                            None => None,
                            Some(tu) => spec_parse_entity(b, j2 + len, end, Some(tu)),
                        }
                    } else {
                        None
                    },
                }
            } else {
                match spec_skip(b, j, end, tag & 7) {
                    None => None,
                    Some(k) => spec_parse_entity(b, k, end, acc),
                }
            },
        }
    }
}

#[via_fn]
proof fn spec_parse_entity_dec(b: Seq<u8>, i: int, end: int, acc: Option<TripUpdateV>) {
    lemma_varint_advances(b, i, 0, 0);
    match spec_varint(b, i, 0, 0) {
        Some((tag, j)) => {
            lemma_varint_advances(b, j, 0, 0);
            if 0 <= j <= end <= b.len() {
                lemma_skip_advances(b, j, end, tag & 7);
            }
        },
        None => {},
    }
}

/// Reads a feed entity body.
fn parse_entity(b: &Vec<u8>, start: usize, end: usize) -> (r: Option<Option<TripUpdateData>>)
    requires
        start <= end <= b@.len(),
    ensures
        match r {
            Some(Some(t)) => spec_parse_entity(b@, start as int, end as int, None)
                == Some(Some(t@)),
            Some(None) => spec_parse_entity(b@, start as int, end as int, None)
                == Some(None::<TripUpdateV>),
            None => spec_parse_entity(b@, start as int, end as int, None) is None,
        },
{
    let mut i = start;
    let mut acc: Option<TripUpdateData> = None;
    loop
        invariant
            start <= i <= end <= b@.len(),
            spec_parse_entity(b@, start as int, end as int, None)
                == spec_parse_entity(b@, i as int, end as int, match acc {
                    Some(t) => Some(t@),
                    None => None,
                }),
        decreases end - i,
    {
        if i == end {
            return Some(acc);
        }
        let (tag, j) = match read_varint(b, i) {
            Some(t) => t,
            None => {
                return None;
            },
        };
        if j > end {
            return None;
        }
        if tag >> 3 == 3 && tag & 7 == 2 {
            let (len, j2) = match read_varint(b, j) {
                Some(t) => t,
                None => {
                    return None;
                },
            };
            if !(j2 <= end && len <= (end - j2) as u64) {
                return None;
            }
            let k = j2 + (len as usize);
            match parse_tu(b, j2, k) {
                Some(tu) => {
                    acc = Some(tu);
                    i = k;
                },
                None => {
                    return None;
                },
            }
        } else {
            let k = match skip_field(b, j, end, tag & 7) {
                Some(k) => k,
                None => {
                    return None;
                },
            };
            i = k;
        }
    }
}

/// The empty feed accumulator.
pub open spec fn fm_empty() -> FeedMessageV {
    FeedMessageV { timestamp: None, entities: Seq::empty() }
}

/// Feed message body: field 1 the header (its timestamp is kept), field 2
/// one more entity, appended in feed order.
pub open spec fn spec_parse_fm(b: Seq<u8>, i: int, end: int, acc: FeedMessageV)
    -> Option<FeedMessageV>
    decreases end - i,
    via spec_parse_fm_dec
{
    if !(0 <= i <= end <= b.len()) {
        None
    } else if i == end {
        Some(acc)
    } else {
        match spec_varint(b, i, 0, 0) {
            None => None,
            Some((tag, j)) => if j > end {
                None
            } else if tag >> 3 == 1 && tag & 7 == 2 {
                match spec_varint(b, j, 0, 0) {
                    None => None,
                    Some((len, j2)) => if j2 + len <= end {
                        match spec_parse_header(b, j2, j2 + len, None) {
                            None => None,
                            Some(ts) => spec_parse_fm(b, j2 + len, end, FeedMessageV {
                                timestamp: ts,
                                entities: acc.entities,
                            }),
                        }
                    } else {
                        None
                    },
                }
            } else if tag >> 3 == 2 && tag & 7 == 2 {
                match spec_varint(b, j, 0, 0) {
                    None => None,
                    Some((len, j2)) => if j2 + len <= end {
                        match spec_parse_entity(b, j2, j2 + len, None) {
                            None => None,
                            Some(e) => spec_parse_fm(b, j2 + len, end, FeedMessageV {
                                timestamp: acc.timestamp,
                                entities: acc.entities.push(e),
                            }),
                        }
                    } else {
                        None
                    },
                }
            } else {
                match spec_skip(b, j, end, tag & 7) {
                    None => None,
                    Some(k) => spec_parse_fm(b, k, end, acc),
                }
            },
        }
    }
}

#[via_fn]
proof fn spec_parse_fm_dec(b: Seq<u8>, i: int, end: int, acc: FeedMessageV) {
    lemma_varint_advances(b, i, 0, 0);
    match spec_varint(b, i, 0, 0) {
        Some((tag, j)) => {
            lemma_varint_advances(b, j, 0, 0);
            if 0 <= j <= end <= b.len() {
                lemma_skip_advances(b, j, end, tag & 7);
            }
        },
        None => {},
    }
}

/// What the whole buffer decodes to, if it is a well-formed feed message.
pub open spec fn spec_parse_feed(b: Seq<u8>) -> Option<FeedMessageV> {
    spec_parse_fm(b, 0, b.len() as int, fm_empty())
}

/// Reads a whole feed message buffer.
fn parse_fm(b: &Vec<u8>) -> (r: Option<FeedMessageData>)
    ensures
        match r {
            Some(m) => spec_parse_feed(b@) == Some(m@),
            None => spec_parse_feed(b@) is None,
        },
{
    let end = b.len();
    let mut i: usize = 0;
    let mut acc = FeedMessageData { timestamp: None, entities: Vec::new() };
    proof {
        assert(acc@.entities =~= fm_empty().entities);
    }
    loop
        invariant
            0 <= i <= end == b@.len(),
            spec_parse_fm(b@, 0, end as int, fm_empty())
                == spec_parse_fm(b@, i as int, end as int, acc@),
        decreases end - i,
    {
        if i == end {
            return Some(acc);
        }
        let (tag, j) = match read_varint(b, i) {
            Some(t) => t,
            None => {
                return None;
            },
        };
        if j > end {
            return None;
        }
        if tag >> 3 == 1 && tag & 7 == 2 {
            let (len, j2) = match read_varint(b, j) {
                Some(t) => t,
                None => {
                    return None;
                },
            };
            if !(j2 <= end && len <= (end - j2) as u64) {
                return None;
            }
            let k = j2 + (len as usize);
            match parse_header(b, j2, k) {
                Some(ts) => {
                    acc.timestamp = ts;
                    i = k;
                },
                None => {
                    return None;
                },
            }
        } else if tag >> 3 == 2 && tag & 7 == 2 {
            let (len, j2) = match read_varint(b, j) {
                Some(t) => t,
                None => {
                    return None;
                },
            };
            if !(j2 <= end && len <= (end - j2) as u64) {
                return None;
            }
            let k = j2 + (len as usize);
            match parse_entity(b, j2, k) {
                Some(e) => {
                    let ghost acc_pre = acc@;
                    let ghost ev = match e {
                        Some(ref t) => Some(t@),
                        None => None::<TripUpdateV>,
                    };
                    acc.entities.push(e);
                    proof {
                        assert(acc@.entities =~= acc_pre.entities.push(ev));
                    }
                    i = k;
                },
                None => {
                    return None;
                },
            }
        } else {
            let k = match skip_field(b, j, end, tag & 7) {
                Some(k) => k,
                None => {
                    return None;
                },
            };
            i = k;
        }
    }
}

/// Decodes a raw (already unwrapped) feed buffer, demanding the global
/// header timestamp that serves as the time of recording.
pub fn decode_feed(b: &Vec<u8>) -> (r: Result<FeedMessageData, FeedError>)
    ensures
        match r {
            Ok(m) => spec_parse_feed(b@) == Some(m@) && m.timestamp is Some,
            Err(e) => match e {
                FeedError::FeedDecodeError => spec_parse_feed(b@) is None,
                FeedError::MissingHeaderTimestamp => spec_parse_feed(b@) matches Some(m)
                    && m.timestamp is None,
            },
        },
{
    match parse_fm(b) {
        Some(m) => {
            if m.timestamp.is_some() {
                Ok(m)
            } else {
                Err(FeedError::MissingHeaderTimestamp)
            }
        },
        None => Err(FeedError::FeedDecodeError),
    }
}


/// What the first entry of a zip archive holds, as a function of the
/// archive bytes; nothing when the bytes open as no archive with a first
/// entry.
pub uninterp spec fn zip_first_entry_of(b: Seq<u8>) -> Option<Seq<u8>>;

/// Relies on zip::ZipArchive::new and ZipArchive::by_index: decompresses
/// the first entry of an archive held in memory, a function of the archive
/// bytes alone.
#[verifier::external_body]
fn unzip_first_entry(b: &Vec<u8>) -> (r: Option<Vec<u8>>)
    ensures
        match r {
            Some(v) => zip_first_entry_of(b@) == Some(v@),
            None => zip_first_entry_of(b@) is None,
        },
{
    let cursor = std::io::Cursor::new(b.as_slice());
    let mut archive = match zip::ZipArchive::new(cursor) {
        Ok(a) => a,
        Err(_) => return None,
    };
    let mut file = match archive.by_index(0) {
        Ok(f) => f,
        Err(_) => return None,
    };
    let mut out = Vec::new();
    match std::io::Read::read_to_end(&mut file, &mut out) {
        Ok(_) => Some(out),
        Err(_) => None,
    }
}

/// Whether the file name ends in the four bytes of ".zip".
pub open spec fn spec_has_zip_suffix(name: Seq<u8>) -> bool {
    name.len() >= 4 && name[name.len() - 4] == 46u8 && name[name.len() - 3] == 122u8
        && name[name.len() - 2] == 105u8 && name[name.len() - 1] == 112u8
}

/// Decides whether a file name ends in ".zip".
pub fn has_zip_suffix(name: &Vec<u8>) -> (r: bool)
    ensures
        r == spec_has_zip_suffix(name@),
{
    let n = name.len();
    n >= 4 && name[n - 4] == 46 && name[n - 3] == 122 && name[n - 2] == 105
        && name[n - 1] == 112
}

/// The raw feed bytes a realtime file yields: the first zip entry when the
/// name says archive, the bytes themselves otherwise.
pub open spec fn spec_raw_feed_bytes(name: Seq<u8>, b: Seq<u8>) -> Option<Seq<u8>> {
    if spec_has_zip_suffix(name) {
        zip_first_entry_of(b)
    } else {
        Some(b)
    }
}

/// Decodes one realtime file: the bytes are unwrapped when the file name
/// ends in ".zip", then decoded as a feed message carrying a header
/// timestamp.
pub fn decode_feed_file(name: &Vec<u8>, bytes: &Vec<u8>) -> (r: Result<FeedMessageData, FeedError>)
    ensures
        match spec_raw_feed_bytes(name@, bytes@) {
            None => r == Err::<FeedMessageData, FeedError>(FeedError::FeedDecodeError),
            Some(data) => match r {
                Ok(m) => spec_parse_feed(data) == Some(m@) && m.timestamp is Some,
                Err(e) => match e {
                    FeedError::FeedDecodeError => spec_parse_feed(data) is None,
                    FeedError::MissingHeaderTimestamp => spec_parse_feed(data) matches Some(mv)
                        && mv.timestamp is None,
                },
            },
        },
{
    if has_zip_suffix(name) {
        match unzip_first_entry(bytes) {
            Some(inner) => decode_feed(&inner),
            None => Err(FeedError::FeedDecodeError),
        }
    } else {
        decode_feed(bytes)
    }
}

} // verus!
