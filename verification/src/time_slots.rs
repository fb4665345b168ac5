//! Recurring time slots.
//!
//! A time slot is a named window of recurring wall-clock time, given by a
//! weekday range (inclusive on both ends) and an hour range (inclusive lower
//! bound, exclusive upper bound). Either range may wrap: a weekday range from
//! Friday to Monday covers Friday, Saturday, Sunday and Monday, and an hour
//! range from 20 to 4 covers the late evening and the small hours.
//!
//! Eleven fixed slots cover the whole week, and every wall-clock moment lies
//! in exactly one of them; `lemma_slot_totality` states just that.

use vstd::prelude::*;

verus! {

/// A wall-clock moment within a week: weekday (days since Monday, so
/// 0 = Monday .. 6 = Sunday), hour of day and minute of hour.
#[derive(Clone, Copy, Debug, PartialEq, Eq, Structural)]
pub struct TimeOfWeek {
    pub weekday: u8,
    pub hour: u8,
    pub minute: u8,
}

impl TimeOfWeek {
    /// The ranges a weekday/hour/minute triple must lie in.
    pub open spec fn wf(self) -> bool {
        self.weekday < 7 && self.hour < 24 && self.minute < 60
    }

    /// Builds a moment from its three components.
    pub fn new(weekday: u8, hour: u8, minute: u8) -> (t: TimeOfWeek)
        requires
            weekday < 7,
            hour < 24,
            minute < 60,
        ensures
            t == (TimeOfWeek { weekday, hour, minute }),
    {
        TimeOfWeek { weekday, hour, minute }
    }
}

/// A recurring window of wall-clock time: a weekday range (inclusive on both
/// ends, wrapping past Sunday when `min_weekday > max_weekday`) paired with an
/// hour range (inclusive lower, exclusive upper, wrapping past midnight when
/// `min_hour > max_hour`). The `id` is the slot's stable persistence key.
#[derive(Clone, Copy, Debug, Hash, PartialEq, Eq, Structural)]
pub struct TimeSlot {
    pub id: u8,
    pub min_weekday: u8,
    pub max_weekday: u8,
    pub min_hour: u8,
    pub max_hour: u8,
}

/// Whether weekday `wd` lies in the inclusive range `min ..= max`, wrapping
/// past the end of the week when `min > max`.
pub open spec fn weekday_in_range(min: u8, max: u8, wd: u8) -> bool {
    if min <= max {
        min <= wd <= max
    } else {
        wd >= min || wd <= max
    }
}

/// Whether hour `h` lies in the half-open range `min .. max`, wrapping past
/// midnight when `min > max`. A range with `min == max` is empty.
pub open spec fn hour_in_range(min: u8, max: u8, h: u8) -> bool {
    if min < max {
        min <= h < max
    } else if min > max {
        h >= min || h < max
    } else {
        false
    }
}

/// Whether the moment `t` falls inside slot `s`.
pub open spec fn slot_contains(s: TimeSlot, t: TimeOfWeek) -> bool {
    weekday_in_range(s.min_weekday, s.max_weekday, t.weekday)
        && hour_in_range(s.min_hour, s.max_hour, t.hour)
}

/// The eleven fixed slots, in the order they are searched.
pub open spec fn the_slots() -> Seq<TimeSlot> {
    seq![
        TimeSlot { id: 1, min_weekday: 0, max_weekday: 4, min_hour: 4, max_hour: 6 },
        TimeSlot { id: 2, min_weekday: 0, max_weekday: 4, min_hour: 6, max_hour: 8 },
        TimeSlot { id: 3, min_weekday: 0, max_weekday: 4, min_hour: 8, max_hour: 12 },
        TimeSlot { id: 4, min_weekday: 0, max_weekday: 4, min_hour: 12, max_hour: 14 },
        TimeSlot { id: 5, min_weekday: 0, max_weekday: 4, min_hour: 14, max_hour: 16 },
        TimeSlot { id: 6, min_weekday: 0, max_weekday: 4, min_hour: 16, max_hour: 18 },
        TimeSlot { id: 7, min_weekday: 0, max_weekday: 4, min_hour: 18, max_hour: 20 },
        TimeSlot { id: 8, min_weekday: 5, max_weekday: 5, min_hour: 4, max_hour: 20 },
        TimeSlot { id: 9, min_weekday: 6, max_weekday: 6, min_hour: 4, max_hour: 20 },
        TimeSlot { id: 10, min_weekday: 6, max_weekday: 3, min_hour: 20, max_hour: 4 },
        TimeSlot { id: 11, min_weekday: 4, max_weekday: 5, min_hour: 20, max_hour: 4 },
    ]
}

/// Index into `the_slots` of the slot that a well-formed moment belongs to.
pub open spec fn slot_index_of(t: TimeOfWeek) -> int {
    if 4 <= t.hour < 20 {
        if t.weekday <= 4 {
            if t.hour < 6 {
                0
            } else if t.hour < 8 {
                1
            } else if t.hour < 12 {
                2
            } else if t.hour < 14 {
                3
            } else if t.hour < 16 {
                4
            } else if t.hour < 18 {
                5
            } else {
                6
            }
        } else if t.weekday == 5 {
            7
        } else {
            8
        }
    } else {
        if t.weekday == 4 || t.weekday == 5 {
            10
        } else {
            9
        }
    }
}

/// Every well-formed moment lies in the slot picked by `slot_index_of`,
/// and in no other: the eleven slots partition the week.
pub proof fn lemma_slot_totality(t: TimeOfWeek)
    requires
        t.wf(),
    ensures
        0 <= slot_index_of(t) < the_slots().len(),
        slot_contains(the_slots()[slot_index_of(t)], t),
        forall|i: int|
            0 <= i < the_slots().len() && slot_contains(the_slots()[i], t)
                ==> i == slot_index_of(t),
{
    assert(slot_contains(the_slots()[slot_index_of(t)], t));
    assert forall|i: int|
        0 <= i < the_slots().len() && slot_contains(the_slots()[i], t)
            implies i == slot_index_of(t) by {
        if i == 0 {
            assert(slot_contains(the_slots()[0], t) ==> slot_index_of(t) == 0);
        } else if i == 1 {
            assert(slot_contains(the_slots()[1], t) ==> slot_index_of(t) == 1);
        } else if i == 2 {
            assert(slot_contains(the_slots()[2], t) ==> slot_index_of(t) == 2);
        } else if i == 3 {
            assert(slot_contains(the_slots()[3], t) ==> slot_index_of(t) == 3);
        } else if i == 4 {
            assert(slot_contains(the_slots()[4], t) ==> slot_index_of(t) == 4);
        } else if i == 5 {
            assert(slot_contains(the_slots()[5], t) ==> slot_index_of(t) == 5);
        } else if i == 6 {
            assert(slot_contains(the_slots()[6], t) ==> slot_index_of(t) == 6);
        } else if i == 7 {
            assert(slot_contains(the_slots()[7], t) ==> slot_index_of(t) == 7);
        } else if i == 8 {
            assert(slot_contains(the_slots()[8], t) ==> slot_index_of(t) == 8);
        } else if i == 9 {
            assert(slot_contains(the_slots()[9], t) ==> slot_index_of(t) == 9);
        } else {
            assert(slot_contains(the_slots()[10], t) ==> slot_index_of(t) == 10);
        }
    }
}

impl TimeSlot {
    /// The eleven fixed slots as a vector, in search order.
    pub fn all() -> (v: Vec<TimeSlot>)
        ensures
            v@ == the_slots(),
    {
        let v = vec![
            TimeSlot { id: 1, min_weekday: 0, max_weekday: 4, min_hour: 4, max_hour: 6 },
            TimeSlot { id: 2, min_weekday: 0, max_weekday: 4, min_hour: 6, max_hour: 8 },
            TimeSlot { id: 3, min_weekday: 0, max_weekday: 4, min_hour: 8, max_hour: 12 },
            TimeSlot { id: 4, min_weekday: 0, max_weekday: 4, min_hour: 12, max_hour: 14 },
            TimeSlot { id: 5, min_weekday: 0, max_weekday: 4, min_hour: 14, max_hour: 16 },
            TimeSlot { id: 6, min_weekday: 0, max_weekday: 4, min_hour: 16, max_hour: 18 },
            TimeSlot { id: 7, min_weekday: 0, max_weekday: 4, min_hour: 18, max_hour: 20 },
            TimeSlot { id: 8, min_weekday: 5, max_weekday: 5, min_hour: 4, max_hour: 20 },
            TimeSlot { id: 9, min_weekday: 6, max_weekday: 6, min_hour: 4, max_hour: 20 },
            TimeSlot { id: 10, min_weekday: 6, max_weekday: 3, min_hour: 20, max_hour: 4 },
            TimeSlot { id: 11, min_weekday: 4, max_weekday: 5, min_hour: 20, max_hour: 4 },
        ];
        assert(v@ =~= the_slots());
        v
    }

    /// Whether the moment `dt` falls inside this slot.
    pub fn matches(&self, dt: TimeOfWeek) -> (r: bool)
        ensures
            r == slot_contains(*self, dt),
    {
        let day = if self.min_weekday <= self.max_weekday {
            self.min_weekday <= dt.weekday && dt.weekday <= self.max_weekday
        } else {
            dt.weekday >= self.min_weekday || dt.weekday <= self.max_weekday
        };
        let hour = if self.min_hour < self.max_hour {
            self.min_hour <= dt.hour && dt.hour < self.max_hour
        } else if self.min_hour > self.max_hour {
            dt.hour >= self.min_hour || dt.hour < self.max_hour
        } else {
            false
        };
        day && hour
    }

    /// The unique slot containing the moment `dt`.
    pub fn from_datetime(dt: TimeOfWeek) -> (s: TimeSlot)
        requires
            dt.wf(),
        ensures
            s == the_slots()[slot_index_of(dt)],
            slot_contains(s, dt),
    {
        proof {
            lemma_slot_totality(dt);
        }
        let slots = TimeSlot::all();
        let mut i: usize = 0;
        while i < slots.len()
            invariant
                dt.wf(),
                slots@ == the_slots(),
                0 <= i <= slots.len(),
                forall|j: int| 0 <= j < i ==> !slot_contains(slots@[j], dt),
                slot_contains(the_slots()[slot_index_of(dt)], dt),
                0 <= slot_index_of(dt) < the_slots().len(),
            decreases slots.len() - i,
        {
            if slots[i].matches(dt) {
                proof {
                    lemma_slot_totality(dt);
                }
                return slots[i];
            }
            i = i + 1;
        }
        proof {
            assert(!slot_contains(the_slots()[slot_index_of(dt)], dt));
        }
        unreached()
    }
}

} // verus!
