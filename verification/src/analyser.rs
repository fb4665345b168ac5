//! Selection and joining of persisted observations for curve building.
//!
//! Observations are grouped by route variant, selected by stop, and joined
//! between an earlier and a later stop by (service date, trip id): a
//! joined pair records how the delay leaving one stop turned into the
//! delay reaching the other. Delays beyond the accepted band are dropped,
//! and each delay is rounded to the nearest multiple of twelve seconds, as
//! agencies tend to report already-rounded values.

use vstd::prelude::*;
use crate::calendar::{Date, valid_date};
use crate::curves::{
    Curve, Frac, CURVE_MAX_SAMPLES, CURVE_MAX_X, cum_weight_le, distinct_of, make_curve,
    place_markers, sort_samples, sort_spec, lemma_sort_spec, spec_simplified_index_list,
};
use crate::event_type::EventType;
use crate::schedule::Trip;
use crate::time_slots::{TimeSlot, slot_contains};
use crate::util::bytes_eq;

verus! {

/// Delays at or beyond this many seconds either way are left out of joins.
pub const DELAY_BAND: i64 = 3000;

/// One observation row as the analyser reads it back from the store.
#[derive(Clone, Debug)]
pub struct DbItem {
    pub delay_arrival: Option<i64>,
    pub delay_departure: Option<i64>,
    pub date: Option<Date>,
    pub trip_id: Vec<u8>,
    pub stop_id: Vec<u8>,
    pub route_variant: u64,
}

/// `d` rounded to the nearest multiple of twelve, half way rounding up.
pub open spec fn round12_spec(d: int) -> int {
    12 * ((d + 6) / 12)
}

/// Rounds a delay to the nearest multiple of twelve seconds.
pub fn round_to_twelve(d: i64) -> (r: i64)
    requires
        -10_000_000 <= d <= 10_000_000,
    ensures
        r == round12_spec(d as int),
        r % 12 == 0,
        -6 <= d - r < 6,
{
    let shifted = d + 6;
    let q = shifted / 12;
    let rem = shifted % 12;
    let qf = if rem < 0 {
        q - 1
    } else {
        q
    };
    proof {
        vstd::arithmetic::div_mod::lemma_fundamental_div_mod_converse(
            shifted as int,
            12,
            qf as int,
            if rem < 0 {
                (rem + 12) as int
            } else {
                rem as int
            },
        );
    }
    proof {
        vstd::arithmetic::div_mod::lemma_mod_multiples_basic(qf as int, 12);
    }
    qf * 12
}

/// Whether two observations belong to the same vehicle run.
pub open spec fn item_key_eq(x: DbItem, y: DbItem) -> bool {
    x.date == y.date && x.trip_id@ == y.trip_id@
}

/// Index of the first observation in `b` of the same vehicle run as `s`.
pub open spec fn first_run_match(b: Seq<DbItem>, s: DbItem, i: int) -> Option<int>
    decreases b.len() - i,
{
    if i < 0 || i >= b.len() {
        None
    } else if item_key_eq(s, b[i]) {
        Some(i)
    } else {
        first_run_match(b, s, i + 1)
    }
}

/// What `first_run_match` promises.
proof fn lemma_first_run_match(b: Seq<DbItem>, s: DbItem, i: int)
    requires
        0 <= i <= b.len(),
    ensures
        match first_run_match(b, s, i) {
            Some(j) => i <= j < b.len() && item_key_eq(s, b[j])
                && forall|m: int| i <= m < j ==> !item_key_eq(s, #[trigger] b[m]),
            None => forall|m: int| i <= m < b.len() ==> !item_key_eq(s, #[trigger] b[m]),
        },
    decreases b.len() - i,
{
    if i < b.len() && !item_key_eq(s, b[i]) {
        lemma_first_run_match(b, s, i + 1);
    }
}

/// The joined pair an observation at the earlier stop yields, if any: the
/// departure delay there and the arrival delay of the first matching run
/// at the later stop, both within the band, both rounded.
pub open spec fn spec_pair_for(s: DbItem, b: Seq<DbItem>) -> Option<(i64, i64)> {
    match first_run_match(b, s, 0) {
        None => None,
        Some(j) => match (s.delay_departure, b[j].delay_arrival) {
            (Some(ds), Some(de)) => if -DELAY_BAND < ds < DELAY_BAND
                && -DELAY_BAND < de < DELAY_BAND {
                Some((round12_spec(ds as int) as i64, round12_spec(de as int) as i64))
            } else {
                None
            },
            _ => None,
        },
    }
}

/// The joined pairs of the first `n` observations at the earlier stop.
pub open spec fn spec_join(a: Seq<DbItem>, b: Seq<DbItem>, n: int) -> Seq<(i64, i64)>
    decreases n,
{
    if n <= 0 {
        Seq::empty()
    } else {
        let prev = spec_join(a, b, n - 1);
        match spec_pair_for(a[n - 1], b) {
            Some(p) => prev.push(p),
            None => prev,
        }
    }
}

/// Joins observations at an earlier stop with those at a later stop by
/// (service date, trip id), keeping banded, rounded delay pairs.
pub fn join_pairs(a: &Vec<DbItem>, b: &Vec<DbItem>) -> (r: Vec<(i64, i64)>)
    ensures
        r@ == spec_join(a@, b@, a@.len() as int),
{
    let mut r: Vec<(i64, i64)> = Vec::new();
    let mut i: usize = 0;
    proof {
        assert(r@ =~= spec_join(a@, b@, 0));
    }
    while i < a.len()
        invariant
            0 <= i <= a@.len(),
            r@ == spec_join(a@, b@, i as int),
        decreases a@.len() - i,
    {
        let s = &a[i];
        let mut j: usize = 0;
        let mut found: Option<usize> = None;
        while j < b.len() && found.is_none()
            invariant
                0 <= i < a@.len(),
                *s == a@[i as int],
                0 <= j <= b@.len(),
                found is None ==> forall|m: int| 0 <= m < j
                    ==> !item_key_eq(a@[i as int], #[trigger] b@[m]),
                found matches Some(m) ==> m < b@.len()
                    && item_key_eq(a@[i as int], b@[m as int])
                    && forall|p: int| 0 <= p < m
                        ==> !item_key_eq(a@[i as int], #[trigger] b@[p]),
            decreases b@.len() - j,
        {
            let same_date = match (&s.date, &b[j].date) {
                (Some(d1), Some(d2)) => d1 == d2,
                (None, None) => true,
                _ => false,
            };
            if same_date && bytes_eq(&s.trip_id, &b[j].trip_id) {
                found = Some(j);
            }
            j = j + 1;
        }
        proof {
            crate::analyser::lemma_first_run_match(b@, a@[i as int], 0);
        }
        match found {
            Some(m) => {
                proof {
                    assert(first_run_match(b@, a@[i as int], 0) == Some(m as int)) by {
                        lemma_first_run_match(b@, a@[i as int], 0);
                        match first_run_match(b@, a@[i as int], 0) {
                            Some(jj) => {
                                if jj < m {
                                    assert(!item_key_eq(a@[i as int], b@[jj]));
                                } else if (m as int) < jj {
                                    assert(!item_key_eq(a@[i as int], b@[m as int]));
                                }
                            },
                            None => {
                                assert(!item_key_eq(a@[i as int], b@[m as int]));
                            },
                        }
                    }
                }
                let e = &b[m];
                match (s.delay_departure, e.delay_arrival) {
                    (Some(ds), Some(de)) => {
                        if -DELAY_BAND < ds && ds < DELAY_BAND && -DELAY_BAND < de
                            && de < DELAY_BAND {
                            let p = (round_to_twelve(ds), round_to_twelve(de));
                            r.push(p);
                        }
                    },
                    _ => {},
                }
            },
            None => {},
        }
        i = i + 1;
    }
    r
}

/// Join symmetry: under one observation per vehicle run and stop, an
/// observation at the earlier stop joins exactly when some observation of
/// the same run stands at the later stop with both delays present and in
/// the band.
pub proof fn lemma_join_symmetry(a: Seq<DbItem>, b: Seq<DbItem>, i: int)
    requires
        0 <= i < a.len(),
        forall|p: int, q: int| 0 <= p < q < b.len()
            ==> !item_key_eq(#[trigger] b[p], #[trigger] b[q]),
    ensures
        (spec_pair_for(a[i], b) is Some) <==> exists|j: int| 0 <= j < b.len()
            && item_key_eq(a[i], #[trigger] b[j])
            && a[i].delay_departure is Some
            && b[j].delay_arrival is Some
            && -DELAY_BAND < a[i].delay_departure->Some_0 < DELAY_BAND
            && -DELAY_BAND < b[j].delay_arrival->Some_0 < DELAY_BAND,
{
    lemma_first_run_match(b, a[i], 0);
    if spec_pair_for(a[i], b) is Some {
        match first_run_match(b, a[i], 0) {
            Some(j) => {
                assert(item_key_eq(a[i], b[j]));
            },
            None => {},
        }
    }
    if exists|j: int| 0 <= j < b.len() && item_key_eq(a[i], #[trigger] b[j])
        && a[i].delay_departure is Some && b[j].delay_arrival is Some
        && -DELAY_BAND < a[i].delay_departure->Some_0 < DELAY_BAND
        && -DELAY_BAND < b[j].delay_arrival->Some_0 < DELAY_BAND {
        let j = choose|j: int| 0 <= j < b.len() && item_key_eq(a[i], #[trigger] b[j])
            && a[i].delay_departure is Some && b[j].delay_arrival is Some
            && -DELAY_BAND < a[i].delay_departure->Some_0 < DELAY_BAND
            && -DELAY_BAND < b[j].delay_arrival->Some_0 < DELAY_BAND;
        match first_run_match(b, a[i], 0) {
            Some(m) => {
                // The first matching run is the only one: keys are unique.
                if m < j {
                    assert(item_key_eq(b[m], b[j]) == false);
                    assert(item_key_eq(a[i], b[m]) && item_key_eq(a[i], b[j]));
                    assert(b[m].date == a[i].date && b[j].date == a[i].date);
                    assert(b[m].trip_id@ == a[i].trip_id@ && b[j].trip_id@ == a[i].trip_id@);
                    assert(item_key_eq(b[m], b[j]));
                } else if j < m {
                    assert(!item_key_eq(a[i], b[j]));
                }
                assert(m == j);
            },
            None => {
                assert(!item_key_eq(a[i], b[j]));
            },
        }
    }
}

/// Observations of one route variant, in order.
pub open spec fn spec_filter_variant(rows: Seq<DbItem>, variant: u64, n: int) -> Seq<DbItem>
    decreases n,
{
    if n <= 0 {
        Seq::empty()
    } else {
        let prev = spec_filter_variant(rows, variant, n - 1);
        if rows[n - 1].route_variant == variant {
            prev.push(rows[n - 1])
        } else {
            prev
        }
    }
}

/// Selects the observations of one route variant, consuming the rows.
pub fn filter_by_variant(rows: Vec<DbItem>, variant: u64) -> (r: Vec<DbItem>)
    ensures
        r@ == spec_filter_variant(rows@, variant, rows@.len() as int),
{
    let ghost orig = rows@;
    let mut rows = rows;
    let mut r: Vec<DbItem> = Vec::new();
    let mut done: usize = 0;
    let n = rows.len();
    proof {
        assert(r@ =~= spec_filter_variant(orig, variant, 0));
        assert(orig.len() == n as int);
    }
    while rows.len() > 0
        invariant
            orig.len() <= usize::MAX,
            done + rows@.len() == orig.len(),
            rows@ == orig.subrange(done as int, orig.len() as int),
            r@ == spec_filter_variant(orig, variant, done as int),
        decreases rows@.len(),
    {
        let item = rows.remove(0);
        proof {
            assert(item == orig[done as int]);
            assert(rows@ =~= orig.subrange(done as int + 1, orig.len() as int));
        }
        if item.route_variant == variant {
            r.push(item);
        }
        done = done + 1;
    }
    r
}


/// Index of the first stop-time at the given stop.
pub open spec fn first_stop_by_id(sts: Seq<crate::schedule::StopTime>, sid: Seq<u8>, i: int)
    -> Option<int>
    decreases sts.len() - i,
{
    if i < 0 || i >= sts.len() {
        None
    } else if sts[i].stop_id@ == sid {
        Some(i)
    } else {
        first_stop_by_id(sts, sid, i + 1)
    }
}

/// What `first_stop_by_id` promises.
proof fn lemma_first_stop_by_id(sts: Seq<crate::schedule::StopTime>, sid: Seq<u8>, i: int)
    requires
        0 <= i <= sts.len(),
    ensures
        match first_stop_by_id(sts, sid, i) {
            Some(j) => i <= j < sts.len() && sts[j].stop_id@ == sid
                && forall|m: int| i <= m < j ==> #[trigger] sts[m].stop_id@ != sid,
            None => forall|m: int| i <= m < sts.len() ==> #[trigger] sts[m].stop_id@ != sid,
        },
    decreases sts.len() - i,
{
    if i < sts.len() && sts[i].stop_id@ != sid {
        lemma_first_stop_by_id(sts, sid, i + 1);
    }
}

/// Every scheduled time of the trip fits a signed 32-bit count of seconds.
pub open spec fn trip_times_bounded(trip: Trip) -> bool {
    forall|j: int| 0 <= j < trip.stop_times@.len() ==> ({
        &&& match #[trigger] trip.stop_times@[j].arrival_time {
            Some(t) => t <= 0x7fff_ffff,
            None => true,
        }
        &&& match trip.stop_times@[j].departure_time {
            Some(t) => t <= 0x7fff_ffff,
            None => true,
        }
    })
}

/// Whether the slot contains the scheduled moment of the given event of
/// this observation: the service date plus the scheduled seconds of the
/// first stop-time at the observation's stop.
pub open spec fn spec_matches_item(
    slot: TimeSlot,
    item: DbItem,
    trip: Trip,
    et: EventType,
) -> bool {
    match first_stop_by_id(trip.stop_times@, item.stop_id@, 0) {
        None => false,
        Some(k) => match (if et is Departure {
            trip.stop_times@[k].departure_time
        } else {
            trip.stop_times@[k].arrival_time
        }) {
            None => false,
            Some(t) => match item.date {
                None => false,
                Some(d) => slot_contains(slot, crate::time_slots::TimeOfWeek {
                    weekday: crate::calendar::moment_weekday(d, t as int) as u8,
                    hour: crate::calendar::moment_hour(d, t as int) as u8,
                    minute: crate::calendar::moment_minute(d, t as int) as u8,
                }),
            },
        },
    }
}

impl TimeSlot {
    /// Whether the scheduled moment of the given event of this observation
    /// falls inside the slot.
    pub fn matches_item(&self, item: &DbItem, trip: &Trip, et: EventType) -> (r: bool)
        requires
            item.date matches Some(d) ==> valid_date(d),
            trip_times_bounded(*trip),
        ensures
            r == spec_matches_item(*self, *item, *trip, et),
    {
        let found = trip.find_stop_time_by_stop(&item.stop_id);
        proof {
            lemma_first_stop_by_id(trip.stop_times@, item.stop_id@, 0);
            match first_stop_by_id(trip.stop_times@, item.stop_id@, 0) {
                Some(jj) => {
                    match found {
                        Some(k) => {
                            if jj < k as int {
                                assert(trip.stop_times@[jj].stop_id@ != item.stop_id@);
                            } else if (k as int) < jj {
                                assert(trip.stop_times@[k as int].stop_id@ != item.stop_id@);
                            }
                        },
                        None => {
                            assert(trip.stop_times@[jj].stop_id@ != item.stop_id@);
                        },
                    }
                },
                None => {
                    match found {
                        Some(k) => {
                            assert(trip.stop_times@[k as int].stop_id@ != item.stop_id@);
                        },
                        None => {},
                    }
                },
            }
        }
        let k = match found {
            Some(k) => k,
            None => {
                return false;
            },
        };
        let t = match trip.stop_times[k].time_for(et) {
            Some(t) => t,
            None => {
                return false;
            },
        };
        let d = match &item.date {
            Some(d) => *d,
            None => {
                return false;
            },
        };
        let moment = crate::calendar::moment_of_date_and_time(&d, t as i32);
        self.matches(moment)
    }
}

/// Departure delays of the observations at one stop, in order.
pub open spec fn spec_departure_delays(rows: Seq<DbItem>, sid: Seq<u8>, n: int) -> Seq<i64>
    decreases n,
{
    if n <= 0 {
        Seq::empty()
    } else {
        let prev = spec_departure_delays(rows, sid, n - 1);
        if rows[n - 1].stop_id@ == sid {
            match rows[n - 1].delay_departure {
                Some(d) => prev.push(d),
                None => prev,
            }
        } else {
            prev
        }
    }
}

/// Collects the departure delays observed at one stop.
pub fn departure_delays_at_stop(rows: &Vec<DbItem>, stop_id: &Vec<u8>) -> (r: Vec<i64>)
    ensures
        r@ == spec_departure_delays(rows@, stop_id@, rows@.len() as int),
        r@.len() <= rows@.len(),
{
    let mut r: Vec<i64> = Vec::new();
    let mut i: usize = 0;
    proof {
        assert(r@ =~= spec_departure_delays(rows@, stop_id@, 0));
    }
    while i < rows.len()
        invariant
            0 <= i <= rows@.len(),
            r@ == spec_departure_delays(rows@, stop_id@, i as int),
            r@.len() <= i,
        decreases rows@.len() - i,
    {
        if bytes_eq(&rows[i].stop_id, stop_id) {
            match rows[i].delay_departure {
                Some(d) => {
                    r.push(d);
                },
                None => {},
            }
        }
        i = i + 1;
    }
    r
}

/// The inbound delays of the joined pairs, in order.
pub open spec fn spec_firsts(pairs: Seq<(i64, i64)>, n: int) -> Seq<i64>
    decreases n,
{
    if n <= 0 {
        Seq::empty()
    } else {
        spec_firsts(pairs, n - 1).push(pairs[n - 1].0)
    }
}

/// The outbound delays of the pairs whose inbound delay lies in
/// `[lower, upper]`, among the first `n` pairs, in order.
pub open spec fn spec_outs_in(
    pairs: Seq<(i64, i64)>,
    lower: i64,
    upper: i64,
    n: int,
) -> Seq<i64>
    decreases n,
{
    if n <= 0 {
        Seq::empty()
    } else {
        let prev = spec_outs_in(pairs, lower, upper, n - 1);
        if lower <= pairs[n - 1].0 <= upper {
            prev.push(pairs[n - 1].1)
        } else {
            prev
        }
    }
}

/// The sorted outbound delays of one marker window.
pub open spec fn window_ss(pairs: Seq<(i64, i64)>, lower: i64, upper: i64) -> Seq<i64> {
    sort_spec(spec_outs_in(pairs, lower, upper, pairs.len() as int))
}

/// The simplification tolerance of conditional curves.
pub open spec fn curve_tolerance() -> Frac {
    Frac { num: 1, den: 1000 }
}

/// Whether one window yields a curve: its outbound delays hold at least
/// two distinct values spanning 13 seconds or more. (Simplification keeps
/// the end points, so the simplified span equals this one.)
pub open spec fn spec_window_emits(pairs: Seq<(i64, i64)>, lower: i64, upper: i64) -> bool {
    let ss = window_ss(pairs, lower, upper);
    ss.len() > 0 && ss.first() != ss.last() && ss.last() - ss.first() >= 13
}

/// The indices of the emitting windows among the first `k`.
pub open spec fn spec_emitted_windows(pairs: Seq<(i64, i64)>, ms: Seq<i64>, k: int) -> Seq<int>
    decreases k,
{
    if k <= 0 {
        Seq::empty()
    } else {
        let prev = spec_emitted_windows(pairs, ms, k - 1);
        if spec_window_emits(pairs, ms[k - 1], ms[k + 1]) {
            prev.push(k - 1)
        } else {
            prev
        }
    }
}

/// The x values of one window's unweighted curve.
pub open spec fn window_curve_xs(ss: Seq<i64>) -> Seq<i64> {
    distinct_of(ss)
}

/// The cumulative weights of one window's unweighted curve, first point
/// clamped to nothing.
pub open spec fn window_curve_cums(ss: Seq<i64>) -> Seq<u64> {
    Seq::new(distinct_of(ss).len(), |i: int| if i == 0 {
        0u64
    } else {
        cum_weight_le(ss, distinct_of(ss)[i], None, ss.first(), ss.last()) as u64
    })
}

/// The kept indices after simplifying one window's curve.
pub open spec fn window_kept_indices(ss: Seq<i64>) -> Seq<int> {
    spec_simplified_index_list(window_curve_xs(ss), window_curve_cums(ss), ss.len() as u64,
        curve_tolerance())
}

/// That an entry is the sound emission of window `w` of the marker list.
pub open spec fn window_entry_ok(
    pairs: Seq<(i64, i64)>,
    ms: Seq<i64>,
    w: int,
    entry: (i64, Curve),
) -> bool {
    &&& 0 <= w && w + 2 < ms.len()
    &&& emitted_curve_matches(pairs, ms[w], ms[w + 1], ms[w + 2], entry)
}

/// That an emitted entry is the window's simplified curve under the
/// middle marker's label.
pub open spec fn emitted_curve_matches(
    pairs: Seq<(i64, i64)>,
    lower: i64,
    mid: i64,
    upper: i64,
    entry: (i64, Curve),
) -> bool {
    let ss = window_ss(pairs, lower, upper);
    let idx = window_kept_indices(ss);
    &&& entry.0 == mid
    &&& entry.1.total == ss.len() as u64
    &&& entry.1.xs@ == Seq::new(idx.len(), |m: int| window_curve_xs(ss)[idx[m]])
    &&& entry.1.cums@ == Seq::new(idx.len(), |m: int| window_curve_cums(ss)[idx[m]])
}

/// Builds the conditional output curves for one stop pair: the inbound
/// delays fix the markers, and each sliding window of three consecutive
/// markers yields, exactly when its outbound delays hold two distinct
/// values spanning at least 13 seconds, one unweighted curve over those
/// outbound delays, simplified with tolerance 1/1000 and labeled by the
/// middle marker.
#[verifier::rlimit(100)]
#[verifier::spinoff_prover]
pub fn generate_curves_for_stop_pair(pairs: &Vec<(i64, i64)>) -> (r: Vec<(i64, Curve)>)
    requires
        0 < pairs@.len() <= CURVE_MAX_SAMPLES,
        forall|k: int| 0 <= k < pairs@.len()
            ==> -CURVE_MAX_X <= (#[trigger] pairs@[k]).0 <= CURVE_MAX_X
                && -CURVE_MAX_X <= pairs@[k].1 <= CURVE_MAX_X,
    ensures
        ({
            let sorted = sort_spec(spec_firsts(pairs@, pairs@.len() as int));
            let ms = seq![sorted.first(), sorted.first()]
                + crate::curves::spec_recurse_markers(sorted, sorted.first() as int,
                    sorted.last() as int)
                + seq![sorted.last(), sorted.last()];
            let ws = spec_emitted_windows(pairs@, ms, ms.len() - 2);
            &&& r@.len() == ws.len()
            &&& forall|j: int| 0 <= j < ws.len()
                ==> window_entry_ok(pairs@, ms, ws[j], #[trigger] r@[j])
        }),
        forall|k: int| 0 <= k < r@.len() ==> ({
            let c = (#[trigger] r@[k]).1;
            &&& c.wf()
            &&& c.xs@[c.xs@.len() - 1] - c.xs@[0] >= 13
        }),
{
    let mut ins: Vec<i64> = Vec::new();
    let mut i: usize = 0;
    proof {
        assert(ins@ =~= spec_firsts(pairs@, 0));
    }
    while i < pairs.len()
        invariant
            0 <= i <= pairs@.len(),
            ins@ == spec_firsts(pairs@, i as int),
            ins@.len() == i,
            forall|k: int| 0 <= k < pairs@.len()
                ==> -CURVE_MAX_X <= (#[trigger] pairs@[k]).0 <= CURVE_MAX_X,
            forall|k: int| 0 <= k < i
                ==> -CURVE_MAX_X <= #[trigger] ins@[k] <= CURVE_MAX_X,
        decreases pairs@.len() - i,
    {
        ins.push(pairs[i].0);
        i = i + 1;
    }
    let sorted = sort_samples(&ins);
    proof {
        lemma_sort_spec(ins@);
        assert forall|k: int| 0 <= k < sorted@.len()
            implies -CURVE_MAX_X <= #[trigger] sorted@[k] <= CURVE_MAX_X by {
            assert(sorted@.contains(sorted@[k]));
            assert(ins@.contains(sorted@[k]));
            let m = choose|m: int| 0 <= m < ins@.len() && ins@[m] == sorted@[k];
        }
    }
    let markers = place_markers(&sorted);
    let ghost ms_v = markers@;
    proof {
        assert(ms_v == seq![sorted@[0], sorted@[0]]
            + crate::curves::spec_recurse_markers(sorted@, sorted@[0] as int,
                sorted@[sorted@.len() - 1] as int)
            + seq![sorted@[sorted@.len() - 1], sorted@[sorted@.len() - 1]]);
    }
    let mut out: Vec<(i64, Curve)> = Vec::new();
    let ghost mut ws_acc: Seq<int> = Seq::empty();
    let mut k: usize = 0;
    proof {
        assert(ws_acc =~= spec_emitted_windows(pairs@, ms_v, 0));
    }
    let nmark = markers.len();
    while k < nmark - 2
        invariant
            0 < pairs@.len() <= CURVE_MAX_SAMPLES,
            forall|p: int| 0 <= p < pairs@.len()
                ==> -CURVE_MAX_X <= (#[trigger] pairs@[p]).0 <= CURVE_MAX_X
                    && -CURVE_MAX_X <= pairs@[p].1 <= CURVE_MAX_X,
            0 <= k <= nmark - 2,
            nmark == markers@.len() >= 4,
            ms_v == markers@,
            ws_acc == spec_emitted_windows(pairs@, ms_v, k as int),
            out@.len() == ws_acc.len(),
            forall|j: int| 0 <= j < ws_acc.len()
                ==> window_entry_ok(pairs@, ms_v, ws_acc[j], #[trigger] out@[j]),
            forall|p: int| 0 <= p < out@.len() ==> ({
                let c = (#[trigger] out@[p]).1;
                &&& c.wf()
                &&& c.xs@[c.xs@.len() - 1] - c.xs@[0] >= 13
            }),
        decreases markers@.len() - k,
    {
        let lower = markers[k];
        let mid = markers[k + 1];
        let upper = markers[k + 2];
        let mut outs: Vec<i64> = Vec::new();
        let mut p: usize = 0;
        proof {
            assert(outs@ =~= spec_outs_in(pairs@, lower, upper, 0));
        }
        while p < pairs.len()
            invariant
                0 <= p <= pairs@.len(),
                outs@ == spec_outs_in(pairs@, lower, upper, p as int),
                outs@.len() <= p,
                forall|m: int| 0 <= m < pairs@.len()
                    ==> -CURVE_MAX_X <= (#[trigger] pairs@[m]).0 <= CURVE_MAX_X
                        && -CURVE_MAX_X <= pairs@[m].1 <= CURVE_MAX_X,
                forall|m: int| 0 <= m < outs@.len()
                    ==> -CURVE_MAX_X <= #[trigger] outs@[m] <= CURVE_MAX_X,
            decreases pairs@.len() - p,
        {
            if lower <= pairs[p].0 && pairs[p].0 <= upper {
                outs.push(pairs[p].1);
            }
            p = p + 1;
        }
        let ghost ssw = window_ss(pairs@, lower, upper);
        let ghost out_pre = out@;
        let ghost ws_pre = ws_acc;
        match make_curve(&outs, None) {
            Some((curve, _weight)) => {
                proof {
                    lemma_sort_spec(outs@);
                    assert(curve.xs@ == window_curve_xs(ssw));
                    assert(curve.total == ssw.len() as u64);
                    assert(curve.cums@ =~= window_curve_cums(ssw));
                }
                let simplified = curve.simplify(Frac { num: 1, den: 1000 });
                let span_hi = simplified.max_x();
                let span_lo = simplified.min_x();
                if span_hi - span_lo >= 13 {
                    proof {
                        assert(spec_window_emits(pairs@, lower, upper)) by {
                            assert(span_hi == ssw.last() && span_lo == ssw.first());
                        }
                        let idx = window_kept_indices(ssw);
                        assert(crate::curves::spec_simplified_index_list(
                            curve.xs@, curve.cums@, curve.total, Frac { num: 1, den: 1000 })
                            == idx);
                        assert forall|m: int| 0 <= m < idx.len()
                            implies #[trigger] simplified.xs@[m]
                                == window_curve_xs(ssw)[idx[m]] by {
                            crate::curves::lemma_simplified_point(curve.xs@, curve.cums@,
                                curve.total, Frac { num: 1, den: 1000 }, simplified.xs@,
                                simplified.cums@, m);
                        }
                        assert forall|m: int| 0 <= m < idx.len()
                            implies #[trigger] simplified.cums@[m]
                                == window_curve_cums(ssw)[idx[m]] by {
                            crate::curves::lemma_simplified_point(curve.xs@, curve.cums@,
                                curve.total, Frac { num: 1, den: 1000 }, simplified.xs@,
                                simplified.cums@, m);
                        }
                        assert(simplified.xs@
                            =~= Seq::new(idx.len(), |m: int| window_curve_xs(ssw)[idx[m]]));
                        assert(simplified.cums@
                            =~= Seq::new(idx.len(), |m: int| window_curve_cums(ssw)[idx[m]]));
                        assert(emitted_curve_matches(pairs@, ms_v[k as int],
                            ms_v[k as int + 1], ms_v[k as int + 2], (mid, simplified)));
                        assert(window_entry_ok(pairs@, ms_v, k as int, (mid, simplified)));
                        ws_acc = ws_acc.push(k as int);
                    }
                    out.push((mid, simplified));
                    proof {
                        assert forall|j: int| 0 <= j < ws_acc.len()
                            implies window_entry_ok(pairs@, ms_v, ws_acc[j],
                                #[trigger] out@[j]) by {
                            if j < ws_acc.len() - 1 {
                                assert(ws_acc[j] == ws_pre[j]);
                                assert(out@[j] == out_pre[j]);
                                assert(window_entry_ok(pairs@, ms_v, ws_pre[j],
                                    out_pre[j]));
                            } else {
                                assert(ws_acc[j] == k as int);
                                assert(out@[j] == (mid, simplified));
                            }
                        }
                    }
                } else {
                    proof {
                        assert(!spec_window_emits(pairs@, lower, upper)) by {
                            assert(span_hi == ssw.last() && span_lo == ssw.first());
                        }
                    }
                }
            },
            None => {
                proof {
                    lemma_sort_spec(outs@);
                    assert(!spec_window_emits(pairs@, lower, upper)) by {
                        if ssw.len() > 0 && ssw.first() != ssw.last() {
                            assert forall|j: int| 0 <= j < ssw.len()
                                implies #[trigger] ssw[j] <= ssw.last() by {
                                assert(ssw[j] <= ssw[ssw.len() - 1]);
                            }
                            crate::curves::lemma_cum_none_count(ssw, ssw.last(),
                                ssw.first(), ssw.last());
                        }
                    }
                }
            },
        }
        k = k + 1;
    }
    proof {
        assert(k == nmark - 2);
        assert(ms_v.len() - 2 == k as int);
    }
    out
}


/// Fewest observations at one stop for a per-stop curve.
pub const MIN_STOP_OBSERVATIONS: usize = 11;

/// Fewest joined pairs for conditional stop-pair curves.
pub const MIN_JOINED_PAIRS: usize = 21;

/// Whether a delay list fits the curve builder: few enough samples, every
/// value inside the accepted band.
pub open spec fn delays_in_band(delays: Seq<i64>) -> bool {
    delays.len() <= CURVE_MAX_SAMPLES
        && forall|k: int| 0 <= k < delays.len()
            ==> -CURVE_MAX_X <= #[trigger] delays[k] <= CURVE_MAX_X
}

/// Whether a pair list fits the curve builder on both components.
pub open spec fn pairs_in_band(pairs: Seq<(i64, i64)>) -> bool {
    pairs.len() <= CURVE_MAX_SAMPLES
        && forall|k: int| 0 <= k < pairs.len()
            ==> -CURVE_MAX_X <= (#[trigger] pairs[k]).0 <= CURVE_MAX_X
                && -CURVE_MAX_X <= pairs[k].1 <= CURVE_MAX_X
}

/// Decides `delays_in_band`.
fn delays_usable(delays: &Vec<i64>) -> (r: bool)
    ensures
        r == delays_in_band(delays@),
{
    if delays.len() > CURVE_MAX_SAMPLES {
        return false;
    }
    let mut k: usize = 0;
    while k < delays.len()
        invariant
            0 <= k <= delays@.len(),
            forall|m: int| 0 <= m < k
                ==> -CURVE_MAX_X <= #[trigger] delays@[m] <= CURVE_MAX_X,
        decreases delays@.len() - k,
    {
        if delays[k] < -CURVE_MAX_X || delays[k] > CURVE_MAX_X {
            return false;
        }
        k = k + 1;
    }
    true
}

/// Decides `pairs_in_band`.
fn pairs_usable(pairs: &Vec<(i64, i64)>) -> (r: bool)
    ensures
        r == pairs_in_band(pairs@),
{
    if pairs.len() > CURVE_MAX_SAMPLES {
        return false;
    }
    let mut k: usize = 0;
    while k < pairs.len()
        invariant
            0 <= k <= pairs@.len(),
            forall|m: int| 0 <= m < k
                ==> -CURVE_MAX_X <= (#[trigger] pairs@[m]).0 <= CURVE_MAX_X
                    && -CURVE_MAX_X <= pairs@[m].1 <= CURVE_MAX_X,
        decreases pairs@.len() - k,
    {
        if pairs[k].0 < -CURVE_MAX_X || pairs[k].0 > CURVE_MAX_X
            || pairs[k].1 < -CURVE_MAX_X || pairs[k].1 > CURVE_MAX_X {
            return false;
        }
        k = k + 1;
    }
    true
}

/// The per-stop curve policy: a curve is built only over at least eleven
/// usable observations, unweighted; nothing otherwise.
pub fn make_stop_curve(delays: &Vec<i64>) -> (r: Option<(Curve, Frac)>)
    ensures
        match r {
            None => delays@.len() < MIN_STOP_OBSERVATIONS || !delays_in_band(delays@)
                || sort_spec(delays@).first() == sort_spec(delays@).last(),
            Some((c, w)) => ({
                let ss = sort_spec(delays@);
                &&& delays@.len() >= MIN_STOP_OBSERVATIONS
                &&& delays_in_band(delays@)
                &&& ss.first() != ss.last()
                &&& c.wf()
                &&& c.xs@ == distinct_of(ss)
                &&& c.total == ss.len()
                &&& c.cums@ == Seq::new(distinct_of(ss).len(), |i: int| if i == 0 {
                    0u64
                } else {
                    cum_weight_le(ss, distinct_of(ss)[i], None, ss.first(),
                        ss.last()) as u64
                })
                &&& w.num == ss.len() && w.den == 1
            }),
        },
{
    if delays.len() < MIN_STOP_OBSERVATIONS {
        return None;
    }
    if !delays_usable(delays) {
        return None;
    }
    let ghost ss = sort_spec(delays@);
    proof {
        lemma_sort_spec(delays@);
    }
    match make_curve(delays, None) {
        Some((c, w)) => {
            proof {
                assert(c.cums@ =~= Seq::new(distinct_of(ss).len(), |i: int| if i == 0 {
                    0u64
                } else {
                    cum_weight_le(ss, distinct_of(ss)[i], None, ss.first(),
                        ss.last()) as u64
                }));
            }
            Some((c, w))
        },
        None => {
            proof {
                assert forall|j: int| 0 <= j < ss.len()
                    implies #[trigger] ss[j] <= ss.last() by {
                    assert(ss[j] <= ss[ss.len() - 1]);
                }
                crate::curves::lemma_cum_none_count(ss, ss.last(), ss.first(), ss.last());
            }
            None
        },
    }
}

/// The stop-pair curve policy: conditional curves are built only over at
/// least twenty-one usable joined pairs; nothing otherwise.
pub fn make_stop_pair_curves(pairs: &Vec<(i64, i64)>) -> (r: Option<Vec<(i64, Curve)>>)
    ensures
        match r {
            None => pairs@.len() < MIN_JOINED_PAIRS || !pairs_in_band(pairs@),
            Some(cs) => pairs@.len() >= MIN_JOINED_PAIRS && pairs_in_band(pairs@) && ({
                let sorted = sort_spec(spec_firsts(pairs@, pairs@.len() as int));
                let ms = seq![sorted.first(), sorted.first()]
                    + crate::curves::spec_recurse_markers(sorted, sorted.first() as int,
                        sorted.last() as int)
                    + seq![sorted.last(), sorted.last()];
                let ws = spec_emitted_windows(pairs@, ms, ms.len() - 2);
                &&& cs@.len() == ws.len()
                &&& forall|j: int| 0 <= j < ws.len()
                    ==> window_entry_ok(pairs@, ms, ws[j], #[trigger] cs@[j])
            }),
        },
{
    if pairs.len() < MIN_JOINED_PAIRS {
        return None;
    }
    if !pairs_usable(pairs) {
        return None;
    }
    Some(generate_curves_for_stop_pair(pairs))
}

} // verus!
