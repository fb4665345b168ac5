//! Observation records and the newest-wins store semantics.
//!
//! One record is kept per primary key (source, route id, route variant,
//! trip id, service date, stop sequence). A write for an existing key
//! replaces the stored row only when it carries a strictly fresher
//! `time_of_recording`; this mirrors the paired UPDATE-then-INSERT the
//! relational store executes, so the in-memory table here is the semantic
//! model against which the batched writes are stated and proved.

use vstd::prelude::*;
use vstd::pervasive::VecAdditionalExecFns;
use crate::calendar::Date;
use crate::util::bytes_eq;

verus! {

/// Size cap of one write batch; a fuller buffer is flushed.
pub const MAX_BATCH_SIZE: usize = 1000;

/// One observation row of the `realtime` table.
#[derive(Clone, Debug)]
pub struct Record {
    pub source: Vec<u8>,
    pub route_id: Vec<u8>,
    pub route_variant: Vec<u8>,
    pub trip_id: Vec<u8>,
    pub date: Date,
    pub stop_sequence: u32,
    pub stop_id: Vec<u8>,
    pub time_of_recording: u64,
    pub delay_arrival: Option<i64>,
    pub delay_departure: Option<i64>,
    pub schedule_file_name: Vec<u8>,
}

/// Whether two records share the primary key.
pub open spec fn same_key(a: Record, b: Record) -> bool {
    &&& a.source@ == b.source@
    &&& a.route_id@ == b.route_id@
    &&& a.route_variant@ == b.route_variant@
    &&& a.trip_id@ == b.trip_id@
    &&& a.date == b.date
    &&& a.stop_sequence == b.stop_sequence
}

impl Record {
    /// Primary-key equality, decided in executable code.
    pub fn has_same_key(&self, other: &Record) -> (r: bool)
        ensures
            r == same_key(*self, *other),
    {
        bytes_eq(&self.source, &other.source)
            && bytes_eq(&self.route_id, &other.route_id)
            && bytes_eq(&self.route_variant, &other.route_variant)
            && bytes_eq(&self.trip_id, &other.trip_id)
            && self.date == other.date
            && self.stop_sequence == other.stop_sequence
    }
}

/// Index of the first row of `rows` (at or after `i`) sharing `r`'s key.
pub open spec fn find_key_from(rows: Seq<Record>, r: Record, i: int) -> Option<int>
    decreases rows.len() - i,
{
    if i < 0 || i >= rows.len() {
        None
    } else if same_key(rows[i], r) {
        Some(i)
    } else {
        find_key_from(rows, r, i + 1)
    }
}

/// What one upsert leaves behind: a fresh key is appended; an existing key
/// is overwritten only by a strictly fresher recording time.
pub open spec fn upsert_spec(rows: Seq<Record>, r: Record) -> Seq<Record> {
    match find_key_from(rows, r, 0) {
        None => rows.push(r),
        Some(i) => if rows[i].time_of_recording < r.time_of_recording {
            rows.update(i, r)
        } else {
            rows
        },
    }
}

/// The rows left after upserting every write in order.
pub open spec fn apply_upserts(rows: Seq<Record>, writes: Seq<Record>) -> Seq<Record>
    decreases writes.len(),
{
    if writes.len() == 0 {
        rows
    } else {
        upsert_spec(apply_upserts(rows, writes.drop_last()), writes.last())
    }
}

/// The stored row for `k`'s key, if any.
pub open spec fn row_for_key(rows: Seq<Record>, k: Record) -> Option<Record> {
    match find_key_from(rows, k, 0) {
        Some(i) => Some(rows[i]),
        None => None,
    }
}

/// No two rows share a primary key.
pub open spec fn table_wf(rows: Seq<Record>) -> bool {
    forall|i: int, j: int|
        0 <= i < j < rows.len() ==> !same_key(rows[i], rows[j])
}

/// Key sharing is symmetric.
proof fn lemma_same_key_symmetric(a: Record, b: Record)
    ensures
        same_key(a, b) == same_key(b, a),
{
}

/// Two records sharing a key agree on which third records they share one
/// with.
proof fn lemma_same_key_equiv(x: Record, a: Record, b: Record)
    requires
        same_key(a, b),
    ensures
        same_key(x, a) == same_key(x, b),
        same_key(a, x) == same_key(b, x),
{
}

/// Everything `find_key_from` promises about its result.
proof fn lemma_find_key_from(rows: Seq<Record>, r: Record, i: int)
    requires
        0 <= i <= rows.len(),
    ensures
        match find_key_from(rows, r, i) {
            Some(j) => i <= j < rows.len() && same_key(rows[j], r)
                && forall|m: int| i <= m < j ==> !same_key(rows[m], r),
            None => forall|m: int| i <= m < rows.len() ==> !same_key(rows[m], r),
        },
    decreases rows.len() - i,
{
    if i < rows.len() && !same_key(rows[i], r) {
        lemma_find_key_from(rows, r, i + 1);
    }
}

/// A first match pins `find_key_from` down.
proof fn lemma_find_key_from_converse_some(rows: Seq<Record>, r: Record, j: int)
    requires
        0 <= j < rows.len(),
        same_key(rows[j], r),
        forall|m: int| 0 <= m < j ==> !same_key(rows[m], r),
    ensures
        find_key_from(rows, r, 0) == Some(j),
{
    lemma_find_key_from(rows, r, 0);
    match find_key_from(rows, r, 0) {
        Some(i) => {
            if i < j {
                assert(!same_key(rows[i], r));
            } else if j < i {
                assert(!same_key(rows[j], r));
            }
        },
        None => {
            assert(!same_key(rows[j], r));
        },
    }
}

/// No match anywhere pins `find_key_from` to `None`.
proof fn lemma_find_key_from_converse_none(rows: Seq<Record>, r: Record)
    requires
        forall|m: int| 0 <= m < rows.len() ==> !same_key(rows[m], r),
    ensures
        find_key_from(rows, r, 0) is None,
{
    lemma_find_key_from(rows, r, 0);
    match find_key_from(rows, r, 0) {
        Some(i) => {
            assert(!same_key(rows[i], r));
        },
        None => {},
    }
}

/// Records sharing a key find the same first row.
proof fn lemma_find_key_same(rows: Seq<Record>, a: Record, b: Record, i: int)
    requires
        same_key(a, b),
        0 <= i <= rows.len(),
    ensures
        find_key_from(rows, a, i) == find_key_from(rows, b, i),
    decreases rows.len() - i,
{
    if i < rows.len() {
        lemma_same_key_equiv(rows[i], a, b);
        lemma_find_key_same(rows, a, b, i + 1);
    }
}

/// The in-memory model of the `realtime` table.
#[derive(Clone, Debug)]
pub struct RealtimeTable {
    pub rows: Vec<Record>,
}

impl RealtimeTable {
    /// Unique primary keys.
    pub open spec fn wf(&self) -> bool {
        table_wf(self.rows@)
    }

    /// An empty table.
    pub fn new() -> (t: RealtimeTable)
        ensures
            t.rows@.len() == 0,
            t.wf(),
    {
        RealtimeTable { rows: Vec::new() }
    }

    /// Index of the first row sharing `r`'s key.
    fn find_same_key(&self, r: &Record) -> (res: Option<usize>)
        ensures
            match res {
                Some(i) => i < self.rows@.len()
                    && same_key(self.rows@[i as int], *r)
                    && forall|m: int| 0 <= m < i ==> !same_key(self.rows@[m], *r),
                None => forall|m: int| 0 <= m < self.rows@.len()
                    ==> !same_key(self.rows@[m], *r),
            },
    {
        let mut i: usize = 0;
        while i < self.rows.len()
            invariant
                0 <= i <= self.rows@.len(),
                forall|m: int| 0 <= m < i ==> !same_key(self.rows@[m], *r),
            decreases self.rows@.len() - i,
        {
            if self.rows[i].has_same_key(r) {
                return Some(i);
            }
            i = i + 1;
        }
        None
    }

    /// Applies one write with newest-wins semantics.
    pub fn upsert(&mut self, r: Record)
        requires
            old(self).wf(),
        ensures
            final(self).rows@ == upsert_spec(old(self).rows@, r),
            final(self).wf(),
    {
        let ghost rows0 = self.rows@;
        match self.find_same_key(&r) {
            None => {
                proof {
                    lemma_find_key_from_converse_none(rows0, r);
                }
                self.rows.push(r);
                proof {
                    assert forall|i: int, j: int|
                        0 <= i < j < self.rows@.len()
                            implies !same_key(self.rows@[i], self.rows@[j]) by {
                        if j == rows0.len() {
                            assert(!same_key(rows0[i], r));
                        }
                    }
                }
            },
            Some(i) => {
                proof {
                    lemma_find_key_from_converse_some(rows0, r, i as int);
                }
                if self.rows[i].time_of_recording < r.time_of_recording {
                    let ghost old_row = rows0[i as int];
                    self.rows.set(i, r);
                    proof {
                        assert(same_key(old_row, r));
                        assert forall|p: int, q: int|
                            0 <= p < q < self.rows@.len()
                                implies !same_key(self.rows@[p], self.rows@[q]) by {
                            if p == i as int {
                                lemma_same_key_equiv(rows0[q], old_row, r);
                                lemma_same_key_symmetric(rows0[q], old_row);
                                lemma_same_key_symmetric(rows0[q], r);
                            } else if q == i as int {
                                lemma_same_key_equiv(rows0[p], old_row, r);
                            }
                        }
                    }
                }
            },
        }
    }

    /// Applies a whole batch of writes in order.
    pub fn apply_batch(&mut self, batch: Vec<Record>)
        requires
            old(self).wf(),
        ensures
            final(self).rows@ == apply_upserts(old(self).rows@, batch@),
            final(self).wf(),
    {
        let ghost rows0 = self.rows@;
        let ghost orig = batch@;
        let mut batch = batch;
        let n = batch.len();
        proof {
            assert(orig.len() == n as int);
        }
        let mut done: usize = 0;
        while batch.len() > 0
            invariant
                self.wf(),
                orig.len() <= usize::MAX,
                done + batch@.len() == orig.len(),
                batch@ == orig.subrange(done as int, orig.len() as int),
                self.rows@ == apply_upserts(rows0, orig.subrange(0, done as int)),
            decreases batch@.len(),
        {
            let r = batch.remove(0);
            proof {
                assert(r == orig[done as int]);
                let pre = orig.subrange(0, done as int);
                let post = orig.subrange(0, done as int + 1);
                assert(post.drop_last() =~= pre);
                assert(post.last() == orig[done as int]);
                assert(batch@ =~= orig.subrange(done as int + 1, orig.len() as int));
            }
            self.upsert(r);
            done = done + 1;
        }
        proof {
            assert(orig.subrange(0, done as int) =~= orig);
        }
    }

    /// The stored row for the given key, if any.
    pub fn get(&self, k: &Record) -> (r: Option<&Record>)
        ensures
            match r {
                Some(row) => row_for_key(self.rows@, *k) == Some(*row),
                None => row_for_key(self.rows@, *k) is None,
            },
    {
        match self.find_same_key(k) {
            Some(i) => {
                proof {
                    lemma_find_key_from_converse_some(self.rows@, *k, i as int);
                }
                Some(&self.rows[i])
            },
            None => {
                proof {
                    lemma_find_key_from_converse_none(self.rows@, *k);
                }
                None
            },
        }
    }
}

/// The write that newest-wins semantics should keep for key `k` among
/// `writes`: the first one carrying the largest recording time.
pub open spec fn freshest(writes: Seq<Record>, k: Record) -> Option<Record>
    decreases writes.len(),
{
    if writes.len() == 0 {
        None
    } else {
        let prev = freshest(writes.drop_last(), k);
        let w = writes.last();
        if !same_key(w, k) {
            prev
        } else {
            match prev {
                None => Some(w),
                Some(p) => if p.time_of_recording < w.time_of_recording {
                    Some(w)
                } else {
                    Some(p)
                },
            }
        }
    }
}

/// `freshest` indeed names a write for the key carrying the largest
/// recording time, and names none exactly when no write addressed the key.
pub proof fn lemma_freshest_is_max(writes: Seq<Record>, k: Record)
    ensures
        match freshest(writes, k) {
            Some(r) => writes.contains(r) && same_key(r, k)
                && forall|i: int| 0 <= i < writes.len() && same_key(writes[i], k)
                    ==> writes[i].time_of_recording <= r.time_of_recording,
            None => forall|i: int| 0 <= i < writes.len() ==> !same_key(writes[i], k),
        },
    decreases writes.len(),
{
    if writes.len() > 0 {
        let rest = writes.drop_last();
        lemma_freshest_is_max(rest, k);
        assert(forall|i: int| 0 <= i < rest.len() ==> writes[i] == rest[i]);
        match freshest(rest, k) {
            Some(p) => {
                let wi = choose|i: int| 0 <= i < rest.len() && rest[i] == p;
                assert(writes[wi] == p);
                match freshest(writes, k) {
                    Some(r) => {
                        assert(writes[writes.len() - 1] == writes.last());
                    },
                    None => {},
                }
            },
            None => {},
        }
    }
}

/// An upsert of a write with a foreign key leaves the row for `k` alone.
proof fn lemma_upsert_other_key(rows: Seq<Record>, w: Record, k: Record)
    requires
        !same_key(w, k),
    ensures
        row_for_key(upsert_spec(rows, w), k) == row_for_key(rows, k),
{
    lemma_find_key_from(rows, w, 0);
    lemma_find_key_from(rows, k, 0);
    let rows2 = upsert_spec(rows, w);
    match find_key_from(rows, w, 0) {
        None => {
            assert(rows2 == rows.push(w));
            lemma_row_for_key_prefix(rows, rows2, k);
        },
        Some(i) => {
            if rows[i].time_of_recording < w.time_of_recording {
                assert(rows2 == rows.update(i, w));
                assert(same_key(rows[i], w));
                lemma_same_key_equiv(k, rows[i], w);
                lemma_same_key_symmetric(k, rows[i]);
                lemma_same_key_symmetric(k, w);
                assert(!same_key(rows[i], k));
                assert(!same_key(rows2[i], k));
                lemma_row_for_key_pointwise(rows, rows2, k);
            }
        },
    }
}

/// Tables agreeing pointwise on key matches for `k` store the same row for
/// `k`, provided matching positions hold equal rows.
proof fn lemma_row_for_key_pointwise(rows: Seq<Record>, rows2: Seq<Record>, k: Record)
    requires
        rows2.len() == rows.len(),
        forall|i: int| 0 <= i < rows.len()
            ==> same_key(rows2[i], k) == same_key(rows[i], k),
        forall|i: int| 0 <= i < rows.len() && same_key(rows[i], k)
            ==> rows2[i] == rows[i],
    ensures
        row_for_key(rows2, k) == row_for_key(rows, k),
{
    lemma_find_key_from(rows, k, 0);
    lemma_find_key_from(rows2, k, 0);
    match (find_key_from(rows, k, 0), find_key_from(rows2, k, 0)) {
        (Some(i), Some(j)) => {
            if i < j {
                assert(same_key(rows2[i], k));
            } else if j < i {
                assert(same_key(rows[j], k));
            }
            assert(i == j);
        },
        (Some(i), None) => {
            assert(same_key(rows2[i], k));
        },
        (None, Some(j)) => {
            assert(same_key(rows[j], k));
        },
        (None, None) => {},
    }
}

/// Appending rows with foreign keys does not change the row for `k`.
proof fn lemma_row_for_key_prefix(rows: Seq<Record>, rows2: Seq<Record>, k: Record)
    requires
        rows2.len() >= rows.len(),
        forall|i: int| 0 <= i < rows.len() ==> rows2[i] == rows[i],
        forall|i: int| rows.len() <= i < rows2.len() ==> !same_key(rows2[i], k),
    ensures
        row_for_key(rows2, k) == row_for_key(rows, k),
{
    lemma_find_key_from(rows, k, 0);
    lemma_find_key_from(rows2, k, 0);
    match (find_key_from(rows, k, 0), find_key_from(rows2, k, 0)) {
        (Some(i), Some(j)) => {
            if i < j {
                assert(same_key(rows2[i], k));
            } else if j < i {
                assert(same_key(rows[j], k));
            }
            assert(i == j);
        },
        (Some(i), None) => {
            assert(same_key(rows2[i], k));
        },
        (None, Some(j)) => {
            if j < rows.len() {
                assert(same_key(rows[j], k));
            }
        },
        (None, None) => {},
    }
}

/// Upsert freshness: starting from rows holding no row for `k`'s key,
/// applying any interleaving of writes leaves, for that key, exactly the
/// first write carrying the largest `time_of_recording` among the writes
/// for that key, and no row at all when no write addressed the key.
pub proof fn lemma_upsert_freshness(init: Seq<Record>, writes: Seq<Record>, k: Record)
    requires
        row_for_key(init, k) is None,
    ensures
        row_for_key(apply_upserts(init, writes), k) == freshest(writes, k),
    decreases writes.len(),
{
    if writes.len() > 0 {
        let rest = writes.drop_last();
        let w = writes.last();
        lemma_upsert_freshness(init, rest, k);
        let rows = apply_upserts(init, rest);
        let rows2 = upsert_spec(rows, w);
        if !same_key(w, k) {
            lemma_upsert_other_key(rows, w, k);
        } else {
            lemma_find_key_same(rows, w, k, 0);
            lemma_find_key_from(rows, k, 0);
            match find_key_from(rows, w, 0) {
                None => {
                    // No row for the key yet: the write is appended.
                    assert(rows2 == rows.push(w));
                    lemma_find_key_from_converse_some(rows2, k, rows.len() as int);
                    assert(row_for_key(rows2, k) == Some(w));
                },
                Some(i) => {
                    assert(find_key_from(rows, k, 0) == Some(i));
                    assert(row_for_key(rows, k) == Some(rows[i]));
                    assert(freshest(rest, k) == Some(rows[i]));
                    if rows[i].time_of_recording < w.time_of_recording {
                        assert(rows2 == rows.update(i, w));
                        lemma_same_key_equiv(k, rows[i], w);
                        lemma_same_key_symmetric(k, rows[i]);
                        lemma_same_key_symmetric(k, w);
                        assert forall|m: int| 0 <= m < rows.len() && same_key(rows[m], k)
                            implies rows2[m] == rows[m] || m == i by {}
                        lemma_find_key_from_converse_some_update(rows, rows2, k, i);
                        assert(row_for_key(rows2, k) == Some(w));
                    } else {
                        assert(rows2 == rows);
                    }
                },
            }
        }
    }
}

/// Updating the first `k`-row in place keeps it the first `k`-row.
proof fn lemma_find_key_from_converse_some_update(
    rows: Seq<Record>,
    rows2: Seq<Record>,
    k: Record,
    i: int,
)
    requires
        0 <= i < rows.len(),
        rows2 == rows.update(i, rows2[i]),
        find_key_from(rows, k, 0) == Some(i),
        same_key(rows2[i], k),
    ensures
        find_key_from(rows2, k, 0) == Some(i),
{
    lemma_find_key_from(rows, k, 0);
    assert forall|m: int| 0 <= m < i implies !same_key(rows2[m], k) by {
        assert(rows2[m] == rows[m]);
    }
    lemma_find_key_from_converse_some(rows2, k, i);
}


/// Specification-level image of a `Record`.
pub struct RecordV {
    pub source: Seq<u8>,
    pub route_id: Seq<u8>,
    pub route_variant: Seq<u8>,
    pub trip_id: Seq<u8>,
    pub date: Date,
    pub stop_sequence: u32,
    pub stop_id: Seq<u8>,
    pub time_of_recording: u64,
    pub delay_arrival: Option<i64>,
    pub delay_departure: Option<i64>,
    pub schedule_file_name: Seq<u8>,
}

impl View for Record {
    type V = RecordV;

    open spec fn view(&self) -> RecordV {
        RecordV {
            source: self.source@,
            route_id: self.route_id@,
            route_variant: self.route_variant@,
            trip_id: self.trip_id@,
            date: self.date,
            stop_sequence: self.stop_sequence,
            stop_id: self.stop_id@,
            time_of_recording: self.time_of_recording,
            delay_arrival: self.delay_arrival,
            delay_departure: self.delay_departure,
            schedule_file_name: self.schedule_file_name@,
        }
    }
}

/// Applying concatenated writes equals applying them batch after batch.
pub proof fn lemma_apply_upserts_concat(rows: Seq<Record>, a: Seq<Record>, b: Seq<Record>)
    ensures
        apply_upserts(rows, a + b) == apply_upserts(apply_upserts(rows, a), b),
    decreases b.len(),
{
    if b.len() == 0 {
        assert(a + b =~= a);
    } else {
        lemma_apply_upserts_concat(rows, a, b.drop_last());
        assert((a + b).drop_last() =~= a + b.drop_last());
        assert((a + b).last() == b.last());
    }
}

/// The accumulating front of the batched writer: parameter sets are buffered
/// and handed out as size-capped batches, each to be applied inside one
/// transaction.
#[derive(Debug)]
pub struct BatchedStatements {
    pub buffer: Vec<Record>,
}

impl BatchedStatements {
    /// An empty buffer.
    pub fn new() -> (b: BatchedStatements)
        ensures
            b.buffer@.len() == 0,
    {
        BatchedStatements { buffer: Vec::new() }
    }

    /// Buffers one parameter set; once more than `MAX_BATCH_SIZE` sets are
    /// held, they are handed back as one batch to execute, oldest first.
    pub fn add_parameter_set(&mut self, r: Record) -> (batch: Option<Vec<Record>>)
        ensures
            match batch {
                Some(b) => b@ == old(self).buffer@.push(r)
                    && final(self).buffer@.len() == 0
                    && old(self).buffer@.len() + 1 > MAX_BATCH_SIZE,
                None => final(self).buffer@ == old(self).buffer@.push(r)
                    && old(self).buffer@.len() + 1 <= MAX_BATCH_SIZE,
            },
    {
        self.buffer.push(r);
        if self.buffer.len() > MAX_BATCH_SIZE {
            let mut out: Vec<Record> = Vec::new();
            core::mem::swap(&mut out, &mut self.buffer);
            Some(out)
        } else {
            None
        }
    }

    /// Hands back whatever is buffered as a final batch and clears the
    /// buffer; to be called once at pipeline end.
    pub fn write_to_database(&mut self) -> (batch: Vec<Record>)
        ensures
            batch@ == old(self).buffer@,
            final(self).buffer@.len() == 0,
    {
        let mut out: Vec<Record> = Vec::new();
        core::mem::swap(&mut out, &mut self.buffer);
        out
    }
}

} // verus!
