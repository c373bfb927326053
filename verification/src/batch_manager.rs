//! Batches of bookmarks sent for indexing one by one: what has arrived, and
//! when the buffered bookmarks are to be committed.
use vstd::prelude::*;

use std::collections::HashSet;
use std::time::{Duration, Instant};

use crate::bookmark::FlatBookmark;
use crate::text::same_text;

verus! {

broadcast use vstd::std_specs::hash::group_hash_axioms;

#[verifier::external_type_specification]
#[verifier::external_body]
pub struct ExInstant(Instant);

/// The current time (`Instant::now`); nothing is known of it.
#[verifier::external_body]
fn instant_now() -> Instant {
    Instant::now()
}

/// The time passed since `i` (`Instant::elapsed`); it depends on the clock.
#[verifier::external_body]
fn instant_elapsed(i: &Instant) -> Duration {
    i.elapsed()
}

/// The whole nanoseconds of `d` (`Duration::as_nanos`); nothing is stated
/// of it, as a duration is opaque here.
#[verifier::external_body]
fn duration_as_nanos(d: &Duration) -> u128 {
    d.as_nanos()
}

/// Batches of this many bookmarks or fewer are committed bookmark by
/// bookmark.
pub const IMMEDIATE_COMMIT_MAX: usize = 2;

/// A batch idle for longer than this, in nanoseconds (two minutes), is stale.
pub const STALE_AFTER_NANOS: u128 = 120_000_000_000;

/// Whether a batch idle for `idle_nanos` nanoseconds is stale.
pub fn stale_after(idle_nanos: u128) -> (r: bool)
    ensures
        r == (idle_nanos > STALE_AFTER_NANOS),
{
    idle_nanos > STALE_AFTER_NANOS
}

/// What adding a bookmark to a batch leads to.
#[derive(Debug)]
pub enum AddOutcome {
    /// A bookmark with that index was already received; nothing changed.
    Duplicate,
    /// The bookmark was buffered.
    Buffered,
    /// The bookmark was added and the buffer emptied: these bookmarks are to
    /// be committed.
    Commit(Vec<(FlatBookmark, String)>),
}

/// What adding the bookmark with index `index` (and its content) to the
/// batch `b0` does, with a buffer of `max` bookmarks: a bookmark with that
/// index received before changes nothing; else the index is recorded, and
/// the buffer with the bookmark added is handed out for commit when the
/// batch is small, when the buffer reaches `max` or when the batch is
/// complete, and kept otherwise.
pub open spec fn accepted(
    b0: BatchState,
    b1: BatchState,
    index: usize,
    bookmark: FlatBookmark,
    content: String,
    max: usize,
    r: AddOutcome,
) -> bool {
    let buffered = b0.bookmarks@.push((bookmark, content));
    let commit = b0.immediate_commit || b0.bookmarks@.len() + 1 >= max || b0.received@.insert(index).len()
        == b0.total;
    &&& b1.total == b0.total
    &&& b1.immediate_commit == b0.immediate_commit
    &&& b1.batch_id@ == b0.batch_id@
    &&& (b0.received@.contains(index) ==> r is Duplicate && b1.received@ == b0.received@ && b1.bookmarks@
        == b0.bookmarks@)
    &&& (!b0.received@.contains(index) ==> b1.received@ == b0.received@.insert(index))
    &&& (!b0.received@.contains(index) && commit ==> (r matches AddOutcome::Commit(v) && v@ == buffered
        && b1.bookmarks@.len() == 0))
    &&& (!b0.received@.contains(index) && !commit ==> (r is Buffered && b1.bookmarks@ == buffered))
}

/// The state of a batch being received.
#[derive(Debug)]
pub struct BatchState {
    pub batch_id: String,
    pub total: usize,
    pub received: HashSet<usize>,
    pub bookmarks: Vec<(FlatBookmark, String)>,
    pub start_time: Instant,
    pub last_activity: Instant,
    pub immediate_commit: bool,
}

impl BatchState {
    /// A batch of `total` bookmarks with none received; small batches are
    /// committed bookmark by bookmark.
    pub fn new(batch_id: String, total: usize) -> (r: Self)
        ensures
            r.batch_id@ == batch_id@,
            r.total == total,
            r.received@ == Set::<usize>::empty(),
            r.bookmarks@.len() == 0,
            r.immediate_commit == (total <= IMMEDIATE_COMMIT_MAX),
            r.start_time == r.last_activity,
    {
        let now = instant_now();
        let last = now;
        let immediate_commit = total <= IMMEDIATE_COMMIT_MAX;
        BatchState {
            batch_id,
            total,
            received: HashSet::new(),
            bookmarks: Vec::with_capacity(total),
            start_time: now,
            last_activity: last,
            immediate_commit,
        }
    }

    /// Records the bookmark with index `index` and buffers it with its
    /// content.
    pub fn add_bookmark(&mut self, index: usize, bookmark: FlatBookmark, content: String)
        ensures
            final(self).received@ == old(self).received@.insert(index),
            final(self).bookmarks@ == old(self).bookmarks@.push((bookmark, content)),
            final(self).batch_id == old(self).batch_id,
            final(self).total == old(self).total,
            final(self).immediate_commit == old(self).immediate_commit,
            final(self).start_time == old(self).start_time,
    {
        self.received.insert(index);
        self.bookmarks.push((bookmark, content));
        self.last_activity = instant_now();
    }

    /// Whether as many bookmarks as announced have been received.
    pub fn is_complete(&self) -> (r: bool)
        ensures
            r == (self.received@.len() == self.total),
    {
        self.received.len() == self.total
    }

    /// Whether nothing has arrived for longer than two minutes.
    pub fn is_stale(&self) -> bool {
        let idle = instant_elapsed(&self.last_activity);
        stale_after(duration_as_nanos(&idle))
    }

    /// The time since the batch was started.
    pub fn elapsed(&self) -> Duration {
        instant_elapsed(&self.start_time)
    }

    /// Adds the bookmark with index `index` unless one with that index was
    /// received before; the buffer is handed out for commit when the batch
    /// is small, when it holds `max_buffer_size` bookmarks or more, or when
    /// the batch is complete.
    pub fn accept(&mut self, index: usize, bookmark: FlatBookmark, content: String, max_buffer_size: usize) -> (r:
        AddOutcome)
        ensures
            accepted(*old(self), *final(self), index, bookmark, content, max_buffer_size, r),
    {
        if self.received.contains(&index) {
            return AddOutcome::Duplicate;
        }
        self.add_bookmark(index, bookmark, content);
        let should_commit = self.immediate_commit || self.bookmarks.len() >= max_buffer_size
            || self.is_complete();
        if should_commit {
            let mut taken: Vec<(FlatBookmark, String)> = Vec::new();
            std::mem::swap(&mut taken, &mut self.bookmarks);
            AddOutcome::Commit(taken)
        } else {
            AddOutcome::Buffered
        }
    }

    /// The result reported when the batch ends: the bookmarks received count
    /// as indexed, the ones announced but not received as failed.
    pub fn result(&self, duration_ms: u64) -> (r: BatchResult)
        ensures
            r.batch_id@ == self.batch_id@,
            r.success_count == self.received@.len(),
            r.failed_count == (if self.total >= self.received@.len() { self.total - self.received@.len() } else { 0 }),
            r.duration_ms == duration_ms,
            r.errors@.len() == 0,
    {
        let received = self.received.len();
        BatchResult {
            batch_id: self.batch_id.clone(),
            success_count: received,
            failed_count: self.total.saturating_sub(received),
            duration_ms,
            errors: Vec::new(),
        }
    }
}

/// The outcome of a batch.
#[derive(Debug)]
pub struct BatchResult {
    pub batch_id: String,
    pub success_count: usize,
    pub failed_count: usize,
    pub duration_ms: u64,
    pub errors: Vec<String>,
}

/// Why a batch cannot be started.
#[derive(Debug, Clone, Copy, PartialEq, Eq, Structural)]
pub enum BatchError {
    /// A batch must announce at least one bookmark.
    EmptyBatch,
}

impl BatchError {
    /// The message reported for the error.
    pub fn message(&self) -> (r: String)
        ensures
            r@ == "Cannot start empty batch"@,
    {
        String::from_str("Cannot start empty batch")
    }
}

/// A new batch of `total` bookmarks; none can be empty.
pub fn start_batch(batch_id: String, total: usize) -> (r: Result<BatchState, BatchError>)
    ensures
        total == 0 ==> r == Err::<BatchState, BatchError>(BatchError::EmptyBatch),
        total > 0 ==> (r matches Ok(b) && b.batch_id@ == batch_id@ && b.total == total
            && b.received@.len() == 0 && b.bookmarks@.len() == 0 && b.immediate_commit == (total
            <= IMMEDIATE_COMMIT_MAX)),
{
    if total == 0 {
        return Err(BatchError::EmptyBatch);
    }
    Ok(BatchState::new(batch_id, total))
}

/// Whether no two batches share an id.
pub open spec fn ids_unique(bs: Seq<BatchState>) -> bool {
    forall|i: int, j: int| 0 <= i < j < bs.len() ==> bs[i].batch_id@ != bs[j].batch_id@
}

/// The first batch of `bs` with the id `id`.
pub open spec fn find_batch(bs: Seq<BatchState>, id: Seq<char>) -> Option<BatchState>
    decreases bs.len(),
{
    if bs.len() == 0 {
        None
    } else if bs[0].batch_id@ == id {
        Some(bs[0])
    } else {
        find_batch(bs.drop_first(), id)
    }
}

/// The indices a batch has received once `idx` have been added, one call of
/// `add_bookmark` each, to the indices `start`.
pub open spec fn received_after(start: Set<usize>, idx: Seq<usize>) -> Set<usize>
    decreases idx.len(),
{
    if idx.len() == 0 {
        start
    } else {
        received_after(start, idx.drop_last()).insert(idx.last())
    }
}

/// A new batch to which the indices `idx` are added has received exactly
/// the distinct indices of `idx`, so it is complete when they number
/// `total`: an index added twice counts once, and the number of calls
/// plays no part.
pub proof fn law_complete_counts_distinct_indices(idx: Seq<usize>, total: usize)
    ensures
        received_after(Set::empty(), idx) == idx.to_set(),
        (received_after(Set::empty(), idx).len() == total) == (idx.to_set().len() == total),
        idx.to_set().len() <= idx.len(),
    decreases idx.len(),
{
    if idx.len() == 0 {
        assert(idx.to_set() =~= Set::empty());
    } else {
        let init = idx.drop_last();
        law_complete_counts_distinct_indices(init, total);
        assert(idx.to_set() =~= init.to_set().insert(idx.last())) by {
            assert forall|a: usize| idx.to_set().contains(a) implies init.to_set().insert(idx.last()).contains(a) by {
                let k = choose|k: int| 0 <= k < idx.len() && idx[k] == a;
                if k < idx.len() - 1 {
                    assert(init[k] == a);
                }
            }
            assert forall|a: usize| init.to_set().insert(idx.last()).contains(a) implies idx.to_set().contains(a) by {
                if a == idx.last() {
                    assert(idx[idx.len() - 1] == a);
                } else {
                    let k = choose|k: int| 0 <= k < init.len() && init[k] == a;
                    assert(idx[k] == a);
                }
            }
        }
        vstd::seq_lib::seq_to_set_is_finite(init);
    }
}

/// Where ids are unique, the batch found for an id is the one with that id,
/// and none is found where no batch has it.
pub proof fn lemma_find_batch(bs: Seq<BatchState>, id: Seq<char>)
    requires
        ids_unique(bs),
    ensures
        forall|k: int| 0 <= k < bs.len() && #[trigger] bs[k].batch_id@ == id ==> find_batch(bs, id) == Some(bs[k]),
        (forall|k: int| 0 <= k < bs.len() ==> #[trigger] bs[k].batch_id@ != id) ==> find_batch(bs, id) is None,
    decreases bs.len(),
{
    if bs.len() > 0 {
        let t = bs.drop_first();
        assert(ids_unique(t)) by {
            assert forall|i: int, j: int| 0 <= i < j < t.len() implies t[i].batch_id@ != t[j].batch_id@ by {
                assert(t[i] == bs[i + 1] && t[j] == bs[j + 1]);
            }
        }
        lemma_find_batch(t, id);
        assert forall|k: int| 0 <= k < bs.len() && #[trigger] bs[k].batch_id@ == id implies find_batch(bs, id) == Some(bs[k]) by {
            if k > 0 {
                assert(bs[0].batch_id@ != bs[k].batch_id@);
                assert(t[k - 1] == bs[k]);
            }
        }
        if forall|k: int| 0 <= k < bs.len() ==> #[trigger] bs[k].batch_id@ != id {
            assert forall|k: int| 0 <= k < t.len() implies #[trigger] t[k].batch_id@ != id by {
                assert(t[k] == bs[k + 1]);
            }
        }
    }
}

/// Batches kept from a table with unique ids are found as they were.
proof fn lemma_kept_lookups(orig: Seq<BatchState>, cur: Seq<BatchState>)
    requires
        ids_unique(orig),
        ids_unique(cur),
        forall|k: int| 0 <= k < cur.len() ==> orig.contains(#[trigger] cur[k]),
    ensures
        forall|id: Seq<char>| #[trigger] find_batch(cur, id) is Some ==> find_batch(cur, id) == find_batch(orig, id),
{
    assert forall|id: Seq<char>| #[trigger] find_batch(cur, id) is Some implies find_batch(cur, id) == find_batch(orig, id) by {
        lemma_find_batch(cur, id);
        lemma_find_batch(orig, id);
        if forall|k: int| 0 <= k < cur.len() ==> #[trigger] cur[k].batch_id@ != id {
        } else {
            let k = choose|k: int| 0 <= k < cur.len() && #[trigger] cur[k].batch_id@ == id;
            assert(orig.contains(cur[k]));
            let m = choose|m: int| 0 <= m < orig.len() && orig[m] == cur[k];
            assert(orig[m].batch_id@ == id);
        }
    }
}

/// Taking a batch out of a table with unique ids leaves the other batches
/// found as they were.
proof fn lemma_remove_lookups(before: Seq<BatchState>, i: int)
    requires
        ids_unique(before),
        0 <= i < before.len(),
    ensures
        ids_unique(before.remove(i)),
        find_batch(before.remove(i), before[i].batch_id@) is None,
        forall|other: Seq<char>| other != before[i].batch_id@ ==> #[trigger] find_batch(before.remove(i), other)
            == find_batch(before, other),
{
    let after = before.remove(i);
    let id = before[i].batch_id@;
    assert forall|x: int, y: int| 0 <= x < y < after.len() implies after[x].batch_id@ != after[y].batch_id@ by {
        let xx = if x < i { x } else { x + 1 };
        let yy = if y < i { y } else { y + 1 };
        assert(after[x] == before[xx] && after[y] == before[yy]);
    }
    lemma_find_batch(after, id);
    assert forall|m: int| 0 <= m < after.len() implies #[trigger] after[m].batch_id@ != id by {
        let mm = if m < i { m } else { m + 1 };
        assert(after[m] == before[mm]);
    }
    assert forall|other: Seq<char>| other != id implies #[trigger] find_batch(after, other) == find_batch(before, other) by {
        lemma_find_batch(after, other);
        lemma_find_batch(before, other);
        if exists|m: int| 0 <= m < before.len() && #[trigger] before[m].batch_id@ == other {
            let m = choose|m: int| 0 <= m < before.len() && #[trigger] before[m].batch_id@ == other;
            assert(m != i);
            let mm = if m < i { m } else { m - 1 };
            assert(after[mm] == before[m]);
        } else {
            assert forall|m: int| 0 <= m < after.len() implies #[trigger] after[m].batch_id@ != other by {
                let mm = if m < i { m } else { m + 1 };
                assert(after[m] == before[mm]);
            }
        }
    }
}

/// The batches being received, each under its id.
pub struct BatchTable {
    batches: Vec<BatchState>,
}

/// Why a batch request cannot be served.
#[derive(Debug, Clone, Copy, PartialEq, Eq, Structural)]
pub enum BatchLookupError {
    /// No batch has the given id.
    NotFound,
}

impl BatchTable {
    /// The batches, in the order they were started.
    pub closed spec fn entries(&self) -> Seq<BatchState> {
        self.batches@
    }

    /// No two batches share an id.
    pub open spec fn wf(&self) -> bool {
        ids_unique(self.entries())
    }

    /// The batch with the id `id`, if any.
    pub open spec fn lookup(&self, id: Seq<char>) -> Option<BatchState> {
        find_batch(self.entries(), id)
    }

    /// No batches.
    pub fn new() -> (r: Self)
        ensures
            r.wf(),
            forall|id: Seq<char>| r.lookup(id) is None,
    {
        BatchTable { batches: Vec::new() }
    }

    /// The position of the batch with the id `id`.
    fn position(&self, id: &str) -> (r: Option<usize>)
        requires
            self.wf(),
        ensures
            r matches Some(i) ==> i < self.entries().len() && self.entries()[i as int].batch_id@ == id@
                && self.lookup(id@) == Some(self.entries()[i as int]),
            r is None ==> self.lookup(id@) is None,
    {
        let mut i: usize = 0;
        while i < self.batches.len()
            invariant
                i <= self.batches@.len(),
                ids_unique(self.batches@),
                forall|k: int| 0 <= k < i ==> #[trigger] self.batches@[k].batch_id@ != id@,
            decreases self.batches@.len() - i,
        {
            if same_text(self.batches[i].batch_id.as_str(), id) {
                proof {
                    lemma_find_batch(self.batches@, id@);
                }
                return Some(i);
            }
            i += 1;
        }
        proof {
            lemma_find_batch(self.batches@, id@);
        }
        None
    }

    /// Starts the batch `batch_id` of `total` bookmarks, replacing a batch
    /// of that id; none can be empty.
    pub fn start_batch(&mut self, batch_id: String, total: usize) -> (r: Result<(), BatchError>)
        requires
            old(self).wf(),
        ensures
            final(self).wf(),
            total == 0 ==> r == Err::<(), BatchError>(BatchError::EmptyBatch) && final(self).entries()
                == old(self).entries(),
            total > 0 ==> r is Ok && (final(self).lookup(batch_id@) matches Some(b) && b.batch_id@ == batch_id@
                && b.total == total && b.received@ == Set::<usize>::empty() && b.bookmarks@.len() == 0 && b.immediate_commit
                == (total <= IMMEDIATE_COMMIT_MAX)),
            total > 0 ==> forall|other: Seq<char>| other != batch_id@ ==> final(self).lookup(other)
                == old(self).lookup(other),
    {
        if total == 0 {
            return Err(BatchError::EmptyBatch);
        }
        let ghost id = batch_id@;
        let ghost before = self.batches@;
        let found = self.position(batch_id.as_str());
        let batch = BatchState::new(batch_id, total);
        let ghost b = batch;
        match found {
            Some(i) => {
                self.batches.remove(i);
                self.batches.insert(i, batch);
                proof {
                    assert(self.batches@ =~= before.update(i as int, b));
                }
            },
            None => {
                self.batches.push(batch);
                proof {
                    lemma_find_batch(before, id);
                }
            },
        }
        proof {
            let after = self.batches@;
            assert forall|x: int, y: int| 0 <= x < y < after.len() implies after[x].batch_id@ != after[y].batch_id@ by {
                if found is Some {
                    let i = found->0 as int;
                    if x != i && y != i {
                        assert(after[x] == before[x] && after[y] == before[y]);
                    } else if x == i {
                        assert(after[y] == before[y]);
                        assert(before[x].batch_id@ == id);
                    } else {
                        assert(after[x] == before[x]);
                        assert(before[y].batch_id@ == id);
                    }
                } else {
                    if y == after.len() - 1 {
                        assert(after[x] == before[x]);
                        assert(before[x].batch_id@ != id);
                    } else {
                        assert(after[x] == before[x] && after[y] == before[y]);
                    }
                }
            }
            lemma_find_batch(after, id);
            lemma_find_batch(before, id);
            let k = if found is Some { found->0 as int } else { after.len() - 1 };
            assert(after[k] == b);
            assert forall|other: Seq<char>| other != id implies find_batch(after, other) == find_batch(before, other) by {
                lemma_find_batch(after, other);
                lemma_find_batch(before, other);
                if exists|m: int| 0 <= m < before.len() && #[trigger] before[m].batch_id@ == other {
                    let m = choose|m: int| 0 <= m < before.len() && #[trigger] before[m].batch_id@ == other;
                    assert(after[m] == before[m]);
                } else {
                    assert forall|m: int| 0 <= m < after.len() implies #[trigger] after[m].batch_id@ != other by {
                        if m != k {
                            assert(after[m] == before[m]);
                        }
                    }
                }
            }
        }
        Ok(())
    }

    /// Adds the bookmark with index `index` to the batch `batch_id`, as
    /// `BatchState::accept` does with a buffer of `max_buffer_size`; the
    /// other batches are left as they are.
    pub fn add_to_batch(
        &mut self,
        batch_id: &str,
        index: usize,
        bookmark: FlatBookmark,
        content: String,
        max_buffer_size: usize,
    ) -> (r: Result<AddOutcome, BatchLookupError>)
        requires
            old(self).wf(),
        ensures
            final(self).wf(),
            old(self).lookup(batch_id@) is None ==> r == Err::<AddOutcome, BatchLookupError>(
                BatchLookupError::NotFound,
            ) && final(self).entries() == old(self).entries(),
            old(self).lookup(batch_id@) matches Some(b0) ==> (r matches Ok(o) && final(self).lookup(batch_id@) matches Some(
                b1,
            ) && accepted(b0, b1, index, bookmark, content, max_buffer_size, o)),
            forall|other: Seq<char>| other != batch_id@ ==> final(self).lookup(other) == old(self).lookup(other),
    {
        let ghost before = self.batches@;
        match self.position(batch_id) {
            None => Err(BatchLookupError::NotFound),
            Some(i) => {
                let mut batch = self.batches.remove(i);
                let ghost b0 = batch;
                let outcome = batch.accept(index, bookmark, content, max_buffer_size);
                let ghost b1 = batch;
                self.batches.insert(i, batch);
                proof {
                    let after = self.batches@;
                    assert(b0 == before[i as int]);
                    assert(after =~= before.update(i as int, b1));
                    assert(after[i as int] == b1);
                    assert(b1.batch_id@ == batch_id@);
                    assert forall|x: int, y: int| 0 <= x < y < after.len() implies after[x].batch_id@
                        != after[y].batch_id@ by {
                        if x != i && y != i {
                            assert(after[x] == before[x] && after[y] == before[y]);
                        } else if x == i {
                            assert(after[y] == before[y]);
                        } else {
                            assert(after[x] == before[x]);
                        }
                    }
                    lemma_find_batch(after, batch_id@);
                    assert forall|other: Seq<char>| other != batch_id@ implies find_batch(after, other)
                        == find_batch(before, other) by {
                        lemma_find_batch(after, other);
                        lemma_find_batch(before, other);
                        if exists|m: int| 0 <= m < before.len() && #[trigger] before[m].batch_id@ == other {
                            let m = choose|m: int| 0 <= m < before.len() && #[trigger] before[m].batch_id@ == other;
                            assert(after[m] == before[m]);
                        } else {
                            assert forall|m: int| 0 <= m < after.len() implies #[trigger] after[m].batch_id@ != other by {
                                if m != i {
                                    assert(after[m] == before[m]);
                                }
                            }
                        }
                    }
                }
                Ok(outcome)
            },
        }
    }

    /// Ends the batch `batch_id`: takes it out of the table and hands it
    /// back, with the bookmarks still buffered.
    pub fn end_batch(&mut self, batch_id: &str) -> (r: Option<BatchState>)
        requires
            old(self).wf(),
        ensures
            final(self).wf(),
            r == old(self).lookup(batch_id@),
            final(self).lookup(batch_id@) is None,
            forall|other: Seq<char>| other != batch_id@ ==> final(self).lookup(other) == old(self).lookup(other),
    {
        let ghost before = self.batches@;
        match self.position(batch_id) {
            None => None,
            Some(i) => {
                let batch = self.batches.remove(i);
                proof {
                    let after = self.batches@;
                    assert forall|x: int, y: int| 0 <= x < y < after.len() implies after[x].batch_id@
                        != after[y].batch_id@ by {
                        let xx = if x < i { x } else { x + 1 };
                        let yy = if y < i { y } else { y + 1 };
                        assert(after[x] == before[xx] && after[y] == before[yy]);
                    }
                    lemma_find_batch(after, batch_id@);
                    assert forall|m: int| 0 <= m < after.len() implies #[trigger] after[m].batch_id@ != batch_id@ by {
                        let mm = if m < i { m } else { m + 1 };
                        assert(after[m] == before[mm]);
                    }
                    assert forall|other: Seq<char>| other != batch_id@ implies find_batch(after, other)
                        == find_batch(before, other) by {
                        lemma_find_batch(after, other);
                        lemma_find_batch(before, other);
                        if exists|m: int| 0 <= m < before.len() && #[trigger] before[m].batch_id@ == other {
                            let m = choose|m: int| 0 <= m < before.len() && #[trigger] before[m].batch_id@ == other;
                            assert(m != i);
                            let mm = if m < i { m } else { m - 1 };
                            assert(after[mm] == before[m]);
                        } else {
                            assert forall|m: int| 0 <= m < after.len() implies #[trigger] after[m].batch_id@ != other by {
                                let mm = if m < i { m } else { m + 1 };
                                assert(after[m] == before[mm]);
                            }
                        }
                    }
                }
                Some(batch)
            },
        }
    }

    /// Takes out the batches that are stale (nothing received for two
    /// minutes, by the clock), in the order they were started, up to the
    /// first that still buffers bookmarks: those are handed back to be
    /// committed, and later batches wait for the next cleanup. The batches
    /// kept are left as they were, and a batch taken out with bookmarks
    /// buffered is always the one handed back. Which batches are stale
    /// depends on the clock and is not stated.
    pub fn cleanup_stale_batches(&mut self) -> (r: Option<Vec<(FlatBookmark, String)>>)
        requires
            old(self).wf(),
        ensures
            final(self).wf(),
            forall|id: Seq<char>| #[trigger] final(self).lookup(id) is Some ==> final(self).lookup(id) == old(
                self,
            ).lookup(id),
            r matches Some(v) ==> v@.len() > 0 && exists|id: Seq<char>|
                (#[trigger] old(self).lookup(id) matches Some(b) && b.bookmarks@ == v@) && final(self).lookup(id) is None,
            forall|id: Seq<char>|
                #[trigger] old(self).lookup(id) is Some && final(self).lookup(id) is None && old(self).lookup(
                    id,
                )->0.bookmarks@.len() > 0 ==> (r matches Some(v) && v@ == old(self).lookup(id)->0.bookmarks@),
    {
        let ghost orig = self.batches@;
        let mut i: usize = 0;
        assert forall|k: int| 0 <= k < self.batches@.len() implies orig.contains(#[trigger] self.batches@[k]) by {
            assert(orig[k] == self.batches@[k]);
        }
        while i < self.batches.len()
            invariant
                i <= self.batches@.len(),
                orig == old(self).entries(),
                ids_unique(orig),
                ids_unique(self.batches@),
                forall|k: int| 0 <= k < self.batches@.len() ==> orig.contains(#[trigger] self.batches@[k]),
                forall|id: Seq<char>|
                    #[trigger] find_batch(orig, id) is Some && find_batch(self.batches@, id) is None
                        ==> find_batch(orig, id)->0.bookmarks@.len() == 0,
            decreases self.batches@.len() - i,
        {
            if self.batches[i].is_stale() {
                let ghost before = self.batches@;
                let batch = self.batches.remove(i);
                proof {
                    let after = self.batches@;
                    lemma_remove_lookups(before, i as int);
                    assert(after =~= before.remove(i as int));
                    let rid = batch.batch_id@;
                    assert(orig.contains(before[i as int]));
                    lemma_find_batch(orig, rid);
                    let m0 = choose|m: int| 0 <= m < orig.len() && orig[m] == before[i as int];
                    assert(orig[m0].batch_id@ == rid);
                    assert(find_batch(orig, rid) == Some(batch));
                    assert forall|x: int, y: int| 0 <= x < y < after.len() implies after[x].batch_id@
                        != after[y].batch_id@ by {
                        let xx = if x < i { x } else { x + 1 };
                        let yy = if y < i { y } else { y + 1 };
                        assert(after[x] == before[xx] && after[y] == before[yy]);
                    }
                    assert forall|k: int| 0 <= k < after.len() implies orig.contains(#[trigger] after[k]) by {
                        let kk = if k < i { k } else { k + 1 };
                        assert(after[k] == before[kk]);
                        assert(orig.contains(before[kk]));
                    }
                }
                if batch.bookmarks.len() > 0 {
                    proof {
                        let after = self.batches@;
                        let id = batch.batch_id@;
                        assert(orig.contains(before[i as int]));
                        let m = choose|m: int| 0 <= m < orig.len() && orig[m] == before[i as int];
                        lemma_find_batch(orig, id);
                        lemma_find_batch(after, id);
                        assert forall|k: int| 0 <= k < after.len() implies #[trigger] after[k].batch_id@ != id by {
                            let kk = if k < i { k } else { k + 1 };
                            assert(after[k] == before[kk]);
                        }
                        assert(find_batch(orig, id) == Some(orig[m]));
                        assert(orig[m] == batch);
                        assert(old(self).lookup(id) == Some(batch));
                        assert(find_batch(after, id) is None);
                        lemma_kept_lookups(orig, after);
                        assert forall|id2: Seq<char>|
                            #[trigger] find_batch(orig, id2) is Some && find_batch(after, id2) is None
                                && find_batch(orig, id2)->0.bookmarks@.len() > 0 implies id2 == id
                                && find_batch(orig, id2)->0.bookmarks@ == batch.bookmarks@ by {
                            if id2 != id {
                                assert(find_batch(after, id2) == find_batch(before, id2));
                            }
                        }
                    }
                    return Some(batch.bookmarks);
                }
                proof {
                    let after = self.batches@;
                    let rid = batch.batch_id@;
                    assert forall|id2: Seq<char>|
                        #[trigger] find_batch(orig, id2) is Some && find_batch(after, id2) is None
                            implies find_batch(orig, id2)->0.bookmarks@.len() == 0 by {
                        if id2 != rid {
                            assert(find_batch(after, id2) == find_batch(before, id2));
                        }
                    }
                }
            } else {
                i += 1;
            }
        }
        proof {
            lemma_kept_lookups(orig, self.batches@);
        }
        None
    }

    /// How many bookmarks of how many the batch `batch_id` has received.
    pub fn get_batch_status(&self, batch_id: &str) -> (r: Option<(usize, usize)>)
        requires
            self.wf(),
        ensures
            match self.lookup(batch_id@) {
                Some(b) => r == Some((b.received@.len() as usize, b.total)),
                None => r is None,
            },
    {
        match self.position(batch_id) {
            None => None,
            Some(i) => Some((self.batches[i].received.len(), self.batches[i].total)),
        }
    }

    /// The ids of the batches being received, in the order they were
    /// started.
    pub fn get_active_batches(&self) -> (r: Vec<String>)
        ensures
            r@.len() == self.entries().len(),
            forall|i: int| 0 <= i < r@.len() ==> #[trigger] r@[i]@ == self.entries()[i].batch_id@,
    {
        let mut ids: Vec<String> = Vec::new();
        let mut i: usize = 0;
        while i < self.batches.len()
            invariant
                i <= self.batches@.len(),
                ids@.len() == i,
                forall|k: int| 0 <= k < i ==> #[trigger] ids@[k]@ == self.batches@[k].batch_id@,
            decreases self.batches@.len() - i,
        {
            ids.push(self.batches[i].batch_id.clone());
            i += 1;
        }
        ids
    }
}

} // verus!
