//! The decisions of the native messaging host that indexes bookmarks sent
//! by the browser extension: message framing, method routing, what is new
//! or changed, when to skip, commit or save, and how to index a content.
use vstd::prelude::*;

use crate::bookmark::FlatBookmark;
use crate::text::{opt_view, same_text};
use std::collections::HashSet;

verus! {

broadcast use vstd::std_specs::hash::group_hash_axioms;

/// The longest message accepted from the extension, in bytes.
pub const MAX_MESSAGE_LEN: u32 = 100_000_000;

/// Contents longer than this, in characters, are split into documents.
pub const MAX_CHARS_PER_DOC: usize = 100_000;

/// Buffered bookmarks of a batch are committed once there are this many.
pub const BATCH_BUFFER: usize = 50;

/// The number that four bytes encode, least significant first.
pub open spec fn le_value(b: [u8; 4]) -> int {
    b[0] as int + 256 * b[1] as int + 65536 * b[2] as int + 16777216 * b[3] as int
}

/// The length a message frame announces (`u32::from_le_bytes`).
pub fn frame_length(b: [u8; 4]) -> (n: u32)
    ensures
        n == le_value(b),
{
    let n = b[0] as u32 + 256 * (b[1] as u32) + 65536 * (b[2] as u32) + 16777216 * (b[3] as u32);
    n
}

/// The four bytes of `n`, least significant first.
pub open spec fn header_of(n: u32) -> [u8; 4] {
    [(n % 256) as u8, ((n / 256) % 256) as u8, ((n / 65536) % 256) as u8, (n / 16777216) as u8]
}

/// The four bytes that announce a message of `n` bytes (`u32::to_le_bytes`).
pub fn frame_header(n: u32) -> (b: [u8; 4])
    ensures
        b == header_of(n),
{
    let b0 = (n % 256) as u8;
    let b1 = ((n / 256) % 256) as u8;
    let b2 = ((n / 65536) % 256) as u8;
    let b3 = (n / 16777216) as u8;
    [b0, b1, b2, b3]
}

/// The length announced by the header of a length is that length.
pub proof fn law_frame_roundtrip(n: u32)
    ensures
        le_value(header_of(n)) == n,
{
    let b = header_of(n);
    assert(b[0] == n % 256);
    assert(b[1] == (n / 256) % 256);
    assert(b[2] == (n / 65536) % 256);
    assert(b[3] == n / 16777216);
    assert(n % 256 + 256 * ((n / 256) % 256) + 65536 * ((n / 65536) % 256) + 16777216 * (n / 16777216) == n)
        by (nonlinear_arith);
}

/// Whether a message of `n` bytes is read: it must be non-empty and at most
/// 100,000,000 bytes long.
pub fn accept_message_length(n: u32) -> (r: bool)
    ensures
        r == (0 < n && n <= MAX_MESSAGE_LEN),
{
    n != 0 && n <= MAX_MESSAGE_LEN
}

/// The requests the host answers.
#[derive(Debug, Clone, Copy, PartialEq, Eq, Structural)]
pub enum HostMethod {
    Ping,
    IndexBookmark,
    GetStats,
    ListIndexes,
    SyncBookmarks,
    CheckForUpdates,
    IndexBookmarkChunk,
    BatchStart,
    BatchAdd,
    BatchEnd,
    Progress,
    IndexBookmarksBatch,
    Initialize,
    /// Any other name: answered with "method not found".
    Unknown,
}

/// The request a method name names.
pub open spec fn method_of(m: Seq<char>) -> HostMethod {
    if m == "ping"@ {
        HostMethod::Ping
    } else if m == "index_bookmark"@ {
        HostMethod::IndexBookmark
    } else if m == "get_stats"@ {
        HostMethod::GetStats
    } else if m == "list_indexes"@ {
        HostMethod::ListIndexes
    } else if m == "sync_bookmarks"@ {
        HostMethod::SyncBookmarks
    } else if m == "check_for_updates"@ {
        HostMethod::CheckForUpdates
    } else if m == "index_bookmark_chunk"@ {
        HostMethod::IndexBookmarkChunk
    } else if m == "batch_start"@ {
        HostMethod::BatchStart
    } else if m == "batch_add"@ {
        HostMethod::BatchAdd
    } else if m == "batch_end"@ {
        HostMethod::BatchEnd
    } else if m == "progress"@ {
        HostMethod::Progress
    } else if m == "index_bookmarks_batch"@ {
        HostMethod::IndexBookmarksBatch
    } else if m == "initialize"@ {
        HostMethod::Initialize
    } else {
        HostMethod::Unknown
    }
}

/// The name by which the extension asks for a request (none for a name
/// the host does not know).
pub open spec fn method_name(m: HostMethod) -> Seq<char> {
    match m {
        HostMethod::Ping => "ping"@,
        HostMethod::IndexBookmark => "index_bookmark"@,
        HostMethod::GetStats => "get_stats"@,
        HostMethod::ListIndexes => "list_indexes"@,
        HostMethod::SyncBookmarks => "sync_bookmarks"@,
        HostMethod::CheckForUpdates => "check_for_updates"@,
        HostMethod::IndexBookmarkChunk => "index_bookmark_chunk"@,
        HostMethod::BatchStart => "batch_start"@,
        HostMethod::BatchAdd => "batch_add"@,
        HostMethod::BatchEnd => "batch_end"@,
        HostMethod::Progress => "progress"@,
        HostMethod::IndexBookmarksBatch => "index_bookmarks_batch"@,
        HostMethod::Initialize => "initialize"@,
        HostMethod::Unknown => Seq::empty(),
    }
}

/// Each method name of the host leads to its own request, and a name that
/// leads to a known request is that request's name: no method of the host
/// is answered as unknown, and no two names share a request.
pub proof fn law_each_method_routed(m: HostMethod, name: Seq<char>)
    ensures
        m !is Unknown ==> method_of(method_name(m)) == m,
        method_of(name) !is Unknown ==> method_name(method_of(name)) == name,
{
    reveal_strlit("ping");
    reveal_strlit("index_bookmark");
    reveal_strlit("get_stats");
    reveal_strlit("list_indexes");
    reveal_strlit("sync_bookmarks");
    reveal_strlit("check_for_updates");
    reveal_strlit("index_bookmark_chunk");
    reveal_strlit("batch_start");
    reveal_strlit("batch_add");
    reveal_strlit("batch_end");
    reveal_strlit("progress");
    reveal_strlit("index_bookmarks_batch");
    reveal_strlit("initialize");
    match m {
        HostMethod::Ping => {

        },
        HostMethod::IndexBookmark => {
            assert("index_bookmark"@.len() != "ping"@.len());
        },
        HostMethod::GetStats => {
            assert("get_stats"@.len() != "ping"@.len());
            assert("get_stats"@.len() != "index_bookmark"@.len());
        },
        HostMethod::ListIndexes => {
            assert("list_indexes"@.len() != "ping"@.len());
            assert("list_indexes"@.len() != "index_bookmark"@.len());
            assert("list_indexes"@.len() != "get_stats"@.len());
        },
        HostMethod::SyncBookmarks => {
            assert("sync_bookmarks"@.len() != "ping"@.len());
            assert("sync_bookmarks"@[0] != "index_bookmark"@[0]);
            assert("sync_bookmarks"@.len() != "get_stats"@.len());
            assert("sync_bookmarks"@.len() != "list_indexes"@.len());
        },
        HostMethod::CheckForUpdates => {
            assert("check_for_updates"@.len() != "ping"@.len());
            assert("check_for_updates"@.len() != "index_bookmark"@.len());
            assert("check_for_updates"@.len() != "get_stats"@.len());
            assert("check_for_updates"@.len() != "list_indexes"@.len());
            assert("check_for_updates"@.len() != "sync_bookmarks"@.len());
        },
        HostMethod::IndexBookmarkChunk => {
            assert("index_bookmark_chunk"@.len() != "ping"@.len());
            assert("index_bookmark_chunk"@.len() != "index_bookmark"@.len());
            assert("index_bookmark_chunk"@.len() != "get_stats"@.len());
            assert("index_bookmark_chunk"@.len() != "list_indexes"@.len());
            assert("index_bookmark_chunk"@.len() != "sync_bookmarks"@.len());
            assert("index_bookmark_chunk"@.len() != "check_for_updates"@.len());
        },
        HostMethod::BatchStart => {
            assert("batch_start"@.len() != "ping"@.len());
            assert("batch_start"@.len() != "index_bookmark"@.len());
            assert("batch_start"@.len() != "get_stats"@.len());
            assert("batch_start"@.len() != "list_indexes"@.len());
            assert("batch_start"@.len() != "sync_bookmarks"@.len());
            assert("batch_start"@.len() != "check_for_updates"@.len());
            assert("batch_start"@.len() != "index_bookmark_chunk"@.len());
        },
        HostMethod::BatchAdd => {
            assert("batch_add"@.len() != "ping"@.len());
            assert("batch_add"@.len() != "index_bookmark"@.len());
            assert("batch_add"@[0] != "get_stats"@[0]);
            assert("batch_add"@.len() != "list_indexes"@.len());
            assert("batch_add"@.len() != "sync_bookmarks"@.len());
            assert("batch_add"@.len() != "check_for_updates"@.len());
            assert("batch_add"@.len() != "index_bookmark_chunk"@.len());
            assert("batch_add"@.len() != "batch_start"@.len());
        },
        HostMethod::BatchEnd => {
            assert("batch_end"@.len() != "ping"@.len());
            assert("batch_end"@.len() != "index_bookmark"@.len());
            assert("batch_end"@[0] != "get_stats"@[0]);
            assert("batch_end"@.len() != "list_indexes"@.len());
            assert("batch_end"@.len() != "sync_bookmarks"@.len());
            assert("batch_end"@.len() != "check_for_updates"@.len());
            assert("batch_end"@.len() != "index_bookmark_chunk"@.len());
            assert("batch_end"@.len() != "batch_start"@.len());
            assert("batch_end"@[6] != "batch_add"@[6]);
        },
        HostMethod::Progress => {
            assert("progress"@.len() != "ping"@.len());
            assert("progress"@.len() != "index_bookmark"@.len());
            assert("progress"@.len() != "get_stats"@.len());
            assert("progress"@.len() != "list_indexes"@.len());
            assert("progress"@.len() != "sync_bookmarks"@.len());
            assert("progress"@.len() != "check_for_updates"@.len());
            assert("progress"@.len() != "index_bookmark_chunk"@.len());
            assert("progress"@.len() != "batch_start"@.len());
            assert("progress"@.len() != "batch_add"@.len());
            assert("progress"@.len() != "batch_end"@.len());
        },
        HostMethod::IndexBookmarksBatch => {
            assert("index_bookmarks_batch"@.len() != "ping"@.len());
            assert("index_bookmarks_batch"@.len() != "index_bookmark"@.len());
            assert("index_bookmarks_batch"@.len() != "get_stats"@.len());
            assert("index_bookmarks_batch"@.len() != "list_indexes"@.len());
            assert("index_bookmarks_batch"@.len() != "sync_bookmarks"@.len());
            assert("index_bookmarks_batch"@.len() != "check_for_updates"@.len());
            assert("index_bookmarks_batch"@.len() != "index_bookmark_chunk"@.len());
            assert("index_bookmarks_batch"@.len() != "batch_start"@.len());
            assert("index_bookmarks_batch"@.len() != "batch_add"@.len());
            assert("index_bookmarks_batch"@.len() != "batch_end"@.len());
            assert("index_bookmarks_batch"@.len() != "progress"@.len());
        },
        HostMethod::Initialize => {
            assert("initialize"@.len() != "ping"@.len());
            assert("initialize"@.len() != "index_bookmark"@.len());
            assert("initialize"@.len() != "get_stats"@.len());
            assert("initialize"@.len() != "list_indexes"@.len());
            assert("initialize"@.len() != "sync_bookmarks"@.len());
            assert("initialize"@.len() != "check_for_updates"@.len());
            assert("initialize"@.len() != "index_bookmark_chunk"@.len());
            assert("initialize"@.len() != "batch_start"@.len());
            assert("initialize"@.len() != "batch_add"@.len());
            assert("initialize"@.len() != "batch_end"@.len());
            assert("initialize"@.len() != "progress"@.len());
            assert("initialize"@.len() != "index_bookmarks_batch"@.len());
        },
        HostMethod::Unknown => {},
    }
}

/// The request the method name `method` names.
pub fn route_method(method: &str) -> (r: HostMethod)
    ensures
        r == method_of(method@),
{
    if same_text(method, "ping") {
        HostMethod::Ping
    } else if same_text(method, "index_bookmark") {
        HostMethod::IndexBookmark
    } else if same_text(method, "get_stats") {
        HostMethod::GetStats
    } else if same_text(method, "list_indexes") {
        HostMethod::ListIndexes
    } else if same_text(method, "sync_bookmarks") {
        HostMethod::SyncBookmarks
    } else if same_text(method, "check_for_updates") {
        HostMethod::CheckForUpdates
    } else if same_text(method, "index_bookmark_chunk") {
        HostMethod::IndexBookmarkChunk
    } else if same_text(method, "batch_start") {
        HostMethod::BatchStart
    } else if same_text(method, "batch_add") {
        HostMethod::BatchAdd
    } else if same_text(method, "batch_end") {
        HostMethod::BatchEnd
    } else if same_text(method, "progress") {
        HostMethod::Progress
    } else if same_text(method, "index_bookmarks_batch") {
        HostMethod::IndexBookmarksBatch
    } else if same_text(method, "initialize") {
        HostMethod::Initialize
    } else {
        HostMethod::Unknown
    }
}

/// What the host records of an indexed bookmark.
#[derive(Debug, Clone)]
pub struct IndexedBookmark {
    pub id: String,
    pub url: String,
    pub date_modified: Option<String>,
    /// Seconds since the Unix epoch when it was indexed.
    pub indexed_at: u64,
    /// Hash of the content indexed, if there was one.
    pub content_hash: Option<String>,
}

/// The mathematical value of an indexed-bookmark record.
pub struct RecordView {
    pub id: Seq<char>,
    pub url: Seq<char>,
    pub date_modified: Option<Seq<char>>,
    pub indexed_at: u64,
    pub content_hash: Option<Seq<char>>,
}

impl View for IndexedBookmark {
    type V = RecordView;

    open spec fn view(&self) -> RecordView {
        RecordView {
            id: self.id@,
            url: self.url@,
            date_modified: opt_view(self.date_modified),
            indexed_at: self.indexed_at,
            content_hash: opt_view(self.content_hash),
        }
    }
}

/// The records of the bookmarks indexed, at most one per id.
#[derive(Debug, Clone)]
pub struct IndexRecords {
    records: Vec<IndexedBookmark>,
    last_full_sync: u64,
}

/// The record of `id` among `rs`.
pub open spec fn record_of(rs: Seq<RecordView>, id: Seq<char>) -> Option<RecordView>
    decreases rs.len(),
{
    if rs.len() == 0 {
        None
    } else if rs.last().id == id {
        Some(rs.last())
    } else {
        record_of(rs.drop_last(), id)
    }
}

/// Whether no id occurs twice.
pub open spec fn ids_unique(rs: Seq<RecordView>) -> bool {
    forall|i: int, j: int| 0 <= i < j < rs.len() ==> rs[i].id != rs[j].id
}

impl IndexRecords {
    /// The records, in the order they were first made.
    pub closed spec fn records(&self) -> Seq<RecordView> {
        self.records@.map_values(|r: IndexedBookmark| r@)
    }

    /// No id has two records.
    pub closed spec fn wf(&self) -> bool {
        ids_unique(self.records())
    }

    /// Seconds since the Unix epoch of the last full sync.
    pub closed spec fn synced_at(&self) -> u64 {
        self.last_full_sync
    }

    /// Seconds since the Unix epoch of the last full sync.
    pub fn last_full_sync(&self) -> (t: u64)
        ensures
            t == self.synced_at(),
    {
        self.last_full_sync
    }

    /// Records a full sync at `t` seconds since the Unix epoch.
    pub fn set_last_full_sync(&mut self, t: u64)
        ensures
            final(self).synced_at() == t,
            final(self).records() == old(self).records(),
            final(self).wf() == old(self).wf(),
    {
        self.last_full_sync = t;
    }

    /// The records, in the order they were first made.
    pub fn entries(&self) -> (r: &Vec<IndexedBookmark>)
        ensures
            r@.map_values(|x: IndexedBookmark| x@) == self.records(),
    {
        &self.records
    }

    /// No records, and no sync yet.
    pub fn new() -> (r: Self)
        ensures
            r.wf(),
            r.records().len() == 0,
            r.synced_at() == 0,
    {
        let r = IndexRecords { records: Vec::new(), last_full_sync: 0 };
        assert(r.records() =~= Seq::<RecordView>::empty());
        r
    }

    /// The number of bookmarks recorded.
    pub fn len(&self) -> (n: usize)
        ensures
            n == self.records().len(),
    {
        self.records.len()
    }

    /// The record of `id`, if any.
    pub fn get(&self, id: &str) -> (r: Option<&IndexedBookmark>)
        requires
            self.wf(),
        ensures
            match record_of(self.records(), id@) {
                Some(v) => r matches Some(x) && x@ == v,
                None => r is None,
            },
    {
        let n = self.records.len();
        let mut i = n;
        assert(self.records().take(n as int) =~= self.records());
        while i > 0
            invariant
                i <= n == self.records@.len(),
                record_of(self.records(), id@) == record_of(self.records().take(i as int), id@),
            decreases i,
        {
            let r = &self.records[i - 1];
            proof {
                assert(self.records().take(i as int).drop_last() =~= self.records().take(i - 1));
                assert(self.records().take(i as int).last() == r@);
            }
            if same_text(r.id.as_str(), id) {
                return Some(r);
            }
            i -= 1;
        }
        None
    }

    /// Records `rec`, replacing the record of its id if there is one.
    pub fn insert(&mut self, rec: IndexedBookmark)
        requires
            old(self).wf(),
        ensures
            final(self).wf(),
            record_of(final(self).records(), rec.id@) == Some(rec@),
            forall|other: Seq<char>| other != rec.id@ ==> record_of(final(self).records(), other)
                == record_of(old(self).records(), other),
            final(self).synced_at() == old(self).synced_at(),
    {
        let ghost old_rs = self.records();
        let n = self.records.len();
        let mut i: usize = 0;
        while i < n
            invariant
                n == self.records@.len(),
                self.records() == old_rs,
                self.last_full_sync == old(self).last_full_sync,
                old_rs == old(self).records(),
                ids_unique(old_rs),
                i <= n,
                forall|k: int| 0 <= k < i ==> old_rs[k].id != rec.id@,
            decreases n - i,
        {
            if same_text(self.records[i].id.as_str(), rec.id.as_str()) {
                let ghost v = rec@;
                self.records.set(i, rec);
                proof {
                    let new_rs = self.records();
                    assert(new_rs =~= old_rs.update(i as int, v));
                    lemma_record_of_update(old_rs, i as int, v);
                }
                return;
            }
            i += 1;
        }
        let ghost v = rec@;
        self.records.push(rec);
        proof {
            assert(self.records() =~= old_rs.push(v));
            lemma_record_of_absent(old_rs, v.id);
            assert(self.records().drop_last() =~= old_rs);
        }
    }
}

/// Looking up an id that no record has finds nothing.
proof fn lemma_record_of_absent(rs: Seq<RecordView>, id: Seq<char>)
    requires
        forall|k: int| 0 <= k < rs.len() ==> rs[k].id != id,
    ensures
        record_of(rs, id) is None,
    decreases rs.len(),
{
    if rs.len() > 0 {
        lemma_record_of_absent(rs.drop_last(), id);
    }
}

/// The record of an id is the one with that id.
proof fn lemma_record_of_found(rs: Seq<RecordView>, k: int)
    requires
        ids_unique(rs),
        0 <= k < rs.len(),
    ensures
        record_of(rs, rs[k].id) == Some(rs[k]),
    decreases rs.len(),
{
    if k < rs.len() - 1 {
        assert(rs.last().id != rs[k].id);
        lemma_record_of_found(rs.drop_last(), k);
    }
}

/// Lookups in a sequence with unique ids.
proof fn lemma_record_of_unique(rs: Seq<RecordView>, id: Seq<char>)
    requires
        ids_unique(rs),
    ensures
        record_of(rs, id) matches Some(v) ==> exists|k: int| 0 <= k < rs.len() && rs[k] == v && v.id == id,
        record_of(rs, id) is None ==> forall|k: int| 0 <= k < rs.len() ==> rs[k].id != id,
    decreases rs.len(),
{
    if rs.len() > 0 {
        lemma_record_of_unique(rs.drop_last(), id);
        if rs.last().id != id {
            if let Some(v) = record_of(rs.drop_last(), id) {
                let k = choose|k: int| 0 <= k < rs.drop_last().len() && rs.drop_last()[k] == v && v.id == id;
                assert(rs[k] == v);
            } else {
                assert forall|k: int| 0 <= k < rs.len() implies rs[k].id != id by {
                    if k < rs.len() - 1 {
                        assert(rs[k] == rs.drop_last()[k]);
                    }
                }
            }
        } else {
            assert(rs[rs.len() - 1] == rs.last());
        }
    }
}

/// Replacing the record at `i` by one with the same id changes the lookup
/// of that id only.
proof fn lemma_record_of_update(rs: Seq<RecordView>, i: int, v: RecordView)
    requires
        ids_unique(rs),
        0 <= i < rs.len(),
        rs[i].id == v.id,
    ensures
        ids_unique(rs.update(i, v)),
        record_of(rs.update(i, v), v.id) == Some(v),
        forall|other: Seq<char>| other != v.id ==> record_of(rs.update(i, v), other) == record_of(rs, other),
{
    let t = rs.update(i, v);
    assert(ids_unique(t));
    lemma_record_of_found(t, i);
    assert forall|other: Seq<char>| other != v.id implies record_of(t, other) == record_of(rs, other) by {
        lemma_record_of_unique(rs, other);
        lemma_record_of_unique(t, other);
        match record_of(rs, other) {
            Some(w) => {
                let k = choose|k: int| 0 <= k < rs.len() && rs[k] == w && w.id == other;
                assert(k != i);
                assert(t[k] == w);
                lemma_record_of_found(t, k);
            },
            None => {
                assert forall|k: int| 0 <= k < t.len() implies t[k].id != other by {
                    if k != i {
                        assert(t[k] == rs[k]);
                    }
                }
                lemma_record_of_absent(t, other);
            },
        }
    }
}

/// A bookmark announced by the extension: its id where it has one, and its
/// date of last change.
#[derive(Debug, Clone)]
pub struct Announced {
    pub id: Option<String>,
    pub date_modified: Option<String>,
}

/// The ids of the announced bookmarks that are new, and of those that
/// changed, given the records `rs` (none when there are no records yet).
/// With records, a bookmark without an id counts under the empty id.
pub open spec fn classify_spec(
    rs: Option<Seq<RecordView>>,
    announced: Seq<(Option<Seq<char>>, Option<Seq<char>>)>,
) -> (Seq<Seq<char>>, Seq<Seq<char>>)
    decreases announced.len(),
{
    if announced.len() == 0 {
        (seq![], seq![])
    } else {
        let (new_ids, changed) = classify_spec(rs, announced.drop_last());
        let (id, date) = announced.last();
        match rs {
            None => match id {
                Some(i) => (new_ids.push(i), changed),
                None => (new_ids, changed),
            },
            Some(rs) => {
                let key = match id {
                    Some(i) => i,
                    None => Seq::<char>::empty(),
                };
                match record_of(rs, key) {
                    Some(r) => if r.date_modified != date {
                        (new_ids, changed.push(key))
                    } else {
                        (new_ids, changed)
                    },
                    None => (new_ids.push(key), changed),
                }
            },
        }
    }
}

/// The views of the announced bookmarks.
pub open spec fn announced_views(v: Seq<Announced>) -> Seq<(Option<Seq<char>>, Option<Seq<char>>)> {
    v.map_values(|a: Announced| (opt_view(a.id), opt_view(a.date_modified)))
}

/// The ids of the announced bookmarks that are new, and of those that
/// changed since they were indexed.
pub fn check_for_updates(records: Option<&IndexRecords>, announced: &Vec<Announced>) -> (r: (Vec<String>, Vec<String>))
    requires
        records matches Some(rs) ==> rs.wf(),
    ensures
        (crate::text::views(r.0@), crate::text::views(r.1@)) == classify_spec(
            match records {
                Some(rs) => Some(rs.records()),
                None => None,
            },
            announced_views(announced@),
        ),
{
    let ghost rs_view = match records {
        Some(rs) => Some(rs.records()),
        None => None,
    };
    let mut new_ids: Vec<String> = Vec::new();
    let mut changed: Vec<String> = Vec::new();
    let mut i: usize = 0;
    while i < announced.len()
        invariant
            records matches Some(rs) ==> rs.wf(),
            rs_view == (match records {
                Some(rs) => Some(rs.records()),
                None => None,
            }),
            i <= announced@.len(),
            (crate::text::views(new_ids@), crate::text::views(changed@)) == classify_spec(
                rs_view,
                announced_views(announced@).take(i as int),
            ),
        decreases announced@.len() - i,
    {
        let a = &announced[i];
        proof {
            assert(announced_views(announced@).take(i + 1).drop_last() =~= announced_views(announced@).take(i as int));
            assert(announced_views(announced@).take(i + 1).last() == (opt_view(a.id), opt_view(a.date_modified)));
        }
        let ghost n0 = new_ids@;
        let ghost c0 = changed@;
        match records {
            None => {
                if let Some(id) = &a.id {
                    new_ids.push(id.clone());
                    assert(crate::text::views(new_ids@) =~= crate::text::views(n0).push(id@));
                }
            },
            Some(rs) => {
                let key = match &a.id {
                    Some(id) => id.clone(),
                    None => String::new(),
                };
                match rs.get(key.as_str()) {
                    Some(existing) => {
                        if !same_opt_text(&existing.date_modified, &a.date_modified) {
                            changed.push(key);
                            assert(crate::text::views(changed@) =~= crate::text::views(c0).push(key@));
                        }
                    },
                    None => {
                        new_ids.push(key);
                        assert(crate::text::views(new_ids@) =~= crate::text::views(n0).push(key@));
                    },
                }
            },
        }
        i += 1;
    }
    assert(announced_views(announced@).take(announced@.len() as int) =~= announced_views(announced@));
    (new_ids, changed)
}

/// Whether two optional texts are equal.
pub fn same_opt_text(a: &Option<String>, b: &Option<String>) -> (r: bool)
    ensures
        r == (opt_view(*a) == opt_view(*b)),
{
    match (a, b) {
        (Some(x), Some(y)) => same_text(x.as_str(), y.as_str()),
        (None, None) => true,
        _ => false,
    }
}

/// Whether a bookmark need not be indexed again: skipping was asked for, it
/// is recorded, its date of change is the recorded one and its content hash
/// is the recorded one.
pub fn is_unchanged(
    skip_if_unchanged: bool,
    records: Option<&IndexRecords>,
    id: &str,
    date_modified: &Option<String>,
    content_hash: &str,
) -> (r: bool)
    requires
        records matches Some(rs) ==> rs.wf(),
    ensures
        r == (skip_if_unchanged && match records {
            Some(rs) => match record_of(rs.records(), id@) {
                Some(e) => e.date_modified == opt_view(*date_modified) && e.content_hash == Some(content_hash@),
                None => false,
            },
            None => false,
        }),
{
    if !skip_if_unchanged {
        return false;
    }
    match records {
        None => false,
        Some(rs) => match rs.get(id) {
            None => false,
            Some(e) => {
                let same_hash = match &e.content_hash {
                    Some(h) => same_text(h.as_str(), content_hash),
                    None => false,
                };
                same_opt_text(&e.date_modified, date_modified) && same_hash
            },
        },
    }
}

/// Whether the records are saved after one more bookmark is recorded: for
/// small collections always, then at every tenth bookmark.
pub fn should_save_records(count: usize) -> (r: bool)
    ensures
        r == (count % 10 == 0 || count <= 5),
{
    count % 10 == 0 || count <= 5
}

/// Whether batch parameters can start a batch: an id and at least one
/// bookmark.
pub fn valid_batch_params(batch_id: &str, total: usize) -> (r: bool)
    ensures
        r == (batch_id@.len() > 0 && total > 0),
{
    !batch_id.is_empty() && total > 0
}

/// Whether a batch commits its buffer: once it holds 50 bookmarks or all
/// announced bookmarks have arrived.
pub fn batch_should_commit(buffered: usize, received: usize, total: usize) -> (r: bool)
    ensures
        r == (buffered >= BATCH_BUFFER || received == total),
{
    buffered >= BATCH_BUFFER || received == total
}

/// A batch of bookmarks the extension sends one by one: how many it
/// announced, the indexes received, and the bookmarks buffered until they
/// are committed.
#[derive(Debug)]
pub struct HostBatch {
    pub total: usize,
    pub received: HashSet<usize>,
    pub bookmarks: Vec<(FlatBookmark, Option<String>)>,
}

/// What adding a bookmark to a batch leads to.
#[derive(Debug)]
pub enum BatchStep {
    /// A bookmark with that index was received before; nothing changed.
    Duplicate,
    /// The bookmark was added: so many of so many have arrived, and the
    /// buffered bookmarks to commit now, if the buffer is to be committed.
    Added { received: usize, total: usize, commit: Option<Vec<(FlatBookmark, Option<String>)>> },
}

impl HostBatch {
    /// A batch of `total` bookmarks with none received.
    pub fn new(total: usize) -> (r: Self)
        ensures
            r.total == total,
            r.received@ == Set::<usize>::empty(),
            r.bookmarks@.len() == 0,
    {
        HostBatch { total, received: HashSet::new(), bookmarks: Vec::new() }
    }

    /// Adds the bookmark with index `index` and its content, unless one
    /// with that index was received before; the buffer, with the bookmark
    /// in it, is handed out for commit once it holds 50 bookmarks or all
    /// announced bookmarks have arrived.
    pub fn add(&mut self, index: usize, bookmark: FlatBookmark, content: Option<String>) -> (r: BatchStep)
        ensures
            final(self).total == old(self).total,
            old(self).received@.contains(index) ==> r is Duplicate && final(self).received@ == old(self).received@
                && final(self).bookmarks@ == old(self).bookmarks@,
            !old(self).received@.contains(index) ==> final(self).received@ == old(self).received@.insert(index)
                && ({
                let buffered = old(self).bookmarks@.push((bookmark, content));
                let commit = buffered.len() >= BATCH_BUFFER || final(self).received@.len() == old(self).total;
                &&& r matches BatchStep::Added { received, total, commit: c }
                &&& received == final(self).received@.len()
                &&& total == old(self).total
                &&& (commit ==> (c matches Some(v) && v@ == buffered && final(self).bookmarks@.len() == 0))
                &&& (!commit ==> c is None && final(self).bookmarks@ == buffered)
            }),
    {
        if self.received.contains(&index) {
            return BatchStep::Duplicate;
        }
        self.received.insert(index);
        self.bookmarks.push((bookmark, content));
        let received = self.received.len();
        let total = self.total;
        if batch_should_commit(self.bookmarks.len(), received, total) {
            let mut taken: Vec<(FlatBookmark, Option<String>)> = Vec::new();
            std::mem::swap(&mut taken, &mut self.bookmarks);
            BatchStep::Added { received, total, commit: Some(taken) }
        } else {
            BatchStep::Added { received, total, commit: None }
        }
    }

    /// Takes the bookmarks still buffered, leaving the buffer empty.
    pub fn take_buffer(&mut self) -> (r: Vec<(FlatBookmark, Option<String>)>)
        ensures
            r@ == old(self).bookmarks@,
            final(self).bookmarks@.len() == 0,
            final(self).received@ == old(self).received@,
            final(self).total == old(self).total,
    {
        let mut taken: Vec<(FlatBookmark, Option<String>)> = Vec::new();
        std::mem::swap(&mut taken, &mut self.bookmarks);
        taken
    }

    /// The bookmarks received, and those announced but not received.
    pub fn counts(&self) -> (r: (usize, usize))
        requires
            self.received@.len() <= self.total,
        ensures
            r == (self.received@.len() as usize, (self.total - self.received@.len()) as usize),
    {
        let received = self.received.len();
        (received, self.total - received)
    }
}

/// How one bookmark is indexed.
#[derive(Debug, Clone, Copy, PartialEq, Eq, Structural)]
pub enum IndexMode {
    /// Split by pages into several documents.
    SplitByPages,
    /// As one document, with its page information.
    WithPageInfo,
    /// As one document, without page information.
    Plain,
}

/// How a bookmark is indexed: split by pages where it has a content of more
/// than 100,000 characters and more than one page; with its page
/// information where it has some; else plainly.
pub fn choose_index_mode(content_chars: Option<usize>, page_count: Option<usize>) -> (r: IndexMode)
    ensures
        r == (match (content_chars, page_count) {
            (Some(c), Some(p)) => if c > MAX_CHARS_PER_DOC && p > 1 {
                IndexMode::SplitByPages
            } else {
                IndexMode::WithPageInfo
            },
            (None, Some(_)) => IndexMode::WithPageInfo,
            (_, None) => IndexMode::Plain,
        }),
{
    match (content_chars, page_count) {
        (Some(c), Some(p)) => if c > MAX_CHARS_PER_DOC && p > 1 {
            IndexMode::SplitByPages
        } else {
            IndexMode::WithPageInfo
        },
        (None, Some(_)) => IndexMode::WithPageInfo,
        (_, None) => IndexMode::Plain,
    }
}

} // verus!
