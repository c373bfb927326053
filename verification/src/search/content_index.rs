//! Background indexing of bookmark pages: which pages go first, and the
//! progress of the indexing.
use vstd::prelude::*;

use crate::bookmark::{flat_views, FlatBookmark, FlatView};
use crate::search::common::{extract_domain, url_host};
use crate::text::same_text;

verus! {

/// The rank of a domain in the order pages are fetched: documentation
/// sites first, then technical blogs, then the rest.
pub open spec fn priority_of(domain: Seq<char>) -> u32 {
    if domain == "docs.rs"@ || domain == "doc.rust-lang.org"@ {
        0
    } else if domain == "react.dev"@ || domain == "reactjs.org"@ {
        1
    } else if domain == "developer.mozilla.org"@ {
        2
    } else if domain == "docs.github.com"@ {
        3
    } else if domain == "docs.aws.amazon.com"@ {
        4
    } else if domain == "medium.com"@ || domain == "dev.to"@ {
        10
    } else if domain == "stackoverflow.com"@ {
        11
    } else {
        100
    }
}

/// The rank of a domain in the order pages are fetched.
pub fn domain_priority(domain: &str) -> (r: u32)
    ensures
        r == priority_of(domain@),
{
    proof {
        reveal_strlit("docs.rs");
        reveal_strlit("doc.rust-lang.org");
        reveal_strlit("react.dev");
        reveal_strlit("reactjs.org");
        reveal_strlit("developer.mozilla.org");
        reveal_strlit("docs.github.com");
        reveal_strlit("docs.aws.amazon.com");
        reveal_strlit("medium.com");
        reveal_strlit("dev.to");
        reveal_strlit("stackoverflow.com");
    }
    if same_text(domain, "docs.rs") || same_text(domain, "doc.rust-lang.org") {
        0
    } else if same_text(domain, "react.dev") || same_text(domain, "reactjs.org") {
        1
    } else if same_text(domain, "developer.mozilla.org") {
        2
    } else if same_text(domain, "docs.github.com") {
        3
    } else if same_text(domain, "docs.aws.amazon.com") {
        4
    } else if same_text(domain, "medium.com") || same_text(domain, "dev.to") {
        10
    } else if same_text(domain, "stackoverflow.com") {
        11
    } else {
        100
    }
}

/// The rank of a bookmark: that of the host of its URL, or of the empty
/// domain where the URL has none.
pub open spec fn bookmark_priority(b: FlatView) -> u32 {
    match url_host(b.url) {
        Some(h) => priority_of(h),
        None => priority_of(Seq::empty()),
    }
}

/// `s` with `x` placed before the first bookmark of a later rank, so that
/// bookmarks of equal rank keep their order.
pub open spec fn insert_by_priority(s: Seq<FlatView>, x: FlatView) -> Seq<FlatView>
    decreases s.len(),
{
    if s.len() == 0 {
        seq![x]
    } else if bookmark_priority(x) < bookmark_priority(s[0]) {
        seq![x] + s
    } else {
        seq![s[0]] + insert_by_priority(s.drop_first(), x)
    }
}

/// The bookmarks ordered by rank, first rank first; bookmarks of equal rank
/// keep their order (a stable sort).
pub open spec fn sort_by_priority(s: Seq<FlatView>) -> Seq<FlatView>
    decreases s.len(),
{
    if s.len() == 0 {
        s
    } else {
        insert_by_priority(sort_by_priority(s.drop_last()), s.last())
    }
}

/// Whether the bookmarks are ordered by rank, first rank first.
pub open spec fn ordered_by_priority(s: Seq<FlatView>) -> bool {
    forall|i: int, j: int| 0 <= i < j < s.len() ==> bookmark_priority(s[i]) <= bookmark_priority(s[j])
}

/// Inserting into an ordered sequence keeps it ordered and adds the
/// bookmark.
proof fn lemma_insert_by_priority(s: Seq<FlatView>, x: FlatView)
    requires
        ordered_by_priority(s),
    ensures
        ordered_by_priority(insert_by_priority(s, x)),
        insert_by_priority(s, x).len() == s.len() + 1,
        insert_by_priority(s, x).to_multiset() == s.to_multiset().insert(x),
    decreases s.len(),
{
    broadcast use vstd::seq_lib::group_to_multiset_ensures;

    if s.len() == 0 {
        assert(seq![x] =~= s.push(x));
    } else if bookmark_priority(x) < bookmark_priority(s[0]) {
        assert((seq![x] + s).to_multiset() =~= s.to_multiset().insert(x)) by {
            vstd::seq_lib::lemma_multiset_commutative(seq![x], s);
            assert(seq![x] =~= Seq::<FlatView>::empty().push(x));
        }
    } else {
        let t = s.drop_first();
        lemma_insert_by_priority(t, x);
        let r = insert_by_priority(t, x);
        assert(seq![s[0]] + t =~= s);
        vstd::seq_lib::lemma_multiset_commutative(seq![s[0]], r);
        vstd::seq_lib::lemma_multiset_commutative(seq![s[0]], t);
        assert forall|i: int, j: int| 0 <= i < j < (seq![s[0]] + r).len() implies bookmark_priority(
            (seq![s[0]] + r)[i],
        ) <= bookmark_priority((seq![s[0]] + r)[j]) by {
            if i == 0 {
                let k = j - 1;
                assert(r.to_multiset().count(r[k]) > 0);
                assert(s.to_multiset().insert(x).count(r[k]) > 0);
                if r[k] != x {
                    assert(t.to_multiset().count(r[k]) > 0);
                    let m = choose|m: int| 0 <= m < t.len() && t[m] == r[k];
                    assert(s[m + 1] == t[m]);
                }
            }
        }
    }
}

/// Pages are fetched documentation sites first: the bookmarks come out
/// ordered by the rank of their domain, and none is lost or added.
pub proof fn law_priority_order(s: Seq<FlatView>)
    ensures
        ordered_by_priority(sort_by_priority(s)),
        sort_by_priority(s).len() == s.len(),
        sort_by_priority(s).to_multiset() == s.to_multiset(),
    decreases s.len(),
{
    broadcast use vstd::seq_lib::group_to_multiset_ensures;

    if s.len() > 0 {
        law_priority_order(s.drop_last());
        lemma_insert_by_priority(sort_by_priority(s.drop_last()), s.last());
        assert(s.drop_last().push(s.last()) =~= s);
    }
}

/// The rank of a bookmark.
fn priority_of_bookmark(b: &FlatBookmark) -> (r: u32)
    ensures
        r == bookmark_priority(b@),
{
    match extract_domain(b.url.as_str()) {
        Some(h) => domain_priority(h.as_str()),
        None => {
            let r = domain_priority("");
            proof {
                reveal_strlit("");
                assert(""@ =~= Seq::<char>::empty());
            }
            r
        },
    }
}

/// Inserts `x`, of rank `key`, into `out` (whose ranks are `keys`) as
/// `insert_by_priority` says.
fn insert_bookmark(out: &mut Vec<FlatBookmark>, keys: &mut Vec<u32>, x: FlatBookmark, key: u32)
    requires
        old(keys)@.len() == old(out)@.len(),
        forall|i: int| 0 <= i < old(out)@.len() ==> old(keys)@[i] == bookmark_priority(#[trigger] old(out)@[i]@),
        key == bookmark_priority(x@),
    ensures
        final(keys)@.len() == final(out)@.len(),
        forall|i: int| 0 <= i < final(out)@.len() ==> final(keys)@[i] == bookmark_priority(#[trigger] final(out)@[i]@),
        flat_views(final(out)@) == insert_by_priority(flat_views(old(out)@), x@),
{
    let ghost vs = flat_views(out@);
    let mut k: usize = 0;
    assert(vs.skip(0) =~= vs);
    assert(vs.take(0) + insert_by_priority(vs, x@) =~= insert_by_priority(vs, x@));
    while k < out.len() && keys[k] <= key
        invariant
            k <= out@.len(),
            keys@.len() == out@.len(),
            forall|i: int| 0 <= i < out@.len() ==> keys@[i] == bookmark_priority(#[trigger] out@[i]@),
            key == bookmark_priority(x@),
            vs == flat_views(out@),
            insert_by_priority(vs, x@) == vs.take(k as int) + insert_by_priority(vs.skip(k as int), x@),
        decreases out@.len() - k,
    {
        let ghost t = vs.skip(k as int);
        assert(t[0] == out@[k as int]@);
        assert(t.drop_first() =~= vs.skip(k + 1));
        assert(vs.take(k + 1) =~= vs.take(k as int).push(t[0]));
        assert(vs.take(k as int) + insert_by_priority(t, x@) =~= vs.take(k + 1) + insert_by_priority(
            vs.skip(k + 1),
            x@,
        ));
        k += 1;
    }
    let ghost before = out@;
    let ghost before_keys = keys@;
    out.insert(k, x);
    keys.insert(k, key);
    proof {
        let t = vs.skip(k as int);
        if k < before.len() {
            assert(t[0] == before[k as int]@);
        }
        assert(insert_by_priority(t, x@) =~= seq![x@] + t);
        assert(flat_views(out@) =~= vs.take(k as int) + (seq![x@] + t));
        assert forall|i: int| 0 <= i < out@.len() implies keys@[i] == bookmark_priority(#[trigger] out@[i]@) by {
            if i < k {
                assert(out@[i] == before[i] && keys@[i] == before_keys[i]);
            } else if i > k {
                assert(out@[i] == before[i - 1] && keys@[i] == before_keys[i - 1]);
            }
        }
    }
}

/// The bookmarks in the order their pages are fetched: by the rank of the
/// domain of their URL, documentation sites first; bookmarks of equal rank
/// in their given order.
pub fn sort_by_domain_priority(bookmarks: Vec<FlatBookmark>) -> (r: Vec<FlatBookmark>)
    ensures
        flat_views(r@) == sort_by_priority(flat_views(bookmarks@)),
{
    let ghost all = flat_views(bookmarks@);
    let n = bookmarks.len();
    let mut rest = bookmarks;
    let mut out: Vec<FlatBookmark> = Vec::new();
    let mut keys: Vec<u32> = Vec::new();
    let mut i: usize = 0;
    assert(all.take(0) =~= Seq::<FlatView>::empty());
    assert(flat_views(out@) =~= Seq::<FlatView>::empty());
    assert(flat_views(rest@) =~= all.skip(0));
    while rest.len() > 0
        invariant
            i <= all.len(),
            all.len() == n,
            i + rest@.len() == all.len(),
            flat_views(rest@) == all.skip(i as int),
            keys@.len() == out@.len(),
            forall|m: int| 0 <= m < out@.len() ==> keys@[m] == bookmark_priority(#[trigger] out@[m]@),
            flat_views(out@) == sort_by_priority(all.take(i as int)),
        decreases rest@.len(),
    {
        let ghost before_rest = rest@;
        let b = rest.remove(0);
        proof {
            assert(all.skip(i as int)[0] == b@);
            assert(rest@ =~= before_rest.subrange(1, before_rest.len() as int));
            assert forall|j: int| 0 <= j < rest@.len() implies flat_views(rest@)[j] == all.skip(i + 1)[j] by {
                assert(flat_views(rest@)[j] == rest@[j]@);
                assert(rest@[j] == before_rest[j + 1]);
                assert(flat_views(before_rest)[j + 1] == before_rest[j + 1]@);
                assert(all.skip(i as int)[j + 1] == all[i + 1 + j]);
            }
            assert(flat_views(rest@) =~= all.skip(i + 1));
            assert(all.take(i + 1).drop_last() =~= all.take(i as int));
            assert(all.take(i + 1).last() == b@);
        }
        let key = priority_of_bookmark(&b);
        insert_bookmark(&mut out, &mut keys, b, key);
        i += 1;
    }
    assert(all.take(i as int) =~= all);
    out
}

/// How fetching and indexing one page went.
#[derive(Debug, Clone, Copy, PartialEq, Eq, Structural)]
pub enum PageOutcome {
    /// The page was fetched and indexed.
    Indexed,
    /// The page was fetched but the index update failed.
    IndexFailed,
    /// The page could not be fetched.
    FetchFailed,
    /// Fetching the page took too long.
    TimedOut,
}

/// The progress of a background indexing of `total` pages.
#[derive(Debug, Clone, Copy)]
pub struct BackgroundProgress {
    pub total: usize,
    pub completed: usize,
    pub errors: usize,
}

impl BackgroundProgress {
    /// Whether the counts are consistent: no more errors than pages done,
    /// and no more done than there are.
    pub open spec fn wf(&self) -> bool {
        self.errors <= self.completed <= self.total
    }

    /// The progress before any page is done.
    pub fn new(total: usize) -> (r: Self)
        ensures
            r.wf(),
            r.total == total,
            r.completed == 0,
            r.errors == 0,
    {
        BackgroundProgress { total, completed: 0, errors: 0 }
    }

    /// Counts a page done, as an error unless it was indexed; tells whether
    /// it was the last, after which the index is committed.
    pub fn record(&mut self, outcome: PageOutcome) -> (last: bool)
        requires
            old(self).wf(),
            old(self).completed < old(self).total,
        ensures
            final(self).wf(),
            final(self).total == old(self).total,
            final(self).completed == old(self).completed + 1,
            final(self).errors == old(self).errors + if outcome == PageOutcome::Indexed { 0usize } else { 1usize },
            last == (final(self).completed == final(self).total),
    {
        if outcome != PageOutcome::Indexed {
            self.errors = self.errors + 1;
        }
        self.completed = self.completed + 1;
        self.completed == self.total
    }
}

} // verus!
