//! Transfer of large contents in chunks: splitting a text into pieces of
//! bounded UTF-8 size, and putting the pieces received back together.
use vstd::prelude::*;
use vstd::utf8::*;

use std::collections::HashMap;

use crate::text::{chars_of, string_from_range, views};

verus! {

broadcast use vstd::std_specs::hash::group_hash_axioms;

/// The number of bytes that encode `c` in UTF-8.
pub open spec fn char_len(c: char) -> nat {
    if (c as u32) < 0x80 {
        1
    } else if (c as u32) < 0x800 {
        2
    } else if (c as u32) < 0x10000 {
        3
    } else {
        4
    }
}

/// The number of bytes that encode `c` in UTF-8.
pub fn utf8_width(c: char) -> (n: usize)
    ensures
        n == char_len(c),
{
    let v = c as u32;
    if v < 0x80 {
        1
    } else if v < 0x800 {
        2
    } else if v < 0x10000 {
        3
    } else {
        4
    }
}

/// The number of characters at the start of `cs` whose UTF-8 encoding fits
/// in `max` bytes.
pub open spec fn fit_len(cs: Seq<char>, max: int) -> nat
    decreases cs.len(),
{
    if cs.len() == 0 || char_len(cs[0]) > max {
        0
    } else {
        1 + fit_len(cs.drop_first(), max - char_len(cs[0]))
    }
}

/// The chunks of `cs`: each the longest run of the characters left whose
/// UTF-8 encoding fits in `max` bytes.
pub open spec fn chunks_of(cs: Seq<char>, max: int) -> Seq<Seq<char>>
    decreases cs.len(),
{
    if cs.len() == 0 {
        seq![]
    } else {
        let n = fit_len(cs, max);
        if n == 0 {
            seq![]
        } else {
            proof {
                lemma_fit_len_bound(cs, max);
            }
            seq![cs.take(n as int)] + chunks_of(cs.skip(n as int), max)
        }
    }
}

/// Whether each character of `cs` fits in `max` bytes on its own.
pub open spec fn each_char_fits(cs: Seq<char>, max: int) -> bool {
    forall|i: int| 0 <= i < cs.len() ==> char_len(#[trigger] cs[i]) <= max
}

/// The texts put one after the other.
pub open spec fn concat_all(parts: Seq<Seq<char>>) -> Seq<char>
    decreases parts.len(),
{
    if parts.len() == 0 {
        seq![]
    } else {
        concat_all(parts.drop_last()) + parts.last()
    }
}

/// A run that fits is no longer than the text.
pub proof fn lemma_fit_len_bound(cs: Seq<char>, max: int)
    ensures
        fit_len(cs, max) <= cs.len(),
    decreases cs.len(),
{
    if !(cs.len() == 0 || char_len(cs[0]) > max) {
        lemma_fit_len_bound(cs.drop_first(), max - char_len(cs[0]));
    }
}

proof fn lemma_fit_len_skip(cs: Seq<char>, max: int, k: int, used: int)
    requires
        0 <= k < cs.len(),
        char_len(cs[k]) <= max - used,
    ensures
        fit_len(cs.skip(k), max - used) == 1 + fit_len(cs.skip(k + 1), max - used - char_len(cs[k])),
{
    assert(cs.skip(k).drop_first() =~= cs.skip(k + 1));
}

/// Splits `content` into chunks of at most `max_chunk_bytes` bytes each,
/// every chunk as long as the bound allows; the chunks joined give back the
/// content.
pub fn split_content_into_chunks(content: &str, max_chunk_bytes: usize) -> (r: Vec<String>)
    requires
        each_char_fits(content@, max_chunk_bytes as int),
    ensures
        views(r@) == chunks_of(content@, max_chunk_bytes as int),
{
    let cs = chars_of(content);
    let max = max_chunk_bytes;
    let mut out: Vec<String> = Vec::new();
    let mut cur: usize = 0;
    assert(cs@.skip(0) =~= cs@);
    while cur < cs.len()
        invariant
            cs@ == content@,
            each_char_fits(cs@, max as int),
            cur <= cs@.len(),
            chunks_of(cs@, max as int) == views(out@) + chunks_of(cs@.skip(cur as int), max as int),
        decreases cs@.len() - cur,
    {
        let mut end = cur;
        let mut used: usize = 0;
        while end < cs.len() && utf8_width(cs[end]) <= max - used
            invariant
                cur <= end <= cs@.len(),
                used <= max,
                fit_len(cs@.skip(cur as int), max as int) == (end - cur) + fit_len(
                    cs@.skip(end as int),
                    max - used,
                ),
            decreases cs@.len() - end,
        {
            proof {
                lemma_fit_len_skip(cs@, max as int, end as int, used as int);
            }
            used = used + utf8_width(cs[end]);
            end += 1;
        }
        proof {
            if end < cs.len() {
                assert(cs@.skip(end as int)[0] == cs@[end as int]);
            }
            if end == cur {
                assert(char_len(cs@[cur as int]) <= max);
                assert(false);
            }
            let rest = cs@.skip(cur as int);
            assert(rest.take((end - cur) as int) =~= cs@.subrange(cur as int, end as int));
            assert(rest.skip((end - cur) as int) =~= cs@.skip(end as int));
        }
        let chunk = string_from_range(&cs, cur, end);
        let ghost before = out@;
        out.push(chunk);
        assert(views(out@) =~= views(before).push(chunk@));
        assert(views(out@) + chunks_of(cs@.skip(end as int), max as int) =~= views(before) + (seq![
            chunk@,
        ] + chunks_of(cs@.skip(end as int), max as int)));
        cur = end;
    }
    assert(chunks_of(cs@.skip(cur as int), max as int) =~= Seq::<Seq<char>>::empty());
    assert(views(out@) + Seq::<Seq<char>>::empty() =~= views(out@));
    out
}

/// The content of chunks `0..total` of `m`, one after the other; none where
/// one of them is missing.
pub open spec fn assembled(m: Map<usize, Seq<char>>, total: nat) -> Option<Seq<char>>
    decreases total,
{
    if total == 0 {
        Some(seq![])
    } else {
        match assembled(m, (total - 1) as nat) {
            None => None,
            Some(s) => if m.contains_key((total - 1) as usize) {
                Some(s + m[(total - 1) as usize])
            } else {
                None
            },
        }
    }
}

/// The views of the chunks of a map.
pub open spec fn chunk_views(m: Map<usize, String>) -> Map<usize, Seq<char>> {
    m.map_values(|s: String| s@)
}

/// Appends `t` to `s`.
fn append_str(s: &mut String, t: &str)
    ensures
        final(s)@ == old(s)@ + t@,
{
    s.append(t);
}

/// The first of chunks `0..total` missing from `chunks`, or their content
/// put together in order.
pub fn assemble_chunks(chunks: &HashMap<usize, String>, total_chunks: usize) -> (r: Result<String, usize>)
    ensures
        match assembled(chunk_views(chunks@), total_chunks as nat) {
            Some(s) => r matches Ok(t) && t@ == s,
            None => r matches Err(i) && i < total_chunks && !chunks@.contains_key(i) && (forall|
                j: usize,
            | j < i ==> chunks@.contains_key(j)),
        },
{
    let ghost m = chunk_views(chunks@);
    let mut full = String::new();
    let mut i: usize = 0;
    while i < total_chunks
        invariant
            i <= total_chunks,
            m == chunk_views(chunks@),
            assembled(m, i as nat) == Some(full@),
            forall|j: usize| j < i ==> chunks@.contains_key(j),
        decreases total_chunks - i,
    {
        match chunks.get(&i) {
            Some(chunk) => {
                append_str(&mut full, chunk.as_str());
                assert(m.contains_key(i) && m[i] == chunk@);
            },
            None => {
                proof {
                    lemma_assembled_missing(m, i, total_chunks as nat);
                }
                return Err(i);
            },
        }
        i += 1;
    }
    Ok(full)
}

/// Once a chunk is missing, the content cannot be put together.
proof fn lemma_assembled_missing(m: Map<usize, Seq<char>>, i: usize, total: nat)
    requires
        i < total,
        !m.contains_key(i),
    ensures
        assembled(m, total) is None,
    decreases total,
{
    if total - 1 > i {
        lemma_assembled_missing(m, i, (total - 1) as nat);
    }
}

/// The content of chunks `0..total_chunks` put together in order, or none
/// where one of them is missing.
pub fn reassemble_chunks(chunks: &HashMap<usize, String>, total_chunks: usize) -> (r: Option<String>)
    ensures
        match assembled(chunk_views(chunks@), total_chunks as nat) {
            Some(s) => r matches Some(t) && t@ == s,
            None => r is None,
        },
{
    match assemble_chunks(chunks, total_chunks) {
        Ok(s) => Some(s),
        Err(_) => None,
    }
}

/// The number of bytes that encode `cs` in UTF-8, counted character by
/// character.
pub open spec fn utf8_size(cs: Seq<char>) -> nat
    decreases cs.len(),
{
    if cs.len() == 0 {
        0
    } else {
        char_len(cs[0]) + utf8_size(cs.drop_first())
    }
}

/// The size counted character by character is the length of the encoding.
pub proof fn lemma_utf8_size(cs: Seq<char>)
    ensures
        utf8_size(cs) == encode_utf8(cs).len(),
    decreases cs.len(),
{
    if cs.len() > 0 {
        lemma_utf8_size(cs.drop_first());
        char_is_scalar(cs[0]);
    }
}

/// The characters counted by `fit_len` fit in `max` bytes.
proof fn lemma_fit_len_size(cs: Seq<char>, max: int)
    ensures
        utf8_size(cs.take(fit_len(cs, max) as int)) <= if max >= 0 { max } else { 0 },
        fit_len(cs, max) < cs.len() ==> utf8_size(cs.take(fit_len(cs, max) as int)) + char_len(
            cs[fit_len(cs, max) as int],
        ) > max,
    decreases cs.len(),
{
    lemma_fit_len_bound(cs, max);
    let n = fit_len(cs, max) as int;
    if cs.len() == 0 || char_len(cs[0]) > max {
        assert(cs.take(0) =~= Seq::<char>::empty());
    } else {
        let t = cs.drop_first();
        lemma_fit_len_size(t, max - char_len(cs[0]));
        lemma_fit_len_bound(t, max - char_len(cs[0]));
        assert(cs.take(n).drop_first() =~= t.take(n - 1));
        assert(cs.take(n)[0] == cs[0]);
        if n < cs.len() {
            assert(cs[n] == t[n - 1]);
        }
    }
}

/// The texts put one after another, the first one in front.
proof fn lemma_concat_front(a: Seq<char>, rest: Seq<Seq<char>>)
    ensures
        concat_all(seq![a] + rest) == a + concat_all(rest),
    decreases rest.len(),
{
    if rest.len() == 0 {
        assert(seq![a] + rest =~= seq![a]);
        assert(seq![a].drop_last() =~= Seq::<Seq<char>>::empty());
        assert(concat_all(seq![a]) == concat_all(Seq::<Seq<char>>::empty()) + a);
        assert(Seq::<char>::empty() + a =~= a);
        assert(a + Seq::<char>::empty() =~= a);
    } else {
        lemma_concat_front(a, rest.drop_last());
        assert((seq![a] + rest).drop_last() =~= seq![a] + rest.drop_last());
        assert((seq![a] + rest).last() == rest.last());
        assert(a + concat_all(rest.drop_last()) + rest.last() =~= a + (concat_all(rest.drop_last())
            + rest.last()));
    }
}

/// The chunks of a text, joined in order, give back the text.
pub proof fn law_chunks_rejoin(cs: Seq<char>, max: int)
    requires
        each_char_fits(cs, max),
    ensures
        concat_all(chunks_of(cs, max)) == cs,
    decreases cs.len(),
{
    if cs.len() > 0 {
        let n = fit_len(cs, max) as int;
        lemma_fit_len_bound(cs, max);
        assert(char_len(cs[0]) <= max);
        let rest = cs.skip(n);
        assert(each_char_fits(rest, max)) by {
            assert forall|i: int| 0 <= i < rest.len() implies char_len(#[trigger] rest[i]) <= max by {
                assert(rest[i] == cs[i + n]);
            }
        }
        law_chunks_rejoin(rest, max);
        lemma_concat_front(cs.take(n), chunks_of(rest, max));
        assert(cs.take(n) + rest =~= cs);
    } else {
        assert(chunks_of(cs, max) =~= Seq::<Seq<char>>::empty());
        assert(cs =~= Seq::<char>::empty());
    }
}

/// Every chunk is non-empty and its UTF-8 encoding fits in `max` bytes; a
/// chunk followed by another could not take the next character without
/// going over.
pub proof fn law_chunks_fit(cs: Seq<char>, max: int)
    requires
        each_char_fits(cs, max),
    ensures
        forall|i: int|
            0 <= i < chunks_of(cs, max).len() ==> (#[trigger] chunks_of(cs, max)[i]).len() > 0
                && encode_utf8(chunks_of(cs, max)[i]).len() <= max,
        forall|i: int|
            0 <= i < chunks_of(cs, max).len() - 1 ==> encode_utf8(#[trigger] chunks_of(cs, max)[i]).len()
                + char_len(chunks_of(cs, max)[i + 1][0]) > max,
    decreases cs.len(),
{
    if cs.len() > 0 {
        let n = fit_len(cs, max) as int;
        lemma_fit_len_bound(cs, max);
        lemma_fit_len_size(cs, max);
        lemma_utf8_size(cs.take(n));
        assert(char_len(cs[0]) <= max);
        let rest = cs.skip(n);
        assert(each_char_fits(rest, max)) by {
            assert forall|i: int| 0 <= i < rest.len() implies char_len(#[trigger] rest[i]) <= max by {
                assert(rest[i] == cs[i + n]);
            }
        }
        law_chunks_fit(rest, max);
        let parts = chunks_of(cs, max);
        let tail = chunks_of(rest, max);
        assert(parts == seq![cs.take(n)] + tail);
        if tail.len() > 0 {
            assert(rest.len() > 0);
            assert(tail[0] == rest.take(fit_len(rest, max) as int));
            assert(fit_len(rest, max) > 0) by {
                assert(char_len(rest[0]) <= max);
            }
            lemma_fit_len_bound(rest, max);
            assert(rest.take(fit_len(rest, max) as int)[0] == rest[0]);
            assert(tail[0][0] == rest[0]);
            assert(rest[0] == cs[n]);
        }
        assert forall|i: int| 0 <= i < parts.len() implies (#[trigger] parts[i]).len() > 0
            && encode_utf8(parts[i]).len() <= max by {
            if i > 0 {
                assert(parts[i] == tail[i - 1]);
            }
        }
        assert forall|i: int| 0 <= i < parts.len() - 1 implies encode_utf8(#[trigger] parts[i]).len()
            + char_len(parts[i + 1][0]) > max by {
            if i > 0 {
                assert(parts[i] == tail[i - 1]);
                assert(parts[i + 1] == tail[i]);
            } else {
                assert(parts[1] == tail[0]);
            }
        }
    }
}

/// The chunks of a text, numbered from 0 in order.
pub open spec fn numbered(parts: Seq<Seq<char>>) -> Map<usize, Seq<char>> {
    Map::new(|i: usize| i < parts.len(), |i: usize| parts[i as int])
}

proof fn lemma_assembled_numbered(parts: Seq<Seq<char>>, k: nat)
    requires
        k <= parts.len(),
        parts.len() <= usize::MAX,
    ensures
        assembled(numbered(parts), k) == Some(concat_all(parts.take(k as int))),
    decreases k,
{
    if k > 0 {
        lemma_assembled_numbered(parts, (k - 1) as nat);
        assert(parts.take(k as int).drop_last() =~= parts.take(k - 1));
        assert(numbered(parts).contains_key((k - 1) as usize));
    } else {
        assert(parts.take(0) =~= Seq::<Seq<char>>::empty());
    }
}

/// Splitting a text into chunks and putting the chunks, numbered in order,
/// back together gives back the text.
pub proof fn law_reassemble_split(cs: Seq<char>, max: int)
    requires
        each_char_fits(cs, max),
        chunks_of(cs, max).len() <= usize::MAX,
    ensures
        assembled(numbered(chunks_of(cs, max)), chunks_of(cs, max).len()) == Some(cs),
{
    let parts = chunks_of(cs, max);
    lemma_assembled_numbered(parts, parts.len());
    assert(parts.take(parts.len() as int) =~= parts);
    law_chunks_rejoin(cs, max);
}

/// The order in which chunks of different numbers arrive does not matter:
/// the chunks received are the same either way, and so is the content they
/// are put together into.
pub proof fn law_chunk_order_independent(
    m: Map<usize, Seq<char>>,
    i: usize,
    a: Seq<char>,
    j: usize,
    b: Seq<char>,
    total: nat,
)
    requires
        i != j,
    ensures
        m.insert(i, a).insert(j, b) == m.insert(j, b).insert(i, a),
        assembled(m.insert(i, a).insert(j, b), total) == assembled(m.insert(j, b).insert(i, a), total),
{
    assert(m.insert(i, a).insert(j, b) =~= m.insert(j, b).insert(i, a));
}

/// What receiving a chunk leads to.
#[derive(Debug)]
pub enum ChunkOutcome {
    /// More chunks are expected: so many of so many have arrived.
    Pending { received: usize, total: usize },
    /// All chunks have arrived; their content put together in order.
    Complete(String),
    /// As many chunks as expected have arrived, but this one is not among them.
    Missing(usize),
}

/// The chunks of one content received so far.
pub struct ChunkSession {
    total_chunks: usize,
    received_chunks: HashMap<usize, String>,
}

impl ChunkSession {
    /// The number of chunks expected.
    pub closed spec fn total(&self) -> nat {
        self.total_chunks as nat
    }

    /// The chunks received, by number.
    pub closed spec fn received(&self) -> Map<usize, Seq<char>> {
        chunk_views(self.received_chunks@)
    }

    /// A session that expects `total_chunks` chunks and has none yet.
    pub fn new(total_chunks: usize) -> (r: Self)
        ensures
            r.total() == total_chunks,
            r.received() == Map::<usize, Seq<char>>::empty(),
    {
        let r = ChunkSession { total_chunks, received_chunks: HashMap::new() };
        assert(r.received() =~= Map::<usize, Seq<char>>::empty());
        r
    }

    /// The number of chunks expected.
    pub fn total_chunks(&self) -> (n: usize)
        ensures
            n == self.total(),
    {
        self.total_chunks
    }

    /// Records chunk `index` (replacing one of that number received before)
    /// and, once as many chunks as expected have arrived, puts them
    /// together in order.
    pub fn receive(&mut self, index: usize, content: String) -> (r: ChunkOutcome)
        ensures
            final(self).total() == old(self).total(),
            final(self).received() == old(self).received().insert(index, content@),
            final(self).received().len() != final(self).total() ==> r == (ChunkOutcome::Pending {
                received: final(self).received().len() as usize,
                total: final(self).total() as usize,
            }),
            final(self).received().len() == final(self).total() ==> match assembled(
                final(self).received(),
                final(self).total(),
            ) {
                Some(s) => r matches ChunkOutcome::Complete(t) && t@ == s,
                None => r matches ChunkOutcome::Missing(i) && i < final(self).total()
                    && !final(self).received().contains_key(i) && (forall|j: usize|
                    j < i ==> final(self).received().contains_key(j)),
            },
    {
        let ghost c = content@;
        self.received_chunks.insert(index, content);
        assert(self.received() =~= old(self).received().insert(index, c));
        assert(self.received().dom() =~= self.received_chunks@.dom());
        let n = self.received_chunks.len();
        assert(n == self.received().len());
        if n == self.total_chunks {
            match assemble_chunks(&self.received_chunks, self.total_chunks) {
                Ok(s) => ChunkOutcome::Complete(s),
                Err(i) => ChunkOutcome::Missing(i),
            }
        } else {
            ChunkOutcome::Pending { received: n, total: self.total_chunks }
        }
    }
}

} // verus!
