//! Byte-level scanning of UTF-8 text, shared by the snippet generators:
//! sentence bounds, character boundaries, term occurrences, scan windows
//! and excerpts.
use vstd::prelude::*;
use vstd::string::StringSliceAdditionalSpecFns;
use vstd::utf8::*;

use crate::text::{chars_of, dots, push_dots, string_from_range, trim, trim_bounds, views};

verus! {

/// Whether `c` ends a sentence: `.`, `!` or `?`.
pub open spec fn is_stop(c: u8) -> bool {
    c == 46u8 || c == 33u8 || c == 63u8
}

/// Scanning back from `pos`: the first position that follows `". "`,
/// `"! "`, `"? "` or a newline; 0 where there is none.
pub open spec fn sentence_start(b: Seq<u8>, pos: int) -> int
    decreases pos,
{
    if pos <= 0 {
        0
    } else if pos >= 2 && is_stop(b[pos - 2]) && b[pos - 1] == 32u8 {
        pos
    } else if b[pos - 1] == 10u8 {
        pos
    } else {
        sentence_start(b, pos - 1)
    }
}

/// Scanning forward from `pos`: just after the first `.`, `!` or `?` that
/// is followed by a space, a newline or the end of the text, or at the
/// first newline, whichever comes first; the end of the text where there is
/// neither.
pub open spec fn sentence_end(b: Seq<u8>, pos: int) -> int
    decreases b.len() - pos,
{
    if pos >= b.len() || pos < 0 {
        b.len() as int
    } else if is_stop(b[pos]) && pos + 1 >= b.len() {
        b.len() as int
    } else if is_stop(b[pos]) && (b[pos + 1] == 32u8 || b[pos + 1] == 10u8) {
        pos + 1
    } else if b[pos] == 10u8 {
        pos
    } else {
        sentence_end(b, pos + 1)
    }
}

/// The first character boundary at or after `i`, or `i` itself once it is
/// past the end.
pub open spec fn boundary_at_or_after(b: Seq<u8>, i: int) -> int
    decreases b.len() - i,
{
    if i >= b.len() || is_char_boundary(b, i) {
        i
    } else {
        boundary_at_or_after(b, i + 1)
    }
}

/// The last character boundary at or before `i`, but no lower than `lo`.
pub open spec fn boundary_at_or_before(b: Seq<u8>, lo: int, i: int) -> int
    decreases i - lo,
{
    if i <= lo || is_char_boundary(b, i) {
        i
    } else {
        boundary_at_or_before(b, lo, i - 1)
    }
}

/// Scanning back from `position` for the start of its sentence.
pub fn find_sentence_start(content: &str, position: usize) -> (r: usize)
    requires
        position <= content.spec_bytes().len(),
    ensures
        r == sentence_start(content.spec_bytes(), position as int),
{
    if position == 0 {
        return 0;
    }
    let bytes = content.as_bytes();
    let mut pos = position;
    while pos > 0
        invariant
            pos <= position <= bytes@.len(),
            bytes@ == content.spec_bytes(),
            sentence_start(bytes@, position as int) == sentence_start(bytes@, pos as int),
        decreases pos,
    {
        if pos >= 2 {
            let prev_char = bytes[pos - 1];
            let prev_prev_char = bytes[pos - 2];
            if (prev_prev_char == 46u8 || prev_prev_char == 33u8 || prev_prev_char == 63u8)
                && prev_char == 32u8 {
                return pos;
            }
        }
        if bytes[pos - 1] == 10u8 {
            return pos;
        }
        pos = pos - 1;
    }
    0
}

/// Scanning forward from `position` for the end of its sentence.
pub fn find_sentence_end(content: &str, position: usize) -> (r: usize)
    ensures
        r == sentence_end(content.spec_bytes(), position as int),
{
    let bytes = content.as_bytes();
    let len = bytes.len();
    let mut pos = position;
    while pos < len
        invariant
            position <= pos,
            bytes@ == content.spec_bytes(),
            len == bytes@.len(),
            sentence_end(bytes@, position as int) == sentence_end(bytes@, pos as int),
        decreases len - pos,
    {
        let c = bytes[pos];
        if c == 46u8 || c == 33u8 || c == 63u8 {
            if pos + 1 >= len {
                return len;
            } else if bytes[pos + 1] == 32u8 || bytes[pos + 1] == 10u8 {
                return pos + 1;
            }
        }
        if c == 10u8 {
            return pos;
        }
        pos += 1;
    }
    len
}

/// A byte below 128 in valid UTF-8 starts a character.
pub proof fn lemma_ascii_starts_char(b: Seq<u8>, i: int)
    requires
        valid_utf8(b),
        0 <= i < b.len(),
        b[i] < 128,
    ensures
        is_char_boundary(b, i),
{
    is_char_boundary_iff_not_is_continuation_byte(b, i);
}

/// Every end of a sentence is a character boundary.
pub proof fn lemma_sentence_end_boundary(b: Seq<u8>, pos: int)
    requires
        valid_utf8(b),
    ensures
        pos <= sentence_end(b, pos) <= b.len() || pos > b.len() || pos < 0,
        is_char_boundary(b, sentence_end(b, pos)),
        0 <= sentence_end(b, pos) <= b.len(),
    decreases b.len() - pos,
{
    is_char_boundary_start_end_of_seq(b);
    if pos >= b.len() || pos < 0 {
    } else if is_stop(b[pos]) && pos + 1 >= b.len() {
    } else if is_stop(b[pos]) && (b[pos + 1] == 32u8 || b[pos + 1] == 10u8) {
        lemma_ascii_starts_char(b, pos + 1);
    } else if b[pos] == 10u8 {
        lemma_ascii_starts_char(b, pos);
    } else {
        lemma_sentence_end_boundary(b, pos + 1);
    }
}

/// A sentence starts no later than the position it was looked for from.
pub proof fn lemma_sentence_start_bounds(b: Seq<u8>, pos: int)
    ensures
        pos >= 0 ==> 0 <= sentence_start(b, pos) <= pos,
    decreases pos,
{
    if pos > 0 {
        lemma_sentence_start_bounds(b, pos - 1);
    }
}

/// The boundary found moving forward lies between `i` and the end.
pub proof fn lemma_boundary_after_bounds(b: Seq<u8>, i: int)
    requires
        valid_utf8(b),
        0 <= i,
    ensures
        i <= boundary_at_or_after(b, i),
        i <= b.len() ==> boundary_at_or_after(b, i) <= b.len() && is_char_boundary(
            b,
            boundary_at_or_after(b, i),
        ),
        forall|j: int|
            i <= j <= b.len() && is_char_boundary(b, j) ==> boundary_at_or_after(b, i) <= j,
    decreases b.len() - i,
{
    is_char_boundary_start_end_of_seq(b);
    if i >= b.len() || is_char_boundary(b, i) {
    } else {
        lemma_boundary_after_bounds(b, i + 1);
    }
}

/// Moving forward to a boundary never moves back.
pub proof fn lemma_boundary_after_ge(b: Seq<u8>, i: int)
    ensures
        i <= boundary_at_or_after(b, i),
    decreases b.len() - i,
{
    if !(i >= b.len() || is_char_boundary(b, i)) {
        lemma_boundary_after_ge(b, i + 1);
    }
}

/// The boundary found moving back from a boundary is that boundary.
pub proof fn lemma_boundary_before_of_boundary(b: Seq<u8>, lo: int, i: int)
    requires
        is_char_boundary(b, i),
    ensures
        boundary_at_or_before(b, lo, i) == i,
{
}

/// Moves `i` forward to the next character boundary of `content`.
pub fn forward_to_boundary(content: &str, i: usize) -> (r: usize)
    ensures
        r == boundary_at_or_after(content.spec_bytes(), i as int),
{
    let len = content.as_bytes().len();
    let mut j = i;
    while j < len && !content.is_char_boundary(j)
        invariant
            i <= j,
            len == content.spec_bytes().len(),
            boundary_at_or_after(content.spec_bytes(), i as int) == boundary_at_or_after(
                content.spec_bytes(),
                j as int,
            ),
        decreases len - j,
    {
        j += 1;
    }
    j
}

/// Moves `i` back to the previous character boundary of `content`, but not
/// below `lo`.
pub fn back_to_boundary(content: &str, lo: usize, i: usize) -> (r: usize)
    ensures
        r == boundary_at_or_before(content.spec_bytes(), lo as int, i as int),
{
    let mut j = i;
    while j > lo && !content.is_char_boundary(j)
        invariant
            boundary_at_or_before(content.spec_bytes(), lo as int, i as int)
                == boundary_at_or_before(content.spec_bytes(), lo as int, j as int),
        decreases j,
    {
        j -= 1;
    }
    j
}

/// Character boundaries of a suffix that starts at a boundary are the
/// boundaries of the whole text, shifted.
pub proof fn lemma_boundary_of_suffix(b: Seq<u8>, a: int, j: int)
    requires
        valid_utf8(b),
        is_char_boundary(b, a),
        0 <= a <= j <= b.len(),
    ensures
        valid_utf8(b.subrange(a, b.len() as int)),
        is_char_boundary(b.subrange(a, b.len() as int), j - a) == is_char_boundary(b, j),
{
    let t = b.subrange(a, b.len() as int);
    valid_utf8_split(b, a);
    is_char_boundary_start_end_of_seq(b);
    is_char_boundary_start_end_of_seq(t);
    if j == a {
    } else if j == b.len() {
    } else {
        is_char_boundary_iff_not_is_continuation_byte(b, j);
        is_char_boundary_iff_not_is_continuation_byte(t, j - a);
    }
}

/// The text of `content` between the character boundaries `a` and `e`.
pub fn substring(content: &str, a: usize, e: usize) -> (r: &str)
    requires
        a <= e <= content.spec_bytes().len(),
        is_char_boundary(content.spec_bytes(), a as int),
        is_char_boundary(content.spec_bytes(), e as int),
    ensures
        r.spec_bytes() == content.spec_bytes().subrange(a as int, e as int),
        r@ == decode_utf8(content.spec_bytes().subrange(a as int, e as int)),
{
    let ghost b = content.spec_bytes();
    proof {
        encode_utf8_valid_utf8(content@);
        lemma_boundary_of_suffix(b, a as int, e as int);
    }
    let (_, rest) = content.split_at(a);
    proof {
        assert(rest.spec_bytes() =~= b.subrange(a as int, b.len() as int));
    }
    let (mid, _) = rest.split_at(e - a);
    proof {
        assert(mid.spec_bytes() =~= b.subrange(a as int, e as int));
        encode_utf8_decode_utf8(mid@);
    }
    mid
}

/// How many times `p` occurs in `h`, counting from the left and without
/// overlaps (`str::matches(..).count()` for a non-empty pattern).
pub open spec fn count_occ(h: Seq<u8>, p: Seq<u8>) -> nat
    decreases h.len(),
{
    if p.len() == 0 || h.len() < p.len() {
        0
    } else if h.subrange(0, p.len() as int) == p {
        1 + count_occ(h.subrange(p.len() as int, h.len() as int), p)
    } else {
        count_occ(h.subrange(1, h.len() as int), p)
    }
}

/// The UTF-8 encoding of each text.
pub open spec fn encoded(ws: Seq<Seq<char>>) -> Seq<Seq<u8>> {
    ws.map_values(|w: Seq<char>| encode_utf8(w))
}

/// The UTF-8 bytes of each term.
pub open spec fn term_bytes(terms: Seq<String>) -> Seq<Seq<u8>> {
    encoded(views(terms))
}

/// Whether every term is non-empty.
pub open spec fn all_nonempty(terms: Seq<Seq<u8>>) -> bool {
    forall|i: int| 0 <= i < terms.len() ==> #[trigger] terms[i].len() > 0
}

/// The occurrences of all terms in `w`, and the number of terms that occur.
pub open spec fn term_counts(w: Seq<u8>, terms: Seq<Seq<u8>>) -> (nat, nat)
    decreases terms.len(),
{
    if terms.len() == 0 {
        (0, 0)
    } else {
        let (total, found) = term_counts(w, terms.drop_last());
        let c = count_occ(w, terms.last());
        if c > 0 {
            (total + c, found + 1)
        } else {
            (total, found)
        }
    }
}

/// A pattern occurs at most once per byte.
pub proof fn lemma_count_occ_bound(h: Seq<u8>, p: Seq<u8>)
    ensures
        count_occ(h, p) <= h.len(),
    decreases h.len(),
{
    if p.len() == 0 || h.len() < p.len() {
    } else if h.subrange(0, p.len() as int) == p {
        lemma_count_occ_bound(h.subrange(p.len() as int, h.len() as int), p);
    } else {
        lemma_count_occ_bound(h.subrange(1, h.len() as int), p);
    }
}

/// A non-empty text encodes to non-empty bytes.
pub proof fn lemma_encode_nonempty(cs: Seq<char>)
    ensures
        cs.len() > 0 ==> encode_utf8(cs).len() > 0,
{
}

/// Whether `pat` occurs in `hay` at `i`.
fn occurs_at(hay: &[u8], i: usize, pat: &[u8]) -> (r: bool)
    requires
        i + pat@.len() <= hay@.len(),
    ensures
        r == (hay@.subrange(i as int, i + pat@.len()) == pat@),
{
    let hl = hay.len();
    let mut k: usize = 0;
    while k < pat.len()
        invariant
            hl == hay@.len(),
            k <= pat@.len(),
            i + pat@.len() <= hay@.len(),
            forall|m: int| 0 <= m < k ==> hay@[i + m] == pat@[m],
        decreases pat@.len() - k,
    {
        if hay[i + k] != pat[k] {
            assert(hay@.subrange(i as int, i + pat@.len())[k as int] != pat@[k as int]);
            return false;
        }
        k += 1;
    }
    assert(hay@.subrange(i as int, i + pat@.len()) =~= pat@);
    true
}

/// The number of occurrences of `pat` in `hay[from..to]`.
pub fn count_in(hay: &[u8], from: usize, to: usize, pat: &[u8]) -> (n: usize)
    requires
        from <= to <= hay@.len(),
        pat@.len() > 0,
    ensures
        n == count_occ(hay@.subrange(from as int, to as int), pat@),
{
    let plen = pat.len();
    let mut n: usize = 0;
    let mut i = from;
    while i < to && to - i >= plen
        invariant
            from <= i <= to <= hay@.len(),
            plen == pat@.len() > 0,
            n <= i - from,
            count_occ(hay@.subrange(from as int, to as int), pat@) == n + count_occ(
                hay@.subrange(i as int, to as int),
                pat@,
            ),
        decreases to - i,
    {
        let ghost h = hay@.subrange(i as int, to as int);
        assert(h.subrange(0, plen as int) =~= hay@.subrange(i as int, i + plen));
        if occurs_at(hay, i, pat) {
            assert(h.subrange(plen as int, h.len() as int) =~= hay@.subrange(i + plen, to as int));
            n += 1;
            i += plen;
        } else {
            assert(h.subrange(1, h.len() as int) =~= hay@.subrange(i + 1, to as int));
            i += 1;
        }
    }
    n
}

/// The occurrences of all `terms` in `hay[from..to]`, and how many of the
/// terms occur there.
pub fn term_counts_in(hay: &[u8], from: usize, to: usize, terms: &Vec<String>) -> (r: (u128, usize))
    requires
        from <= to <= hay@.len(),
        all_nonempty(term_bytes(terms@)),
    ensures
        r.0 == term_counts(hay@.subrange(from as int, to as int), term_bytes(terms@)).0,
        r.1 == term_counts(hay@.subrange(from as int, to as int), term_bytes(terms@)).1,
{
    let ghost w = hay@.subrange(from as int, to as int);
    let ghost ts = term_bytes(terms@);
    let mut total: u128 = 0;
    let mut found: usize = 0;
    let mut k: usize = 0;
    while k < terms.len()
        invariant
            from <= to <= hay@.len(),
            w == hay@.subrange(from as int, to as int),
            ts == term_bytes(terms@),
            all_nonempty(ts),
            k <= terms@.len(),
            found <= k,
            total <= k * w.len(),
            (total as nat, found as nat) == term_counts(w, ts.take(k as int)),
        decreases terms@.len() - k,
    {
        let pat = terms[k].as_str().as_bytes();
        assert(ts[k as int] == pat@);
        assert(ts[k as int].len() > 0);
        let c = count_in(hay, from, to, pat);
        proof {
            lemma_count_occ_bound(w, pat@);
            assert(ts.take(k + 1).drop_last() =~= ts.take(k as int));
            assert(ts.take(k + 1).last() == pat@);
            assert(k * w.len() + w.len() == (k + 1) * w.len()) by (nonlinear_arith);
            assert((k + 1) * w.len() <= 0xffff_ffff_ffff_ffff * 0xffff_ffff_ffff_ffff) by (nonlinear_arith)
                requires
                    k + 1 <= 0xffff_ffff_ffff_ffff,
                    w.len() <= 0xffff_ffff_ffff_ffff,
            ;
        }
        if c > 0 {
            total = total + c as u128;
            found = found + 1;
        }
        k += 1;
    }
    assert(ts.take(terms@.len() as int) =~= ts);
    (total, found)
}

/// A scan window in which at least one query term occurs.
#[derive(Debug, Clone, Copy, PartialEq, Eq)]
pub struct Window {
    /// Byte offset where the window starts.
    pub start: usize,
    /// Byte offset where the window ends.
    pub end: usize,
    /// Occurrences of the query terms in the window.
    pub matches: u128,
    /// How many of the query terms occur in the window.
    pub terms_found: usize,
}

/// The end of the window of `size` bytes that starts at `s`, moved forward
/// to a character boundary.
pub open spec fn window_end(b: Seq<u8>, s: int, size: int) -> int {
    boundary_at_or_after(b, if s + size < b.len() { s + size } else { b.len() as int })
}

/// The windows of `size` bytes whose starts are `start`, `start + step`, ...
/// (each moved forward to a character boundary) in which some term occurs
/// in the lowercased text `low`.
pub open spec fn scan_windows(
    b: Seq<u8>,
    low: Seq<u8>,
    terms: Seq<Seq<u8>>,
    size: int,
    step: int,
    start: int,
) -> Seq<Window>
    decreases b.len() - start,
{
    if start >= b.len() || step <= 0 || start < 0 {
        seq![]
    } else {
        let s = boundary_at_or_after(b, start);
        if s >= b.len() {
            seq![]
        } else {
            let e = window_end(b, s, size);
            let (m, u) = term_counts(low.subrange(s, e), terms);
            let rest = if start + step < b.len() {
                scan_windows(b, low, terms, size, step, start + step)
            } else {
                seq![]
            };
            if m > 0 {
                seq![Window { start: s as usize, end: e as usize, matches: m as u128, terms_found: u as usize }]
                    + rest
            } else {
                rest
            }
        }
    }
}

/// Whether every scan window of the text is also a well-formed range of the
/// lowercased text `low`: within it, and on its character boundaries.
pub open spec fn windows_fit(b: Seq<u8>, low: Seq<u8>, size: int, step: int, start: int) -> bool
    decreases b.len() - start,
{
    if start >= b.len() || step <= 0 || start < 0 {
        true
    } else {
        let s = boundary_at_or_after(b, start);
        if s >= b.len() {
            true
        } else {
            let e = window_end(b, s, size);
            &&& e <= low.len()
            &&& is_char_boundary(low, s)
            &&& is_char_boundary(low, e)
            &&& (start + step < b.len() ==> windows_fit(b, low, size, step, start + step))
        }
    }
}

/// Whether every scan window of `content` is a well-formed range of `lower`.
pub fn check_windows_fit(content: &str, lower: &str, size: usize, step: usize) -> (r: bool)
    requires
        step > 0,
    ensures
        r == windows_fit(content.spec_bytes(), lower.spec_bytes(), size as int, step as int, 0),
{
    let ghost b = content.spec_bytes();
    let ghost low = lower.spec_bytes();
    let len = content.as_bytes().len();
    let llen = lower.as_bytes().len();
    let mut start: usize = 0;
    while start < len
        invariant
            b == content.spec_bytes(),
            low == lower.spec_bytes(),
            len == b.len(),
            llen == low.len(),
            step > 0,
            windows_fit(b, low, size as int, step as int, 0) == windows_fit(
                b,
                low,
                size as int,
                step as int,
                start as int,
            ),
        decreases len - start,
    {
        let s = forward_to_boundary(content, start);
        if s >= len {
            return true;
        }
        let lim = if len - s > size { s + size } else { len };
        let e = forward_to_boundary(content, lim);
        if !(e <= llen && lower.is_char_boundary(s) && lower.is_char_boundary(e)) {
            return false;
        }
        if len - start <= step {
            return true;
        }
        start = start + step;
    }
    true
}

/// The scan windows of `content` in which some of `terms` occurs, counted in
/// `lower`, the lowercased text.
pub fn find_windows(content: &str, lower: &str, terms: &Vec<String>, size: usize, step: usize) -> (r:
    Vec<Window>)
    requires
        step > 0,
        windows_fit(content.spec_bytes(), lower.spec_bytes(), size as int, step as int, 0),
        all_nonempty(term_bytes(terms@)),
    ensures
        r@ == scan_windows(
            content.spec_bytes(),
            lower.spec_bytes(),
            term_bytes(terms@),
            size as int,
            step as int,
            0,
        ),
{
    let ghost b = content.spec_bytes();
    let ghost low = lower.spec_bytes();
    let ghost ts = term_bytes(terms@);
    let lb = lower.as_bytes();
    let len = content.as_bytes().len();
    let mut out: Vec<Window> = Vec::new();
    let mut start: usize = 0;
    while start < len
        invariant
            b == content.spec_bytes(),
            low == lower.spec_bytes(),
            lb@ == low,
            ts == term_bytes(terms@),
            all_nonempty(ts),
            len == b.len(),
            step > 0,
            windows_fit(b, low, size as int, step as int, start as int),
            scan_windows(b, low, ts, size as int, step as int, 0) == out@ + scan_windows(
                b,
                low,
                ts,
                size as int,
                step as int,
                start as int,
            ),
        decreases len - start,
    {
        let s = forward_to_boundary(content, start);
        if s >= len {
            assert(out@ + scan_windows(b, low, ts, size as int, step as int, start as int) =~= out@);
            return out;
        }
        let lim = if len - s > size { s + size } else { len };
        let e = forward_to_boundary(content, lim);
        let ghost rest = scan_windows(b, low, ts, size as int, step as int, start + step);
        proof {
            encode_utf8_valid_utf8(content@);
            lemma_boundary_after_bounds(b, s as int);
            lemma_boundary_after_bounds(b, start as int);
            lemma_boundary_after_bounds(b, lim as int);
        }
        let (m, u) = term_counts_in(lb, s, e, terms);
        if m > 0 {
            let ghost w = Window { start: s, end: e, matches: m, terms_found: u };
            out.push(Window { start: s, end: e, matches: m, terms_found: u });
            assert(scan_windows(b, low, ts, size as int, step as int, start as int) == seq![w] + rest);
            assert(out@ + rest =~= (out@.drop_last() + seq![w]) + rest);
        }
        if len - start <= step {
            assert(rest =~= Seq::<Window>::empty());
            assert(out@ + rest =~= out@);
            return out;
        }
        start = start + step;
    }
    assert(out@ + scan_windows(b, low, ts, size as int, step as int, start as int) =~= out@);
    out
}

/// `pos - w`, or 0 where that is negative.
pub open spec fn back_by(pos: int, w: int) -> int {
    if pos >= w { pos - w } else { 0 }
}

/// `pos + w`, or `len` where that is larger.
pub open spec fn ahead_by(pos: int, w: int, len: int) -> int {
    if pos + w < len { pos + w } else { len }
}

/// The text between the boundaries `a` and `e`, trimmed, with `"..."`
/// before it where it does not start the text and after it where it does
/// not end the text.
pub open spec fn excerpt(b: Seq<u8>, a: int, e: int) -> Seq<char> {
    let core = trim(decode_utf8(b.subrange(a, e)));
    let head = if a > 0 { dots() + core } else { core };
    if e < b.len() { head + dots() } else { head }
}

/// Start of the excerpt around `pos`: the start of the sentence that holds
/// the byte `w` before it.
pub open spec fn around_start(b: Seq<u8>, pos: int, w: int) -> int {
    boundary_at_or_after(b, sentence_start(b, back_by(pos, w)))
}

/// End of the excerpt around `pos`: the end of the sentence that holds the
/// byte `w` after it.
pub open spec fn around_end(b: Seq<u8>, pos: int, w: int) -> int {
    boundary_at_or_before(b, around_start(b, pos, w), sentence_end(b, ahead_by(pos, w, b.len() as int)))
}

/// The bounds around `pos` are well-formed boundaries of the text.
pub proof fn lemma_around_bounds(b: Seq<u8>, pos: int, w: int)
    requires
        valid_utf8(b),
        0 <= pos <= b.len(),
        w >= 0,
    ensures
        0 <= around_start(b, pos, w) <= around_end(b, pos, w) <= b.len(),
        is_char_boundary(b, around_start(b, pos, w)),
        is_char_boundary(b, around_end(b, pos, w)),
{
    let p = back_by(pos, w);
    lemma_sentence_start_bounds(b, p);
    let st = sentence_start(b, p);
    lemma_boundary_after_bounds(b, st);
    let q = ahead_by(pos, w, b.len() as int);
    lemma_sentence_end_boundary(b, q);
    let en = sentence_end(b, q);
    lemma_boundary_before_of_boundary(b, around_start(b, pos, w), en);
}

/// The excerpt of `content` between the boundaries `a` and `e`.
pub fn excerpt_text(content: &str, a: usize, e: usize) -> (r: String)
    requires
        a <= e <= content.spec_bytes().len(),
        is_char_boundary(content.spec_bytes(), a as int),
        is_char_boundary(content.spec_bytes(), e as int),
    ensures
        r@ == excerpt(content.spec_bytes(), a as int, e as int),
{
    let len = content.as_bytes().len();
    let sub = substring(content, a, e);
    let cs = chars_of(sub);
    let (i, j) = trim_bounds(&cs, 0, cs.len());
    assert(cs@.subrange(0, cs@.len() as int) =~= cs@);
    let core = string_from_range(&cs, i, j);
    let mut out = String::new();
    if a > 0 {
        push_dots(&mut out);
    }
    out.append(core.as_str());
    if e < len {
        push_dots(&mut out);
    }
    proof {
        let core_v = trim(decode_utf8(content.spec_bytes().subrange(a as int, e as int)));
        if a > 0 {
            if e < len {
                assert(out@ =~= dots() + core_v + dots());
            } else {
                assert(out@ =~= dots() + core_v);
            }
        } else {
            if e < len {
                assert(out@ =~= core_v + dots());
            } else {
                assert(out@ =~= core_v);
            }
        }
    }
    out
}

/// The excerpt around `pos`: from the start of the sentence that holds the
/// byte `w` before it to the end of the sentence that holds the byte `w`
/// after it.
pub open spec fn excerpt_around(b: Seq<u8>, pos: int, w: int) -> Seq<char> {
    excerpt(b, around_start(b, pos, w), around_end(b, pos, w))
}

/// The bounds of the excerpt around `position`.
pub fn bounds_around(content: &str, position: usize, w: usize) -> (r: (usize, usize))
    requires
        position <= content.spec_bytes().len(),
    ensures
        r.0 == around_start(content.spec_bytes(), position as int, w as int),
        r.1 == around_end(content.spec_bytes(), position as int, w as int),
        r.0 <= r.1 <= content.spec_bytes().len(),
        is_char_boundary(content.spec_bytes(), r.0 as int),
        is_char_boundary(content.spec_bytes(), r.1 as int),
{
    let len = content.as_bytes().len();
    let back = if position >= w { position - w } else { 0 };
    let ahead = if len - position > w { position + w } else { len };
    let start = find_sentence_start(content, back);
    let end = find_sentence_end(content, ahead);
    let start_byte = forward_to_boundary(content, start);
    let end_byte = back_to_boundary(content, start_byte, end);
    proof {
        encode_utf8_valid_utf8(content@);
        lemma_around_bounds(content.spec_bytes(), position as int, w as int);
    }
    (start_byte, end_byte)
}

/// Whether `pos` lies within one of `ranges`, ends included.
pub open spec fn covered(pos: int, ranges: Seq<(usize, usize)>) -> bool {
    exists|i: int| 0 <= i < ranges.len() && ranges[i].0 <= pos <= #[trigger] ranges[i].1
}

/// Whether `position` lies within one of `ranges`, ends included.
pub fn overlaps_with_ranges(position: usize, ranges: &Vec<(usize, usize)>) -> (r: bool)
    ensures
        r == covered(position as int, ranges@),
{
    let mut i: usize = 0;
    while i < ranges.len()
        invariant
            i <= ranges@.len(),
            forall|k: int| 0 <= k < i ==> !(ranges@[k].0 <= position <= #[trigger] ranges@[k].1),
        decreases ranges@.len() - i,
    {
        let (start, end) = ranges[i];
        if position >= start && position <= end {
            return true;
        }
        i += 1;
    }
    false
}

/// Each window found starts on a character boundary inside the text and
/// ends on a character boundary no earlier.
pub proof fn lemma_scan_windows_bounds(
    b: Seq<u8>,
    low: Seq<u8>,
    terms: Seq<Seq<u8>>,
    size: int,
    step: int,
    start: int,
)
    requires
        valid_utf8(b),
        b.len() <= usize::MAX,
        size >= 0,
    ensures
        forall|i: int|
            #![trigger scan_windows(b, low, terms, size, step, start)[i]]
            0 <= i < scan_windows(b, low, terms, size, step, start).len() ==> {
                let w = scan_windows(b, low, terms, size, step, start)[i];
                &&& w.start < b.len()
                &&& w.start <= w.end <= b.len()
                &&& is_char_boundary(b, w.start as int)
                &&& is_char_boundary(b, w.end as int)
            },
    decreases b.len() - start,
{
    let ws = scan_windows(b, low, terms, size, step, start);
    if start >= b.len() || step <= 0 || start < 0 {
    } else {
        let rest = if start + step < b.len() {
            lemma_scan_windows_bounds(b, low, terms, size, step, start + step);
            scan_windows(b, low, terms, size, step, start + step)
        } else {
            seq![]
        };
        let s = boundary_at_or_after(b, start);
        lemma_boundary_after_bounds(b, start);
        if s < b.len() {
            let lim = if s + size < b.len() { s + size } else { b.len() as int };
            let e = window_end(b, s, size);
            lemma_boundary_after_bounds(b, lim);
            let (m, u) = term_counts(low.subrange(s, e), terms);
            if m > 0 {
                let w = Window { start: s as usize, end: e as usize, matches: m as u128, terms_found: u as usize };
                assert(ws == seq![w] + rest);
                assert forall|i: int| 0 <= i < ws.len() implies {
                    let x = #[trigger] ws[i];
                    &&& x.start < b.len()
                    &&& x.start <= x.end <= b.len()
                    &&& is_char_boundary(b, x.start as int)
                    &&& is_char_boundary(b, x.end as int)
                } by {
                    if i > 0 {
                        assert(ws[i] == rest[i - 1]);
                    }
                }
            } else {
                assert(ws == rest);
            }
        }
    }
}

} // verus!
