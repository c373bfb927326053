//! Snippets with the facts a relevance score is computed from: where they
//! are, how many query terms they hold, what kind of text they are in and
//! under which heading.
use vstd::prelude::*;
use vstd::string::StringSliceAdditionalSpecFns;
use vstd::utf8::*;

use crate::config::{Config, DEFAULT_MAX_SNIPPET_LENGTH};
use crate::search::scan::{
    ahead_by, all_nonempty, around_end, around_start, bounds_around, check_windows_fit, covered,
    encoded, excerpt, excerpt_text, find_windows, lemma_encode_nonempty, lemma_scan_windows_bounds,
    overlaps_with_ranges, scan_windows, term_bytes, windows_fit, Window,
    back_by, back_to_boundary, boundary_at_or_after, boundary_at_or_before, forward_to_boundary,
    lemma_boundary_after_bounds, lemma_boundary_before_of_boundary, substring,
};
use crate::text::{
    chars_of, dots, lemma_words_shape, lowercase, push_dots, string_from_range, to_lowercase, trim,
    trim_bounds, views, words, words_in,
};

verus! {

/// What kind of text a snippet comes from.
#[derive(Debug, Clone, Copy, PartialEq, Eq, Structural)]
pub enum ContextType {
    /// Ordinary prose.
    Content,
    /// Code.
    CodeExample,
    /// A note or a warning.
    ImportantNote,
    /// Steps of a procedure.
    Procedure,
    /// A heading or a title.
    Header,
    /// A list.
    ListItem,
    /// Text of several kinds.
    Mixed,
}

/// Whether `p` occurs in `t`.
pub open spec fn has_sub(t: Seq<char>, p: Seq<char>) -> bool {
    exists|i: int| 0 <= i && i + p.len() <= t.len() && #[trigger] t.subrange(i, i + p.len()) == p
}

/// Whether `p` occurs in `t`.
pub fn contains_chars(t: &Vec<char>, p: &Vec<char>) -> (r: bool)
    ensures
        r == has_sub(t@, p@),
{
    let tl = t.len();
    let pl = p.len();
    if pl > tl {
        return false;
    }
    let mut i: usize = 0;
    while i <= tl - pl
        invariant
            tl == t@.len(),
            pl == p@.len(),
            pl <= tl,
            i <= tl - pl + 1,
            forall|j: int| 0 <= j < i ==> #[trigger] t@.subrange(j, j + pl) != p@,
        decreases tl - pl + 1 - i,
    {
        let mut k: usize = 0;
        let mut same = true;
        while k < pl
            invariant
                tl == t@.len(),
                pl == p@.len(),
                i + pl <= tl,
                k <= pl,
                same == (forall|m: int| 0 <= m < k ==> t@[i + m] == p@[m]),
            decreases pl - k,
        {
            if t[i + k] != p[k] {
                same = false;
            }
            k += 1;
        }
        if same {
            assert(t@.subrange(i as int, i + pl) =~= p@);
            return true;
        }
        assert(!(forall|m: int| 0 <= m < pl ==> t@[i + m] == p@[m]));
        assert(t@.subrange(i as int, i + pl) != p@) by {
            let m = choose|m: int| !(0 <= m < pl ==> t@[i + m] == p@[m]);
            assert(t@.subrange(i as int, i + pl)[m] == t@[i + m]);
        }
        i += 1;
    }
    assert forall|j: int| 0 <= j && j + p@.len() <= t@.len() implies #[trigger] t@.subrange(j, j + p@.len()) != p@ by {
        assert(j < i);
    }
    false
}

/// Whether `p` occurs in `t`, `p` given as text.
fn contains_text(t: &Vec<char>, p: &str) -> (r: bool)
    ensures
        r == has_sub(t@, p@),
{
    let pc = chars_of(p);
    contains_chars(t, &pc)
}

/// Whether `c` is an uppercase letter, by Unicode's `Uppercase` property,
/// as `char::is_uppercase` tells it.
pub uninterp spec fn char_is_uppercase(c: char) -> bool;

/// Whether `c` is an uppercase letter (`char::is_uppercase`).
#[verifier::external_body]
pub(crate) fn is_uppercase(c: char) -> (r: bool)
    ensures
        r == char_is_uppercase(c),
{
    c.is_uppercase()
}

/// The number of uppercase letters in `t`.
pub open spec fn count_upper(t: Seq<char>) -> nat
    decreases t.len(),
{
    if t.len() == 0 {
        0
    } else {
        count_upper(t.drop_last()) + if char_is_uppercase(t.last()) { 1nat } else { 0nat }
    }
}

/// The kind of a text with characters `t`, `len` bytes long: a note where
/// it holds a warning marker, else code where it holds code markers, else
/// a procedure where it holds step markers, else a list where it holds
/// bullets, else a heading where it is short and holds `#` or is more than
/// a third uppercase, else prose.
pub open spec fn context_type_of(t: Seq<char>, len: int) -> ContextType {
    if has_sub(t, "重要"@) || has_sub(t, "注意"@) || has_sub(t, "WARNING"@) || has_sub(
        t,
        "NOTE:"@,
    ) || has_sub(t, "Note:"@) || has_sub(t, "！"@) || has_sub(t, "!"@) {
        ContextType::ImportantNote
    } else if has_sub(t, "```"@) || has_sub(t, "function"@) || has_sub(t, "class"@) || (has_sub(
        t,
        "import"@,
    ) && !has_sub(t, "important"@)) || has_sub(t, "export"@) || has_sub(t, "{"@) {
        ContextType::CodeExample
    } else if has_sub(t, "Step"@) || has_sub(t, "手順"@) || has_sub(t, "1."@) || has_sub(
        t,
        "2."@,
    ) {
        ContextType::Procedure
    } else if has_sub(t, "- "@) || has_sub(t, "* "@) || has_sub(t, "• "@) {
        ContextType::ListItem
    } else if len < 100 && (has_sub(t, "#"@) || count_upper(t) > len / 3) {
        ContextType::Header
    } else {
        ContextType::Content
    }
}

/// The kind of the text `text`.
pub fn context_type(text: &str) -> (r: ContextType)
    ensures
        r == context_type_of(text@, text.spec_bytes().len() as int),
{
    let t = chars_of(text);
    if contains_text(&t, "重要") || contains_text(&t, "注意") || contains_text(&t, "WARNING")
        || contains_text(&t, "NOTE:") || contains_text(&t, "Note:") || contains_text(&t, "！")
        || contains_text(&t, "!") {
        return ContextType::ImportantNote;
    }
    if contains_text(&t, "```") || contains_text(&t, "function") || contains_text(&t, "class")
        || (contains_text(&t, "import") && !contains_text(&t, "important")) || contains_text(
        &t,
        "export",
    ) || contains_text(&t, "{") {
        return ContextType::CodeExample;
    }
    if contains_text(&t, "Step") || contains_text(&t, "手順") || contains_text(&t, "1.")
        || contains_text(&t, "2.") {
        return ContextType::Procedure;
    }
    if contains_text(&t, "- ") || contains_text(&t, "* ") || contains_text(&t, "• ") {
        return ContextType::ListItem;
    }
    let len = text.as_bytes().len();
    if len < 100 {
        if contains_text(&t, "#") {
            return ContextType::Header;
        }
        let mut upper: usize = 0;
        let mut i: usize = 0;
        while i < t.len()
            invariant
                i <= t@.len(),
                upper <= i,
                upper == count_upper(t@.take(i as int)),
            decreases t@.len() - i,
        {
            assert(t@.take(i + 1).drop_last() =~= t@.take(i as int));
            if is_uppercase(t[i]) {
                upper += 1;
            }
            i += 1;
        }
        assert(t@.take(t@.len() as int) =~= t@);
        if upper > len / 3 {
            return ContextType::Header;
        }
    }
    ContextType::Content
}

/// The text of the snippet used where nothing matches: the start of the
/// text, cut at the last character boundary within `max_len` bytes and
/// marked with `"..."`, or the whole text where it is no longer.
pub open spec fn fallback_text(b: Seq<u8>, max_len: int) -> Seq<char> {
    if b.len() > max_len {
        decode_utf8(b.subrange(0, boundary_at_or_before(b, 0, max_len))) + dots()
    } else {
        decode_utf8(b)
    }
}

/// `t` cut to at most `max_len` bytes at a character boundary, and then
/// ending in `"..."`; unchanged where it is no longer.
pub open spec fn truncated_text(t: Seq<u8>, max_len: int) -> Seq<char> {
    if t.len() > max_len {
        let cut = decode_utf8(t.subrange(0, boundary_at_or_before(t, 0, max_len)));
        if cut.len() >= 3 && cut.subrange(cut.len() - 3, cut.len() as int) == dots() {
            cut
        } else {
            cut + dots()
        }
    } else {
        decode_utf8(t)
    }
}

/// The start of `content` up to the last character boundary at or before
/// `max_len`, and the position of that boundary.
fn prefix_at_boundary(content: &str, max_len: usize) -> (r: (&str, usize))
    requires
        max_len <= content.spec_bytes().len(),
    ensures
        r.1 == boundary_at_or_before(content.spec_bytes(), 0, max_len as int),
        r.0@ == decode_utf8(content.spec_bytes().subrange(0, r.1 as int)),
{
    let end_byte = back_to_boundary(content, 0, max_len);
    proof {
        encode_utf8_valid_utf8(content@);
        is_char_boundary_start_end_of_seq(content.spec_bytes());
        lemma_boundary_before_bounds(content.spec_bytes(), max_len as int);
    }
    (substring(content, 0, end_byte), end_byte)
}

/// Moving back to a boundary, not below 0, ends on a boundary no later
/// than where it started.
pub proof fn lemma_boundary_before_bounds(b: Seq<u8>, i: int)
    requires
        valid_utf8(b),
        0 <= i <= b.len(),
    ensures
        0 <= boundary_at_or_before(b, 0, i) <= i,
        is_char_boundary(b, boundary_at_or_before(b, 0, i)),
    decreases i,
{
    is_char_boundary_start_end_of_seq(b);
    if !(i <= 0 || is_char_boundary(b, i)) {
        lemma_boundary_before_bounds(b, i - 1);
    }
}

/// `s` cut to at most `max_len` bytes at a character boundary and marked
/// with `"..."` where it was longer (the text of the best snippet in
/// `generate_snippet`).
pub fn truncate_text(s: &str, max_len: usize) -> (r: String)
    ensures
        r@ == truncated_text(s.spec_bytes(), max_len as int),
{
    let len = s.as_bytes().len();
    if len > max_len {
        let (cut, _) = prefix_at_boundary(s, max_len);
        let cs = chars_of(cut);
        let n = cs.len();
        let mut out = String::from_str(cut);
        let ends_dotted = n >= 3 && cs[n - 3] == '.' && cs[n - 2] == '.' && cs[n - 1] == '.';
        proof {
            if n >= 3 {
                if ends_dotted {
                    assert(cs@.subrange(n - 3, n as int) =~= dots());
                } else {
                    assert(cs@.subrange(n - 3, n as int) != dots()) by {
                        if cs@.subrange(n - 3, n as int) == dots() {
                            assert(cs@.subrange(n - 3, n as int)[0] == '.');
                            assert(cs@.subrange(n - 3, n as int)[1] == '.');
                            assert(cs@.subrange(n - 3, n as int)[2] == '.');
                        }
                    }
                }
            }
        }
        if !ends_dotted {
            push_dots(&mut out);
        }
        out
    } else {
        proof {
            encode_utf8_decode_utf8(s@);
        }
        String::from_str(s)
    }
}

/// The last place at or before `i` where `p` occurs in `h`.
pub open spec fn rfind_at(h: Seq<u8>, p: Seq<u8>, i: int) -> Option<int>
    decreases i + 1,
{
    if i < 0 {
        None
    } else if i + p.len() <= h.len() && h.subrange(i, i + p.len()) == p {
        Some(i)
    } else {
        rfind_at(h, p, i - 1)
    }
}

/// The first place at or after `i` where the byte `c` occurs in `b`.
pub open spec fn find_byte(b: Seq<u8>, c: u8, i: int) -> Option<int>
    decreases b.len() - i,
{
    if i >= b.len() || i < 0 {
        None
    } else if b[i] == c {
        Some(i)
    } else {
        find_byte(b, c, i + 1)
    }
}

/// `t` without its leading `#` characters.
pub open spec fn strip_hashes(t: Seq<char>) -> Seq<char>
    decreases t.len(),
{
    if t.len() > 0 && t[0] == '#' {
        strip_hashes(t.drop_first())
    } else {
        t
    }
}

/// The heading of the section that holds `pos`: the last line starting
/// with `#` that begins within the 1000 bytes before `pos`, without its
/// `#` marks and surrounding whitespace; none where there is no such line,
/// it does not end in a newline, or it is empty.
pub open spec fn section_heading(b: Seq<u8>, pos: int) -> Option<Seq<char>> {
    let ss = boundary_at_or_after(b, back_by(pos, 1000));
    let se = boundary_at_or_before(b, ss, pos);
    if ss >= se {
        None
    } else {
        match rfind_at(b.subrange(ss, se), seq![10u8, 35u8], se - ss - 2) {
            None => None,
            Some(k) => {
                let hs = boundary_at_or_after(b, ss + k + 1);
                if hs >= b.len() {
                    None
                } else {
                    match find_byte(b, 10u8, hs) {
                        None => None,
                        Some(f) => {
                            let he = boundary_at_or_before(b, hs, f);
                            if hs < he {
                                Some(trim(strip_hashes(decode_utf8(b.subrange(hs, he)))))
                            } else {
                                None
                            }
                        },
                    }
                }
            },
        }
    }
}

/// A boundary of valid UTF-8 lies within it.
pub proof fn lemma_boundary_in_range(b: Seq<u8>, i: int)
    requires
        valid_utf8(b),
        is_char_boundary(b, i),
    ensures
        0 <= i <= b.len(),
{
}

/// Moving back to a boundary never passes below the floor, nor above the
/// start.
pub proof fn lemma_boundary_before_range(b: Seq<u8>, lo: int, i: int)
    ensures
        i <= lo ==> boundary_at_or_before(b, lo, i) == i,
        i > lo ==> lo <= boundary_at_or_before(b, lo, i) <= i,
        i > lo && boundary_at_or_before(b, lo, i) > lo ==> is_char_boundary(b, boundary_at_or_before(b, lo, i)),
    decreases i - lo,
{
    if !(i <= lo || is_char_boundary(b, i)) {
        lemma_boundary_before_range(b, lo, i - 1);
    }
}

/// The last place in `bytes[from..to]` where a newline is followed by `#`,
/// counted from `from`.
fn rfind_heading_mark(bytes: &[u8], from: usize, to: usize) -> (r: Option<usize>)
    requires
        from <= to <= bytes@.len(),
    ensures
        r matches Some(k) ==> rfind_at(bytes@.subrange(from as int, to as int), seq![10u8, 35u8], to - from - 2) == Some(k as int),
        r is None ==> rfind_at(bytes@.subrange(from as int, to as int), seq![10u8, 35u8], to - from - 2) is None,
{
    let ghost h = bytes@.subrange(from as int, to as int);
    if to - from < 2 {
        return None;
    }
    let mut i: usize = to - from - 2;
    loop
        invariant
            from <= to <= bytes@.len(),
            h == bytes@.subrange(from as int, to as int),
            i + 2 <= to - from,
            rfind_at(h, seq![10u8, 35u8], to - from - 2) == rfind_at(h, seq![10u8, 35u8], i as int),
        decreases i,
    {
        if bytes[from + i] == 10u8 && bytes[from + i + 1] == 35u8 {
            assert(h.subrange(i as int, i + 2) =~= seq![10u8, 35u8]);
            return Some(i);
        }
        assert(h.subrange(i as int, i + 2) != seq![10u8, 35u8]) by {
            if h.subrange(i as int, i + 2) == seq![10u8, 35u8] {
                assert(h.subrange(i as int, i + 2)[0] == 10u8);
                assert(h.subrange(i as int, i + 2)[1] == 35u8);
            }
        }
        if i == 0 {
            assert(rfind_at(h, seq![10u8, 35u8], -1) is None);
            return None;
        }
        i -= 1;
    }
}

/// The first newline in `bytes` at or after `i`.
fn find_newline(bytes: &[u8], i: usize) -> (r: Option<usize>)
    ensures
        r matches Some(k) ==> find_byte(bytes@, 10u8, i as int) == Some(k as int),
        r is None ==> find_byte(bytes@, 10u8, i as int) is None,
{
    let len = bytes.len();
    let mut j = i;
    while j < len
        invariant
            i <= j,
            len == bytes@.len(),
            find_byte(bytes@, 10u8, i as int) == find_byte(bytes@, 10u8, j as int),
        decreases len - j,
    {
        if bytes[j] == 10u8 {
            return Some(j);
        }
        j += 1;
    }
    None
}

/// The text with its leading `#` characters removed and then trimmed.
fn heading_text(t: &str) -> (r: String)
    ensures
        r@ == trim(strip_hashes(t@)),
{
    let cs = chars_of(t);
    let mut i: usize = 0;
    assert(cs@.skip(0) =~= cs@);
    while i < cs.len() && cs[i] == '#'
        invariant
            i <= cs@.len(),
            strip_hashes(cs@) == strip_hashes(cs@.skip(i as int)),
        decreases cs@.len() - i,
    {
        assert(cs@.skip(i as int).drop_first() =~= cs@.skip(i + 1));
        i += 1;
    }
    assert(strip_hashes(cs@.skip(i as int)) == cs@.skip(i as int));
    assert(cs@.subrange(i as int, cs@.len() as int) =~= cs@.skip(i as int));
    let (a, e) = trim_bounds(&cs, i, cs.len());
    string_from_range(&cs, a, e)
}

/// The heading of the section of `content` that holds `position`.
pub fn find_section_heading(content: &str, position: usize) -> (r: Option<String>)
    ensures
        match section_heading(content.spec_bytes(), position as int) {
            Some(h) => r matches Some(s) && s@ == h,
            None => r is None,
        },
{
    let ghost b = content.spec_bytes();
    proof {
        encode_utf8_valid_utf8(content@);
        is_char_boundary_start_end_of_seq(b);
    }
    let bytes = content.as_bytes();
    let len = bytes.len();
    let back = if position >= 1000 { position - 1000 } else { 0 };
    let search_start = forward_to_boundary(content, back);
    let search_end = back_to_boundary(content, search_start, position);
    if search_start >= search_end {
        return None;
    }
    proof {
        lemma_boundary_before_range(b, search_start as int, position as int);
        lemma_boundary_in_range(b, search_end as int);
    }
    let k = match rfind_heading_mark(bytes, search_start, search_end) {
        None => { return None; },
        Some(k) => k,
    };
    proof {
        let h = b.subrange(search_start as int, search_end as int);
        let kk = k as int;
        assert(rfind_at(h, seq![10u8, 35u8], search_end - search_start - 2) == Some(kk));
        lemma_rfind_at_in_range(h, seq![10u8, 35u8], search_end - search_start - 2);
    }
    let header_start = forward_to_boundary(content, search_start + k + 1);
    if header_start >= len {
        return None;
    }
    let f = match find_newline(bytes, header_start) {
        None => { return None; },
        Some(f) => f,
    };
    proof {
        lemma_find_byte_in_range(b, 10u8, header_start as int);
    }
    let header_end = back_to_boundary(content, header_start, f);
    if header_start < header_end {
        proof {
            lemma_boundary_before_range(b, header_start as int, f as int);
            lemma_boundary_after_bounds(b, (search_start + k + 1) as int);
        }
        let t = substring(content, header_start, header_end);
        Some(heading_text(t))
    } else {
        None
    }
}

/// A place found scanning back lies within the text.
pub proof fn lemma_rfind_at_in_range(h: Seq<u8>, p: Seq<u8>, i: int)
    ensures
        rfind_at(h, p, i) matches Some(k) ==> 0 <= k <= i && k + p.len() <= h.len(),
    decreases i + 1,
{
    if i >= 0 && !(i + p.len() <= h.len() && h.subrange(i, i + p.len()) == p) {
        lemma_rfind_at_in_range(h, p, i - 1);
    }
}

/// A byte found scanning forward lies within the text.
pub proof fn lemma_find_byte_in_range(b: Seq<u8>, c: u8, i: int)
    ensures
        find_byte(b, c, i) matches Some(k) ==> i <= k < b.len(),
    decreases b.len() - i,
{
    if !(i >= b.len() || i < 0) && b[i] != c {
        lemma_find_byte_in_range(b, c, i + 1);
    }
}

/// Bytes in each window of the match scan: the configured snippet length.
pub const SCAN_WINDOW: usize = DEFAULT_MAX_SNIPPET_LENGTH;

/// Bytes between the starts of two windows of the match scan: a third of
/// the configured snippet length.
pub const SCAN_STEP: usize = 200;

/// A scan window in which query terms occur, with what its relevance is
/// judged by.
#[derive(Debug, Clone, Copy, PartialEq, Eq)]
pub struct MatchInfo {
    /// Byte offset where the window starts.
    pub position: usize,
    /// Byte offset where the window ends.
    pub end: usize,
    /// Occurrences of the query terms in the window.
    pub match_count: u128,
    /// How many of the query terms occur in the window.
    pub unique_terms: usize,
    /// The kind of text in the window.
    pub context_type: ContextType,
}

/// The match information of the window `w` of the text with bytes `b`.
pub open spec fn match_info_of(b: Seq<u8>, w: Window) -> MatchInfo {
    MatchInfo {
        position: w.start,
        end: w.end,
        match_count: w.matches,
        unique_terms: w.terms_found,
        context_type: context_type_of(decode_utf8(b.subrange(w.start as int, w.end as int)), w.end - w.start),
    }
}

/// The windows of the text in which query terms occur, in text order.
pub open spec fn detailed_matches(b: Seq<u8>, low: Seq<u8>, terms: Seq<Seq<u8>>) -> Seq<MatchInfo> {
    scan_windows(b, low, terms, SCAN_WINDOW as int, SCAN_STEP as int, 0).map_values(
        |w: Window| match_info_of(b, w),
    )
}

/// A snippet picked for a match, and the rank of that match in the order
/// the matches were given.
#[derive(Debug, Clone)]
pub struct SnippetPiece {
    /// The snippet text.
    pub text: String,
    /// Byte offset of the match.
    pub position: usize,
    /// The kind of text at the match.
    pub context_type: ContextType,
    /// The heading of the section that holds the match.
    pub section: Option<String>,
    /// Index of the match among those given.
    pub rank: usize,
}

/// The mathematical value of a snippet piece.
pub struct PieceView {
    pub text: Seq<char>,
    pub position: usize,
    pub context_type: ContextType,
    pub section: Option<Seq<char>>,
    pub rank: usize,
}

impl View for SnippetPiece {
    type V = PieceView;

    open spec fn view(&self) -> PieceView {
        PieceView {
            text: self.text@,
            position: self.position,
            context_type: self.context_type,
            section: match self.section {
                Some(s) => Some(s@),
                None => None,
            },
            rank: self.rank,
        }
    }
}

/// The views of a sequence of pieces.
pub open spec fn piece_views(v: Seq<SnippetPiece>) -> Seq<PieceView> {
    v.map_values(|p: SnippetPiece| p@)
}

/// The snippets made for the matches `cands`, taken in turn, and the
/// ranges they claim: a match whose position lies in a claimed range is
/// skipped, as is one whose sentence-aligned excerpt is empty; a claimed
/// range reaches `w` bytes either side of the match; nothing is made once
/// `max` snippets are.
pub open spec fn pick_pieces(b: Seq<u8>, cands: Seq<MatchInfo>, w: int, max: int) -> (
    Seq<PieceView>,
    Seq<(usize, usize)>,
)
    decreases cands.len(),
{
    if cands.len() == 0 {
        (seq![], seq![])
    } else {
        let (ps, rs) = pick_pieces(b, cands.drop_last(), w, max);
        let m = cands.last();
        let pos = m.position as int;
        let a = around_start(b, pos, w);
        let e = around_end(b, pos, w);
        if ps.len() >= max || covered(pos, rs) || a >= e {
            (ps, rs)
        } else {
            (
                ps.push(
                    PieceView {
                        text: excerpt(b, a, e),
                        position: m.position,
                        context_type: m.context_type,
                        section: section_heading(b, pos),
                        rank: (cands.len() - 1) as usize,
                    },
                ),
                rs.push((back_by(pos, w) as usize, ahead_by(pos, w, b.len() as int) as usize)),
            )
        }
    }
}

/// No more than `max` snippet pieces are made.
pub proof fn law_pick_pieces_count(b: Seq<u8>, cands: Seq<MatchInfo>, w: int, max: int)
    requires
        max >= 0,
    ensures
        pick_pieces(b, cands, w, max).0.len() <= max,
    decreases cands.len(),
{
    if cands.len() > 0 {
        law_pick_pieces_count(b, cands.drop_last(), w, max);
    }
}

/// A cut text takes at most `max_len` bytes, and three more for its mark;
/// a text no longer than `max_len` bytes is left as it is.
pub proof fn law_truncate_bound(t: Seq<u8>, max_len: int)
    requires
        valid_utf8(t),
        max_len >= 0,
    ensures
        t.len() > max_len ==> encode_utf8(truncated_text(t, max_len)).len() <= max_len + 3,
        t.len() <= max_len ==> truncated_text(t, max_len) == decode_utf8(t),
{
    if t.len() > max_len {
        lemma_boundary_before_bounds(t, max_len);
        let k = boundary_at_or_before(t, 0, max_len);
        let part = t.subrange(0, k);
        valid_utf8_split(t, k);
        decode_utf8_encode_utf8(part);
        let cut = decode_utf8(part);
        assert(encode_utf8(cut) == part);
        lemma_encode_concat(cut, dots());
        reveal_with_fuel(encode_utf8, 4);
        assert(encode_utf8(dots()).len() == 3);
    }
}

/// The encoding of two texts one after the other is their encodings one
/// after the other.
pub proof fn lemma_encode_concat(a: Seq<char>, b: Seq<char>)
    ensures
        encode_utf8(a + b) == encode_utf8(a) + encode_utf8(b),
    decreases a.len(),
{
    if a.len() == 0 {
        assert(a + b =~= b);
        assert(encode_utf8(a) =~= Seq::<u8>::empty());
        assert(Seq::<u8>::empty() + encode_utf8(b) =~= encode_utf8(b));
    } else {
        lemma_encode_concat(a.drop_first(), b);
        assert((a + b).drop_first() =~= a.drop_first() + b);
        assert((a + b)[0] == a[0]);
        assert(encode_scalar(a[0] as u32) + (encode_utf8(a.drop_first()) + encode_utf8(b)) =~= (encode_scalar(a[0] as u32)
            + encode_utf8(a.drop_first())) + encode_utf8(b));
    }
}

/// Makes snippets together with what their relevance is judged by.
#[derive(Debug)]
pub struct ScoredSnippetGenerator {
    max_snippet_length: usize,
    max_snippets: usize,
    context_window: usize,
}

impl ScoredSnippetGenerator {
    /// Bytes taken from the start of the text when nothing matches.
    pub closed spec fn max_len(&self) -> int {
        self.max_snippet_length as int
    }

    /// The most snippets returned.
    pub closed spec fn max_count(&self) -> int {
        self.max_snippets as int
    }

    /// Bytes of context taken either side of a match.
    pub closed spec fn window(&self) -> int {
        self.context_window as int
    }

    /// A generator sized from the configured snippet length `n`: a buffer
    /// of `n + n / 2` bytes, five snippets, and `n / 3` bytes of context.
    pub fn new() -> (r: Self)
        ensures
            r.max_len() == DEFAULT_MAX_SNIPPET_LENGTH + DEFAULT_MAX_SNIPPET_LENGTH / 2,
            r.max_count() == 5,
            r.window() == DEFAULT_MAX_SNIPPET_LENGTH / 3,
    {
        let config = Config::default();
        let buffer_size = config.max_snippet_length + (config.max_snippet_length / 2);
        ScoredSnippetGenerator {
            max_snippet_length: buffer_size,
            max_snippets: 5,
            context_window: config.max_snippet_length / 3,
        }
    }

    /// A generator with the given limits.
    pub fn with_config(max_snippet_length: usize, max_snippets: usize, context_window: usize) -> (r:
        Self)
        ensures
            r.max_len() == max_snippet_length,
            r.max_count() == max_snippets,
            r.window() == context_window,
    {
        ScoredSnippetGenerator { max_snippet_length, max_snippets, context_window }
    }

    /// The kind of the text `text`.
    pub fn detect_context_type(&self, text: &str) -> (r: ContextType)
        ensures
            r == context_type_of(text@, text.spec_bytes().len() as int),
    {
        context_type(text)
    }

    /// The windows of `content` in which `terms` occur, counted in `lower`,
    /// the lowercased text.
    pub fn find_detailed_matches(&self, content: &str, lower: &str, terms: &Vec<String>) -> (r: Vec<
        MatchInfo,
    >)
        requires
            windows_fit(content.spec_bytes(), lower.spec_bytes(), SCAN_WINDOW as int, SCAN_STEP as int, 0),
            all_nonempty(term_bytes(terms@)),
        ensures
            r@ == detailed_matches(content.spec_bytes(), lower.spec_bytes(), term_bytes(terms@)),
    {
        let ghost b = content.spec_bytes();
        let clen = content.as_bytes().len();
        let hits = find_windows(content, lower, terms, SCAN_WINDOW, SCAN_STEP);
        proof {
            encode_utf8_valid_utf8(content@);
            lemma_scan_windows_bounds(b, lower.spec_bytes(), term_bytes(terms@), SCAN_WINDOW as int, SCAN_STEP as int, 0);
        }
        let mut out: Vec<MatchInfo> = Vec::new();
        let mut i: usize = 0;
        while i < hits.len()
            invariant
                b == content.spec_bytes(),
                hits@ == scan_windows(b, lower.spec_bytes(), term_bytes(terms@), SCAN_WINDOW as int, SCAN_STEP as int, 0),
                forall|k: int|
                    #![trigger hits@[k]]
                    0 <= k < hits@.len() ==> {
                        &&& hits@[k].start <= hits@[k].end <= b.len()
                        &&& is_char_boundary(b, hits@[k].start as int)
                        &&& is_char_boundary(b, hits@[k].end as int)
                    },
                i <= hits@.len(),
                out@ == hits@.take(i as int).map_values(|w: Window| match_info_of(b, w)),
            decreases hits@.len() - i,
        {
            let w = hits[i];
            let text = substring(content, w.start, w.end);
            let ct = context_type(text);
            proof {
                encode_utf8_decode_utf8(text@);
            }
            out.push(
                MatchInfo {
                    position: w.start,
                    end: w.end,
                    match_count: w.matches,
                    unique_terms: w.terms_found,
                    context_type: ct,
                },
            );
            assert(hits@.take(i + 1).map_values(|w: Window| match_info_of(b, w)) =~= hits@.take(
                i as int,
            ).map_values(|w: Window| match_info_of(b, w)).push(match_info_of(b, w)));
            i += 1;
        }
        assert(hits@.take(hits@.len() as int) =~= hits@);
        out
    }

    /// The matches of the words of `query` in `content`, matched
    /// case-insensitively, and the number of those words; none where the
    /// lowercased content does not keep the byte layout that the scan
    /// windows need.
    pub fn find_matches(&self, content: &str, query: &str) -> (r: Option<(Vec<MatchInfo>, usize)>)
        ensures
            windows_fit(
                content.spec_bytes(),
                encode_utf8(lowercase(content@)),
                SCAN_WINDOW as int,
                SCAN_STEP as int,
                0,
            ) ==> (r matches Some((ms, n)) && ms@ == detailed_matches(
                content.spec_bytes(),
                encode_utf8(lowercase(content@)),
                encoded(words(lowercase(query@))),
            ) && n == words(lowercase(query@)).len()),
            !windows_fit(
                content.spec_bytes(),
                encode_utf8(lowercase(content@)),
                SCAN_WINDOW as int,
                SCAN_STEP as int,
                0,
            ) ==> r is None,
    {
        let lower_query = to_lowercase(query);
        let qchars = chars_of(lower_query.as_str());
        let terms = words_in(&qchars, 0, qchars.len());
        let lower = to_lowercase(content);
        proof {
            assert(qchars@.subrange(0, qchars@.len() as int) =~= qchars@);
            lemma_words_shape(qchars@);
            assert forall|i: int| 0 <= i < term_bytes(terms@).len() implies #[trigger] term_bytes(
                terms@,
            )[i].len() > 0 by {
                lemma_encode_nonempty(views(terms@)[i]);
            }
        }
        if !check_windows_fit(content, lower.as_str(), SCAN_WINDOW, SCAN_STEP) {
            return None;
        }
        let ms = self.find_detailed_matches(content, lower.as_str(), &terms);
        Some((ms, terms.len()))
    }

    /// The snippets for the matches `ordered`, taken in turn, at most twice
    /// as many as the snippets wanted.
    pub fn pick_snippets(&self, content: &str, ordered: &Vec<MatchInfo>) -> (r: Vec<SnippetPiece>)
        requires
            forall|i: int| 0 <= i < ordered@.len() ==> #[trigger] ordered@[i].position <= content.spec_bytes().len(),
        ensures
            piece_views(r@) == pick_pieces(
                content.spec_bytes(),
                ordered@.take(
                    if 2 * self.max_count() < ordered@.len() { 2 * self.max_count() } else { ordered@.len() as int },
                ),
                self.window(),
                self.max_count(),
            ).0,
    {
        let ghost b = content.spec_bytes();
        let len = content.as_bytes().len();
        let w = self.context_window;
        let count = if self.max_snippets < ordered.len() / 2 + ordered.len() % 2 {
            2 * self.max_snippets
        } else {
            ordered.len()
        };
        assert(count == (if 2 * self.max_count() < ordered@.len() { 2 * self.max_count() } else { ordered@.len() as int }));
        let mut pieces: Vec<SnippetPiece> = Vec::new();
        let mut ranges: Vec<(usize, usize)> = Vec::new();
        let mut i: usize = 0;
        while i < count
            invariant
                count <= ordered@.len(),
                forall|i: int| 0 <= i < ordered@.len() ==> #[trigger] ordered@[i].position <= b.len(),
                b == content.spec_bytes(),
                len == b.len(),
                w == self.window(),
                i <= count,
                (piece_views(pieces@), ranges@) == pick_pieces(b, ordered@.take(i as int), w as int, self.max_count()),
            decreases count - i,
        {
            let m = ordered[i];
            let pos = m.position;
            proof {
                assert(ordered@.take(i + 1).drop_last() =~= ordered@.take(i as int));
                assert(ordered@.take(i + 1).last() == ordered@[i as int]);
            }
            if pieces.len() < self.max_snippets && !overlaps_with_ranges(pos, &ranges) {
                let (a, e) = bounds_around(content, pos, w);
                if a < e {
                    let text = excerpt_text(content, a, e);
                    let section = find_section_heading(content, pos);
                    let back = if pos >= w { pos - w } else { 0 };
                    let ahead = if len - pos > w { pos + w } else { len };
                    let piece = SnippetPiece { text, position: pos, context_type: m.context_type, section, rank: i };
                    let ghost old_pieces = pieces@;
                    ranges.push((back, ahead));
                    pieces.push(piece);
                    proof {
                        assert(piece_views(pieces@) =~= piece_views(old_pieces).push(piece@));
                    }
                }
            }
            i += 1;
        }
        pieces
    }

    /// The text of the snippet used where nothing matches.
    pub fn fallback_text(&self, content: &str) -> (r: String)
        ensures
            r@ == fallback_text(content.spec_bytes(), self.max_len()),
    {
        let len = content.as_bytes().len();
        let max_len = if self.max_snippet_length < len { self.max_snippet_length } else { len };
        if len > max_len {
            let (head, _) = prefix_at_boundary(content, max_len);
            let mut out = String::from_str(head);
            push_dots(&mut out);
            out
        } else {
            proof {
                encode_utf8_decode_utf8(content@);
            }
            String::from_str(content)
        }
    }
}

impl Default for ScoredSnippetGenerator {
    fn default() -> (r: Self)
        ensures
            r.max_len() == DEFAULT_MAX_SNIPPET_LENGTH + DEFAULT_MAX_SNIPPET_LENGTH / 2,
            r.max_count() == 5,
            r.window() == DEFAULT_MAX_SNIPPET_LENGTH / 3,
    {
        Self::new()
    }
}

} // verus!
