//! Pieces shared by the search managers: indexing status, number parsing
//! and formatting, and the page a snippet comes from.
use vstd::prelude::*;

use std::sync::atomic::{AtomicBool, AtomicUsize};

use crate::config::DEFAULT_MAX_SNIPPET_LENGTH;
use crate::search::scored_snippet::{contains_chars, has_sub};
use crate::text::{chars_of, dots, opt_view, push_char, string_from_range, trim, trim_bounds, views};
use vstd::utf8::encode_utf8;

verus! {

/// Default heap size for the index writer (50MB).
pub const DEFAULT_WRITER_HEAP_SIZE: usize = 50_000_000;

/// Smallest heap size the index writer accepts (15MB).
pub const MIN_WRITER_HEAP_SIZE: usize = 15_000_000;

/// The character of the decimal digit `d`.
pub open spec fn digit_char(d: nat) -> char {
    ((48 + d) as u8) as char
}

/// The decimal representation of `n`, without leading zeros.
pub open spec fn decimal(n: nat) -> Seq<char>
    decreases n,
{
    if n < 10 {
        seq![digit_char(n)]
    } else {
        decimal(n / 10).push(digit_char(n % 10))
    }
}

/// Appends the decimal representation of `n` to `s`.
pub fn push_decimal(s: &mut String, n: usize)
    ensures
        final(s)@ == old(s)@ + decimal(n as nat),
    decreases n,
{
    if n >= 10 {
        push_decimal(s, n / 10);
    }
    let d = (n % 10) as u8;
    push_char(s, (48u8 + d) as char);
    proof {
        if n >= 10 {
            assert(decimal(n as nat) == decimal((n / 10) as nat).push(digit_char((n % 10) as nat)));
        }
    }
    assert(final(s)@ =~= old(s)@ + decimal(n as nat));
}

/// Appends the characters of `t` to `s`.
pub fn push_text(s: &mut String, t: &str)
    ensures
        final(s)@ == old(s)@ + t@,
{
    s.append(t);
}

/// The kind of index an indexing status describes.
#[derive(Debug, Clone, Copy, PartialEq, Eq, Structural)]
pub enum IndexingType {
    /// An existing index, read without writing.
    ReadOnly,
}

/// The indexing status of a search manager.
#[derive(Debug)]
pub struct IndexingStatus {
    /// Items to process.
    pub total: AtomicUsize,
    /// Items processed.
    pub completed: AtomicUsize,
    /// Errors met.
    pub errors: AtomicUsize,
    /// Whether indexing is done.
    pub is_complete: AtomicBool,
    /// The kind of index.
    pub index_type: IndexingType,
    /// Documents in the index.
    pub doc_count: usize,
    /// Distinct bookmarks in the index.
    pub bookmark_count: usize,
}

/// The summary of a read-only index with `docs` documents holding
/// `bookmarks` distinct bookmarks.
pub open spec fn summary_text(docs: nat, bookmarks: nat) -> Seq<char> {
    if bookmarks > 0 && bookmarks != docs {
        "Read-only index: "@ + decimal(bookmarks) + " bookmarks ("@ + decimal(docs) + " documents)"@
    } else {
        "Read-only index: "@ + decimal(docs) + " documents"@
    }
}

impl IndexingStatus {
    /// The status of an empty read-only index; only read-only indexes
    /// exist, so the count given is not used.
    pub fn new(total: usize) -> (r: Self)
        ensures
            r.index_type == IndexingType::ReadOnly,
            r.doc_count == 0,
            r.bookmark_count == 0,
    {
        Self::for_readonly(0, 0)
    }

    /// The status of a read-only index with `doc_count` documents holding
    /// `bookmark_count` distinct bookmarks.
    pub fn for_readonly(doc_count: usize, bookmark_count: usize) -> (r: Self)
        ensures
            r.index_type == IndexingType::ReadOnly,
            r.doc_count == doc_count,
            r.bookmark_count == bookmark_count,
    {
        IndexingStatus {
            total: AtomicUsize::new(0),
            completed: AtomicUsize::new(0),
            errors: AtomicUsize::new(0),
            is_complete: AtomicBool::new(true),
            index_type: IndexingType::ReadOnly,
            doc_count,
            bookmark_count,
        }
    }

    /// A one-line summary: the bookmarks and documents where they differ,
    /// the documents alone where they do not.
    pub fn summary(&self) -> (r: String)
        ensures
            r@ == summary_text(self.doc_count as nat, self.bookmark_count as nat),
    {
        let mut s = String::new();
        push_text(&mut s, "Read-only index: ");
        if self.bookmark_count > 0 && self.bookmark_count != self.doc_count {
            push_decimal(&mut s, self.bookmark_count);
            push_text(&mut s, " bookmarks (");
            push_decimal(&mut s, self.doc_count);
            push_text(&mut s, " documents)");
        } else {
            push_decimal(&mut s, self.doc_count);
            push_text(&mut s, " documents");
        }
        s
    }
}

/// Whether `c` is an ASCII decimal digit.
pub open spec fn is_digit(c: char) -> bool {
    '0' <= c && c <= '9'
}

/// The value of the decimal digits `ds`.
pub open spec fn digits_value(ds: Seq<char>) -> nat
    decreases ds.len(),
{
    if ds.len() == 0 {
        0
    } else {
        digits_value(ds.drop_last()) * 10 + ((ds.last() as u32) - 48) as nat
    }
}

/// Whether `ds` is a non-empty run of decimal digits.
pub open spec fn all_digits(ds: Seq<char>) -> bool {
    ds.len() > 0 && forall|i: int| 0 <= i < ds.len() ==> is_digit(#[trigger] ds[i])
}

/// The integer `s` denotes as `str::parse::<i64>` reads it: an optional
/// sign followed by decimal digits, within the range of `i64`.
pub open spec fn parse_i64_spec(s: Seq<char>) -> Option<i64> {
    let neg = s.len() > 0 && s[0] == '-';
    let ds = if s.len() > 0 && (s[0] == '-' || s[0] == '+') { s.drop_first() } else { s };
    if !all_digits(ds) {
        None
    } else {
        let v: int = if neg { -(digits_value(ds) as int) } else { digits_value(ds) as int };
        if i64::MIN <= v <= i64::MAX {
            Some(v as i64)
        } else {
            None
        }
    }
}

/// The number `s` denotes as `str::parse::<usize>` reads it: an optional
/// `+` followed by decimal digits, within the range of `usize`.
pub open spec fn parse_usize_spec(s: Seq<char>) -> Option<usize> {
    let ds = if s.len() > 0 && s[0] == '+' { s.drop_first() } else { s };
    if !all_digits(ds) || digits_value(ds) > usize::MAX {
        None
    } else {
        Some(digits_value(ds) as usize)
    }
}

proof fn lemma_digits_value_grows(ds: Seq<char>, i: int)
    requires
        0 <= i <= ds.len(),
    ensures
        digits_value(ds.take(i)) <= digits_value(ds),
    decreases ds.len() - i,
{
    if i < ds.len() {
        lemma_digits_value_grows(ds, i + 1);
        assert(ds.take(i + 1).drop_last() =~= ds.take(i));
    } else {
        assert(ds.take(i) =~= ds);
    }
}

/// The character of a decimal digit is a digit, and denotes it.
proof fn lemma_digit_char(d: nat)
    requires
        d < 10,
    ensures
        is_digit(digit_char(d)),
        (digit_char(d) as u32) - 48 == d,
{
    let b: u8 = (48 + d) as u8;
    assert(b == 48 + d);
    let c: char = b as char;
    assert(c as u32 == b);
}

/// The decimal digits of `n` are digits, and denote `n`.
pub proof fn lemma_decimal_digits(n: nat)
    ensures
        all_digits(decimal(n)),
        digits_value(decimal(n)) == n,
    decreases n,
{
    lemma_digit_char(n % 10);
    let d = decimal(n);
    if n < 10 {
        assert(n % 10 == n);
        assert(d.drop_last() =~= Seq::<char>::empty());
        assert(digits_value(d) == digits_value(d.drop_last()) * 10 + ((d.last() as u32) - 48) as nat);
    } else {
        lemma_decimal_digits(n / 10);
        assert(d.drop_last() =~= decimal(n / 10));
        assert(d.last() == digit_char(n % 10));
        assert(digits_value(d) == digits_value(d.drop_last()) * 10 + ((d.last() as u32) - 48) as nat);
        assert(n == (n / 10) * 10 + n % 10);
        assert forall|i: int| 0 <= i < d.len() implies is_digit(#[trigger] d[i]) by {
            if i < d.len() - 1 {
                assert(d[i] == decimal(n / 10)[i]);
            }
        }
    }
}

/// The text of the integer `n`: `-` before the digits of its magnitude
/// where it is negative (`i64::to_string`).
pub open spec fn i64_text(n: i64) -> Seq<char> {
    if n < 0 {
        seq!['-'] + decimal((-(n as int)) as nat)
    } else {
        decimal(n as nat)
    }
}

/// Reading back the decimal text of any `i64` (as `to_string` writes it)
/// gives that integer: `parse_i64` and `parse_date`, which read a text as
/// `parse_i64_spec` does, return `Some(n)` on `i64_text(n)`.
pub proof fn law_parse_date_reads_integer_text(n: i64)
    ensures
        parse_i64_spec(i64_text(n)) == Some(n),
{
    let m: nat = if n < 0 { (-(n as int)) as nat } else { n as nat };
    lemma_decimal_digits(m);
    if n < 0 {
        assert(i64_text(n).drop_first() =~= decimal(m));
    } else {
        assert(decimal(m).len() > 0);
        assert(is_digit(decimal(m)[0]));
    }
}

/// The value of the digits `cs[from..]` where it is at most `limit`, and
/// whether `cs[from..]` is a non-empty run of digits.
fn digits_up_to(cs: &Vec<char>, from: usize, limit: u64) -> (r: (bool, Option<u64>))
    requires
        from <= cs@.len(),
        limit >= 9,
    ensures
        r.0 == all_digits(cs@.skip(from as int)),
        r.0 ==> match r.1 {
            Some(v) => v == digits_value(cs@.skip(from as int)) && v <= limit,
            None => digits_value(cs@.skip(from as int)) > limit,
        },
{
    let ghost ds = cs@.skip(from as int);
    let n = cs.len();
    if from >= n {
        return (false, None);
    }
    let mut acc: u64 = 0;
    let mut over = false;
    let mut i = from;
    while i < n
        invariant
            from <= i <= n == cs@.len(),
            ds == cs@.skip(from as int),
            limit >= 9,
            forall|k: int| from <= k < i ==> is_digit(#[trigger] cs@[k]),
            !over ==> acc == digits_value(ds.take(i - from)) && acc <= limit,
            over ==> digits_value(ds.take(i - from)) > limit,
        decreases n - i,
    {
        let c = cs[i];
        if !('0' <= c && c <= '9') {
            assert(!is_digit(ds[i - from]));
            return (false, None);
        }
        let d = (c as u32 - 48) as u64;
        let ghost prev = digits_value(ds.take(i - from));
        proof {
            assert(ds.take(i - from + 1).drop_last() =~= ds.take(i - from));
            assert(ds.take(i - from + 1).last() == c);
            assert(digits_value(ds.take(i - from + 1)) == prev * 10 + d);
        }
        if !over {
            if acc > (limit - d) / 10 {
                over = true;
                assert(acc * 10 + d > limit) by (nonlinear_arith)
                    requires
                        acc > (limit - d) / 10,
                        d <= 9,
                        d <= limit || true,
                ;
            } else {
                assert(acc * 10 + d <= limit) by (nonlinear_arith)
                    requires
                        acc <= (limit - d) / 10,
                        limit >= d || (limit - d) / 10 >= 0,
                ;
                acc = acc * 10 + d;
            }
        } else {
            assert(prev * 10 + d > limit) by (nonlinear_arith)
                requires
                    prev > limit,
                    d >= 0,
            ;
        }
        i += 1;
    }
    assert(ds.take(n - from) =~= ds);
    if over {
        (true, None)
    } else {
        (true, Some(acc))
    }
}

/// The integer `s` denotes (`str::parse::<i64>`), or none.
pub fn parse_i64(s: &str) -> (r: Option<i64>)
    ensures
        r == parse_i64_spec(s@),
{
    let cs = crate::text::chars_of(s);
    let n = cs.len();
    let neg = n > 0 && cs[0] == '-';
    let from: usize = if n > 0 && (cs[0] == '-' || cs[0] == '+') { 1 } else { 0 };
    assert(from == 0 ==> cs@.skip(0) =~= cs@);
    assert(from == 1 ==> cs@.skip(1) =~= cs@.drop_first());
    let limit: u64 = if neg { 0x8000_0000_0000_0000 } else { 0x7fff_ffff_ffff_ffff };
    let (ok, v) = digits_up_to(&cs, from, limit);
    if !ok {
        return None;
    }
    match v {
        None => None,
        Some(v) => if neg {
            if v == 0x8000_0000_0000_0000 {
                Some(i64::MIN)
            } else {
                Some(-(v as i64))
            }
        } else {
            Some(v as i64)
        },
    }
}

/// The number `s` denotes (`str::parse::<usize>`), or none.
pub fn parse_usize(s: &str) -> (r: Option<usize>)
    ensures
        r == parse_usize_spec(s@),
{
    let cs = crate::text::chars_of(s);
    let n = cs.len();
    let from: usize = if n > 0 && cs[0] == '+' { 1 } else { 0 };
    assert(from == 0 ==> cs@.skip(0) =~= cs@);
    assert(from == 1 ==> cs@.skip(1) =~= cs@.drop_first());
    let limit: u64 = usize::MAX as u64;
    let (ok, v) = digits_up_to(&cs, from, limit);
    if !ok {
        return None;
    }
    match v {
        None => None,
        Some(v) => Some(v as usize),
    }
}

/// The timestamp a date string denotes, where there is one and it is an
/// integer.
pub fn parse_date(date: &Option<String>) -> (r: Option<i64>)
    ensures
        match date {
            Some(d) => r == parse_i64_spec(d@),
            None => r is None,
        },
{
    match date {
        Some(d) => parse_i64(d.as_str()),
        None => None,
    }
}

/// Search settings shared by the managers.
#[derive(Debug, Clone)]
pub struct CommonSearchConfig {
    /// The most results returned.
    pub max_results: usize,
    /// The longest snippet.
    pub max_snippet_length: usize,
    /// Whether the query is boosted.
    pub enable_boosting: bool,
}

impl Default for CommonSearchConfig {
    fn default() -> (r: Self)
        ensures
            r.max_results == 100,
            r.max_snippet_length == DEFAULT_MAX_SNIPPET_LENGTH,
            r.enable_boosting,
    {
        let config = crate::config::Config::default();
        CommonSearchConfig {
            max_results: 100,
            max_snippet_length: config.max_snippet_length,
            enable_boosting: true,
        }
    }
}

/// The host of `s` read as an absolute URL by the `url` crate; none where
/// `s` does not parse as one or has no host.
pub uninterp spec fn url_host(s: Seq<char>) -> Option<Seq<char>>;

/// Parses `s` as an absolute URL (`url::Url::parse`) and gives its host
/// (`Url::host_str`); the result is named, not stated: it is `url_host(s)`.
#[verifier::external_body]
fn parse_url_host(s: &str) -> (r: Option<String>)
    ensures
        opt_view(r) == url_host(s@),
{
    match url::Url::parse(s) {
        Ok(u) => match u.host_str() {
            Some(h) => Some(h.to_string()),
            None => None,
        },
        Err(_) => None,
    }
}

/// The domain of `url`: the host of the URL, where it parses and has one.
pub fn extract_domain(url: &str) -> (r: Option<String>)
    ensures
        opt_view(r) == url_host(url@),
{
    parse_url_host(url)
}

/// The digit runs of the successive matches of `\[PAGE:(\d+)\]` in `s`,
/// found from the left without overlaps, as the `regex` crate finds them
/// (`\d` stands for any Unicode decimal digit).
pub uninterp spec fn page_marker_digits(s: Seq<char>) -> Seq<Seq<char>>;

/// The digits of each page marker `[PAGE:n]` of `s`, in order
/// (`regex::Regex::new`, `Regex::captures_iter`, `Captures::get`); the
/// result is named, not stated: it is `page_marker_digits(s)`.
#[verifier::external_body]
fn page_markers(s: &str) -> (r: Vec<String>)
    ensures
        views(r@) == page_marker_digits(s@),
{
    let mut out = Vec::new();
    if let Ok(re) = regex::Regex::new(r"\[PAGE:(\d+)\]") {
        for cap in re.captures_iter(s) {
            if let Some(m) = cap.get(1) {
                out.push(m.as_str().to_string());
            }
        }
    }
    out
}

/// `s` with every leading repetition of `p` removed (`str::trim_start_matches`).
pub open spec fn strip_leading(s: Seq<char>, p: Seq<char>) -> Seq<char>
    decreases s.len(),
{
    if p.len() > 0 && p.len() <= s.len() && s.take(p.len() as int) == p {
        strip_leading(s.skip(p.len() as int), p)
    } else {
        s
    }
}

/// `s` with every trailing repetition of `p` removed (`str::trim_end_matches`).
pub open spec fn strip_trailing(s: Seq<char>, p: Seq<char>) -> Seq<char>
    decreases s.len(),
{
    if p.len() > 0 && p.len() <= s.len() && s.skip(s.len() - p.len()) == p {
        strip_trailing(s.take(s.len() - p.len()), p)
    } else {
        s
    }
}

/// The first place at or after `i` where `p` occurs in `s`.
pub open spec fn first_at(s: Seq<char>, p: Seq<char>, i: int) -> Option<int>
    decreases s.len() + 1 - i,
{
    if i < 0 || i + p.len() > s.len() {
        None
    } else if s.subrange(i, i + p.len()) == p {
        Some(i)
    } else {
        first_at(s, p, i + 1)
    }
}

/// The part of `s` before the first occurrence of `p`, or all of `s`.
pub open spec fn before_first(s: Seq<char>, p: Seq<char>) -> Seq<char> {
    match first_at(s, p, 0) {
        Some(k) => s.take(k),
        None => s,
    }
}

/// The last page number of `ms` that parses.
pub open spec fn last_page(ms: Seq<Seq<char>>) -> Option<usize>
    decreases ms.len(),
{
    if ms.len() == 0 {
        None
    } else {
        match parse_usize_spec(ms.last()) {
            Some(n) => Some(n),
            None => last_page(ms.drop_last()),
        }
    }
}

/// The text a snippet is looked up by: without its `...` marks, before any
/// page marker, trimmed, at most 30 characters.
pub open spec fn snippet_key(snippet: Seq<char>) -> Seq<char> {
    let t = trim(before_first(strip_trailing(strip_leading(snippet, dots()), dots()), "[PAGE:"@));
    if t.len() <= 30 { t } else { t.take(30) }
}

/// The page of the first page marker of a snippet, where there is one and
/// its digits parse.
pub open spec fn first_page(ms: Seq<Seq<char>>) -> Option<usize> {
    if ms.len() > 0 {
        parse_usize_spec(ms[0])
    } else {
        None
    }
}

/// Where the key of `snippet` first occurs in `full`: none where the key
/// is empty or has fewer than 10 bytes, or does not occur.
pub open spec fn key_position(snippet: Seq<char>, full: Seq<char>) -> Option<int> {
    let key = snippet_key(snippet);
    if key.len() == 0 || encode_utf8(key).len() < 10 {
        None
    } else {
        first_at(full, key, 0)
    }
}

/// The page a snippet of `full` comes from: none where `full` has no page
/// markers; the page of the first marker in the snippet where it has one
/// that parses; else the page of the last marker of `full` before the
/// first occurrence of the snippet's key, where the key has at least 10
/// bytes and occurs.
pub open spec fn page_number_of(snippet: Seq<char>, full: Seq<char>) -> Option<usize> {
    if !has_sub(full, "[PAGE:"@) {
        None
    } else if first_page(page_marker_digits(snippet)) is Some {
        first_page(page_marker_digits(snippet))
    } else {
        match key_position(snippet, full) {
            None => None,
            Some(k) => last_page(page_marker_digits(full.take(k))),
        }
    }
}

/// Whether `p` occurs in `v` at `i`.
fn occurs_at_chars(v: &Vec<char>, i: usize, p: &Vec<char>) -> (r: bool)
    requires
        i + p@.len() <= v@.len(),
    ensures
        r == (v@.subrange(i as int, i + p@.len()) == p@),
{
    let vl = v.len();
    let mut k: usize = 0;
    while k < p.len()
        invariant
            vl == v@.len(),
            k <= p@.len(),
            i + p@.len() <= v@.len(),
            forall|m: int| 0 <= m < k ==> v@[i + m] == p@[m],
        decreases p@.len() - k,
    {
        if v[i + k] != p[k] {
            assert(v@.subrange(i as int, i + p@.len())[k as int] != p@[k as int]);
            return false;
        }
        k += 1;
    }
    assert(v@.subrange(i as int, i + p@.len()) =~= p@);
    true
}

/// The first place where `p` occurs in `v`.
fn find_chars(v: &Vec<char>, p: &Vec<char>) -> (r: Option<usize>)
    ensures
        match first_at(v@, p@, 0) {
            Some(k) => r == Some(k as usize),
            None => r is None,
        },
{
    let n = v.len();
    let pl = p.len();
    if pl > n {
        return None;
    }
    if pl == 0 {
        assert(v@.subrange(0, 0) =~= p@);
        return Some(0);
    }
    let mut i: usize = 0;
    while i <= n - pl
        invariant
            n == v@.len(),
            pl == p@.len(),
            0 < pl <= n,
            i <= n - pl + 1,
            first_at(v@, p@, 0) == first_at(v@, p@, i as int),
        decreases n - pl + 1 - i,
    {
        if occurs_at_chars(v, i, p) {
            return Some(i);
        }
        i += 1;
    }
    None
}

/// Whether `v[i..i + 3]` is `...`.
fn dots_at(v: &Vec<char>, i: usize) -> (r: bool)
    requires
        i + 3 <= v@.len(),
    ensures
        r == (v@.subrange(i as int, i + 3) == dots()),
{
    let vl = v.len();
    let r = v[i] == '.' && v[i + 1] == '.' && v[i + 2] == '.';
    proof {
        let t = v@.subrange(i as int, i + 3);
        if r {
            assert(t =~= dots());
        } else if t == dots() {
            assert(t[0] == '.' && t[1] == '.' && t[2] == '.');
        }
    }
    r
}

/// Where the characters of `v` start once every leading `...` is removed.
fn skip_leading_dots(v: &Vec<char>) -> (a: usize)
    ensures
        a <= v@.len(),
        v@.skip(a as int) == strip_leading(v@, dots()),
{
    let n = v.len();
    let mut a: usize = 0;
    assert(v@.skip(0) =~= v@);
    while n - a >= 3 && dots_at(v, a)
        invariant
            a <= n == v@.len(),
            strip_leading(v@, dots()) == strip_leading(v@.skip(a as int), dots()),
        decreases n - a,
    {
        assert(v@.skip(a as int).take(3) =~= v@.subrange(a as int, a + 3));
        assert(v@.skip(a as int).skip(3) =~= v@.skip(a + 3));
        a += 3;
    }
    if n - a >= 3 {
        assert(v@.skip(a as int).take(3) =~= v@.subrange(a as int, a + 3));
    }
    a
}

/// Where the characters of `v[a..]` end once every trailing `...` is
/// removed.
fn cut_trailing_dots(v: &Vec<char>, a: usize) -> (e: usize)
    requires
        a <= v@.len(),
    ensures
        a <= e <= v@.len(),
        v@.subrange(a as int, e as int) == strip_trailing(v@.skip(a as int), dots()),
{
    let n = v.len();
    let mut e: usize = n;
    assert(v@.skip(a as int) =~= v@.subrange(a as int, n as int));
    while e - a >= 3 && dots_at(v, e - 3)
        invariant
            a <= e <= n == v@.len(),
            strip_trailing(v@.skip(a as int), dots()) == strip_trailing(v@.subrange(a as int, e as int), dots()),
        decreases e,
    {
        let ghost t = v@.subrange(a as int, e as int);
        assert(t.skip(t.len() - 3) =~= v@.subrange(e - 3, e as int));
        assert(t.take(t.len() - 3) =~= v@.subrange(a as int, e - 3));
        e -= 3;
    }
    if e - a >= 3 {
        let ghost t = v@.subrange(a as int, e as int);
        assert(t.skip(t.len() - 3) =~= v@.subrange(e - 3, e as int));
    }
    e
}

/// The characters of `v` with every leading and trailing repetition of
/// `...` removed, as bounds.
fn strip_dots(v: &Vec<char>) -> (r: (usize, usize))
    ensures
        r.0 <= r.1 <= v@.len(),
        v@.subrange(r.0 as int, r.1 as int) == strip_trailing(strip_leading(v@, dots()), dots()),
{
    let a = skip_leading_dots(v);
    let e = cut_trailing_dots(v, a);
    (a, e)
}

/// The text a snippet is looked up by.
fn key_of(snippet: &str) -> (r: String)
    ensures
        r@ == snippet_key(snippet@),
{
    let v = chars_of(snippet);
    let (a, e) = strip_dots(&v);
    let stripped = string_from_range(&v, a, e);
    let sv = chars_of(stripped.as_str());
    let marker = chars_of("[PAGE:");
    let cut = match find_chars(&sv, &marker) {
        Some(k) => k,
        None => sv.len(),
    };
    proof {
        lemma_first_at_range(sv@, marker@, 0);
    }
    assert(cut <= sv@.len());
    assert(sv@.take(cut as int) == before_first(sv@, marker@)) by {
        if first_at(sv@, marker@, 0) is None {
            assert(sv@.take(sv@.len() as int) =~= sv@);
        }
    }
    assert(sv@.subrange(0, cut as int) =~= sv@.take(cut as int));
    let (i, j) = trim_bounds(&sv, 0, cut);
    let end = if j - i <= 30 { j } else { i + 30 };
    let r = string_from_range(&sv, i, end);
    assert(r@ =~= snippet_key(snippet@));
    r
}

/// A place found scanning forward lies within the text.
proof fn lemma_first_at_range(s: Seq<char>, p: Seq<char>, i: int)
    ensures
        first_at(s, p, i) matches Some(k) ==> i <= k && k + p.len() <= s.len(),
    decreases s.len() + 1 - i,
{
    if !(i < 0 || i + p.len() > s.len()) && s.subrange(i, i + p.len()) != p {
        lemma_first_at_range(s, p, i + 1);
    }
}

/// The last page number of the page markers `ms` that parses.
pub fn last_parsed_page(ms: &Vec<String>) -> (r: Option<usize>)
    ensures
        r == last_page(views(ms@)),
{
    let mut last: Option<usize> = None;
    let mut i: usize = 0;
    while i < ms.len()
        invariant
            i <= ms@.len(),
            last == last_page(views(ms@).take(i as int)),
        decreases ms@.len() - i,
    {
        proof {
            assert(views(ms@).take(i + 1).drop_last() =~= views(ms@).take(i as int));
            assert(views(ms@).take(i + 1).last() == ms@[i as int]@);
        }
        match parse_usize(ms[i].as_str()) {
            Some(n) => {
                last = Some(n);
            },
            None => {},
        }
        i += 1;
    }
    assert(views(ms@).take(ms@.len() as int) =~= views(ms@));
    last
}

/// The page of the first page marker of a snippet, given the digits of its
/// markers in order.
pub fn first_marker_page(ms: &Vec<String>) -> (r: Option<usize>)
    ensures
        r == first_page(views(ms@)),
{
    if ms.len() > 0 {
        assert(views(ms@)[0] == ms@[0]@);
        parse_usize(ms[0].as_str())
    } else {
        None
    }
}

/// Where the key of `snippet` (see `snippet_key`) first occurs in
/// `full_content`, in characters.
pub fn snippet_position(snippet: &str, full_content: &str) -> (r: Option<usize>)
    ensures
        r matches Some(k) ==> key_position(snippet@, full_content@) == Some(k as int),
        r is None ==> key_position(snippet@, full_content@) is None,
        r matches Some(k) ==> k <= full_content@.len(),
{
    let full = chars_of(full_content);
    let key = key_of(snippet);
    let kv = chars_of(key.as_str());
    let kb = key.as_str().as_bytes();
    assert(kb@ == encode_utf8(key@));
    if kv.len() == 0 || kb.len() < 10 {
        return None;
    }
    let r = find_chars(&full, &kv);
    proof {
        lemma_first_at_range(full@, kv@, 0);
        assert(key_position(snippet@, full_content@) == first_at(full@, kv@, 0));
        if let Some(k) = first_at(full@, kv@, 0) {
            assert(0 <= k <= full@.len());
            assert(full@.len() == full.len());
        }
    }
    r
}

/// The page of `full_content` a snippet comes from, by its `[PAGE:n]`
/// markers.
pub fn extract_page_number_from_snippet(snippet: &str, full_content: &str) -> (r: Option<usize>)
    ensures
        r == page_number_of(snippet@, full_content@),
{
    let full = chars_of(full_content);
    let marker = chars_of("[PAGE:");
    if !contains_chars(&full, &marker) {
        return None;
    }
    let direct = page_markers(snippet);
    let first = first_marker_page(&direct);
    if first.is_some() {
        return first;
    }
    let pos = match snippet_position(snippet, full_content) {
        None => { return None; },
        Some(k) => k,
    };
    let prefix = string_from_range(&full, 0, pos);
    assert(prefix@ =~= full@.take(pos as int));
    let before = page_markers(prefix.as_str());
    last_parsed_page(&before)
}

} // verus!
