//! Character-level text utilities shared by the parsers and snippet code.
use vstd::prelude::*;

verus! {

/// Unicode `White_Space` property, the set that `char::is_whitespace` tests.
pub open spec fn is_ws(c: char) -> bool {
    ||| c == '\t'
    ||| c == '\n'
    ||| c == '\x0B'
    ||| c == '\x0C'
    ||| c == '\r'
    ||| c == ' '
    ||| c == '\u{85}'
    ||| c == '\u{A0}'
    ||| c == '\u{1680}'
    ||| ('\u{2000}' <= c && c <= '\u{200A}')
    ||| c == '\u{2028}'
    ||| c == '\u{2029}'
    ||| c == '\u{202F}'
    ||| c == '\u{205F}'
    ||| c == '\u{3000}'
}

/// Whether `c` is Unicode whitespace.
pub fn is_whitespace(c: char) -> (b: bool)
    ensures
        b == is_ws(c),
{
    c == '\t' || c == '\n' || c == '\x0B' || c == '\x0C' || c == '\r' || c == ' '
        || c == '\u{85}' || c == '\u{A0}' || c == '\u{1680}' || ('\u{2000}' <= c
        && c <= '\u{200A}') || c == '\u{2028}' || c == '\u{2029}' || c == '\u{202F}'
        || c == '\u{205F}' || c == '\u{3000}'
}

/// The characters of `s`, in order.
pub fn chars_of(s: &str) -> (v: Vec<char>)
    ensures
        v@ == s@,
{
    let mut v: Vec<char> = Vec::new();
    for c in it: s.chars()
        invariant
            v@ == it.seq().take(it.index() as int),
            it.seq() == s@,
    {
        v.push(c);
    }
    v
}


/// `s` without its leading whitespace.
pub open spec fn trim_start(s: Seq<char>) -> Seq<char>
    decreases s.len(),
{
    if s.len() > 0 && is_ws(s[0]) {
        trim_start(s.drop_first())
    } else {
        s
    }
}

/// `s` without its trailing whitespace.
pub open spec fn trim_end(s: Seq<char>) -> Seq<char>
    decreases s.len(),
{
    if s.len() > 0 && is_ws(s.last()) {
        trim_end(s.drop_last())
    } else {
        s
    }
}

/// `s` without leading and trailing whitespace (`str::trim`).
pub open spec fn trim(s: Seq<char>) -> Seq<char> {
    trim_end(trim_start(s))
}

/// The words of a prefix of the text, read left to right: the words already
/// closed by a whitespace character, and the word still being read.
pub open spec fn words_fold(s: Seq<char>) -> (Seq<Seq<char>>, Seq<char>)
    decreases s.len(),
{
    if s.len() == 0 {
        (Seq::empty(), Seq::empty())
    } else {
        let (done, cur) = words_fold(s.drop_last());
        if is_ws(s.last()) {
            if cur.len() > 0 {
                (done.push(cur), Seq::empty())
            } else {
                (done, Seq::empty())
            }
        } else {
            (done, cur.push(s.last()))
        }
    }
}

/// The maximal runs of non-whitespace characters of `s` (`str::split_whitespace`).
pub open spec fn words(s: Seq<char>) -> Seq<Seq<char>> {
    let (done, cur) = words_fold(s);
    if cur.len() > 0 {
        done.push(cur)
    } else {
        done
    }
}

/// Appends `c` to `s` (`String::push`).
#[verifier::external_body]
pub(crate) fn push_char(s: &mut String, c: char)
    ensures
        final(s)@ == old(s)@.push(c),
{
    s.push(c);
}

/// The string made of the characters `v[from..to]`.
pub fn string_from_range(v: &Vec<char>, from: usize, to: usize) -> (s: String)
    requires
        from <= to <= v.len(),
    ensures
        s@ == v@.subrange(from as int, to as int),
{
    let mut s = String::new();
    let mut i = from;
    while i < to
        invariant
            from <= i <= to <= v.len(),
            s@ == v@.subrange(from as int, i as int),
        decreases to - i,
    {
        push_char(&mut s, v[i]);
        assert(v@.subrange(from as int, i + 1) == v@.subrange(from as int, i as int).push(v@[i as int]));
        i += 1;
    }
    s
}

proof fn lemma_trim_start_skip(s: Seq<char>, i: int)
    requires
        0 <= i < s.len(),
        is_ws(s[i]),
    ensures
        trim_start(s.subrange(i, s.len() as int)) == trim_start(s.subrange(i + 1, s.len() as int)),
{
    assert(s.subrange(i, s.len() as int).drop_first() =~= s.subrange(i + 1, s.len() as int));
}

proof fn lemma_trim_end_skip(s: Seq<char>, a: int, j: int)
    requires
        0 <= a < j <= s.len(),
        is_ws(s[j - 1]),
    ensures
        trim_end(s.subrange(a, j)) == trim_end(s.subrange(a, j - 1)),
{
    assert(s.subrange(a, j).drop_last() =~= s.subrange(a, j - 1));
}

/// The bounds `(a, b)` of `v` with leading and trailing whitespace removed.
pub fn trim_bounds(v: &Vec<char>, from: usize, to: usize) -> (r: (usize, usize))
    requires
        from <= to <= v.len(),
    ensures
        from <= r.0 <= r.1 <= to,
        v@.subrange(r.0 as int, r.1 as int) == trim(v@.subrange(from as int, to as int)),
{
    let ghost w = v@.subrange(from as int, to as int);
    let mut i = from;
    while i < to && is_whitespace(v[i])
        invariant
            from <= i <= to <= v.len(),
            w == v@.subrange(from as int, to as int),
            trim_start(w) == trim_start(v@.subrange(i as int, to as int)),
        decreases to - i,
    {
        proof {
            let t = v@.subrange(from as int, to as int);
            lemma_trim_start_skip(v@.subrange(0, to as int), i as int);
            assert(v@.subrange(0, to as int).subrange(i as int, to as int) =~= v@.subrange(i as int, to as int));
            assert(v@.subrange(0, to as int).subrange(i + 1, to as int) =~= v@.subrange(i + 1, to as int));
        }
        i += 1;
    }
    assert(trim_start(v@.subrange(i as int, to as int)) == v@.subrange(i as int, to as int));
    let mut j = to;
    while j > i && is_whitespace(v[j - 1])
        invariant
            from <= i <= j <= to <= v.len(),
            trim(w) == trim_end(v@.subrange(i as int, j as int)),
        decreases j,
    {
        proof {
            lemma_trim_end_skip(v@, i as int, j as int);
        }
        j -= 1;
    }
    (i, j)
}


/// The views of a sequence of strings.
pub open spec fn views(v: Seq<String>) -> Seq<Seq<char>> {
    v.map_values(|s: String| s@)
}

/// The words of `v[from..to]`, each as a string (`str::split_whitespace`).
pub fn words_in(v: &Vec<char>, from: usize, to: usize) -> (r: Vec<String>)
    requires
        from <= to <= v.len(),
    ensures
        views(r@) == words(v@.subrange(from as int, to as int)),
{
    let mut done: Vec<String> = Vec::new();
    let mut start = from;
    let mut i = from;
    while i < to
        invariant
            from <= start <= i <= to <= v.len(),
            words_fold(v@.subrange(from as int, i as int)) == (
            views(done@),
            v@.subrange(start as int, i as int),
            ),
        decreases to - i,
    {
        let ghost pre = v@.subrange(from as int, i as int);
        assert(v@.subrange(from as int, i + 1).drop_last() =~= pre);
        if is_whitespace(v[i]) {
            if start < i {
                let w = string_from_range(v, start, i);
                done.push(w);
                assert(views(done@) =~= words_fold(pre).0.push(v@.subrange(start as int, i as int)));
            }
            start = i + 1;
            assert(v@.subrange(start as int, i + 1) =~= Seq::<char>::empty());
        } else {
            assert(v@.subrange(start as int, i + 1) =~= v@.subrange(start as int, i as int).push(v@[i as int]));
        }
        i += 1;
    }
    if start < to {
        let w = string_from_range(v, start, to);
        done.push(w);
        assert(views(done@) =~= words_fold(v@.subrange(from as int, to as int)).0.push(v@.subrange(start as int, to as int)));
    }
    done
}


/// Whether `s` holds no whitespace character.
pub open spec fn no_ws(s: Seq<char>) -> bool {
    forall|i: int| 0 <= i < s.len() ==> !is_ws(#[trigger] s[i])
}

/// Whether `s` neither starts nor ends with whitespace.
pub open spec fn is_trimmed(s: Seq<char>) -> bool {
    s.len() > 0 ==> !is_ws(s[0]) && !is_ws(s.last())
}

pub proof fn lemma_trim_start_shape(s: Seq<char>)
    ensures
        exists|k: int| 0 <= k <= s.len() && trim_start(s) == s.skip(k),
        trim_start(s).len() > 0 ==> !is_ws(trim_start(s)[0]),
    decreases s.len(),
{
    if s.len() > 0 && is_ws(s[0]) {
        lemma_trim_start_shape(s.drop_first());
        let k = choose|k: int| 0 <= k <= s.drop_first().len() && trim_start(s.drop_first()) == s.drop_first().skip(k);
        assert(s.drop_first().skip(k) =~= s.skip(k + 1));
    } else {
        assert(s.skip(0) =~= s);
    }
}

pub proof fn lemma_trim_end_shape(s: Seq<char>)
    ensures
        trim_end(s).len() <= s.len(),
        trim_end(s) == s.take(trim_end(s).len() as int),
        trim_end(s).len() > 0 ==> !is_ws(trim_end(s).last()),
    decreases s.len(),
{
    if s.len() > 0 && is_ws(s.last()) {
        lemma_trim_end_shape(s.drop_last());
        assert(s.drop_last().take(trim_end(s).len() as int) =~= s.take(trim_end(s).len() as int));
    } else {
        assert(s.take(s.len() as int) =~= s);
    }
}

/// A trimmed text is its own trim.
pub proof fn lemma_trim_of_trimmed(s: Seq<char>)
    requires
        is_trimmed(s),
    ensures
        trim(s) == s,
{
    if s.len() > 0 {
        assert(trim_start(s) == s);
        assert(trim_end(s) == s);
    } else {
        assert(trim_start(s) == s);
        assert(trim_end(s) == s);
    }
}

/// The trim of any text is trimmed.
pub proof fn lemma_trim_is_trimmed(s: Seq<char>)
    ensures
        is_trimmed(trim(s)),
{
    lemma_trim_start_shape(s);
    let t = trim_start(s);
    lemma_trim_end_shape(t);
    let u = trim_end(t);
    if u.len() > 0 {
        assert(u[0] == t[0]);
    }
}

/// The words of a text are nonempty and hold no whitespace.
pub proof fn lemma_words_fold_shape(s: Seq<char>)
    ensures
        forall|i: int| 0 <= i < words_fold(s).0.len() ==> (#[trigger] words_fold(s).0[i]).len() > 0
            && no_ws(words_fold(s).0[i]),
        no_ws(words_fold(s).1),
    decreases s.len(),
{
    if s.len() > 0 {
        lemma_words_fold_shape(s.drop_last());
        let (done, cur) = words_fold(s.drop_last());
        if !is_ws(s.last()) {
            assert forall|i: int| 0 <= i < cur.push(s.last()).len() implies !is_ws(
                #[trigger] cur.push(s.last())[i],
            ) by {
                if i < cur.len() {
                    assert(cur.push(s.last())[i] == cur[i]);
                }
            }
        }
    }
}

pub proof fn lemma_words_shape(s: Seq<char>)
    ensures
        forall|i: int| 0 <= i < words(s).len() ==> (#[trigger] words(s)[i]).len() > 0 && no_ws(
            words(s)[i],
        ),
{
    lemma_words_fold_shape(s);
}

/// A nonempty text without whitespace is a single word.
pub proof fn lemma_words_of_word(s: Seq<char>)
    requires
        no_ws(s),
    ensures
        words_fold(s) == (Seq::<Seq<char>>::empty(), s),
    decreases s.len(),
{
    if s.len() > 0 {
        assert(no_ws(s.drop_last()));
        lemma_words_of_word(s.drop_last());
        assert(s.drop_last().push(s.last()) =~= s);
    }
}


/// Whether two texts are equal, character for character.
pub fn same_text(a: &str, b: &str) -> (r: bool)
    ensures
        r == (a@ == b@),
{
    let x = chars_of(a);
    let y = chars_of(b);
    if x.len() != y.len() {
        return false;
    }
    let mut i: usize = 0;
    while i < x.len()
        invariant
            x@ == a@,
            y@ == b@,
            x.len() == y.len(),
            i <= x.len(),
            forall|j: int| 0 <= j < i ==> x@[j] == y@[j],
        decreases x.len() - i,
    {
        if x[i] != y[i] {
            return false;
        }
        i += 1;
    }
    assert(x@ =~= y@);
    true
}

/// The view of an optional string.
pub open spec fn opt_view(o: Option<String>) -> Option<Seq<char>> {
    match o {
        Some(s) => Some(s@),
        None => None,
    }
}

/// A copy of an optional string.
pub fn clone_opt(o: &Option<String>) -> (r: Option<String>)
    ensures
        opt_view(r) == opt_view(*o),
{
    match o {
        Some(s) => Some(s.clone()),
        None => None,
    }
}

/// A copy of a list of strings.
pub fn clone_strings(v: &Vec<String>) -> (r: Vec<String>)
    ensures
        views(r@) == views(v@),
{
    let mut r: Vec<String> = Vec::new();
    let mut i: usize = 0;
    while i < v.len()
        invariant
            i <= v.len(),
            views(r@) == views(v@).take(i as int),
        decreases v.len() - i,
    {
        let ghost old_r = r@;
        r.push(v[i].clone());
        assert(views(r@) =~= views(old_r).push(v@[i as int]@));
        assert(views(v@).take(i + 1) =~= views(v@).take(i as int).push(v@[i as int]@));
        i += 1;
    }
    assert(views(v@).take(v.len() as int) =~= views(v@));
    r
}

/// The lowercase form of a text, as `str::to_lowercase` computes it from
/// Unicode's case mappings.
pub uninterp spec fn lowercase(s: Seq<char>) -> Seq<char>;

/// The lowercase form of `s` (`str::to_lowercase`).
#[verifier::external_body]
pub(crate) fn to_lowercase(s: &str) -> (r: String)
    ensures
        r@ == lowercase(s@),
{
    s.to_lowercase()
}

/// The three dots that mark an excerpt cut out of a longer text.
pub open spec fn dots() -> Seq<char> {
    seq!['.', '.', '.']
}

/// Appends `"..."` to `s`.
pub fn push_dots(s: &mut String)
    ensures
        final(s)@ == old(s)@ + dots(),
{
    push_char(s, '.');
    push_char(s, '.');
    push_char(s, '.');
    assert(final(s)@ =~= old(s)@ + dots());
}

/// The texts `ws` joined with a single space between each two.
pub open spec fn join_spaced(ws: Seq<Seq<char>>) -> Seq<char>
    decreases ws.len(),
{
    if ws.len() == 0 {
        seq![]
    } else if ws.len() == 1 {
        ws[0]
    } else {
        join_spaced(ws.drop_last()) + seq![' '] + ws.last()
    }
}

/// The strings `ws` joined with a single space between each two
/// (`join(" ")`).
pub fn join_with_spaces(ws: &Vec<String>) -> (r: String)
    ensures
        r@ == join_spaced(views(ws@)),
{
    let mut out = String::new();
    let mut i: usize = 0;
    while i < ws.len()
        invariant
            i <= ws@.len(),
            out@ == join_spaced(views(ws@).take(i as int)),
        decreases ws@.len() - i,
    {
        let ghost prev = out@;
        proof {
            assert(views(ws@).take(i + 1).drop_last() =~= views(ws@).take(i as int));
            assert(views(ws@).take(i + 1).last() == ws@[i as int]@);
        }
        if i > 0 {
            push_char(&mut out, ' ');
        }
        out.append(ws[i].as_str());
        proof {
            if i == 0 {
                assert(views(ws@).take(1)[0] == ws@[0]@);
                assert(out@ =~= ws@[0]@);
            } else {
                assert(out@ =~= prev + seq![' '] + ws@[i as int]@);
            }
        }
        i += 1;
    }
    assert(views(ws@).take(ws@.len() as int) =~= views(ws@));
    out
}

} // verus!
