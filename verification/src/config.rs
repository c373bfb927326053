//! Server configuration.
use vstd::prelude::*;

use crate::text::{
    chars_of, lemma_trim_is_trimmed, lemma_trim_of_trimmed, string_from_range, trim, trim_bounds, views,
};

verus! {

/// Default maximum snippet length for search results.
pub const DEFAULT_MAX_SNIPPET_LENGTH: usize = 600;

/// The default maximum snippet length.
pub fn default_max_snippet_length() -> (n: usize)
    ensures
        n == DEFAULT_MAX_SNIPPET_LENGTH,
{
    DEFAULT_MAX_SNIPPET_LENGTH
}

/// Server configuration.
#[derive(Debug, Clone)]
pub struct Config {
    /// Index name to use; several may be given, separated by commas.
    pub index_name: Option<String>,
    /// Maximum number of bookmarks to fetch (0 is unlimited).
    pub max_bookmarks: usize,
    /// Maximum snippet length for search results.
    pub max_snippet_length: usize,
}

impl Default for Config {
    fn default() -> (c: Self)
        ensures
            c.index_name is None,
            c.max_bookmarks == 0,
            c.max_snippet_length == DEFAULT_MAX_SNIPPET_LENGTH,
    {
        Config { index_name: None, max_bookmarks: 0, max_snippet_length: default_max_snippet_length() }
    }
}

/// The pieces of a prefix of `s` between commas: those closed by a comma,
/// and the piece still being read.
pub open spec fn comma_fold(s: Seq<char>) -> (Seq<Seq<char>>, Seq<char>)
    decreases s.len(),
{
    if s.len() == 0 {
        (Seq::empty(), Seq::empty())
    } else {
        let (done, cur) = comma_fold(s.drop_last());
        if s.last() == ',' {
            (done.push(cur), Seq::empty())
        } else {
            (done, cur.push(s.last()))
        }
    }
}

/// The pieces of `s` between commas (`str::split(',')`); never empty.
pub open spec fn split_commas(s: Seq<char>) -> Seq<Seq<char>> {
    comma_fold(s).0.push(comma_fold(s).1)
}

/// The trimmed pieces that are not blank, in order.
pub open spec fn nonblank_trimmed(pieces: Seq<Seq<char>>) -> Seq<Seq<char>>
    decreases pieces.len(),
{
    if pieces.len() == 0 {
        Seq::empty()
    } else {
        let rest = nonblank_trimmed(pieces.drop_last());
        if trim(pieces.last()).len() > 0 {
            rest.push(trim(pieces.last()))
        } else {
            rest
        }
    }
}

/// The index names listed in a comma-separated setting.
pub open spec fn index_names_of(s: Seq<char>) -> Seq<Seq<char>> {
    nonblank_trimmed(split_commas(s))
}

/// The index names a configuration lists.
pub open spec fn config_index_names(c: Config) -> Seq<Seq<char>> {
    match c.index_name {
        Some(s) => index_names_of(s@),
        None => Seq::empty(),
    }
}

impl Config {
    /// Parses the index names from the comma-separated `index_name`: each
    /// piece trimmed, blank pieces dropped.
    pub fn parse_index_names(&self) -> (names: Vec<String>)
        ensures
            views(names@) == config_index_names(*self),
    {
        match &self.index_name {
            None => Vec::new(),
            Some(s) => {
                let chars = chars_of(s.as_str());
                let n = chars.len();
                let mut names: Vec<String> = Vec::new();
                let mut start: usize = 0;
                let mut i: usize = 0;
                assert(chars@.take(0) =~= Seq::<char>::empty());
                assert(views(names@) =~= Seq::<Seq<char>>::empty());
                while i < n
                    invariant
                        n == chars.len(),
                        start <= i <= n,
                        comma_fold(chars@.take(i as int)).1 == chars@.subrange(start as int, i as int),
                        views(names@) == nonblank_trimmed(comma_fold(chars@.take(i as int)).0),
                    decreases n - i,
                {
                    assert(chars@.take(i + 1).drop_last() =~= chars@.take(i as int));
                    if chars[i] == ',' {
                        let ghost done = comma_fold(chars@.take(i as int)).0;
                        let ghost cur = chars@.subrange(start as int, i as int);
                        assert(done.push(cur).drop_last() =~= done);
                        assert(done.push(cur).last() == cur);
                        let (a, b) = trim_bounds(&chars, start, i);
                        if a < b {
                            let name = string_from_range(&chars, a, b);
                            names.push(name);
                            assert(views(names@) =~= views(names@.drop_last()).push(name@));
                        }
                        start = i + 1;
                        assert(chars@.subrange(start as int, i + 1) =~= Seq::<char>::empty());
                    } else {
                        assert(chars@.subrange(start as int, i + 1) =~= chars@.subrange(
                            start as int,
                            i as int,
                        ).push(chars@[i as int]));
                    }
                    i += 1;
                }
                assert(chars@.take(n as int) =~= s@);
                let ghost done = comma_fold(s@).0;
                let ghost cur = chars@.subrange(start as int, n as int);
                assert(done.push(cur).drop_last() =~= done);
                let (a, b) = trim_bounds(&chars, start, n);
                if a < b {
                    let name = string_from_range(&chars, a, b);
                    names.push(name);
                    assert(views(names@) =~= views(names@.drop_last()).push(name@));
                }
                assert(split_commas(s@).drop_last() =~= comma_fold(s@).0);
                names
            },
        }
    }

    /// Whether more than one index is configured.
    pub fn is_multi_index(&self) -> (b: bool)
        ensures
            b == (config_index_names(*self).len() > 1),
    {
        self.parse_index_names().len() > 1
    }
}

/// The pieces kept are non-empty and trimmed.
proof fn lemma_nonblank_trimmed(pieces: Seq<Seq<char>>)
    ensures
        forall|i: int|
            0 <= i < nonblank_trimmed(pieces).len() ==> (#[trigger] nonblank_trimmed(pieces)[i]).len() > 0
                && trim(nonblank_trimmed(pieces)[i]) == nonblank_trimmed(pieces)[i],
    decreases pieces.len(),
{
    if pieces.len() > 0 {
        lemma_nonblank_trimmed(pieces.drop_last());
        let t = trim(pieces.last());
        let rest = nonblank_trimmed(pieces.drop_last());
        lemma_trim_is_trimmed(pieces.last());
        lemma_trim_of_trimmed(t);
        if t.len() > 0 {
            assert forall|i: int| 0 <= i < rest.push(t).len() implies (#[trigger] rest.push(t)[i]).len() > 0
                && trim(rest.push(t)[i]) == rest.push(t)[i] by {
                if i < rest.len() {
                    assert(rest.push(t)[i] == rest[i]);
                }
            }
        }
    }
}

/// Every index name read from the setting is non-empty and has no
/// whitespace at either end.
pub proof fn law_index_names_clean(s: Seq<char>)
    ensures
        forall|i: int|
            0 <= i < index_names_of(s).len() ==> (#[trigger] index_names_of(s)[i]).len() > 0 && trim(
                index_names_of(s)[i],
            ) == index_names_of(s)[i],
{
    lemma_nonblank_trimmed(split_commas(s));
}

/// A name without commas and without whitespace at either end is read as
/// that one name.
pub proof fn law_single_index_name(s: Seq<char>)
    requires
        s.len() > 0,
        trim(s) == s,
        forall|i: int| 0 <= i < s.len() ==> s[i] != ',',
    ensures
        index_names_of(s) == seq![s],
{
    lemma_comma_fold_no_comma(s);
    assert(split_commas(s) =~= seq![s]);
    assert(seq![s].drop_last() =~= Seq::<Seq<char>>::empty());
    assert(seq![s].last() == s);
    assert(nonblank_trimmed(Seq::<Seq<char>>::empty()) =~= Seq::<Seq<char>>::empty());
    assert(nonblank_trimmed(seq![s]) == Seq::<Seq<char>>::empty().push(s));
    assert(Seq::<Seq<char>>::empty().push(s) =~= seq![s]);
}

proof fn lemma_comma_fold_no_comma(s: Seq<char>)
    requires
        forall|i: int| 0 <= i < s.len() ==> s[i] != ',',
    ensures
        comma_fold(s) == (Seq::<Seq<char>>::empty(), s),
    decreases s.len(),
{
    if s.len() > 0 {
        lemma_comma_fold_no_comma(s.drop_last());
        assert(s.drop_last().push(s.last()) =~= s);
    }
}

} // verus!
