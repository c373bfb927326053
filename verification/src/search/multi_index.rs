//! Searching several indexes at once: which indexes take part, and how
//! their state is reported.
use vstd::prelude::*;

use crate::search::common::{decimal, push_decimal, push_text};
use crate::text::{same_text, views};

verus! {

/// Why no index could be searched.
#[derive(Debug, Clone, PartialEq, Eq)]
pub enum MultiIndexError {
    /// No index name was given.
    NoIndexNames,
    /// None of the named indexes could be opened; the names that failed.
    NoIndexLoaded(Vec<String>),
}

/// The names `ns[..n]` whose index could not be opened (`ok[i]` false),
/// in order.
pub open spec fn failed_names(ns: Seq<Seq<char>>, ok: Seq<bool>, n: int) -> Seq<Seq<char>>
    decreases n,
{
    if n <= 0 {
        Seq::empty()
    } else {
        let p = failed_names(ns, ok, n - 1);
        if ok[n - 1] {
            p
        } else {
            p.push(ns[n - 1])
        }
    }
}

/// The names of `ns` that are not among `failed`, in order.
pub open spec fn kept_names(ns: Seq<Seq<char>>, failed: Seq<Seq<char>>) -> Seq<Seq<char>>
    decreases ns.len(),
{
    if ns.len() == 0 {
        Seq::empty()
    } else {
        let p = kept_names(ns.drop_last(), failed);
        if failed.contains(ns.last()) {
            p
        } else {
            p.push(ns.last())
        }
    }
}

/// Whether `s` holds `t`.
fn holds(s: &Vec<String>, t: &String) -> (r: bool)
    ensures
        r == views(s@).contains(t@),
{
    let mut i: usize = 0;
    while i < s.len()
        invariant
            i <= s@.len(),
            forall|j: int| 0 <= j < i ==> s@[j]@ != t@,
        decreases s@.len() - i,
    {
        if same_text(s[i].as_str(), t.as_str()) {
            assert(views(s@)[i as int] == t@);
            return true;
        }
        i += 1;
    }
    assert forall|j: int| 0 <= j < views(s@).len() implies views(s@)[j] != t@ by {
        assert(views(s@)[j] == s@[j]@);
    }
    false
}

/// The indexes to search, given the configured names and, for each, whether
/// its index could be opened: an error where no name is given or no index
/// opened (with the names that failed); else the names, those that failed
/// left out.
pub fn loaded_index_names(names: &Vec<String>, opened: &Vec<bool>) -> (r: Result<Vec<String>, MultiIndexError>)
    requires
        opened@.len() == names@.len(),
    ensures
        names@.len() == 0 ==> r == Err::<Vec<String>, MultiIndexError>(MultiIndexError::NoIndexNames),
        names@.len() > 0 && (forall|i: int| 0 <= i < opened@.len() ==> !opened@[i]) ==> (r matches Err(
            MultiIndexError::NoIndexLoaded(f),
        ) && views(f@) == failed_names(views(names@), opened@, names@.len() as int)),
        (exists|i: int| 0 <= i < opened@.len() && opened@[i]) ==> (r matches Ok(v) && views(v@) == kept_names(
            views(names@),
            failed_names(views(names@), opened@, names@.len() as int),
        )),
{
    if names.len() == 0 {
        return Err(MultiIndexError::NoIndexNames);
    }
    let ghost ns = views(names@);
    let mut failed: Vec<String> = Vec::new();
    let mut any_open = false;
    let mut i: usize = 0;
    while i < names.len()
        invariant
            i <= names@.len(),
            opened@.len() == names@.len(),
            ns == views(names@),
            views(failed@) == failed_names(ns, opened@, i as int),
            any_open == exists|j: int| 0 <= j < i && opened@[j],
        decreases names@.len() - i,
    {
        if opened[i] {
            any_open = true;
        } else {
            let ghost before = views(failed@);
            failed.push(names[i].clone());
            assert(views(failed@) =~= before.push(ns[i as int]));
        }
        i += 1;
    }
    if !any_open {
        return Err(MultiIndexError::NoIndexLoaded(failed));
    }
    let ghost fs = views(failed@);
    let mut kept: Vec<String> = Vec::new();
    let mut k: usize = 0;
    assert(ns.take(0) =~= Seq::<Seq<char>>::empty());
    while k < names.len()
        invariant
            k <= names@.len(),
            ns == views(names@),
            fs == views(failed@),
            views(kept@) == kept_names(ns.take(k as int), fs),
        decreases names@.len() - k,
    {
        proof {
            assert(ns.take(k + 1).drop_last() =~= ns.take(k as int));
            assert(ns.take(k + 1).last() == names@[k as int]@);
        }
        if !holds(&failed, &names[k]) {
            let ghost before = views(kept@);
            kept.push(names[k].clone());
            assert(views(kept@) =~= before.push(names@[k as int]@));
        }
        k += 1;
    }
    assert(ns.take(k as int) =~= ns);
    Ok(kept)
}

/// The report lines of the indexes whose statistics could be read:
/// `name: N docs`, for the first `n` indexes.
pub open spec fn status_lines(ns: Seq<Seq<char>>, docs: Seq<Option<usize>>, n: int) -> Seq<Seq<char>>
    decreases n,
{
    if n <= 0 {
        Seq::empty()
    } else {
        let p = status_lines(ns, docs, n - 1);
        match docs[n - 1] {
            Some(d) => p.push(ns[n - 1] + ": "@ + decimal(d as nat) + " docs"@),
            None => p,
        }
    }
}

/// Texts joined with a comma and a space between each two (`join(", ")`).
pub open spec fn join_commas(ls: Seq<Seq<char>>) -> Seq<char>
    decreases ls.len(),
{
    if ls.len() == 0 {
        Seq::empty()
    } else if ls.len() == 1 {
        ls[0]
    } else {
        join_commas(ls.drop_last()) + ", "@ + ls.last()
    }
}

/// The state of a search over several indexes: how many are loaded, and
/// the number of documents of each whose statistics could be read
/// (`doc_counts[i]` for the index named `names[i]`).
pub fn multi_index_status(names: &Vec<String>, doc_counts: &Vec<Option<usize>>) -> (r: String)
    requires
        doc_counts@.len() <= names@.len(),
    ensures
        r@ == "Multi-index mode: "@ + decimal(doc_counts@.len() as nat) + " indices loaded ("@ + join_commas(
            status_lines(views(names@), doc_counts@, doc_counts@.len() as int),
        ) + ")"@,
{
    let ghost ns = views(names@);
    let mut joined = String::new();
    let mut any = false;
    let mut i: usize = 0;
    proof {
        reveal_strlit(": ");
        reveal_strlit(" docs");
        reveal_strlit(", ");
    }
    while i < doc_counts.len()
        invariant
            i <= doc_counts@.len() <= names@.len(),
            ns == views(names@),
            joined@ == join_commas(status_lines(ns, doc_counts@, i as int)),
            any == (status_lines(ns, doc_counts@, i as int).len() > 0),
        decreases doc_counts@.len() - i,
    {
        let ghost lines = status_lines(ns, doc_counts@, i as int);
        if let Some(d) = doc_counts[i] {
            let ghost prev = joined@;
            if any {
                push_text(&mut joined, ", ");
            }
            push_text(&mut joined, names[i].as_str());
            push_text(&mut joined, ": ");
            push_decimal(&mut joined, d);
            push_text(&mut joined, " docs");
            proof {
                let line = ns[i as int] + ": "@ + decimal(d as nat) + " docs"@;
                let next = lines.push(line);
                assert(next.drop_last() =~= lines);
                if any {
                    assert(joined@ =~= prev + ", "@ + line);
                } else {
                    assert(lines.len() == 0);
                    assert(joined@ =~= line);
                }
            }
            any = true;
        }
        i += 1;
    }
    let mut r = String::new();
    push_text(&mut r, "Multi-index mode: ");
    push_decimal(&mut r, doc_counts.len());
    push_text(&mut r, " indices loaded (");
    push_text(&mut r, joined.as_str());
    push_text(&mut r, ")");
    r
}

} // verus!
