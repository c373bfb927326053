//! Names of the files an index dump writes: one text file per document,
//! named by its position and its id.
use vstd::prelude::*;

use crate::search::common::{decimal, push_decimal, push_text};
use crate::text::{chars_of, push_char};

verus! {

/// Whether `c` cannot stand in a file name: `/`, `:`, `\`, `?` or `*`.
pub open spec fn unsafe_in_name(c: char) -> bool {
    c == '/' || c == ':' || c == '\\' || c == '?' || c == '*'
}

/// `id` with each character that cannot stand in a file name replaced by `_`.
pub open spec fn safe_text(id: Seq<char>) -> Seq<char> {
    id.map_values(|c: char| if unsafe_in_name(c) { '_' } else { c })
}

/// The decimal digits of `n`, with zeros before them up to three digits.
pub open spec fn padded3(n: nat) -> Seq<char> {
    if n < 10 {
        seq!['0', '0'] + decimal(n)
    } else if n < 100 {
        seq!['0'] + decimal(n)
    } else {
        decimal(n)
    }
}

/// The name of the dump file of document number `number` with id `id`:
/// `doc_`, the number in at least three digits, `_`, the id made safe, and
/// `.txt`.
pub open spec fn dump_name(number: nat, id: Seq<char>) -> Seq<char> {
    "doc_"@ + padded3(number) + seq!['_'] + safe_text(id) + ".txt"@
}

/// `id` with `/`, `:`, `\`, `?` and `*` replaced by `_`.
pub fn safe_id(id: &str) -> (r: String)
    ensures
        r@ == safe_text(id@),
{
    let cs = chars_of(id);
    let mut r = String::new();
    let mut i: usize = 0;
    while i < cs.len()
        invariant
            i <= cs@.len(),
            cs@ == id@,
            r@ == safe_text(id@).take(i as int),
        decreases cs@.len() - i,
    {
        let c = cs[i];
        let d = if c == '/' || c == ':' || c == '\\' || c == '?' || c == '*' { '_' } else { c };
        push_char(&mut r, d);
        assert(r@ =~= safe_text(id@).take(i + 1));
        i += 1;
    }
    assert(safe_text(id@).take(cs@.len() as int) =~= safe_text(id@));
    r
}

/// The name of the dump file of document number `number` with id `id`.
pub fn dump_file_name(number: usize, id: &str) -> (r: String)
    ensures
        r@ == dump_name(number as nat, id@),
{
    let mut s = String::new();
    push_text(&mut s, "doc_");
    if number < 10 {
        push_char(&mut s, '0');
        push_char(&mut s, '0');
    } else if number < 100 {
        push_char(&mut s, '0');
    }
    push_decimal(&mut s, number);
    push_char(&mut s, '_');
    let safe = safe_id(id);
    push_text(&mut s, safe.as_str());
    push_text(&mut s, ".txt");
    assert(s@ =~= dump_name(number as nat, id@));
    s
}

} // verus!
