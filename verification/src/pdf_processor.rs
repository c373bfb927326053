//! PDFs of bookmarks: checking a download, naming the cached text, and
//! making the text taken out of a PDF into one line of words.
use sha2::Digest;
use vstd::prelude::*;
use vstd::string::StringSliceAdditionalSpecFns;

use crate::text::{chars_of, is_ws, join_spaced, join_with_spaces, push_char, views, words, words_in};

verus! {

/// Whether `c` is a control character (Unicode category `Cc`), as
/// `char::is_control` tells it: U+0000 to U+001F and U+007F to U+009F.
pub open spec fn is_control(c: char) -> bool {
    (c as u32) <= 0x1f || (0x7f <= (c as u32) && (c as u32) <= 0x9f)
}

/// Whether `c` stays in a cleaned text: it is not a control character, or
/// it is whitespace.
pub open spec fn kept(c: char) -> bool {
    !is_control(c) || is_ws(c)
}

/// The characters of `s` that are kept, in order.
pub open spec fn drop_controls(s: Seq<char>) -> Seq<char>
    decreases s.len(),
{
    if s.len() == 0 {
        s
    } else if kept(s.last()) {
        drop_controls(s.drop_last()).push(s.last())
    } else {
        drop_controls(s.drop_last())
    }
}

/// The words of the text once its control characters that are not
/// whitespace are dropped, joined by single spaces.
pub open spec fn cleaned(t: Seq<char>) -> Seq<char> {
    join_spaced(words(drop_controls(t)))
}

/// The extracted text of a PDF as one line: control characters that are not
/// whitespace dropped, and every run of whitespace, line breaks included,
/// made a single space, with none at either end.
pub fn clean_text(text: &str) -> (r: String)
    ensures
        r@ == cleaned(text@),
{
    let cs = chars_of(text);
    let mut kept_chars: Vec<char> = Vec::new();
    let mut i: usize = 0;
    while i < cs.len()
        invariant
            i <= cs@.len(),
            kept_chars@ == drop_controls(cs@.take(i as int)),
        decreases cs@.len() - i,
    {
        let c = cs[i];
        let v = c as u32;
        let control = v <= 0x1f || (0x7f <= v && v <= 0x9f);
        proof {
            assert(cs@.take(i + 1).drop_last() =~= cs@.take(i as int));
            assert(cs@.take(i + 1).last() == c);
        }
        if !control || crate::text::is_whitespace(c) {
            kept_chars.push(c);
        }
        i += 1;
    }
    assert(cs@.take(cs@.len() as int) =~= cs@);
    let ws = words_in(&kept_chars, 0, kept_chars.len());
    assert(kept_chars@.subrange(0, kept_chars@.len() as int) =~= kept_chars@);
    join_with_spaces(&ws)
}

/// The SHA-256 digest of `data`, as the `sha2` crate computes it.
pub uninterp spec fn sha256_of(data: Seq<u8>) -> Seq<u8>;

/// The SHA-256 digest of `data` (`sha2::Sha256::digest`); the result is
/// named, not stated: it is `sha256_of(data)`.
#[verifier::external_body]
fn sha256_digest(data: &[u8]) -> (r: Vec<u8>)
    ensures
        r@ == sha256_of(data@),
{
    sha2::Sha256::digest(data).to_vec()
}

/// The lowercase hexadecimal digit of `d`, below 16.
pub open spec fn hex_digit(d: u8) -> char {
    if d < 10 {
        (('0' as u8) + d) as char
    } else {
        (('a' as u8) + d - 10) as char
    }
}

/// Bytes written as lowercase hexadecimal, two digits each.
pub open spec fn hex_lower(bs: Seq<u8>) -> Seq<char>
    decreases bs.len(),
{
    if bs.len() == 0 {
        Seq::empty()
    } else {
        hex_lower(bs.drop_last()).push(hex_digit(bs.last() / 16)).push(hex_digit(bs.last() % 16))
    }
}

/// The hexadecimal digit of `d`, below 16.
fn hex_char(d: u8) -> (c: char)
    requires
        d < 16,
    ensures
        c == hex_digit(d),
{
    if d < 10 {
        (48u8 + d) as char
    } else {
        (97u8 + d - 10) as char
    }
}

/// The name of the file that caches the text of the PDF at `url`: the
/// SHA-256 digest of the URL in lowercase hexadecimal, then `.txt`.
pub fn cache_file_name(url: &str) -> (r: String)
    ensures
        r@ == hex_lower(sha256_of(url.spec_bytes())) + ".txt"@,
{
    let digest = sha256_digest(url.as_bytes());
    let mut name = String::new();
    let mut i: usize = 0;
    assert(digest@.take(0) =~= Seq::<u8>::empty());
    while i < digest.len()
        invariant
            i <= digest@.len(),
            name@ == hex_lower(digest@.take(i as int)),
        decreases digest@.len() - i,
    {
        let b = digest[i];
        push_char(&mut name, hex_char(b / 16));
        push_char(&mut name, hex_char(b % 16));
        assert(digest@.take(i + 1).drop_last() =~= digest@.take(i as int));
        i += 1;
    }
    assert(digest@.take(i as int) =~= digest@);
    proof {
        reveal_strlit(".txt");
    }
    name.append(".txt");
    name
}

/// The largest PDF downloaded, in bytes (50 MB).
pub const MAX_PDF_BYTES: u64 = 52428800;

/// Why a PDF download is refused.
#[derive(Debug, Clone, Copy, PartialEq, Eq, Structural)]
pub enum PdfDownloadError {
    /// The server did not answer with success.
    HttpStatus,
    /// The announced size, in bytes, is over the limit.
    TooLarge(u64),
}

/// Whether a PDF download goes on, given whether the server answered with
/// success and the size it announced: refused on a failure status, then
/// where the size is over 50 MB.
pub fn check_pdf_response(success: bool, content_length: Option<u64>) -> (r: Result<(), PdfDownloadError>)
    ensures
        !success ==> r == Err::<(), PdfDownloadError>(PdfDownloadError::HttpStatus),
        success ==> match content_length {
            Some(n) => if n > MAX_PDF_BYTES {
                r == Err::<(), PdfDownloadError>(PdfDownloadError::TooLarge(n))
            } else {
                r is Ok
            },
            None => r is Ok,
        },
{
    if !success {
        return Err(PdfDownloadError::HttpStatus);
    }
    match content_length {
        Some(n) => if n > MAX_PDF_BYTES {
            Err(PdfDownloadError::TooLarge(n))
        } else {
            Ok(())
        },
        None => Ok(()),
    }
}

/// How long a cached text is used, in nanoseconds (seven days).
pub const CACHE_LIFETIME_NANOS: u128 = 604_800_000_000_000;

/// Whether a cached text of age `age_nanos` nanoseconds is still used.
pub fn cache_fresh(age_nanos: u128) -> (r: bool)
    ensures
        r == (age_nanos < CACHE_LIFETIME_NANOS),
{
    age_nanos < CACHE_LIFETIME_NANOS
}

} // verus!
