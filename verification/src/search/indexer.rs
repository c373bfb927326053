//! How a long paged content (a PDF) is split into several index documents,
//! each holding whole pages.
use vstd::prelude::*;

use crate::search::common::{decimal, push_decimal, push_text};
use crate::text::{chars_of, string_from_range};

verus! {

/// Where the pages of a paged content start.
#[derive(Debug, Clone)]
pub struct PageInfo {
    /// Number of pages.
    pub page_count: usize,
    /// Character offset at which each page starts.
    pub page_offsets: Vec<usize>,
    /// Kind of content, such as `pdf`.
    pub content_type: String,
    /// Number of characters of the content.
    pub total_chars: usize,
}

/// One document of a split content: pages `start_page..end_page`, made of
/// characters `start_char..end_char`.
#[derive(Debug, Clone, Copy, PartialEq, Eq, Structural)]
pub struct PartPlan {
    pub start_page: usize,
    pub end_page: usize,
    pub start_char: usize,
    pub end_char: usize,
}

/// Where page `idx` ends: where the next page starts, or the end of the
/// content for the last offset.
pub open spec fn page_end(offs: Seq<usize>, idx: int, total: int) -> int {
    if idx + 1 < offs.len() {
        offs[idx + 1] as int
    } else {
        total
    }
}

/// Whether the page offsets that a split of `count` pages measures its
/// parts by (those of pages 1 to `count`; the first page always starts the
/// content) never decrease and lie within the content.
pub open spec fn offsets_ok(offs: Seq<usize>, count: int, total: int) -> bool {
    &&& forall|i: int, j: int| 1 <= i <= j < offs.len() && j <= count ==> offs[i] <= offs[j]
    &&& forall|i: int| 1 <= i < offs.len() && i <= count ==> offs[i] <= total
}

/// The end (page, character) of the part that starts at `start_page` and
/// `start_char`, scanning pages from `idx` with the part ending so far at
/// (`end_page`, `end_char`): a page is added while the part stays within
/// `max` characters, the first page always; a page that brings the part to
/// `max` characters or more ends it.
pub open spec fn part_end(
    offs: Seq<usize>,
    total: int,
    count: int,
    max: int,
    start_page: int,
    start_char: int,
    idx: int,
    end_page: int,
    end_char: int,
) -> (int, int)
    decreases count - idx,
{
    if idx >= count {
        (end_page, end_char)
    } else {
        let pe = page_end(offs, idx, total);
        let chars = pe - start_char;
        if chars > max && idx > start_page {
            (end_page, end_char)
        } else if chars >= max {
            (idx + 1, pe)
        } else {
            part_end(offs, total, count, max, start_page, start_char, idx + 1, idx + 1, pe)
        }
    }
}

/// A part scan that includes its first page ends past it.
pub proof fn lemma_part_end_progress(
    offs: Seq<usize>,
    total: int,
    count: int,
    max: int,
    start_page: int,
    start_char: int,
    idx: int,
    end_page: int,
    end_char: int,
)
    requires
        start_page <= idx,
        idx == start_page || end_page == idx,
        start_page < count,
    ensures
        part_end(offs, total, count, max, start_page, start_char, idx, end_page, end_char).0 > start_page,
        part_end(offs, total, count, max, start_page, start_char, idx, end_page, end_char).0 <= if count
            > end_page { count } else { end_page },
    decreases count - idx,
{
    if idx < count {
        let pe = page_end(offs, idx, total);
        let chars = pe - start_char;
        if !(chars > max && idx > start_page) && !(chars >= max) {
            lemma_part_end_progress(offs, total, count, max, start_page, start_char, idx + 1, idx + 1, pe);
        }
    }
}

/// The parts of a content of `total` characters and `count` pages, from
/// page `start_page` and character `start_char` on.
pub open spec fn page_parts(
    offs: Seq<usize>,
    total: int,
    count: int,
    max: int,
    start_page: int,
    start_char: int,
) -> Seq<PartPlan>
    decreases count - start_page,
{
    if start_char >= total || start_page >= count || start_page < 0 {
        seq![]
    } else {
        let (ep, ec) = part_end(offs, total, count, max, start_page, start_char, start_page, start_page, start_char);
        proof {
            lemma_part_end_progress(offs, total, count, max, start_page, start_char, start_page, start_page, start_char);
        }
        seq![PartPlan { start_page: start_page as usize, end_page: ep as usize, start_char: start_char as usize, end_char: ec as usize }]
            + page_parts(offs, total, count, max, ep, ec)
    }
}

/// The parts of a split follow one another: the first starts where the
/// split starts, each takes at least one page, and each starts at the page
/// and character where the one before ends.
pub proof fn law_page_parts_contiguous(
    offs: Seq<usize>,
    total: int,
    count: int,
    max: int,
    start_page: int,
    start_char: int,
)
    requires
        0 <= start_page,
        0 <= start_char,
        count <= usize::MAX,
        total <= usize::MAX,
        forall|i: int| 1 <= i < offs.len() && i <= count ==> offs[i] <= total,
    ensures
        ({
            let ps = page_parts(offs, total, count, max, start_page, start_char);
            &&& ps.len() > 0 ==> ps[0].start_page == start_page && ps[0].start_char == start_char
            &&& forall|i: int| 0 <= i < ps.len() ==> #[trigger] ps[i].start_page < ps[i].end_page <= count
            &&& forall|i: int|
                0 <= i < ps.len() - 1 ==> #[trigger] ps[i].end_page == ps[i + 1].start_page
                    && ps[i].end_char == ps[i + 1].start_char
        }),
    decreases count - start_page,
{
    let ps = page_parts(offs, total, count, max, start_page, start_char);
    if !(start_char >= total || start_page >= count) {
        let (ep, ec) = part_end(offs, total, count, max, start_page, start_char, start_page, start_page, start_char);
        lemma_part_end_progress(offs, total, count, max, start_page, start_char, start_page, start_page, start_char);
        lemma_part_end_chars(offs, total, count, max, start_page, start_char, start_page, start_page, start_char);
        assert(start_page < ep <= count);
        assert(0 <= ec <= total);
        law_page_parts_contiguous(offs, total, count, max, ep, ec);
        let rest = page_parts(offs, total, count, max, ep, ec);
        assert(rest.len() > 0 ==> rest[0].start_page == ep && rest[0].start_char == ec);
        let p = PartPlan { start_page: start_page as usize, end_page: ep as usize, start_char: start_char as usize, end_char: ec as usize };
        assert(ps == seq![p] + rest);
        assert forall|i: int| 0 <= i < ps.len() implies #[trigger] ps[i].start_page < ps[i].end_page <= count by {
            if i > 0 {
                assert(ps[i] == rest[i - 1]);
            }
        }
        assert forall|i: int| 0 <= i < ps.len() - 1 implies #[trigger] ps[i].end_page == ps[i + 1].start_page
            && ps[i].end_char == ps[i + 1].start_char by {
            assert(ps[i + 1] == rest[i]);
            if i > 0 {
                assert(ps[i] == rest[i - 1]);
            }
        }
    }
}

/// The end character found by a part scan lies within the content.
pub proof fn lemma_part_end_chars(
    offs: Seq<usize>,
    total: int,
    count: int,
    max: int,
    start_page: int,
    start_char: int,
    idx: int,
    end_page: int,
    end_char: int,
)
    requires
        0 <= end_char <= total,
        0 <= idx,
        forall|i: int| 1 <= i < offs.len() && i <= count ==> offs[i] <= total,
        total >= 0,
    ensures
        0 <= part_end(offs, total, count, max, start_page, start_char, idx, end_page, end_char).1 <= total,
    decreases count - idx,
{
    if idx < count {
        let pe = page_end(offs, idx, total);
        assert(0 <= pe <= total);
        let chars = pe - start_char;
        if !(chars > max && idx > start_page) && !(chars >= max) {
            lemma_part_end_chars(offs, total, count, max, start_page, start_char, idx + 1, idx + 1, pe);
        }
    }
}

/// How a content is to be indexed.
#[derive(Debug, Clone, PartialEq, Eq)]
pub enum SplitPlan {
    /// As one document, with its page information unchanged.
    Whole,
    /// As these parts, one document each.
    Parts(Vec<PartPlan>),
}

/// The scan of the pages of one part.
fn scan_part(offs: &Vec<usize>, total: usize, count: usize, max: usize, start_page: usize, start_char: usize) -> (r: (usize, usize))
    requires
        start_page < count,
        offsets_ok(offs@, count as int, total as int),
        start_char <= total,
        start_page + 1 < offs@.len() ==> start_char <= offs@[start_page + 1],
    ensures
        (r.0 as int, r.1 as int) == part_end(offs@, total as int, count as int, max as int, start_page as int, start_char as int, start_page as int, start_page as int, start_char as int),
        start_char <= r.1 <= total,
        start_page < r.0 <= count,
        r.0 < offs@.len() ==> r.1 == offs@[r.0 as int],
        r.0 >= offs@.len() ==> r.1 == total,
{
    let n = offs.len();
    let mut end_page = start_page;
    let mut end_char = start_char;
    let mut idx = start_page;
    while idx < count
        invariant
            start_page < count,
            offsets_ok(offs@, count as int, total as int),
            n == offs@.len(),
            start_char <= total,
            start_page + 1 < offs@.len() ==> start_char <= offs@[start_page + 1],
            start_page <= idx <= count,
            idx == start_page || end_page == idx,
            start_char <= end_char <= total,
            idx > start_page ==> (end_page < offs@.len() ==> end_char == offs@[end_page as int]),
            idx > start_page ==> (end_page >= offs@.len() ==> end_char == total),
            part_end(offs@, total as int, count as int, max as int, start_page as int, start_char as int, start_page as int, start_page as int, start_char as int)
                == part_end(offs@, total as int, count as int, max as int, start_page as int, start_char as int, idx as int, end_page as int, end_char as int),
        decreases count - idx,
    {
        let pe = if idx + 1 < n { offs[idx + 1] } else { total };
        proof {
            if idx + 1 < n {
                if idx > start_page {
                    assert(start_page + 1 < offs@.len());
                    assert(offs@[start_page + 1] <= offs@[idx + 1]);
                }
            }
        }
        let chars = pe - start_char;
        if chars > max && idx > start_page {
            return (end_page, end_char);
        } else if chars >= max {
            return (idx + 1, pe);
        }
        end_page = idx + 1;
        end_char = pe;
        idx += 1;
    }
    proof {
        lemma_part_end_progress(offs@, total as int, count as int, max as int, start_page as int, start_char as int, start_page as int, start_page as int, start_char as int);
    }
    (end_page, end_char)
}

/// Whether the page offsets of `count` pages can be split on: those of
/// pages 1 to `count` ascending, and none of them past the end of the
/// content.
pub fn offsets_valid(offs: &Vec<usize>, count: usize, total: usize) -> (r: bool)
    ensures
        r == offsets_ok(offs@, count as int, total as int),
{
    let n = if count < offs.len() { count + 1 } else { offs.len() };
    let mut i: usize = 1;
    while i < n
        invariant
            n <= offs@.len(),
            n <= count + 1,
            n == offs@.len() || n == count + 1,
            1 <= i,
            i <= n || n == 0,
            forall|a: int, b: int| 1 <= a <= b < i ==> offs@[a] <= offs@[b],
            forall|a: int| 1 <= a < i ==> offs@[a] <= total,
        decreases n + 1 - i,
    {
        if offs[i] > total {
            assert(!(offs@[i as int] <= total));
            return false;
        }
        if i > 1 && offs[i - 1] > offs[i] {
            assert(!(offs@[i - 1] <= offs@[i as int]));
            return false;
        }
        i += 1;
    }
    true
}

/// How a content of `total_chars` characters with the pages of `page_info`
/// is indexed: whole where it has at most `max_chars_per_doc` characters;
/// else in parts of whole pages, each taking pages while it stays within
/// `max_chars_per_doc` characters (a single page that is longer makes a part
/// of its own).
pub fn plan_page_split(total_chars: usize, page_info: &PageInfo, max_chars_per_doc: usize) -> (r: SplitPlan)
    requires
        offsets_ok(page_info.page_offsets@, page_info.page_count as int, total_chars as int),
    ensures
        total_chars <= max_chars_per_doc ==> r == SplitPlan::Whole,
        total_chars > max_chars_per_doc ==> (r matches SplitPlan::Parts(v) && v@ == page_parts(
            page_info.page_offsets@,
            total_chars as int,
            page_info.page_count as int,
            max_chars_per_doc as int,
            0,
            0,
        )),
{
    if total_chars <= max_chars_per_doc {
        return SplitPlan::Whole;
    }
    let offs = &page_info.page_offsets;
    let count = page_info.page_count;
    let mut parts: Vec<PartPlan> = Vec::new();
    let mut start_page: usize = 0;
    let mut start_char: usize = 0;
    while start_char < total_chars && start_page < count
        invariant
            offsets_ok(offs@, count as int, total_chars as int),
            count == page_info.page_count,
            offs@ == page_info.page_offsets@,
            start_char <= total_chars,
            start_page == 0 ==> start_char == 0,
            start_page > 0 && start_page < offs@.len() ==> start_char == offs@[start_page as int],
            start_page >= offs@.len() ==> start_char == total_chars || start_page == 0,
            page_parts(offs@, total_chars as int, count as int, max_chars_per_doc as int, 0, 0) == parts@
                + page_parts(offs@, total_chars as int, count as int, max_chars_per_doc as int, start_page as int, start_char as int),
        decreases count - start_page,
    {
        proof {
            if start_page + 1 < offs@.len() {
                if start_page == 0 {
                } else {
                    assert(offs@[start_page as int] <= offs@[start_page + 1]);
                }
            }
        }
        let (ep, ec) = scan_part(offs, total_chars, count, max_chars_per_doc, start_page, start_char);
        let p = PartPlan { start_page, end_page: ep, start_char, end_char: ec };
        let ghost before = parts@;
        parts.push(p);
        assert(parts@ + page_parts(offs@, total_chars as int, count as int, max_chars_per_doc as int, ep as int, ec as int)
            =~= before + page_parts(offs@, total_chars as int, count as int, max_chars_per_doc as int, start_page as int, start_char as int));
        start_page = ep;
        start_char = ec;
    }
    assert(parts@ + page_parts(offs@, total_chars as int, count as int, max_chars_per_doc as int, start_page as int, start_char as int) =~= parts@);
    SplitPlan::Parts(parts)
}

/// The page offsets of a part, counted from its start: those of its pages
/// that have an offset, and 0 for the others.
pub open spec fn part_offsets(offs: Seq<usize>, part: PartPlan) -> Seq<usize> {
    Seq::new(
        (part.end_page - part.start_page) as nat,
        |i: int|
            if part.start_page + i < offs.len() {
                (offs[part.start_page + i] - part.start_char) as usize
            } else {
                0usize
            },
    )
}

/// The page offsets of `part`, counted from its start.
pub fn part_page_offsets(offs: &Vec<usize>, part: PartPlan) -> (r: Vec<usize>)
    requires
        part.start_page <= part.end_page,
        forall|i: int| part.start_page <= i < part.end_page && i < offs@.len() ==> #[trigger] offs@[i] >= part.start_char,
    ensures
        r@ == part_offsets(offs@, part),
{
    let mut out: Vec<usize> = Vec::new();
    let n = part.end_page - part.start_page;
    let mut i: usize = 0;
    while i < n
        invariant
            n == part.end_page - part.start_page,
            part.start_page <= part.end_page,
            forall|i: int| part.start_page <= i < part.end_page && i < offs@.len() ==> #[trigger] offs@[i] >= part.start_char,
            i <= n,
            out@ == part_offsets(offs@, part).take(i as int),
        decreases n - i,
    {
        let v = if part.start_page + i < offs.len() {
            offs[part.start_page + i] - part.start_char
        } else {
            0
        };
        out.push(v);
        assert(out@ =~= part_offsets(offs@, part).take(i + 1));
        i += 1;
    }
    assert(part_offsets(offs@, part).take(n as int) =~= part_offsets(offs@, part));
    out
}

/// The id of part `part_num` of a bookmark: the bookmark's own id for the
/// first part, `"{id}_part_{n}"` for the others.
pub open spec fn part_id_text(id: Seq<char>, part_num: nat) -> Seq<char> {
    if part_num == 0 {
        id
    } else {
        id + "_part_"@ + decimal(part_num)
    }
}

/// The id of part `part_num` of the bookmark `id`.
pub fn part_id(id: &str, part_num: usize) -> (r: String)
    ensures
        r@ == part_id_text(id@, part_num as nat),
{
    let mut s = String::from_str(id);
    if part_num > 0 {
        push_text(&mut s, "_part_");
        push_decimal(&mut s, part_num);
    }
    s
}

/// The title of a part: the bookmark's title with its page range, counted
/// from 1.
pub open spec fn part_title_text(name: Seq<char>, part: PartPlan) -> Seq<char> {
    if part.end_page - part.start_page == 1 {
        name + " [Page "@ + decimal((part.start_page + 1) as nat) + "]"@
    } else {
        name + " [Pages "@ + decimal((part.start_page + 1) as nat) + "-"@ + decimal(part.end_page as nat) + "]"@
    }
}

/// The title of `part` of the bookmark titled `name`.
pub fn part_title(name: &str, part: PartPlan) -> (r: String)
    requires
        part.start_page < part.end_page,
    ensures
        r@ == part_title_text(name@, part),
{
    let mut s = String::from_str(name);
    if part.end_page - part.start_page == 1 {
        push_text(&mut s, " [Page ");
        push_decimal(&mut s, part.start_page + 1);
        push_text(&mut s, "]");
    } else {
        push_text(&mut s, " [Pages ");
        push_decimal(&mut s, part.start_page + 1);
        push_text(&mut s, "-");
        push_decimal(&mut s, part.end_page);
        push_text(&mut s, "]");
    }
    s
}

/// The characters `start..end` of `content`.
pub fn char_range(content: &str, start: usize, end: usize) -> (r: String)
    requires
        start <= end <= content@.len(),
    ensures
        r@ == content@.subrange(start as int, end as int),
{
    let cs = chars_of(content);
    string_from_range(&cs, start, end)
}

} // verus!
