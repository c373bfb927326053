//! What is read from a fetched web page: its metadata and its text.
use vstd::prelude::*;

use crate::text::{chars_of, join_spaced, opt_view, push_char, same_text, string_from_range, trim, trim_bounds, views};
use scraper::{Html, Selector};

verus! {

/// The metadata of a page.
#[derive(Debug, Clone)]
pub struct PageMetadata {
    pub title: Option<String>,
    pub description: Option<String>,
    pub og_title: Option<String>,
    pub og_description: Option<String>,
    pub og_image: Option<String>,
    pub og_type: Option<String>,
    pub favicon_url: Option<String>,
}

/// The text of a page.
#[derive(Debug, Clone)]
pub struct PageContent {
    pub text_content: Option<String>,
    pub main_content: Option<String>,
    pub html_title: Option<String>,
}

impl PageMetadata {
    /// Metadata with nothing found yet.
    pub fn empty() -> (r: Self)
        ensures
            r.title is None && r.description is None && r.og_title is None && r.og_description is None
                && r.og_image is None && r.og_type is None && r.favicon_url is None,
    {
        PageMetadata {
            title: None,
            description: None,
            og_title: None,
            og_description: None,
            og_image: None,
            og_type: None,
            favicon_url: None,
        }
    }
}

/// The trimmed texts of `nodes` that are not empty, in order.
pub open spec fn nonblank_trims(nodes: Seq<Seq<char>>) -> Seq<Seq<char>>
    decreases nodes.len(),
{
    if nodes.len() == 0 {
        seq![]
    } else if trim(nodes.last()).len() > 0 {
        nonblank_trims(nodes.drop_last()).push(trim(nodes.last()))
    } else {
        nonblank_trims(nodes.drop_last())
    }
}

/// The text of an element from its text nodes: each trimmed, the empty ones
/// left out, joined by single spaces.
pub fn join_text_nodes(nodes: &Vec<String>) -> (r: String)
    ensures
        r@ == join_spaced(nonblank_trims(views(nodes@))),
{
    let mut parts: Vec<String> = Vec::new();
    let mut i: usize = 0;
    while i < nodes.len()
        invariant
            i <= nodes@.len(),
            views(parts@) == nonblank_trims(views(nodes@).take(i as int)),
        decreases nodes@.len() - i,
    {
        let cs = chars_of(nodes[i].as_str());
        let (a, e) = trim_bounds(&cs, 0, cs.len());
        proof {
            assert(cs@.subrange(0, cs@.len() as int) =~= cs@);
            assert(views(nodes@).take(i + 1).drop_last() =~= views(nodes@).take(i as int));
            assert(views(nodes@).take(i + 1).last() == nodes@[i as int]@);
        }
        if a < e {
            let t = string_from_range(&cs, a, e);
            let ghost before = parts@;
            parts.push(t);
            assert(views(parts@) =~= views(before).push(t@));
        }
        i += 1;
    }
    assert(views(nodes@).take(nodes@.len() as int) =~= views(nodes@));
    crate::text::join_with_spaces(&parts)
}

/// Whether `s` starts with `p`.
pub open spec fn starts_with(s: Seq<char>, p: Seq<char>) -> bool {
    p.len() <= s.len() && s.take(p.len() as int) == p
}

/// Whether `s` starts with `p`.
pub(crate) fn has_prefix(s: &str, p: &str) -> (r: bool)
    ensures
        r == starts_with(s@, p@),
{
    let sc = chars_of(s);
    let pc = chars_of(p);
    if pc.len() > sc.len() {
        return false;
    }
    let head = string_from_range(&sc, 0, pc.len());
    assert(sc@.subrange(0, pc@.len() as int) =~= sc@.take(pc@.len() as int));
    same_text(head.as_str(), p)
}

/// The URL `path` refers to from the page at `base` by the `url` crate's
/// rules (`Url::parse`, then `Url::join`, then the serialization); none
/// where either fails.
pub uninterp spec fn url_joined(base: Seq<char>, path: Seq<char>) -> Option<Seq<char>>;

/// Parses `base` as a URL (`url::Url::parse`), joins `path` to it
/// (`Url::join`) and gives the result's serialization; the result is named,
/// not stated: it is `url_joined(base, path)`.
#[verifier::external_body]
fn join_url(base: &str, path: &str) -> (r: Option<String>)
    ensures
        opt_view(r) == url_joined(base@, path@),
{
    match url::Url::parse(base) {
        Ok(b) => match b.join(path) {
            Ok(u) => Some(u.to_string()),
            Err(_) => None,
        },
        Err(_) => None,
    }
}

/// The absolute URL of `path` on the page at `base_url`: `path` itself where
/// it starts with `http://` or `https://` or cannot be joined.
pub open spec fn resolved_url(base: Seq<char>, path: Seq<char>) -> Seq<char> {
    if starts_with(path, "http://"@) || starts_with(path, "https://"@) {
        path
    } else {
        match url_joined(base, path) {
            Some(u) => u,
            None => path,
        }
    }
}

/// The absolute URL of `path` on the page at `base_url`.
pub fn resolve_url(base_url: &str, path: &str) -> (r: String)
    ensures
        r@ == resolved_url(base_url@, path@),
{
    if has_prefix(path, "http://") || has_prefix(path, "https://") {
        return String::from_str(path);
    }
    match join_url(base_url, path) {
        Some(u) => u,
        None => String::from_str(path),
    }
}

/// The property a `<meta>` element sets: its `property` where it has a
/// content.
pub open spec fn meta_property(property: Option<&str>, content: Option<&str>) -> Option<Seq<char>> {
    match property {
        Some(p) => if content is Some { Some(p@) } else { None },
        None => None,
    }
}

/// The content of a `<meta>` element, empty where it has none.
pub open spec fn meta_content(content: Option<&str>) -> Seq<char> {
    match content {
        Some(c) => c@,
        None => seq![],
    }
}

/// Whether a `<meta>` element gives the page's description.
pub open spec fn is_description(name: Option<&str>, content: Option<&str>) -> bool {
    match name {
        Some(n) => n@ == "description"@ && content is Some,
        None => false,
    }
}

/// Records what one `<meta>` element of a page says: its `og:` property
/// where it has one with a content, and the description where its name is
/// `description` and it has a content; the image is resolved against
/// `base_url`.
pub fn apply_meta(
    metadata: &mut PageMetadata,
    base_url: &str,
    property: Option<&str>,
    name: Option<&str>,
    content: Option<&str>,
)
    ensures
        opt_view(final(metadata).og_title) == if meta_property(property, content) == Some("og:title"@) {
            Some(meta_content(content))
        } else {
            opt_view(old(metadata).og_title)
        },
        opt_view(final(metadata).og_description) == if meta_property(property, content) == Some(
            "og:description"@,
        ) {
            Some(meta_content(content))
        } else {
            opt_view(old(metadata).og_description)
        },
        opt_view(final(metadata).og_image) == if meta_property(property, content) == Some("og:image"@) {
            Some(resolved_url(base_url@, meta_content(content)))
        } else {
            opt_view(old(metadata).og_image)
        },
        opt_view(final(metadata).og_type) == if meta_property(property, content) == Some("og:type"@) {
            Some(meta_content(content))
        } else {
            opt_view(old(metadata).og_type)
        },
        opt_view(final(metadata).description) == if is_description(name, content) {
            Some(meta_content(content))
        } else {
            opt_view(old(metadata).description)
        },
        opt_view(final(metadata).title) == opt_view(old(metadata).title),
        opt_view(final(metadata).favicon_url) == opt_view(old(metadata).favicon_url),
{
    proof {
        reveal_strlit("og:title");
        reveal_strlit("og:description");
        reveal_strlit("og:image");
        reveal_strlit("og:type");
        assert("og:title"@.len() == 8 && "og:image"@.len() == 8);
        assert("og:description"@.len() == 14 && "og:type"@.len() == 7);
        assert("og:title"@[3] != "og:image"@[3]);
        assert("og:title"@ != "og:image"@);
    }
    if let Some(p) = property {
        if let Some(c) = content {
            if same_text(p, "og:title") {
                metadata.og_title = Some(String::from_str(c));
            } else if same_text(p, "og:description") {
                metadata.og_description = Some(String::from_str(c));
            } else if same_text(p, "og:image") {
                metadata.og_image = Some(resolve_url(base_url, c));
            } else if same_text(p, "og:type") {
                metadata.og_type = Some(String::from_str(c));
            }
        }
    }
    if let Some(n) = name {
        if same_text(n, "description") {
            if let Some(c) = content {
                metadata.description = Some(String::from_str(c));
            }
        }
    }
}

/// The mathematical value of page metadata.
pub struct MetaView {
    pub title: Option<Seq<char>>,
    pub description: Option<Seq<char>>,
    pub og_title: Option<Seq<char>>,
    pub og_description: Option<Seq<char>>,
    pub og_image: Option<Seq<char>>,
    pub og_type: Option<Seq<char>>,
    pub favicon_url: Option<Seq<char>>,
}

impl View for PageMetadata {
    type V = MetaView;

    open spec fn view(&self) -> MetaView {
        MetaView {
            title: opt_view(self.title),
            description: opt_view(self.description),
            og_title: opt_view(self.og_title),
            og_description: opt_view(self.og_description),
            og_image: opt_view(self.og_image),
            og_type: opt_view(self.og_type),
            favicon_url: opt_view(self.favicon_url),
        }
    }
}

/// The `property`, `name` and `content` attributes of a `<meta>` element.
pub type MetaAttrs = (Option<Seq<char>>, Option<Seq<char>>, Option<Seq<char>>);

/// The inner HTML of the first `<title>` element of `html`, as the
/// `scraper` crate parses the document.
pub uninterp spec fn html_title(html: Seq<char>) -> Option<Seq<char>>;

/// The `property`, `name` and `content` attributes of each `<meta>` element
/// of `html`, in document order, as the `scraper` crate parses it.
pub uninterp spec fn html_meta_attrs(html: Seq<char>) -> Seq<(Option<Seq<char>>, Option<Seq<char>>, Option<Seq<char>>)>;

/// The `href` of the first `<link>` element of `html` whose `rel` holds the
/// word `icon`, where it has one, as the `scraper` crate parses it.
pub uninterp spec fn html_icon_href(html: Seq<char>) -> Option<Seq<char>>;

/// The text nodes of the first element of `html` that the CSS selector
/// `sel` matches, in document order; none where no element matches or the
/// selector does not parse, as the `scraper` crate does it.
pub uninterp spec fn html_text_nodes(html: Seq<char>, sel: Seq<char>) -> Option<Seq<Seq<char>>>;

/// The inner HTML of the first `<title>` element (`scraper`'s
/// `Html::parse_document`, `Selector::parse`, `select` and
/// `ElementRef::inner_html`); named, not stated: it is `html_title(html)`.
#[verifier::external_body]
fn first_title(html: &str) -> (r: Option<String>)
    ensures
        opt_view(r) == html_title(html@),
{
    let document = Html::parse_document(html);
    match Selector::parse("title") {
        Ok(selector) => document.select(&selector).next().map(|e| e.inner_html()),
        Err(_) => None,
    }
}

/// The attributes `property`, `name` and `content` of the `<meta>`
/// elements (`scraper`'s `Html::parse_document`, `select` and
/// `Element::attr`); named, not stated: it is `html_meta_attrs(html)`.
#[verifier::external_body]
fn meta_attrs(html: &str) -> (r: Vec<(Option<String>, Option<String>, Option<String>)>)
    ensures
        r@.map_values(|t: (Option<String>, Option<String>, Option<String>)| (opt_view(t.0), opt_view(t.1), opt_view(t.2)))
            == html_meta_attrs(html@),
{
    let document = Html::parse_document(html);
    match Selector::parse("meta") {
        Ok(selector) => document
            .select(&selector)
            .map(|e| {
                let a = e.value();
                (a.attr("property").map(String::from), a.attr("name").map(String::from), a.attr("content").map(String::from))
            })
            .collect(),
        Err(_) => Vec::new(),
    }
}

/// The `href` of the first icon link (`scraper`'s `Html::parse_document`,
/// `select` and `Element::attr`); named, not stated: it is
/// `html_icon_href(html)`.
#[verifier::external_body]
fn icon_href(html: &str) -> (r: Option<String>)
    ensures
        opt_view(r) == html_icon_href(html@),
{
    let document = Html::parse_document(html);
    match Selector::parse("link[rel~='icon']") {
        Ok(selector) => document.select(&selector).next().and_then(|e| e.value().attr("href").map(String::from)),
        Err(_) => None,
    }
}

/// The text nodes of the first element that `sel` matches (`scraper`'s
/// `Html::parse_document`, `Selector::parse`, `select` and
/// `ElementRef::text`); named, not stated: it is `html_text_nodes(html, sel)`.
#[verifier::external_body]
fn text_nodes(html: &str, sel: &str) -> (r: Option<Vec<String>>)
    ensures
        match r {
            Some(v) => html_text_nodes(html@, sel@) == Some(views(v@)),
            None => html_text_nodes(html@, sel@) is None,
        },
{
    let document = Html::parse_document(html);
    match Selector::parse(sel) {
        Ok(selector) => document.select(&selector).next().map(|e| e.text().map(String::from).collect()),
        Err(_) => None,
    }
}

/// Page metadata with the title `title` and nothing else.
pub open spec fn titled(title: Option<Seq<char>>) -> MetaView {
    MetaView {
        title,
        description: None,
        og_title: None,
        og_description: None,
        og_image: None,
        og_type: None,
        favicon_url: None,
    }
}

/// `m` with what one `<meta>` element says recorded, as `apply_meta` does.
pub open spec fn meta_step(m: MetaView, base: Seq<char>, a: MetaAttrs) -> MetaView {
    let prop = match a.0 {
        Some(p) => if a.2 is Some { Some(p) } else { None },
        None => None,
    };
    let content = match a.2 {
        Some(c) => c,
        None => seq![],
    };
    let desc = match a.1 {
        Some(n) => n == "description"@ && a.2 is Some,
        None => false,
    };
    MetaView {
        title: m.title,
        description: if desc { Some(content) } else { m.description },
        og_title: if prop == Some("og:title"@) { Some(content) } else { m.og_title },
        og_description: if prop == Some("og:description"@) { Some(content) } else { m.og_description },
        og_image: if prop == Some("og:image"@) { Some(resolved_url(base, content)) } else { m.og_image },
        og_type: if prop == Some("og:type"@) { Some(content) } else { m.og_type },
        favicon_url: m.favicon_url,
    }
}

/// `m` with the `<meta>` elements `attrs` recorded in order.
pub open spec fn metas_applied(m: MetaView, base: Seq<char>, attrs: Seq<MetaAttrs>) -> MetaView
    decreases attrs.len(),
{
    if attrs.len() == 0 {
        m
    } else {
        meta_step(metas_applied(m, base, attrs.drop_last()), base, attrs.last())
    }
}

/// The metadata of a page from what its HTML holds: the title trimmed, the
/// `<meta>` elements recorded in order, and the icon link resolved against
/// `base`.
pub open spec fn metadata_from(title: Option<Seq<char>>, attrs: Seq<MetaAttrs>, icon: Option<Seq<char>>, base: Seq<
    char,
>) -> MetaView {
    let m = metas_applied(
        titled(
            match title {
                Some(t) => Some(trim(t)),
                None => None,
            },
        ),
        base,
        attrs,
    );
    MetaView {
        favicon_url: match icon {
            Some(h) => Some(resolved_url(base, h)),
            None => m.favicon_url,
        },
        ..m
    }
}

/// A text trimmed, as a string.
fn trimmed(s: &str) -> (r: String)
    ensures
        r@ == trim(s@),
{
    let cs = chars_of(s);
    let (a, e) = trim_bounds(&cs, 0, cs.len());
    assert(cs@.subrange(0, cs@.len() as int) =~= cs@);
    string_from_range(&cs, a, e)
}

/// The view of optional text given as a string slice.
pub open spec fn opt_str(o: Option<&str>) -> Option<Seq<char>> {
    match o {
        Some(s) => Some(s@),
        None => None,
    }
}

/// The page metadata made of what the HTML parser found: the inner HTML of
/// the title, the attributes of the `<meta>` elements in order, and the
/// `href` of the icon link.
pub fn metadata_from_parts(
    title: Option<String>,
    metas: &Vec<(Option<String>, Option<String>, Option<String>)>,
    icon: Option<String>,
    base_url: &str,
) -> (r: PageMetadata)
    ensures
        r@ == metadata_from(
            opt_view(title),
            metas@.map_values(|t: (Option<String>, Option<String>, Option<String>)| (opt_view(t.0), opt_view(t.1), opt_view(t.2))),
            opt_view(icon),
            base_url@,
        ),
{
    let ghost attrs = metas@.map_values(
        |t: (Option<String>, Option<String>, Option<String>)| (opt_view(t.0), opt_view(t.1), opt_view(t.2)),
    );
    let mut m = PageMetadata::empty();
    match &title {
        Some(t) => {
            m.title = Some(trimmed(t.as_str()));
        },
        None => {},
    }
    let ghost m0 = m@;
    assert(m0 == titled(
        match opt_view(title) {
            Some(t) => Some(trim(t)),
            None => None,
        },
    ));
    let mut i: usize = 0;
    assert(attrs.take(0) =~= Seq::<MetaAttrs>::empty());
    while i < metas.len()
        invariant
            i <= metas@.len(),
            attrs == metas@.map_values(
                |t: (Option<String>, Option<String>, Option<String>)| (opt_view(t.0), opt_view(t.1), opt_view(t.2)),
            ),
            m@ == metas_applied(m0, base_url@, attrs.take(i as int)),
        decreases metas@.len() - i,
    {
        let t = &metas[i];
        let p: Option<&str> = match &t.0 {
            Some(x) => Some(x.as_str()),
            None => None,
        };
        let n: Option<&str> = match &t.1 {
            Some(x) => Some(x.as_str()),
            None => None,
        };
        let c: Option<&str> = match &t.2 {
            Some(x) => Some(x.as_str()),
            None => None,
        };
        let ghost before = m@;
        apply_meta(&mut m, base_url, p, n, c);
        proof {
            assert(attrs.take(i + 1).drop_last() =~= attrs.take(i as int));
            assert(attrs.take(i + 1).last() == attrs[i as int]);
            assert(attrs[i as int] == (opt_str(p), opt_str(n), opt_str(c)));
            assert(m@ == meta_step(before, base_url@, attrs[i as int]));
        }
        i += 1;
    }
    assert(attrs.take(i as int) =~= attrs);
    match icon {
        Some(h) => {
            m.favicon_url = Some(resolve_url(base_url, h.as_str()));
        },
        None => {},
    }
    m
}

/// The metadata of the page whose HTML is `html`, fetched from `base_url`:
/// its title, what its `<meta>` elements say, and its icon.
pub fn extract_metadata(html: &str, base_url: &str) -> (r: PageMetadata)
    ensures
        r@ == metadata_from(html_title(html@), html_meta_attrs(html@), html_icon_href(html@), base_url@),
{
    let title = first_title(html);
    let metas = meta_attrs(html);
    let icon = icon_href(html);
    metadata_from_parts(title, &metas, icon, base_url)
}

/// The text of an element from its text nodes, where there is an element.
pub open spec fn element_text(nodes: Option<Seq<Seq<char>>>) -> Option<Seq<char>> {
    match nodes {
        Some(ns) => Some(join_spaced(nonblank_trims(ns))),
        None => None,
    }
}

/// The CSS selector of the main part of a page.
pub open spec fn main_selector() -> Seq<char> {
    "article, main, [role='main']"@
}

/// The text of a page made of what the HTML parser found: the inner HTML of
/// the title trimmed, and the text of the body and of the main part.
pub fn content_from_parts(title: Option<String>, body: Option<Vec<String>>, main: Option<Vec<String>>) -> (r:
    PageContent)
    ensures
        opt_view(r.html_title) == (match opt_view(title) {
            Some(t) => Some(trim(t)),
            None => None,
        }),
        opt_view(r.text_content) == element_text(
            match body {
                Some(v) => Some(views(v@)),
                None => None,
            },
        ),
        opt_view(r.main_content) == element_text(
            match main {
                Some(v) => Some(views(v@)),
                None => None,
            },
        ),
{
    let html_title = match &title {
        Some(t) => Some(trimmed(t.as_str())),
        None => None,
    };
    let text_content = match &body {
        Some(v) => Some(join_text_nodes(v)),
        None => None,
    };
    let main_content = match &main {
        Some(v) => Some(join_text_nodes(v)),
        None => None,
    };
    PageContent { text_content, main_content, html_title }
}

/// The text of the page whose HTML is `html`: its title, and the text of
/// its body and of its main part.
pub fn extract_content(html: &str) -> (r: PageContent)
    ensures
        opt_view(r.html_title) == (match html_title(html@) {
            Some(t) => Some(trim(t)),
            None => None,
        }),
        opt_view(r.text_content) == element_text(html_text_nodes(html@, "body"@)),
        opt_view(r.main_content) == element_text(html_text_nodes(html@, main_selector())),
{
    let title = first_title(html);
    let body = text_nodes(html, "body");
    let main = text_nodes(html, "article, main, [role='main']");
    content_from_parts(title, body, main)
}

} // verus!
