//! Chrome profile lookup.
use vstd::prelude::*;

use crate::paths::{home_dir, path_exists, PathParts};
use crate::text::{opt_view, same_text};

verus! {

/// A Chrome profile.
#[derive(Debug)]
pub struct ChromeProfile {
    /// The profile's directory: "Default", "Profile 1", ...
    pub directory_name: String,
    /// The name shown to the user: "Work", "Personal", ...
    pub display_name: String,
    /// The profile's directory, as its components.
    pub path: PathParts,
    /// Number of bookmarks.
    pub bookmark_count: Option<usize>,
    /// Size of the bookmarks file in KB.
    pub size_kb: Option<u64>,
}

/// One profile of the `info_cache` of Chrome's `Local State`, in the order
/// of that object: its directory, and its `name` and `gaia_name` where these
/// are strings.
#[derive(Debug, Clone)]
pub struct ProfileEntry {
    pub directory_name: String,
    pub name: Option<String>,
    pub gaia_name: Option<String>,
}

/// The mathematical value of a profile entry.
pub struct EntryView {
    pub directory_name: Seq<char>,
    pub name: Option<Seq<char>>,
    pub gaia_name: Option<Seq<char>>,
}

impl View for ProfileEntry {
    type V = EntryView;

    open spec fn view(&self) -> EntryView {
        EntryView {
            directory_name: self.directory_name@,
            name: opt_view(self.name),
            gaia_name: opt_view(self.gaia_name),
        }
    }
}

/// The directory and display name of the first profile whose name, or else
/// whose Google account name, is `target`.
pub open spec fn resolve_spec(es: Seq<EntryView>, target: Seq<char>) -> Option<(Seq<char>, Seq<char>)>
    decreases es.len(),
{
    if es.len() == 0 {
        None
    } else if es[0].name == Some(target) || es[0].gaia_name == Some(target) {
        Some((es[0].directory_name, target))
    } else {
        resolve_spec(es.drop_first(), target)
    }
}

/// Resolving a name finds the first profile whose name or Google account
/// name is that name, with the name as its display name; none is found only
/// where no profile has it as either.
pub proof fn law_resolve_finds_first_named(es: Seq<EntryView>, target: Seq<char>)
    ensures
        forall|k: int|
            0 <= k < es.len() && (#[trigger] es[k].name == Some(target) || es[k].gaia_name == Some(target))
                && (forall|j: int| 0 <= j < k ==> es[j].name != Some(target) && es[j].gaia_name != Some(target))
                ==> resolve_spec(es, target) == Some((es[k].directory_name, target)),
        (forall|k: int| 0 <= k < es.len() ==> #[trigger] es[k].name != Some(target) && es[k].gaia_name != Some(target))
            ==> resolve_spec(es, target) is None,
    decreases es.len(),
{
    if es.len() > 0 {
        let t = es.drop_first();
        law_resolve_finds_first_named(t, target);
        assert forall|k: int|
            0 <= k < es.len() && (#[trigger] es[k].name == Some(target) || es[k].gaia_name == Some(target))
                && (forall|j: int| 0 <= j < k ==> es[j].name != Some(target) && es[j].gaia_name != Some(target))
                implies resolve_spec(es, target) == Some((es[k].directory_name, target)) by {
            if k > 0 {
                assert(es[0].name != Some(target) && es[0].gaia_name != Some(target));
                assert(t[k - 1] == es[k]);
                assert forall|j: int| 0 <= j < k - 1 implies t[j].name != Some(target) && t[j].gaia_name != Some(target) by {
                    assert(t[j] == es[j + 1]);
                }
            }
        }
        if forall|k: int| 0 <= k < es.len() ==> #[trigger] es[k].name != Some(target) && es[k].gaia_name != Some(target) {
            assert(es[0].name != Some(target));
            assert forall|k: int| 0 <= k < t.len() implies #[trigger] t[k].name != Some(target) && t[k].gaia_name != Some(target) by {
                assert(t[k] == es[k + 1]);
            }
        }
    }
}

/// A JSON value of a bookmarks file, as far as counting its bookmarks
/// reads it: whether it is an object whose `type` is the string `"url"`, the
/// values of its `children` array, and the values of its `roots` object.
/// Any other value is a node with neither.
#[derive(Debug)]
pub struct JsonNode {
    pub is_url: bool,
    pub children: Vec<JsonNode>,
    pub roots: Vec<JsonNode>,
}

/// The number of bookmarks (`url` nodes) in a JSON value, itself included.
pub open spec fn url_count(n: JsonNode) -> nat
    decreases n, 1nat,
{
    (if n.is_url { 1nat } else { 0nat }) + url_count_all(n.children@) + url_count_all(n.roots@)
}

/// The number of bookmarks in a sequence of JSON values.
pub open spec fn url_count_all(s: Seq<JsonNode>) -> nat
    decreases s, 0nat,
{
    if s.len() == 0 {
        0
    } else {
        url_count_all(s.drop_last()) + url_count(s.last())
    }
}

/// The bookmarks of a prefix of a sequence are no more than those of the
/// whole.
pub proof fn lemma_url_count_prefix(s: Seq<JsonNode>, i: int)
    requires
        0 <= i <= s.len(),
    ensures
        url_count_all(s.take(i)) <= url_count_all(s),
    decreases s.len(),
{
    if i < s.len() {
        lemma_url_count_prefix(s.drop_last(), i);
        assert(s.drop_last().take(i) =~= s.take(i));
    } else {
        assert(s.take(i) =~= s);
    }
}

/// The bookmarks of the JSON values `s[..i]` and of `s[i]` together are
/// those of `s[..i + 1]`.
proof fn lemma_url_count_step(s: Seq<JsonNode>, i: int)
    requires
        0 <= i < s.len(),
    ensures
        url_count_all(s.take(i + 1)) == url_count_all(s.take(i)) + url_count(s[i]),
{
    assert(s.take(i + 1).drop_last() =~= s.take(i));
}

/// The number of bookmarks in the JSON values `nodes`, added to `count`.
fn add_url_counts(nodes: &Vec<JsonNode>, count: usize) -> (r: usize)
    requires
        count + url_count_all(nodes@) <= usize::MAX,
    ensures
        r == count + url_count_all(nodes@),
    decreases nodes@, 0nat,
{
    let mut total = count;
    let mut i: usize = 0;
    while i < nodes.len()
        invariant
            i <= nodes@.len(),
            count + url_count_all(nodes@) <= usize::MAX,
            total == count + url_count_all(nodes@.take(i as int)),
        decreases nodes@.len() - i,
    {
        proof {
            lemma_url_count_step(nodes@, i as int);
            lemma_url_count_prefix(nodes@, i + 1);
        }
        let c = count_bookmarks_recursive(&nodes[i]);
        total = total + c;
        i += 1;
    }
    assert(nodes@.take(i as int) =~= nodes@);
    total
}

/// The number of bookmarks (`url` nodes) in a JSON value of a bookmarks
/// file, counting down its `children` and its `roots`.
pub fn count_bookmarks_recursive(value: &JsonNode) -> (r: usize)
    requires
        url_count(*value) <= usize::MAX,
    ensures
        r == url_count(*value),
    decreases *value, 1nat,
{
    let own: usize = if value.is_url { 1 } else { 0 };
    let with_children = add_url_counts(&value.children, own);
    add_url_counts(&value.roots, with_children)
}

/// What was found of a profile's bookmarks file: its size in KB and the
/// number of bookmarks in it, each where it could be read.
#[derive(Debug, Clone, Copy)]
pub struct ProfileFiles {
    pub size_kb: Option<u64>,
    pub bookmark_count: Option<usize>,
}

/// The mathematical value of a profile, its path aside.
pub struct ProfileView {
    pub directory_name: Seq<char>,
    pub display_name: Seq<char>,
    pub path: Seq<Seq<char>>,
    pub bookmark_count: Option<usize>,
    pub size_kb: Option<u64>,
}

impl View for ChromeProfile {
    type V = ProfileView;

    open spec fn view(&self) -> ProfileView {
        ProfileView {
            directory_name: self.directory_name@,
            display_name: self.display_name@,
            path: self.path@,
            bookmark_count: self.bookmark_count,
            size_kb: self.size_kb,
        }
    }
}

/// The views of a sequence of profiles.
pub open spec fn profile_views(ps: Seq<ChromeProfile>) -> Seq<ProfileView> {
    ps.map_values(|p: ChromeProfile| p@)
}

/// The name a listed profile is shown under: its name, else its Google
/// account name, else its directory.
pub open spec fn display_name_of(e: EntryView) -> Seq<char> {
    match e.name {
        Some(n) => n,
        None => match e.gaia_name {
            Some(g) => g,
            None => e.directory_name,
        },
    }
}

/// A profile of `info_cache` as listed, with what was found of its file;
/// its directory is `e.directory_name` below `base`.
pub open spec fn listed_profile(base: Seq<Seq<char>>, e: EntryView, f: ProfileFiles) -> ProfileView {
    ProfileView {
        directory_name: e.directory_name,
        display_name: display_name_of(e),
        path: base.push(e.directory_name),
        bookmark_count: f.bookmark_count,
        size_kb: f.size_kb,
    }
}

/// Whether `info_cache` lists the `Default` profile.
pub open spec fn lists_default(es: Seq<EntryView>) -> bool {
    exists|i: int| 0 <= i < es.len() && #[trigger] es[i].directory_name == "Default"@
}

/// The profiles of `info_cache` in its order, then the `Default` profile
/// where `info_cache` does not list it and its directory exists
/// (`default_files` is `Some`).
pub open spec fn listing(
    base: Seq<Seq<char>>,
    es: Seq<EntryView>,
    fs: Seq<ProfileFiles>,
    default_files: Option<ProfileFiles>,
) -> Seq<ProfileView> {
    let ps = Seq::new(es.len(), |i: int| listed_profile(base, es[i], fs[i]));
    if default_files is Some && !lists_default(es) {
        let f = default_files->0;
        ps.push(
            ProfileView {
                directory_name: "Default"@,
                display_name: "Default"@,
                path: base.push("Default"@),
                bookmark_count: f.bookmark_count,
                size_kb: f.size_kb,
            },
        )
    } else {
        ps
    }
}

/// The size by which profiles are ordered; an unknown size counts as 0.
pub open spec fn size_key(p: ProfileView) -> int {
    match p.size_kb {
        Some(k) => k as int,
        None => 0,
    }
}

/// `s` with `x` placed before the first profile smaller than it, so that
/// profiles of equal size keep their order.
pub open spec fn insert_by_size(s: Seq<ProfileView>, x: ProfileView) -> Seq<ProfileView>
    decreases s.len(),
{
    if s.len() == 0 {
        seq![x]
    } else if size_key(s[0]) < size_key(x) {
        seq![x] + s
    } else {
        seq![s[0]] + insert_by_size(s.drop_first(), x)
    }
}

/// The profiles ordered by size, largest first; profiles of equal size keep
/// their order (a stable sort).
pub open spec fn sort_by_size(s: Seq<ProfileView>) -> Seq<ProfileView>
    decreases s.len(),
{
    if s.len() == 0 {
        s
    } else {
        insert_by_size(sort_by_size(s.drop_last()), s.last())
    }
}

/// Whether the profiles are ordered by size, largest first.
pub open spec fn ordered_by_size(s: Seq<ProfileView>) -> bool {
    forall|i: int, j: int| 0 <= i < j < s.len() ==> size_key(s[j]) <= size_key(s[i])
}

/// Inserting into an ordered sequence keeps it ordered and adds the profile.
proof fn lemma_insert_by_size(s: Seq<ProfileView>, x: ProfileView)
    requires
        ordered_by_size(s),
    ensures
        ordered_by_size(insert_by_size(s, x)),
        insert_by_size(s, x).len() == s.len() + 1,
        insert_by_size(s, x).to_multiset() == s.to_multiset().insert(x),
    decreases s.len(),
{
    broadcast use vstd::seq_lib::group_to_multiset_ensures;

    if s.len() == 0 {
        assert(seq![x] =~= s.push(x));
    } else if size_key(s[0]) < size_key(x) {
        assert((seq![x] + s).to_multiset() =~= s.to_multiset().insert(x)) by {
            vstd::seq_lib::lemma_multiset_commutative(seq![x], s);
            assert(seq![x] =~= Seq::<ProfileView>::empty().push(x));
        }
    } else {
        let t = s.drop_first();
        lemma_insert_by_size(t, x);
        let r = insert_by_size(t, x);
        assert(seq![s[0]] + t =~= s);
        vstd::seq_lib::lemma_multiset_commutative(seq![s[0]], r);
        vstd::seq_lib::lemma_multiset_commutative(seq![s[0]], t);
        assert forall|i: int, j: int| 0 <= i < j < (seq![s[0]] + r).len() implies size_key(
            (seq![s[0]] + r)[j],
        ) <= size_key((seq![s[0]] + r)[i]) by {
            if i == 0 {
                let k = j - 1;
                assert(r.to_multiset().count(r[k]) > 0);
                assert(s.to_multiset().insert(x).count(r[k]) > 0);
                if r[k] != x {
                    assert(t.to_multiset().count(r[k]) > 0);
                    let m = choose|m: int| 0 <= m < t.len() && t[m] == r[k];
                    assert(s[m + 1] == t[m]);
                }
            }
        }
    }
}

/// The listed profiles come out ordered by the size of their bookmarks
/// files, largest first, and none is lost or added: the first is a profile
/// with the largest file.
pub proof fn law_profiles_ordered_by_size(s: Seq<ProfileView>)
    ensures
        ordered_by_size(sort_by_size(s)),
        sort_by_size(s).len() == s.len(),
        sort_by_size(s).to_multiset() == s.to_multiset(),
    decreases s.len(),
{
    broadcast use vstd::seq_lib::group_to_multiset_ensures;

    if s.len() > 0 {
        law_profiles_ordered_by_size(s.drop_last());
        lemma_insert_by_size(sort_by_size(s.drop_last()), s.last());
        assert(s.drop_last().push(s.last()) =~= s);
    }
}

/// The current profile, the first of the listing that `list_all_profiles`
/// gives, is one of the profiles listed and none of them has a larger
/// bookmarks file; there is none exactly when no profile is listed.
pub proof fn law_current_profile_is_largest(
    base: Seq<Seq<char>>,
    es: Seq<EntryView>,
    fs: Seq<ProfileFiles>,
    default_files: Option<ProfileFiles>,
)
    ensures
        ({
            let l = listing(base, es, fs, default_files);
            let s = sort_by_size(l);
            &&& (s.len() == 0) == (l.len() == 0)
            &&& s.len() > 0 ==> l.contains(s[0])
            &&& s.len() > 0 ==> forall|i: int| 0 <= i < l.len() ==> size_key(#[trigger] l[i]) <= size_key(s[0])
        }),
{
    broadcast use vstd::seq_lib::group_to_multiset_ensures;

    let l = listing(base, es, fs, default_files);
    let s = sort_by_size(l);
    law_profiles_ordered_by_size(l);
    if s.len() > 0 {
        assert(s.to_multiset().count(s[0]) > 0);
        assert forall|i: int| 0 <= i < l.len() implies size_key(#[trigger] l[i]) <= size_key(s[0]) by {
            assert(l.to_multiset().count(l[i]) > 0);
            assert(s.contains(l[i]));
            let k = choose|k: int| 0 <= k < s.len() && s[k] == l[i];
            if k > 0 {
                assert(size_key(s[k]) <= size_key(s[0]));
            }
        }
    }
}

/// The size by which a profile is ordered.
fn size_of(p: &ChromeProfile) -> (r: u64)
    ensures
        r == size_key(p@),
{
    match p.size_kb {
        Some(k) => k,
        None => 0,
    }
}

/// Inserts `x` into `out` as `insert_by_size` says.
fn insert_profile(out: &mut Vec<ChromeProfile>, x: ChromeProfile)
    ensures
        profile_views(final(out)@) == insert_by_size(profile_views(old(out)@), x@),
{
    let ghost vs = profile_views(out@);
    let key = size_of(&x);
    let mut k: usize = 0;
    assert(vs.skip(0) =~= vs);
    assert(vs.take(0) + insert_by_size(vs, x@) =~= insert_by_size(vs, x@));
    while k < out.len() && key <= size_of(&out[k])
        invariant
            k <= out@.len(),
            vs == profile_views(out@),
            key == size_key(x@),
            insert_by_size(vs, x@) == vs.take(k as int) + insert_by_size(vs.skip(k as int), x@),
        decreases out@.len() - k,
    {
        let ghost t = vs.skip(k as int);
        assert(t[0] == out@[k as int]@);
        assert(t.drop_first() =~= vs.skip(k + 1));
        assert(vs.take(k + 1) =~= vs.take(k as int).push(t[0]));
        assert(vs.take(k as int) + insert_by_size(t, x@) =~= vs.take(k + 1) + insert_by_size(
            vs.skip(k + 1),
            x@,
        ));
        k += 1;
    }
    let ghost before = out@;
    out.insert(k, x);
    proof {
        let t = vs.skip(k as int);
        if k < before.len() {
            assert(t[0] == before[k as int]@);
        }
        assert(insert_by_size(t, x@) =~= seq![x@] + t);
        assert(profile_views(out@) =~= vs.take(k as int) + (seq![x@] + t));
    }
}

/// Why a profile could not be found.
#[derive(Debug, Clone, PartialEq, Eq)]
pub enum ProfileError {
    /// The home directory is unknown.
    HomeDirNotFound,
    /// Chrome's directory does not exist.
    ChromeDirNotFound,
    /// No profile has the given name.
    ProfileNotFound(String),
}

/// Finds Chrome profiles below Chrome's base directory.
pub struct ProfileResolver {
    chrome_base_dir: PathParts,
}

/// Chrome's directory below a home directory.
pub open spec fn chrome_dir_below(home: Seq<Seq<char>>) -> Seq<Seq<char>> {
    home.push("Library"@).push("Application Support"@).push("Google"@).push("Chrome"@)
}

impl ProfileResolver {
    /// A resolver for the Chrome directory in the user's home; fails when
    /// the home directory is unknown or Chrome's directory does not exist.
    pub fn new() -> (r: Result<Self, ProfileError>)
        ensures
            r matches Err(e) ==> e == ProfileError::HomeDirNotFound || e == ProfileError::ChromeDirNotFound,
            r matches Ok(res) ==> exists|home: Seq<Seq<char>>| res.base_dir()@ == chrome_dir_below(home),
    {
        match home_dir() {
            None => Err(ProfileError::HomeDirNotFound),
            Some(home) => {
                let chrome_base_dir = home.join_name("Library").join_name("Application Support").join_name(
                    "Google",
                ).join_name("Chrome");
                assert(chrome_base_dir@ == chrome_dir_below(home@));
                if !path_exists(&chrome_base_dir) {
                    Err(ProfileError::ChromeDirNotFound)
                } else {
                    Ok(ProfileResolver { chrome_base_dir })
                }
            },
        }
    }

    /// A resolver for the Chrome directory `chrome_base_dir`.
    pub fn with_base_dir(chrome_base_dir: PathParts) -> (r: Self)
        ensures
            r.base_dir() == chrome_base_dir,
    {
        ProfileResolver { chrome_base_dir }
    }

    /// Chrome's base directory.
    pub closed spec fn base_dir(&self) -> PathParts {
        self.chrome_base_dir
    }

    /// Chrome's base directory.
    pub fn chrome_base_dir(&self) -> (p: &PathParts)
        ensures
            *p == self.base_dir(),
    {
        &self.chrome_base_dir
    }

    /// The profile whose name (or Google account name) is `profile_name`,
    /// among the profiles of `info_cache`; the first that matches wins.
    pub fn resolve_by_name(&self, profile_name: &str, info_cache: &[ProfileEntry]) -> (r: Result<
        ChromeProfile,
        ProfileError,
    >)
        ensures
            match resolve_spec(info_cache@.map_values(|e: ProfileEntry| e@), profile_name@) {
                Some((dir, display)) => r matches Ok(p) && p.directory_name@ == dir
                    && p.display_name@ == display && p.path@ == self.base_dir()@.push(dir)
                    && p.bookmark_count is None && p.size_kb is None,
                None => r matches Err(ProfileError::ProfileNotFound(n)) && n@ == profile_name@,
            },
    {
        let ghost es = info_cache@.map_values(|e: ProfileEntry| e@);
        let mut i: usize = 0;
        assert(es.skip(0) =~= es);
        while i < info_cache.len()
            invariant
                i <= info_cache@.len(),
                es == info_cache@.map_values(|e: ProfileEntry| e@),
                resolve_spec(es, profile_name@) == resolve_spec(es.skip(i as int), profile_name@),
            decreases info_cache.len() - i,
        {
            let entry = &info_cache[i];
            let ghost tail = es.skip(i as int);
            assert(tail[0] == entry@);
            assert(tail.drop_first() =~= es.skip(i + 1));
            let mut matched = false;
            if let Some(name) = &entry.name {
                matched = same_text(name.as_str(), profile_name);
            }
            if !matched {
                if let Some(gaia) = &entry.gaia_name {
                    matched = same_text(gaia.as_str(), profile_name);
                }
            }
            if matched {
                let path = self.chrome_base_dir.join_name(entry.directory_name.as_str());
                return Ok(ChromeProfile {
                    directory_name: entry.directory_name.clone(),
                    display_name: String::from_str(profile_name),
                    path,
                    bookmark_count: None,
                    size_kb: None,
                });
            }
            i += 1;
        }
        Err(ProfileError::ProfileNotFound(String::from_str(profile_name)))
    }

    /// All profiles: those of `info_cache` in its order, each with what was
    /// found of its bookmarks file (`files`, one for each), then the
    /// `Default` profile where `info_cache` does not list it and its
    /// directory exists (`default_files` is `Some`); ordered by the size of
    /// the bookmarks file, largest first, profiles of equal size (an unknown
    /// size counting as 0) in that order.
    pub fn list_all_profiles(
        &self,
        info_cache: &[ProfileEntry],
        files: &[ProfileFiles],
        default_files: Option<ProfileFiles>,
    ) -> (r: Vec<ChromeProfile>)
        requires
            files@.len() == info_cache@.len(),
        ensures
            profile_views(r@) == sort_by_size(
                listing(self.base_dir()@, info_cache@.map_values(|e: ProfileEntry| e@), files@, default_files),
            ),
    {
        let ghost es = info_cache@.map_values(|e: ProfileEntry| e@);
        let ghost base = self.chrome_base_dir@;
        let ghost ps = Seq::new(es.len(), |j: int| listed_profile(base, es[j], files@[j]));
        let mut out: Vec<ChromeProfile> = Vec::new();
        let mut has_default = false;
        let mut i: usize = 0;
        proof {
            reveal_strlit("Default");
            assert(ps.take(0) =~= Seq::<ProfileView>::empty());
            assert(profile_views(out@) =~= Seq::<ProfileView>::empty());
        }
        while i < info_cache.len()
            invariant
                i <= info_cache@.len(),
                files@.len() == info_cache@.len(),
                es == info_cache@.map_values(|e: ProfileEntry| e@),
                base == self.chrome_base_dir@,
                ps == Seq::new(es.len(), |j: int| listed_profile(base, es[j], files@[j])),
                profile_views(out@) == sort_by_size(ps.take(i as int)),
                has_default == exists|j: int|
                    0 <= j < i && #[trigger] es[j].directory_name == "Default"@,
            decreases info_cache@.len() - i,
        {
            let e = &info_cache[i];
            let f = files[i];
            let display = match &e.name {
                Some(n) => n.clone(),
                None => match &e.gaia_name {
                    Some(g) => g.clone(),
                    None => e.directory_name.clone(),
                },
            };
            if same_text(e.directory_name.as_str(), "Default") {
                has_default = true;
            }
            let p = ChromeProfile {
                directory_name: e.directory_name.clone(),
                display_name: display,
                path: self.chrome_base_dir.join_name(e.directory_name.as_str()),
                bookmark_count: f.bookmark_count,
                size_kb: f.size_kb,
            };
            assert(p@ == ps[i as int]);
            insert_profile(&mut out, p);
            proof {
                assert(ps.take(i + 1).drop_last() =~= ps.take(i as int));
            }
            i += 1;
        }
        assert(ps.take(i as int) =~= ps);
        assert(has_default == lists_default(es));
        if !has_default {
            if let Some(f) = default_files {
                let p = ChromeProfile {
                    directory_name: String::from_str("Default"),
                    display_name: String::from_str("Default"),
                    path: self.chrome_base_dir.join_name("Default"),
                    bookmark_count: f.bookmark_count,
                    size_kb: f.size_kb,
                };
                insert_profile(&mut out, p);
                proof {
                    let all = listing(base, es, files@, default_files);
                    assert(all.drop_last() =~= ps);
                }
            }
        }
        out
    }

    /// The path of the bookmarks file of a profile.
    pub fn get_bookmarks_path(&self, profile: &ChromeProfile) -> (r: PathParts)
        ensures
            r@ == profile.path@.push("Bookmarks"@),
    {
        profile.path.join_name("Bookmarks")
    }

    /// The profile taken to be the current one: the first of `profiles`,
    /// which lists the profiles largest bookmark file first.
    pub fn get_current_profile(&self, profiles: Vec<ChromeProfile>) -> (r: Option<ChromeProfile>)
        ensures
            profiles@.len() == 0 ==> r is None,
            profiles@.len() > 0 ==> r == Some(profiles@[0]),
    {
        let mut profiles = profiles;
        if profiles.len() == 0 {
            None
        } else {
            Some(profiles.swap_remove(0))
        }
    }
}

} // verus!
