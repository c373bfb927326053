//! Chrome bookmark trees: folder paths, flattening and folder lookup.
use vstd::prelude::*;

use crate::config::Config;
use crate::paths::PathParts;
use crate::text::{clone_opt, clone_strings, opt_view, same_text, views};

verus! {

/// The contents of Chrome's `Bookmarks` file.
#[derive(Debug)]
pub struct ChromeBookmarks {
    pub checksum: String,
    pub roots: BookmarkRoots,
    pub version: i32,
}

/// The three root folders of a Chrome bookmark file.
#[derive(Debug)]
pub struct BookmarkRoots {
    pub bookmark_bar: BookmarkNode,
    pub other: BookmarkNode,
    pub synced: BookmarkNode,
}

/// A bookmark or a folder of bookmarks.
#[derive(Debug)]
pub struct BookmarkNode {
    pub children: Option<Vec<BookmarkNode>>,
    pub date_added: Option<String>,
    pub date_last_used: Option<String>,
    pub date_modified: Option<String>,
    pub guid: String,
    pub id: String,
    pub name: String,
    /// `"folder"` or `"url"`.
    pub node_type: String,
    pub url: Option<String>,
    /// Names of the enclosing folders, outermost first.
    pub folder_path: Vec<String>,
}

/// The mathematical value of a bookmark node.
pub struct NodeView {
    pub children: Option<Seq<NodeView>>,
    pub date_added: Option<Seq<char>>,
    pub date_last_used: Option<Seq<char>>,
    pub date_modified: Option<Seq<char>>,
    pub guid: Seq<char>,
    pub id: Seq<char>,
    pub name: Seq<char>,
    pub node_type: Seq<char>,
    pub url: Option<Seq<char>>,
    pub folder_path: Seq<Seq<char>>,
}

pub open spec fn node_view(n: BookmarkNode) -> NodeView
    decreases n,
{
    NodeView {
        children: match n.children {
            Some(cs) => Some(nodes_view(cs@)),
            None => None,
        },
        date_added: opt_view(n.date_added),
        date_last_used: opt_view(n.date_last_used),
        date_modified: opt_view(n.date_modified),
        guid: n.guid@,
        id: n.id@,
        name: n.name@,
        node_type: n.node_type@,
        url: opt_view(n.url),
        folder_path: views(n.folder_path@),
    }
}

pub open spec fn nodes_view(cs: Seq<BookmarkNode>) -> Seq<NodeView>
    decreases cs,
{
    if cs.len() == 0 {
        Seq::empty()
    } else {
        nodes_view(cs.subrange(0, cs.len() - 1)).push(node_view(cs[cs.len() - 1]))
    }
}

impl View for BookmarkNode {
    type V = NodeView;

    open spec fn view(&self) -> NodeView {
        node_view(*self)
    }
}

pub proof fn lemma_nodes_view(cs: Seq<BookmarkNode>)
    ensures
        nodes_view(cs).len() == cs.len(),
        forall|i: int| 0 <= i < cs.len() ==> #[trigger] nodes_view(cs)[i] == node_view(cs[i]),
    decreases cs.len(),
{
    if cs.len() > 0 {
        lemma_nodes_view(cs.subrange(0, cs.len() - 1));
        assert forall|i: int| 0 <= i < cs.len() implies #[trigger] nodes_view(cs)[i] == node_view(cs[i]) by {
            if i < cs.len() - 1 {
                assert(cs.subrange(0, cs.len() - 1)[i] == cs[i]);
            }
        }
    }
}

/// Whether a node is a folder.
pub open spec fn is_folder_node(n: NodeView) -> bool {
    n.node_type == "folder"@
}

/// Whether a node is a bookmark with a URL.
pub open spec fn is_url_node(n: NodeView) -> bool {
    n.node_type == "url"@
}

/// A flattened bookmark.
#[derive(Debug, Clone)]
pub struct FlatBookmark {
    pub id: String,
    pub name: String,
    pub url: String,
    pub date_added: Option<String>,
    pub date_modified: Option<String>,
    pub folder_path: Vec<String>,
}

/// The mathematical value of a flattened bookmark.
pub struct FlatView {
    pub id: Seq<char>,
    pub name: Seq<char>,
    pub url: Seq<char>,
    pub date_added: Option<Seq<char>>,
    pub date_modified: Option<Seq<char>>,
    pub folder_path: Seq<Seq<char>>,
}

impl View for FlatBookmark {
    type V = FlatView;

    open spec fn view(&self) -> FlatView {
        FlatView {
            id: self.id@,
            name: self.name@,
            url: self.url@,
            date_added: opt_view(self.date_added),
            date_modified: opt_view(self.date_modified),
            folder_path: views(self.folder_path@),
        }
    }
}

/// The views of a list of flattened bookmarks.
pub open spec fn flat_views(v: Seq<FlatBookmark>) -> Seq<FlatView> {
    v.map_values(|b: FlatBookmark| b@)
}

/// The bookmark a node stands for, if it is a bookmark with a URL.
pub open spec fn own_entry(n: NodeView) -> Seq<FlatView> {
    if is_url_node(n) && n.url is Some {
        seq![
            FlatView {
                id: n.id,
                name: n.name,
                url: n.url->0,
                date_added: n.date_added,
                date_modified: n.date_modified,
                folder_path: n.folder_path,
            },
        ]
    } else {
        Seq::empty()
    }
}

/// All bookmarks with a URL under a node, the node first, in depth-first order.
pub open spec fn flat_of(n: NodeView) -> Seq<FlatView>
    decreases n,
{
    own_entry(n) + match n.children {
        Some(cs) => flat_of_seq(cs),
        None => Seq::empty(),
    }
}

/// The bookmarks under each node of `cs`, in order.
pub open spec fn flat_of_seq(cs: Seq<NodeView>) -> Seq<FlatView>
    decreases cs,
{
    if cs.len() == 0 {
        Seq::empty()
    } else {
        flat_of_seq(cs.subrange(0, cs.len() - 1)) + flat_of(cs[cs.len() - 1])
    }
}


/// The first folder of `cs` named `name`.
pub open spec fn first_folder_named(cs: Seq<NodeView>, name: Seq<char>) -> Option<NodeView>
    decreases cs.len(),
{
    if cs.len() == 0 {
        None
    } else if is_folder_node(cs[0]) && cs[0].name == name {
        Some(cs[0])
    } else {
        first_folder_named(cs.drop_first(), name)
    }
}

/// The folder reached from `n` by following `path`, one folder name per step.
pub open spec fn find_spec(n: NodeView, path: Seq<Seq<char>>) -> Option<NodeView>
    decreases path.len(),
{
    if path.len() == 0 {
        Some(n)
    } else {
        match n.children {
            Some(cs) => match first_folder_named(cs, path[0]) {
                Some(c) => find_spec(c, path.drop_first()),
                None => None,
            },
            None => None,
        }
    }
}

/// The folder path of a node whose parent folder has the path `parent`:
/// that path, followed by the node's own name when it is a named folder.
pub open spec fn path_below(n: NodeView, parent: Seq<Seq<char>>) -> Seq<Seq<char>> {
    if n.name.len() > 0 && is_folder_node(n) {
        parent.push(n.name)
    } else {
        parent
    }
}

/// A node given the folder path `path`, its descendants given theirs below
/// it, recursively.
pub open spec fn with_paths(n: NodeView, path: Seq<Seq<char>>) -> NodeView
    decreases n,
{
    NodeView {
        children: match n.children {
            Some(cs) => Some(with_paths_seq(cs, path)),
            None => None,
        },
        folder_path: path,
        ..n
    }
}

/// The nodes `cs`, held by a folder with path `parent`, given their paths.
pub open spec fn with_paths_seq(cs: Seq<NodeView>, parent: Seq<Seq<char>>) -> Seq<NodeView>
    decreases cs,
{
    if cs.len() == 0 {
        Seq::empty()
    } else {
        with_paths_seq(cs.subrange(0, cs.len() - 1), parent).push(
            with_paths(cs[cs.len() - 1], path_below(cs[cs.len() - 1], parent)),
        )
    }
}

impl BookmarkNode {
    /// Whether this node is a folder.
    pub fn is_folder(&self) -> (b: bool)
        ensures
            b == is_folder_node(self@),
    {
        same_text(self.node_type.as_str(), "folder")
    }

    /// Whether this node is a bookmark with a URL.
    pub fn is_url(&self) -> (b: bool)
        ensures
            b == is_url_node(self@),
    {
        same_text(self.node_type.as_str(), "url")
    }

    /// All bookmarks with a URL in this subtree, in depth-first order.
    pub fn flatten(&self) -> (r: Vec<FlatBookmark>)
        ensures
            flat_views(r@) == flat_of(self@),
    {
        let mut result: Vec<FlatBookmark> = Vec::new();
        self.flatten_recursive(&mut result);
        assert(flat_views(result@) =~= flat_views(Seq::<FlatBookmark>::empty()) + flat_of(self@));
        result
    }

    /// Appends the bookmarks of this subtree to `result`.
    pub fn flatten_recursive(&self, result: &mut Vec<FlatBookmark>)
        ensures
            flat_views(final(result)@) == flat_views(old(result)@) + flat_of(self@),
        decreases self,
    {
        let ghost start = flat_views(result@);
        let ghost me = self@;
        if self.is_url() {
            if let Some(url) = &self.url {
                let ghost before = result@;
                result.push(FlatBookmark {
                    id: self.id.clone(),
                    name: self.name.clone(),
                    url: url.clone(),
                    date_added: clone_opt(&self.date_added),
                    date_modified: clone_opt(&self.date_modified),
                    folder_path: clone_strings(&self.folder_path),
                });
                assert(flat_views(result@) =~= flat_views(before) + own_entry(me));
            }
        }
        assert(flat_views(result@) =~= start + own_entry(me));
        if let Some(children) = &self.children {
            let ghost kids = nodes_view(children@);
            proof {
                lemma_nodes_view(children@);
            }
            let mut i: usize = 0;
            assert(kids.subrange(0, 0) =~= Seq::<NodeView>::empty());
            while i < children.len()
                invariant
                    self.children == Some(*children),
                    kids == nodes_view(children@),
                    kids.len() == children@.len(),
                    forall|j: int| 0 <= j < children@.len() ==> #[trigger] kids[j] == node_view(children@[j]),
                    i <= children.len(),
                    flat_views(result@) == start + own_entry(me) + flat_of_seq(kids.subrange(0, i as int)),
                decreases children.len() - i,
            {
                proof {
                    assert(decreases_to!(*self => self.children));
                    assert(decreases_to!(self.children => self.children->0));
                    assert(decreases_to!(self.children->0 => self.children->0@));
                    assert(decreases_to!(self.children->0@ => children@[i as int]));
                }
                children[i].flatten_recursive(result);
                proof {
                    let pre = kids.subrange(0, i as int);
                    let next = kids.subrange(0, i + 1);
                    assert(next.subrange(0, next.len() - 1) =~= pre);
                    assert(next[next.len() - 1] == kids[i as int]);
                    assert(flat_views(result@) =~= start + own_entry(me) + flat_of_seq(next));
                }
                i += 1;
            }
            assert(kids.subrange(0, kids.len() as int) =~= kids);
        } else {
            assert(flat_views(result@) =~= start + flat_of(me));
        }
    }

    /// The folder reached by following `path` from this node.
    pub fn find_folder(&self, path: &[String]) -> (r: Option<&BookmarkNode>)
        ensures
            match r {
                Some(m) => find_spec(self@, views(path@)) == Some(m@),
                None => find_spec(self@, views(path@)) is None,
            },
    {
        assert(views(path@).skip(0) =~= views(path@));
        self.find_folder_from(path, 0)
    }

    /// `find_folder` on the part of `path` from index `k` on.
    fn find_folder_from(&self, path: &[String], k: usize) -> (r: Option<&BookmarkNode>)
        requires
            k <= path@.len(),
        ensures
            match r {
                Some(m) => find_spec(self@, views(path@).skip(k as int)) == Some(m@),
                None => find_spec(self@, views(path@).skip(k as int)) is None,
            },
        decreases path@.len() - k,
    {
        let ghost rest = views(path@).skip(k as int);
        if k == path.len() {
            assert(rest.len() == 0);
            return Some(self);
        }
        assert(rest[0] == path@[k as int]@);
        assert(rest.drop_first() =~= views(path@).skip(k + 1));
        if let Some(children) = &self.children {
            let ghost kids = nodes_view(children@);
            proof {
                lemma_nodes_view(children@);
            }
            let mut i: usize = 0;
            assert(kids.skip(0) =~= kids);
            assert(self@.children == Some(kids));
            while i < children.len()
                invariant
                    self@.children == Some(kids),
                    rest[0] == path@[k as int]@,
                    rest.drop_first() == views(path@).skip(k + 1),
                    rest == views(path@).skip(k as int),
                    kids == nodes_view(children@),
                    kids.len() == children@.len(),
                    forall|j: int| 0 <= j < children@.len() ==> #[trigger] kids[j] == node_view(children@[j]),
                    i <= children.len(),
                    k < path@.len(),
                    first_folder_named(kids, path@[k as int]@) == first_folder_named(kids.skip(i as int), path@[k as int]@),
                decreases children.len() - i,
            {
                let child = &children[i];
                let ghost tail = kids.skip(i as int);
                assert(tail[0] == node_view(children@[i as int]));
                assert(tail.drop_first() =~= kids.skip(i + 1));
                if child.is_folder() && same_text(child.name.as_str(), path[k].as_str()) {
                    assert(first_folder_named(tail, path@[k as int]@) == Some(tail[0]));
                    return child.find_folder_from(path, k + 1);
                }
                i += 1;
            }
            assert(kids.skip(children.len() as int).len() == 0);
        }
        None
    }
}


pub proof fn lemma_with_paths_seq(cs: Seq<NodeView>, p: Seq<Seq<char>>)
    ensures
        with_paths_seq(cs, p).len() == cs.len(),
        forall|i: int|
            0 <= i < cs.len() ==> #[trigger] with_paths_seq(cs, p)[i] == with_paths(cs[i], path_below(cs[i], p)),
    decreases cs.len(),
{
    if cs.len() > 0 {
        lemma_with_paths_seq(cs.subrange(0, cs.len() - 1), p);
        assert forall|i: int| 0 <= i < cs.len() implies #[trigger] with_paths_seq(cs, p)[i] == with_paths(
            cs[i],
            path_below(cs[i], p),
        ) by {
            if i < cs.len() - 1 {
                assert(cs.subrange(0, cs.len() - 1)[i] == cs[i]);
            }
        }
    }
}

/// Whether `c` is reached from `n` by `path`: for each name of the path in
/// turn, one step down to a child folder of that name.
pub open spec fn reached_by(n: NodeView, path: Seq<Seq<char>>, c: NodeView) -> bool
    decreases path.len(),
{
    if path.len() == 0 {
        c == n
    } else {
        n.children matches Some(cs) && exists|i: int|
            0 <= i < cs.len() && is_folder_node(#[trigger] cs[i]) && cs[i].name == path[0]
                && reached_by(cs[i], path.drop_first(), c)
    }
}

/// The first folder named `name` among `cs` is one of them, a folder with
/// that name; there is one where any of them is such a folder.
proof fn lemma_first_folder_named(cs: Seq<NodeView>, name: Seq<char>)
    ensures
        first_folder_named(cs, name) matches Some(c) ==> exists|i: int|
            0 <= i < cs.len() && #[trigger] cs[i] == c && is_folder_node(c) && c.name == name,
        (exists|i: int| 0 <= i < cs.len() && is_folder_node(#[trigger] cs[i]) && cs[i].name == name)
            ==> first_folder_named(cs, name) is Some,
    decreases cs.len(),
{
    if cs.len() > 0 {
        let t = cs.drop_first();
        lemma_first_folder_named(t, name);
        if let Some(c) = first_folder_named(cs, name) {
            if !(is_folder_node(cs[0]) && cs[0].name == name) {
                let i = choose|i: int| 0 <= i < t.len() && #[trigger] t[i] == c && is_folder_node(c) && c.name == name;
                assert(cs[i + 1] == c);
            }
        }
        if exists|i: int| 0 <= i < cs.len() && is_folder_node(#[trigger] cs[i]) && cs[i].name == name {
            let i = choose|i: int| 0 <= i < cs.len() && is_folder_node(#[trigger] cs[i]) && cs[i].name == name;
            if i > 0 {
                assert(t[i - 1] == cs[i]);
            }
        }
    }
}

/// A folder found by `find_folder(path)` lies `path.len()` steps below the
/// start, each step down to a child folder named by the next component of
/// the path, so a non-empty path finds a folder named by its last
/// component; a one-name path finds a folder wherever the start has a child
/// folder of that name.
pub proof fn law_find_folder_follows_path(n: NodeView, path: Seq<Seq<char>>)
    ensures
        find_spec(n, path) matches Some(c) ==> reached_by(n, path, c),
        find_spec(n, path) matches Some(c) ==> (path.len() > 0 ==> is_folder_node(c) && c.name == path.last()),
        path.len() == 0 ==> find_spec(n, path) == Some(n),
        path.len() == 1 && (n.children matches Some(cs) && exists|i: int|
            0 <= i < cs.len() && is_folder_node(#[trigger] cs[i]) && cs[i].name == path[0])
            ==> find_spec(n, path) is Some,
    decreases path.len(),
{
    if path.len() > 0 {
        if let Some(cs) = n.children {
            lemma_first_folder_named(cs, path[0]);
            if let Some(c) = first_folder_named(cs, path[0]) {
                law_find_folder_follows_path(c, path.drop_first());
                if let Some(d) = find_spec(n, path) {
                    let i = choose|i: int| 0 <= i < cs.len() && #[trigger] cs[i] == c && is_folder_node(c) && c.name == path[0];
                    assert(is_folder_node(cs[i]) && cs[i].name == path[0] && reached_by(cs[i], path.drop_first(), d));
                    if path.len() == 1 {
                        assert(d == c);
                    } else {
                        assert(path.drop_first().last() == path.last());
                    }
                }
            }
        }
    }
}

/// Whether the flattened bookmark `f` carries the fields of the bookmark
/// node `u`: its id, name, URL, dates and folder path.
pub open spec fn carries(f: FlatView, u: NodeView) -> bool {
    &&& is_url_node(u)
    &&& u.url == Some(f.url)
    &&& f.id == u.id
    &&& f.name == u.name
    &&& f.date_added == u.date_added
    &&& f.date_modified == u.date_modified
    &&& f.folder_path == u.folder_path
}

/// Whether `u` is `n` or a node below it.
pub open spec fn in_tree(n: NodeView, u: NodeView) -> bool
    decreases n,
{
    u == n || (n.children matches Some(cs) && exists|i: int| 0 <= i < cs.len() && in_tree(#[trigger] cs[i], u))
}

/// Whether some bookmark node of the tree `n` has the fields that `f`
/// carries.
pub open spec fn from_tree_node(n: NodeView, f: FlatView) -> bool {
    exists|u: NodeView| in_tree(n, u) && carries(f, u)
}

/// Whether `f` is listed for one of the nodes `cs`.
spec fn listed_for_one(cs: Seq<NodeView>, f: FlatView) -> bool {
    exists|i: int, j: int| 0 <= i < cs.len() && 0 <= j < flat_of(cs[i]).len() && #[trigger] flat_of(cs[i])[j] == f
}

/// Each bookmark listed for `cs` is one listed for one of them.
proof fn lemma_flat_of_seq(cs: Seq<NodeView>)
    ensures
        forall|k: int| 0 <= k < flat_of_seq(cs).len() ==> listed_for_one(cs, #[trigger] flat_of_seq(cs)[k]),
    decreases cs.len(),
{
    if cs.len() > 0 {
        let init = cs.subrange(0, cs.len() - 1);
        lemma_flat_of_seq(init);
        let a = flat_of_seq(init);
        let last = cs.len() - 1;
        assert(flat_of_seq(cs) == a + flat_of(cs[last]));
        assert forall|k: int| 0 <= k < flat_of_seq(cs).len() implies listed_for_one(cs, #[trigger] flat_of_seq(cs)[k]) by {
            if k < a.len() {
                assert(listed_for_one(init, a[k]));
                let (i, j) = choose|i: int, j: int|
                    0 <= i < init.len() && 0 <= j < flat_of(init[i]).len() && #[trigger] flat_of(init[i])[j] == a[k];
                assert(init[i] == cs[i]);
                assert(flat_of(cs[i])[j] == flat_of_seq(cs)[k]);
            } else {
                assert(flat_of(cs[last])[k - a.len()] == flat_of_seq(cs)[k]);
            }
        }
    } else {
        assert(flat_of_seq(cs).len() == 0);
    }
}

/// Each bookmark that `flatten` lists comes from a bookmark node of the
/// tree with a URL, and carries that node's id, name, URL, dates and folder
/// path, field for field.
pub proof fn law_flatten_carries_node_fields(n: NodeView)
    ensures
        forall|k: int| 0 <= k < flat_of(n).len() ==> from_tree_node(n, #[trigger] flat_of(n)[k]),
    decreases n,
{
    let own = own_entry(n);
    let rest = match n.children {
        Some(cs) => flat_of_seq(cs),
        None => Seq::empty(),
    };
    assert(flat_of(n) == own + rest);
    assert forall|k: int| 0 <= k < flat_of(n).len() implies from_tree_node(n, #[trigger] flat_of(n)[k]) by {
        if k < own.len() {
            assert(in_tree(n, n));
            assert(carries(flat_of(n)[k], n));
        } else {
            let cs = n.children->0;
            lemma_flat_of_seq(cs);
            assert(flat_of_seq(cs)[k - own.len()] == flat_of(n)[k]);
            assert(listed_for_one(cs, flat_of_seq(cs)[k - own.len()]));
            let (i, j) = choose|i: int, j: int|
                0 <= i < cs.len() && 0 <= j < flat_of(cs[i]).len() && #[trigger] flat_of(cs[i])[j] == flat_of(n)[k];
            law_flatten_carries_node_fields(cs[i]);
            assert(from_tree_node(cs[i], flat_of(cs[i])[j]));
            let u = choose|u: NodeView| in_tree(cs[i], u) && carries(flat_of(cs[i])[j], u);
            assert(in_tree(n, u));
        }
    }
}

/// Whether `f` is listed for the nodes `cs`.
spec fn listed_in_seq(cs: Seq<NodeView>, f: FlatView) -> bool {
    exists|k: int| 0 <= k < flat_of_seq(cs).len() && #[trigger] flat_of_seq(cs)[k] == f
}

/// What is listed for one of the nodes `cs` is listed for them all.
proof fn lemma_flat_of_seq_holds(cs: Seq<NodeView>)
    ensures
        forall|i: int, j: int|
            0 <= i < cs.len() && 0 <= j < flat_of(cs[i]).len() ==> listed_in_seq(cs, #[trigger] flat_of(cs[i])[j]),
    decreases cs.len(),
{
    if cs.len() > 0 {
        let init = cs.subrange(0, cs.len() - 1);
        lemma_flat_of_seq_holds(init);
        let a = flat_of_seq(init);
        let last = cs.len() - 1;
        assert(flat_of_seq(cs) == a + flat_of(cs[last]));
        assert forall|i: int, j: int|
            0 <= i < cs.len() && 0 <= j < flat_of(cs[i]).len() implies listed_in_seq(cs, #[trigger] flat_of(cs[i])[j]) by {
            if i < last {
                assert(init[i] == cs[i]);
                assert(listed_in_seq(init, flat_of(init[i])[j]));
                let k = choose|k: int| 0 <= k < a.len() && #[trigger] a[k] == flat_of(init[i])[j];
                assert(flat_of_seq(cs)[k] == a[k]);
            } else {
                assert(flat_of_seq(cs)[a.len() + j] == flat_of(cs[i])[j]);
            }
        }
    }
}

/// Whether some bookmark listed for `n` carries the fields of `u`.
pub open spec fn listed_for(n: NodeView, u: NodeView) -> bool {
    exists|k: int| 0 <= k < flat_of(n).len() && carries(#[trigger] flat_of(n)[k], u)
}

/// Every bookmark node with a URL in the tree is listed by `flatten`, with
/// its id, name, URL, dates and folder path.
pub proof fn law_flatten_lists_every_bookmark(n: NodeView, u: NodeView)
    requires
        in_tree(n, u),
        is_url_node(u),
        u.url is Some,
    ensures
        listed_for(n, u),
    decreases n,
{
    let own = own_entry(n);
    let rest = match n.children {
        Some(cs) => flat_of_seq(cs),
        None => Seq::empty(),
    };
    assert(flat_of(n) == own + rest);
    if u == n {
        assert(carries(flat_of(n)[0], u));
    } else {
        let cs = n.children->0;
        let i = choose|i: int| 0 <= i < cs.len() && in_tree(#[trigger] cs[i], u);
        law_flatten_lists_every_bookmark(cs[i], u);
        let j = choose|j: int| 0 <= j < flat_of(cs[i]).len() && carries(#[trigger] flat_of(cs[i])[j], u);
        lemma_flat_of_seq_holds(cs);
        assert(listed_in_seq(cs, flat_of(cs[i])[j]));
        let k = choose|k: int| 0 <= k < flat_of_seq(cs).len() && #[trigger] flat_of_seq(cs)[k] == flat_of(cs[i])[j];
        assert(flat_of(n)[own.len() + k] == flat_of(cs[i])[j]);
    }
}

/// Whether every folder path below `n` follows the tree: each child has
/// the path of its parent, followed by its own name when it is a named
/// folder.
pub open spec fn paths_follow_tree(n: NodeView) -> bool
    decreases n,
{
    match n.children {
        Some(cs) => forall|i: int|
            0 <= i < cs.len() ==> (#[trigger] cs[i]).folder_path == path_below(cs[i], n.folder_path)
                && paths_follow_tree(cs[i]),
        None => true,
    }
}

/// Whether `b` is `a` with other folder paths: every other field of every
/// node is the same, and each node keeps its children, in number and order.
pub open spec fn same_but_paths(a: NodeView, b: NodeView) -> bool
    decreases a,
{
    &&& b.date_added == a.date_added
    &&& b.date_last_used == a.date_last_used
    &&& b.date_modified == a.date_modified
    &&& b.guid == a.guid
    &&& b.id == a.id
    &&& b.name == a.name
    &&& b.node_type == a.node_type
    &&& b.url == a.url
    &&& match a.children {
        Some(x) => b.children matches Some(y) && y.len() == x.len() && forall|i: int|
            0 <= i < x.len() ==> same_but_paths(#[trigger] x[i], y[i]),
        None => b.children is None,
    }
}

/// After `set_folder_paths(path)` a node has the path `path`, every node
/// below it keeps all but its path and its children in number and order,
/// and every path below it follows the tree.
pub proof fn law_folder_paths_follow_tree(n: NodeView, path: Seq<Seq<char>>)
    ensures
        same_but_paths(n, with_paths(n, path)),
        with_paths(n, path).folder_path == path,
        paths_follow_tree(with_paths(n, path)),
    decreases n,
{
    let r = with_paths(n, path);
    match n.children {
        Some(cs) => {
            lemma_with_paths_seq(cs, path);
            let rs = with_paths_seq(cs, path);
            assert forall|i: int| 0 <= i < rs.len() implies (#[trigger] rs[i]).folder_path == path_below(rs[i], r.folder_path)
                && paths_follow_tree(rs[i]) by {
                law_folder_paths_follow_tree(cs[i], path_below(cs[i], path));
            }
            assert forall|i: int| 0 <= i < cs.len() implies same_but_paths(#[trigger] cs[i], rs[i]) by {
                law_folder_paths_follow_tree(cs[i], path_below(cs[i], path));
            }
        },
        None => {},
    }
}

impl BookmarkNode {
    /// Gives this node the folder path `path` and every node below it its
    /// own: the path of the folder that holds it, followed by its name when
    /// it is a named folder.
    pub fn set_folder_paths(&mut self, path: Vec<String>)
        ensures
            final(self)@ == with_paths(old(self)@, views(path@)),
        decreases *old(self),
    {
        let ghost orig = *self;
        assert(orig == *old(self));
        let ghost cur = views(path@);
        self.folder_path = clone_strings(&path);
        match self.children.take() {
            None => {
                assert(self@ =~= with_paths(orig@, cur));
            },
            Some(mut kids) => {
                let ghost old_kids = kids@;
                let ghost n = old_kids.len();
                let mut rev: Vec<BookmarkNode> = Vec::new();
                while kids.len() > 0
                    invariant
                        orig.children is Some,
                        orig.children->0@ == old_kids,
                        n == old_kids.len(),
                        kids@ == old_kids.take(n - rev@.len()),
                        rev@.len() <= n,
                        forall|j: int| 0 <= j < rev@.len() ==> #[trigger] rev@[j] == old_kids[n - 1 - j],
                    decreases kids.len(),
                {
                    let c = kids.pop().unwrap();
                    rev.push(c);
                    assert(kids@ =~= old_kids.take(n - rev@.len()));
                }
                let mut out: Vec<BookmarkNode> = Vec::new();
                while rev.len() > 0
                    invariant
                        orig == *old(self),
                        orig.children is Some,
                        orig.children->0@ == old_kids,
                        n == old_kids.len(),
                        rev@.len() + out@.len() == n,
                        forall|j: int| 0 <= j < rev@.len() ==> #[trigger] rev@[j] == old_kids[n - 1 - j],
                        forall|j: int| 0 <= j < out@.len() ==> #[trigger] node_view(out@[j]) == with_paths(
                            node_view(old_kids[j]),
                            path_below(node_view(old_kids[j]), cur),
                        ),
                        views(path@) == cur,
                    decreases rev.len(),
                {
                    let mut c = rev.pop().unwrap();
                    let ghost k = out@.len() as int;
                    assert(c == old_kids[k]);
                    proof {
                        assert(decreases_to!(orig => orig.children));
                        assert(decreases_to!(orig.children => orig.children->0));
                        assert(decreases_to!(orig.children->0 => orig.children->0@));
                        assert(decreases_to!(orig.children->0@ => old_kids[k]));
                        assert(decreases_to!(orig => c));
                    }
                    let mut child_path = clone_strings(&path);
                    if !c.name.as_str().is_empty() && c.is_folder() {
                        let ghost before = child_path@;
                        child_path.push(c.name.clone());
                        assert(views(child_path@) =~= views(before).push(c.name@));
                    }
                    assert(views(child_path@) == path_below(c@, cur));
                    c.set_folder_paths(child_path);
                    out.push(c);
                }
                proof {
                    lemma_nodes_view(out@);
                    lemma_nodes_view(old_kids);
                    lemma_with_paths_seq(nodes_view(old_kids), cur);
                    assert(nodes_view(out@) =~= with_paths_seq(nodes_view(old_kids), cur));
                }
                self.children = Some(out);
                assert(self@ =~= with_paths(orig@, cur));
            },
        }
    }
}


/// Why reading bookmarks failed.
#[derive(Debug, Clone, PartialEq, Eq)]
pub enum BookmarkError {
    /// No index name was configured when the reader was made.
    IndexNameRequired,
    /// Bookmarks were asked of a reader that has no index name.
    IndexNameMissing,
    /// The bookmark file is not read when a pre-built index is in use.
    ReadUnsupported,
}

/// The message of an error.
pub open spec fn error_message(e: BookmarkError) -> Seq<char> {
    match e {
        BookmarkError::IndexNameRequired => "INDEX_NAME environment variable is required. Please specify the index to use."@,
        BookmarkError::IndexNameMissing => "INDEX_NAME is required"@,
        BookmarkError::ReadUnsupported => "BookmarkReader::read() should not be called when using INDEX_NAME"@,
    }
}

impl BookmarkError {
    /// A message describing the error.
    pub fn message(&self) -> (r: String)
        ensures
            r@ == error_message(*self),
    {
        match self {
            BookmarkError::IndexNameRequired => String::from_str(
                "INDEX_NAME environment variable is required. Please specify the index to use.",
            ),
            BookmarkError::IndexNameMissing => String::from_str("INDEX_NAME is required"),
            BookmarkError::ReadUnsupported => String::from_str(
                "BookmarkReader::read() should not be called when using INDEX_NAME",
            ),
        }
    }
}

/// Chrome bookmark reader.
#[derive(Debug)]
pub struct BookmarkReader {
    pub bookmarks_path: PathParts,
    pub config: Config,
}

impl BookmarkReader {
    /// A reader for the configured index; an index name is required, since
    /// bookmarks come from the pre-built index, not from Chrome's file.
    pub fn with_config(config: Config) -> (r: Result<Self, BookmarkError>)
        ensures
            config.index_name is Some <==> r is Ok,
            r matches Ok(reader) ==> reader.config == config && reader.bookmarks_path@ == seq![
                "/"@,
                "nonexistent"@,
                "Bookmarks"@,
            ],
            r matches Err(e) ==> e == BookmarkError::IndexNameRequired,
    {
        if config.index_name.is_some() {
            let bookmarks_path = PathParts::root().join_name("nonexistent").join_name("Bookmarks");
            Ok(BookmarkReader { bookmarks_path, config })
        } else {
            Err(BookmarkError::IndexNameRequired)
        }
    }

    /// A reader of the bookmark file at `bookmarks_path`.
    pub fn new_with_path(bookmarks_path: PathParts, config: Config) -> (r: Self)
        ensures
            r.bookmarks_path == bookmarks_path,
            r.config == config,
    {
        BookmarkReader { bookmarks_path, config }
    }

    /// Reading the raw file is not supported when a pre-built index is used.
    pub fn read(&self) -> (r: Result<ChromeBookmarks, BookmarkError>)
        ensures
            r matches Err(e) && e == BookmarkError::ReadUnsupported,
    {
        Err(BookmarkError::ReadUnsupported)
    }

    /// The bookmarks to index: none when a pre-built index is used, an error
    /// otherwise.
    pub fn read_bookmarks(&self) -> (r: Result<Vec<FlatBookmark>, BookmarkError>)
        ensures
            self.config.index_name is Some ==> (r matches Ok(v) && v@.len() == 0),
            self.config.index_name is None ==> (r matches Err(e) && e == BookmarkError::IndexNameMissing
                && error_message(e) == "INDEX_NAME is required"@),
    {
        if self.config.index_name.is_some() {
            Ok(Vec::new())
        } else {
            Err(BookmarkError::IndexNameMissing)
        }
    }
}

} // verus!
