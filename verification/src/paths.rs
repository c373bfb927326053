//! File-system paths as their components, and the questions the library asks
//! the file system about them.
use vstd::prelude::*;

use crate::text::{clone_strings, views};

verus! {

/// A path as its components: `"/"` for the root of an absolute path, then
/// one name for each directory or file below it.
#[derive(Debug, Clone, PartialEq, Eq)]
pub struct PathParts {
    pub parts: Vec<String>,
}

impl View for PathParts {
    type V = Seq<Seq<char>>;

    open spec fn view(&self) -> Seq<Seq<char>> {
        views(self.parts@)
    }
}

impl PathParts {
    /// The root directory `/`.
    pub fn root() -> (r: Self)
        ensures
            r@ == seq!["/"@],
    {
        let mut parts: Vec<String> = Vec::new();
        parts.push(String::from_str("/"));
        let r = PathParts { parts };
        assert(r@ =~= seq!["/"@]);
        r
    }

    /// This path with the name `name` below it (`Path::join` of a single
    /// name).
    pub fn join_name(&self, name: &str) -> (r: Self)
        ensures
            r@ == self@.push(name@),
    {
        let mut parts = clone_strings(&self.parts);
        let ghost before = parts@;
        parts.push(String::from_str(name));
        let r = PathParts { parts };
        assert(r@ =~= views(before).push(name@));
        r
    }

    /// A copy of this path.
    pub fn copy(&self) -> (r: Self)
        ensures
            r@ == self@,
    {
        PathParts { parts: clone_strings(&self.parts) }
    }
}

/// Whether something exists at `p` (`Path::exists` of the path made of its
/// components); this depends on the file system at the time of the call.
#[verifier::external_body]
pub(crate) fn path_exists(p: &PathParts) -> bool {
    let mut path = std::path::PathBuf::new();
    for part in &p.parts {
        path.push(part);
    }
    path.exists()
}

/// The user's home directory, as its components (`dirs::home_dir`); this
/// depends on the environment of the process.
#[verifier::external_body]
pub(crate) fn home_dir() -> Option<PathParts> {
    match dirs::home_dir() {
        Some(home) => Some(PathParts {
            parts: home.components().map(|c| c.as_os_str().to_string_lossy().into_owned()).collect(),
        }),
        None => None,
    }
}

} // verus!
