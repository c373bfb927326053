//! What the command line of the server asks for.
use vstd::prelude::*;

use crate::search::common::{parse_usize, parse_usize_spec};
use crate::text::same_text;

verus! {

/// What the command line asks for.
#[derive(Debug, Clone, PartialEq, Eq)]
pub enum CliAction {
    /// Print the help text.
    Help,
    /// List the indexes.
    ListIndexes,
    /// Clear the index of that name.
    ClearIndex(String),
    /// `--clear-index` was given without a name.
    ClearIndexMissingName,
    /// Clear all indexes.
    ClearAllIndexes,
    /// Run the server, reading at most so many bookmarks (0: no limit).
    Run { max_bookmarks: usize },
}

/// What the command line asks for, as a mathematical value.
pub enum CliPlan {
    Help,
    ListIndexes,
    ClearIndex(Seq<char>),
    ClearIndexMissingName,
    ClearAllIndexes,
    Run(usize),
}

/// The view of a command-line action.
pub open spec fn plan_of(a: CliAction) -> CliPlan {
    match a {
        CliAction::Help => CliPlan::Help,
        CliAction::ListIndexes => CliPlan::ListIndexes,
        CliAction::ClearIndex(n) => CliPlan::ClearIndex(n@),
        CliAction::ClearIndexMissingName => CliPlan::ClearIndexMissingName,
        CliAction::ClearAllIndexes => CliPlan::ClearAllIndexes,
        CliAction::Run { max_bookmarks } => CliPlan::Run(max_bookmarks),
    }
}

/// The arguments from `i` on, read in turn with `max` bookmarks so far: the
/// first option met decides; a number sets the bookmark limit; anything
/// else is ignored.
pub open spec fn cli_plan(args: Seq<Seq<char>>, i: int, max: usize) -> CliPlan
    decreases args.len() - i,
{
    if i >= args.len() || i < 0 {
        CliPlan::Run(max)
    } else {
        let a = args[i];
        if a == "--help"@ || a == "-h"@ {
            CliPlan::Help
        } else if a == "--list-indexes"@ {
            CliPlan::ListIndexes
        } else if a == "--clear-index"@ {
            if i + 1 < args.len() {
                CliPlan::ClearIndex(args[i + 1])
            } else {
                CliPlan::ClearIndexMissingName
            }
        } else if a == "--clear-all-indexes"@ {
            CliPlan::ClearAllIndexes
        } else {
            match parse_usize_spec(a) {
                Some(n) => cli_plan(args, i + 1, n),
                None => cli_plan(args, i + 1, max),
            }
        }
    }
}

/// What the arguments `args` (the program's name first) ask for.
pub fn parse_args(args: &Vec<String>) -> (r: CliAction)
    ensures
        plan_of(r) == cli_plan(crate::text::views(args@), 1, 0),
{
    let ghost vs = crate::text::views(args@);
    let mut max: usize = 0;
    let mut i: usize = 1;
    while i < args.len()
        invariant
            vs == crate::text::views(args@),
            1 <= i,
            cli_plan(vs, 1, 0) == cli_plan(vs, i as int, max),
        decreases args@.len() - i,
    {
        let a = args[i].as_str();
        assert(vs[i as int] == args@[i as int]@);
        if same_text(a, "--help") || same_text(a, "-h") {
            return CliAction::Help;
        } else if same_text(a, "--list-indexes") {
            return CliAction::ListIndexes;
        } else if same_text(a, "--clear-index") {
            if i + 1 < args.len() {
                assert(vs[i + 1] == args@[i + 1]@);
                return CliAction::ClearIndex(args[i + 1].clone());
            } else {
                return CliAction::ClearIndexMissingName;
            }
        } else if same_text(a, "--clear-all-indexes") {
            return CliAction::ClearAllIndexes;
        } else {
            match parse_usize(a) {
                Some(n) => {
                    max = n;
                },
                None => {},
            }
        }
        i += 1;
    }
    CliAction::Run { max_bookmarks: max }
}

} // verus!
