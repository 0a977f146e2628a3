//! Helpers for the list of story files found at start-up.

use vstd::prelude::*;

verus! {

/// The paths held by an optional list, or nothing.
pub open spec fn listed(paths: Option<Vec<String>>) -> Seq<String> {
    match paths {
        Some(v) => v@,
        None => Seq::empty(),
    }
}

/// Combines the story files found in two directories.
///
/// The result is absent only when both lists are absent; otherwise it holds
/// the paths of the first list followed by those of the second.
pub fn combine_file_paths(f1: Option<Vec<String>>, f2: Option<Vec<String>>) -> (res: Option<Vec<String>>)
    ensures
        res is None <==> (f1 is None && f2 is None),
        res is Some ==> res->0@ == listed(f1) + listed(f2),
{
    match (f1, f2) {
        (None, None) => None,
        (Some(r1), None) => Some(r1),
        (None, Some(r2)) => Some(r2),
        (Some(r1), Some(r2)) => {
            let mut all = r1;
            let mut rest = r2;
            all.append(&mut rest);
            Some(all)
        },
    }
}

} // verus!
