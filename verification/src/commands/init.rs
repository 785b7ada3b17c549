//! Setting up a store.

use vstd::prelude::*;
use vstd::string::*;
use crate::refs::{initial_head, new_head};

verus! {

/// What setting up a store takes.
#[derive(Debug)]
pub struct Layout {
    /// The directories to create, in this order.
    pub dirs: Vec<String>,
    /// The path of the pointer file.
    pub head_path: String,
    /// What to write to the pointer file.
    pub head: String,
    /// The line to print when all is done.
    pub report: String,
}

/// The layout of a new store: `.git` with `objects` and `refs` in it, and
/// `HEAD` pointing to `refs/heads/main`.
pub fn invoke() -> (layout: Layout)
    ensures
        layout.dirs@.len() == 3,
        layout.dirs@[0]@ == ".git"@,
        layout.dirs@[1]@ == ".git/objects"@,
        layout.dirs@[2]@ == ".git/refs"@,
        layout.head_path@ == ".git/HEAD"@,
        layout.head@ == initial_head(),
        layout.report@ == "Initialized git directory"@,
{
    let mut dirs: Vec<String> = Vec::new();
    dirs.push(String::from_str(".git"));
    dirs.push(String::from_str(".git/objects"));
    dirs.push(String::from_str(".git/refs"));
    Layout {
        dirs,
        head_path: String::from_str(".git/HEAD"),
        head: new_head(),
        report: String::from_str("Initialized git directory"),
    }
}

} // verus!
