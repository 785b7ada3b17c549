//! Taking the snapshot of the working directory.

use vstd::prelude::*;
use crate::codec::{digest_hex, hex_text};
use crate::error::StoreError;
pub use crate::work_tree::write_tree_for;
use crate::work_tree::{cannot_store, tree_objects, TreeWrite, WorkEntry};

verus! {

/// The outcome of taking a snapshot.
#[derive(Debug)]
pub struct Snapshot {
    /// The name of the root tree in hex, the line to print; none where the
    /// directory has no tree.
    pub line: Option<String>,
    /// The objects to store.
    pub tree: TreeWrite,
}

/// Takes the snapshot of a directory from its listing. `Io` where the
/// compressor fails on one of its objects, and only there.
pub fn invoke(listing: &Vec<WorkEntry>) -> (taken: Result<Snapshot, StoreError>)
    ensures
        match taken {
            Ok(snapshot) => {
                &&& !cannot_store(tree_objects(listing@))
                &&& snapshot.tree.snapshot_of(listing@)
                &&& match snapshot.line {
                    Some(line) => snapshot.tree.root matches Some(root) && line@ == hex_text(
                        root@,
                    ),
                    None => snapshot.tree.root is None,
                }
            },
            Err(e) => e == StoreError::Io && cannot_store(tree_objects(listing@)),
        },
{
    match write_tree_for(listing) {
        Ok(tree) => {
            let line = match &tree.root {
                Some(root) => Some(digest_hex(root)),
                None => None,
            };
            Ok(Snapshot { line, tree })
        },
        Err(e) => Err(e),
    }
}

} // verus!
