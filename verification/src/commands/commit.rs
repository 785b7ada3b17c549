//! Committing the working directory.

use vstd::prelude::*;
use vstd::string::*;
use crate::codec::{digest_hex, hex_text};
use crate::commit::{baseline_text, commit_failure, commit_object, commit_tree_for, parent_text};
use crate::error::StoreError;
use crate::store::StoredObject;
use crate::work_tree::{
    all_stored, cannot_store, tree_digest, tree_objects, write_tree_for, WorkEntry,
};

verus! {

/// What a commit of the working directory takes.
#[derive(Debug)]
pub struct Plan {
    /// The objects of the snapshot, to be stored.
    pub objects: Vec<StoredObject>,
    /// The commit, to be stored after them. Its `name` is what the
    /// reference is to hold from now on.
    pub commit: StoredObject,
    /// The line to print when all is done.
    pub report: String,
}

/// Why the working directory cannot be committed, if it cannot: `Io` where
/// an object of the snapshot cannot be compressed; else `NotFound` where the
/// directory has no tree, so that there is nothing to commit; else what
/// keeps the commit of its tree from being made.
pub open spec fn failure(
    parent: Option<Seq<char>>,
    message: Seq<char>,
    listing: Seq<WorkEntry>,
) -> Option<StoreError> {
    if cannot_store(tree_objects(listing)) {
        Some(StoreError::Io)
    } else {
        match tree_digest(listing) {
            None => Some(StoreError::NotFound),
            Some(root) => commit_failure(parent, message, hex_text(root), baseline_text()),
        }
    }
}

/// Commits the snapshot of a directory, taken from its listing, on top of
/// `parent`.
///
/// `NotFound` where the directory has no tree, so that there is nothing to
/// commit; `InvalidArgument` where `parent` is not the name of an object;
/// `Io` where the compressor fails.
pub fn invoke(parent: Option<String>, message: String, listing: &Vec<WorkEntry>) -> (planned:
    Result<Plan, StoreError>)
    ensures
        match planned {
            Ok(plan) => {
                &&& failure(parent_text(parent), message@, listing@) is None
                &&& tree_digest(listing@) matches Some(root)
                &&& all_stored(plan.objects@, tree_objects(listing@))
                &&& plan.commit.stores(
                    commit_object(parent_text(parent), message@, hex_text(root), baseline_text()),
                )
                &&& plan.report@ == "HEAD is now at "@ + plan.commit.name@
            },
            Err(e) => failure(parent_text(parent), message@, listing@) == Some(e),
        },
{
    let snapshot = match write_tree_for(listing) {
        Ok(snapshot) => snapshot,
        Err(e) => {
            return Err(e);
        },
    };
    let root = match snapshot.root {
        Some(root) => root,
        None => {
            return Err(StoreError::NotFound);
        },
    };
    let tree_hash = digest_hex(&root);
    let commit = match commit_tree_for(parent, message, tree_hash) {
        Ok(commit) => commit,
        Err(e) => {
            return Err(e);
        },
    };
    let mut report = String::from_str("HEAD is now at ");
    report.append(commit.name.as_str());
    Ok(Plan { objects: snapshot.objects, commit, report })
}

} // verus!
