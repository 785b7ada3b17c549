//! Committing a tree that is already stored.

use vstd::prelude::*;
use crate::codec::hex_text;
pub use crate::commit::commit_tree_for;
use crate::commit::{baseline_text, commit_failure, commit_object, parent_text};
use crate::error::StoreError;
use crate::store::StoredObject;

verus! {

/// The commit of a tree, ready for the store; its `name` is the line to
/// print. `InvalidArgument` unless `tree_hash`, and `parent` where there is
/// one, are names of objects; `Io` where the compressor fails, and only
/// there.
pub fn invoke(parent: Option<String>, message: String, tree_hash: String) -> (made: Result<
    StoredObject,
    StoreError,
>)
    ensures
        match made {
            Ok(ready) => {
                &&& commit_failure(parent_text(parent), message@, tree_hash@, baseline_text())
                    is None
                &&& ready.stores(
                    commit_object(parent_text(parent), message@, tree_hash@, baseline_text()),
                )
                &&& ready.name@ == hex_text(ready.digest@)
            },
            Err(e) => commit_failure(parent_text(parent), message@, tree_hash@, baseline_text())
                == Some(e),
        },
{
    commit_tree_for(parent, message, tree_hash)
}

} // verus!
