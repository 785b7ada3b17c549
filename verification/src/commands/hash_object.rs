//! Naming the blob of a file, and storing it where asked.

use vstd::prelude::*;
use crate::codec::{digest_hex, hex_text};
use crate::error::StoreError;
use crate::object::{digest_of, object_digest, storable, Kind, ObjectView};
use crate::store::{store_object, StoredObject};

verus! {

/// The outcome of hashing a file.
#[derive(Debug)]
pub struct Hashed {
    /// The name of the blob, in hex: the line to print.
    pub name: String,
    /// The blob made ready for the store, where storing was asked for.
    pub stored: Option<StoredObject>,
}

/// Names the blob that holds `content`; with `write`, also makes it ready
/// for the store. Without `write` this cannot fail; with it, it fails with
/// `Io` where the compressor does, and only there.
pub fn invoke(write: bool, content: &[u8]) -> (hashed: Result<Hashed, StoreError>)
    ensures
        match hashed {
            Ok(hashed) => {
                &&& hashed.name@ == hex_text(object_digest(Kind::Blob, content@))
                &&& match hashed.stored {
                    Some(ready) => write && ready.stores(
                        ObjectView { kind: Kind::Blob, content: content@ },
                    ),
                    None => !write,
                }
            },
            Err(e) => e == StoreError::Io && write && !storable(Kind::Blob, content@),
        },
{
    if write {
        match store_object(Kind::Blob, content) {
            Ok(ready) => {
                let name = digest_hex(&ready.digest);
                Ok(Hashed { name, stored: Some(ready) })
            },
            Err(e) => Err(e),
        }
    } else {
        let digest = digest_of(Kind::Blob, content);
        Ok(Hashed { name: digest_hex(&digest), stored: None })
    }
}

} // verus!
