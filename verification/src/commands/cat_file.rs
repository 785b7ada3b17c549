//! Printing the content of a blob.

use vstd::prelude::*;
use crate::error::StoreError;
use crate::object::{parse_stored, Kind, Object};

verus! {

/// What the command prints for the stored bytes of an object, or why it
/// prints nothing: `UnsupportedOperation` without `pretty_print`; the error
/// of reading where the object cannot be read; `UnsupportedOperation` where
/// it is no blob.
pub open spec fn output(pretty_print: bool, stored: Seq<u8>) -> Result<Seq<u8>, StoreError> {
    if !pretty_print {
        Err(StoreError::UnsupportedOperation)
    } else {
        match parse_stored(stored) {
            Err(e) => Err(e),
            Ok(object) => if object.kind == Kind::Blob {
                Ok(object.content)
            } else {
                Err(StoreError::UnsupportedOperation)
            },
        }
    }
}

/// The bytes to print for an object, given as the bytes that are stored
/// under its name.
pub fn invoke(pretty_print: bool, stored: &[u8]) -> (printed: Result<Vec<u8>, StoreError>)
    ensures
        match printed {
            Ok(bytes) => output(pretty_print, stored@) == Ok::<Seq<u8>, StoreError>(bytes@),
            Err(e) => output(pretty_print, stored@) == Err::<Seq<u8>, StoreError>(e),
        },
{
    if !pretty_print {
        return Err(StoreError::UnsupportedOperation);
    }
    match Object::read(stored) {
        Err(e) => Err(e),
        Ok(object) => match object.kind {
            Kind::Blob => Ok(object.content),
            _ => Err(StoreError::UnsupportedOperation),
        },
    }
}

} // verus!
