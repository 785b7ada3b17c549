use vstd::prelude::*;

verus! {

/// Why an operation of the store failed.
#[derive(Clone, Copy, Debug, PartialEq, Eq, Structural)]
pub enum StoreError {
    /// No object, reference or file under the name that was asked for.
    NotFound,
    /// The header of a stored object is not `"<kind> <size>\0"`.
    CorruptHeader,
    /// A tree entry is not `"<mode> <name>\0"` followed by a 20-byte digest.
    CorruptEntry,
    /// The kind tag of a header is none of `blob`, `tree`, `commit`.
    UnknownKind,
    /// The operation is not offered for this object or in this state.
    UnsupportedOperation,
    /// The filesystem or the compression layer reported a failure.
    Io,
    /// An argument is malformed, such as a digest that is not 40 hex digits.
    InvalidArgument,
}

impl StoreError {
    /// The text that `message` returns for each error.
    pub open spec fn message_text(self) -> Seq<char> {
        match self {
            StoreError::NotFound => "not found"@,
            StoreError::CorruptHeader => "corrupt object header"@,
            StoreError::CorruptEntry => "corrupt tree entry"@,
            StoreError::UnknownKind => "unknown object kind"@,
            StoreError::UnsupportedOperation => "unsupported operation"@,
            StoreError::Io => "i/o failure"@,
            StoreError::InvalidArgument => "invalid argument"@,
        }
    }

    /// A short description of the error, for display.
    pub fn message(&self) -> (text: String)
        ensures
            text@ == self.message_text(),
    {
        match self {
            StoreError::NotFound => "not found".to_owned(),
            StoreError::CorruptHeader => "corrupt object header".to_owned(),
            StoreError::CorruptEntry => "corrupt tree entry".to_owned(),
            StoreError::UnknownKind => "unknown object kind".to_owned(),
            StoreError::UnsupportedOperation => "unsupported operation".to_owned(),
            StoreError::Io => "i/o failure".to_owned(),
            StoreError::InvalidArgument => "invalid argument".to_owned(),
        }
    }
}

} // verus!
