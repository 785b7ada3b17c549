//! Where objects are kept: `.git/objects/<2 hex digits>/<38 hex digits>`,
//! the two parts being the 40 hex digits of the object's name.
//!
//! Nothing here reaches the filesystem. `write_to_objects` returns the bytes
//! to store and the path to store them at; the caller writes them to a
//! temporary file and renames it to that path, so that no reader sees a
//! half-written object.

use vstd::prelude::*;
use vstd::string::*;
use crate::codec::{digest_hex, hex_digit, hex_text};
use crate::error::StoreError;
use crate::object::{is_written, storable, write_framed, Kind, Object, ObjectView};

verus! {

/// Whether a character is a lowercase hex digit.
pub open spec fn is_hex_char(c: char) -> bool {
    ('0' <= c && c <= '9') || ('a' <= c && c <= 'f')
}

/// Whether a text is the name of an object: 40 lowercase hex digits.
pub open spec fn is_digest_hex(name: Seq<char>) -> bool {
    &&& name.len() == 40
    &&& forall|i: int| 0 <= i < name.len() ==> is_hex_char(#[trigger] name[i])
}

/// The directory that holds the object of this name.
pub open spec fn object_dir(name: Seq<char>) -> Seq<char> {
    ".git/objects/"@ + name.take(2) + "/"@
}

/// The file that holds the object of this name.
pub open spec fn object_file(name: Seq<char>) -> Seq<char> {
    object_dir(name) + name.skip(2)
}

/// The hex text of 20 bytes is the name of an object.
pub proof fn lemma_hex_text_is_digest_hex(digest: Seq<u8>)
    requires
        digest.len() == 20,
    ensures
        is_digest_hex(hex_text(digest)),
{
    let name = hex_text(digest);
    assert forall|i: int| 0 <= i < name.len() implies is_hex_char(#[trigger] name[i]) by {
        let byte = digest[i / 2] as int;
        let n = if i % 2 == 0 {
            byte / 16
        } else {
            byte % 16
        };
        assert(name[i] == hex_digit(n));
        assert(0 <= n < 16);
        assert(is_hex_char(hex_digit(n))) by {
            assert(n == 0 || n == 1 || n == 2 || n == 3 || n == 4 || n == 5 || n == 6 || n == 7
                || n == 8 || n == 9 || n == 10 || n == 11 || n == 12 || n == 13 || n == 14 || n
                == 15);
        }
    }
}

/// Where an object is kept.
#[derive(Debug)]
pub struct ObjectPath {
    /// The directory, to be created if it is not there.
    pub dir: String,
    /// The file in that directory.
    pub file: String,
}

/// Whether a text is the name of an object.
pub fn is_object_name(name: &str) -> (valid: bool)
    ensures
        valid == is_digest_hex(name@),
{
    if !name.is_ascii() {
        proof {
            if is_digest_hex(name@) {
                assert forall|i: int| 0 <= i < name@.len() implies '\0' <= #[trigger] name@[i]
                    <= '\u{7f}' by {
                    assert(is_hex_char(name@[i]));
                }
            }
        }
        return false;
    }
    proof {
        is_ascii_spec_bytes(name);
    }
    let bytes = name.as_bytes();
    if bytes.len() != 40 {
        return false;
    }
    let mut i: usize = 0;
    while i < 40
        invariant
            i <= 40,
            bytes@.len() == 40,
            name@.len() == 40,
            forall|j: int| 0 <= j < 40 ==> bytes@[j] == name@[j] as u8,
            forall|j: int| 0 <= j < 40 ==> '\0' <= #[trigger] name@[j] <= '\u{7f}',
            forall|j: int| 0 <= j < i ==> is_hex_char(#[trigger] name@[j]),
        decreases 40 - i,
    {
        let byte: u8 = bytes[i];
        let digit = 0x30 <= byte && byte <= 0x39;
        let letter = 0x61 <= byte && byte <= 0x66;
        assert('\0' <= name@[i as int] <= '\u{7f}');
        if !(digit || letter) {
            assert(!is_hex_char(name@[i as int]));
            return false;
        }
        assert(is_hex_char(name@[i as int]));
        i += 1;
    }
    true
}

/// The path of the object of a name that has at least two characters.
fn path_of(name: &str) -> (path: ObjectPath)
    requires
        name@.len() >= 2,
    ensures
        path.dir@ == object_dir(name@),
        path.file@ == object_file(name@),
{
    let count = name.unicode_len();
    let mut dir = String::from_str(".git/objects/");
    dir.append(name.substring_char(0, 2));
    dir.append("/");
    let mut file = dir.clone();
    file.append(name.substring_char(2, count));
    assert(name@.subrange(0, 2) =~= name@.take(2));
    assert(name@.subrange(2, count as int) =~= name@.skip(2));
    ObjectPath { dir, file }
}

/// Locates the object of a name: `InvalidArgument` unless the name is 40
/// lowercase hex digits.
pub fn locate(object: &str) -> (found: Result<ObjectPath, StoreError>)
    ensures
        match found {
            Ok(path) => is_digest_hex(object@) && path.dir@ == object_dir(object@) && path.file@
                == object_file(object@),
            Err(e) => !is_digest_hex(object@) && e == StoreError::InvalidArgument,
        },
{
    if is_object_name(object) {
        Ok(path_of(object))
    } else {
        Err(StoreError::InvalidArgument)
    }
}

/// An object made ready for the store.
#[derive(Debug)]
pub struct StoredObject {
    /// The name of the object.
    pub digest: [u8; 20],
    /// The name in hex.
    pub name: String,
    /// Where the object belongs.
    pub path: ObjectPath,
    /// The compressed framing, to be written there.
    pub bytes: Vec<u8>,
}

impl StoredObject {
    /// Whether this is `object` made ready: named by the digest of its
    /// framing, placed by that name, and holding its compressed framing.
    pub open spec fn stores(&self, object: ObjectView) -> bool {
        &&& is_written(object.kind, object.content, self.digest@, self.bytes@)
        &&& self.name@ == hex_text(self.digest@)
        &&& self.path.dir@ == object_dir(self.name@)
        &&& self.path.file@ == object_file(self.name@)
    }

    /// Places a compressed stream under the name `digest`.
    pub fn place(digest: [u8; 20], stream: Vec<u8>) -> (stored: StoredObject)
        ensures
            stored.digest == digest,
            stored.name@ == hex_text(digest@),
            stored.path.dir@ == object_dir(stored.name@),
            stored.path.file@ == object_file(stored.name@),
            stored.bytes == stream,
    {
        let name = digest_hex(&digest);
        let path = path_of(name.as_str());
        StoredObject { digest, name, path, bytes: stream }
    }
}

/// Makes an object ready for the store: serializes it and places the
/// stream under the object's name. `Io` where the compressor fails, and
/// only there.
pub fn store_object(kind: Kind, content: &[u8]) -> (stored: Result<StoredObject, StoreError>)
    ensures
        match stored {
            Ok(ready) => ready.stores(ObjectView { kind, content: content@ }),
            Err(e) => e == StoreError::Io && !storable(kind, content@),
        },
{
    match write_framed(kind, content) {
        Ok((digest, stream)) => Ok(StoredObject::place(digest, stream)),
        Err(e) => Err(e),
    }
}

impl Object {
    /// Makes the object ready for the store: serializes it as `write` does
    /// and places the stream under the object's name. `Io` where the
    /// compressor fails, and only there.
    pub fn write_to_objects(&self) -> (stored: Result<StoredObject, StoreError>)
        ensures
            match stored {
                Ok(ready) => ready.stores(self@),
                Err(e) => e == StoreError::Io && !storable(self.kind, self.content@),
            },
    {
        store_object(self.kind, self.content.as_slice())
    }
}

} // verus!
