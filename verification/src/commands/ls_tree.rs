//! Listing the entries of a tree.

use vstd::prelude::*;
use vstd::string::*;
use vstd::utf8::{decode_utf8, encode_utf8_decode_utf8, valid_utf8};
use crate::codec::{digest_hex, hex_text, utf8_text};
use crate::error::StoreError;
use crate::object::Kind;
use crate::tree::{TreeEntry, TreeEntryView};

verus! {

/// A run of `n` zeros.
pub open spec fn zeros(n: int) -> Seq<char>
    decreases n,
{
    if n <= 0 {
        Seq::<char>::empty()
    } else {
        zeros(n - 1) + "0"@
    }
}

/// The long line of an entry: the mode, filled with zeros on the left to
/// six characters, the kind of the object referred to, its name in hex,
/// four spaces, and the name of the entry.
pub open spec fn long_line(mode: Seq<char>, kind: Kind, digest: Seq<u8>, name: Seq<char>) -> Seq<
    char,
> {
    zeros(6 - mode.len()) + mode + " "@ + kind.tag_text() + " "@ + hex_text(digest) + "    "@
        + name
}

/// The line that the command prints for an entry.
///
/// With `name_only`, the name. Else the long line, for which the kind of
/// the object referred to is needed: `InvalidArgument` where it is not
/// given. `CorruptEntry` where what is to be printed is not UTF-8.
pub open spec fn line(name_only: bool, entry: TreeEntryView, kind: Option<Kind>) -> Result<
    Seq<char>,
    StoreError,
> {
    if name_only {
        if valid_utf8(entry.name) {
            Ok(decode_utf8(entry.name))
        } else {
            Err(StoreError::CorruptEntry)
        }
    } else {
        match kind {
            None => Err(StoreError::InvalidArgument),
            Some(kind) => if valid_utf8(entry.mode) && valid_utf8(entry.name) {
                Ok(long_line(decode_utf8(entry.mode), kind, entry.digest, decode_utf8(entry.name)))
            } else {
                Err(StoreError::CorruptEntry)
            },
        }
    }
}

/// The line to print for an entry of a tree. `kind` is the kind of the
/// object that the entry refers to; it is not looked at with `name_only`.
pub fn invoke(name_only: bool, entry: &TreeEntry, kind: Option<Kind>) -> (printed: Result<
    String,
    StoreError,
>)
    ensures
        match printed {
            Ok(text) => line(name_only, entry@, kind) == Ok::<Seq<char>, StoreError>(text@),
            Err(e) => line(name_only, entry@, kind) == Err::<Seq<char>, StoreError>(e),
        },
{
    if name_only {
        return match utf8_text(entry.name.as_slice()) {
            Some(name) => {
                proof {
                    encode_utf8_decode_utf8(name@);
                }
                Ok(String::from_str(name))
            },
            None => Err(StoreError::CorruptEntry),
        };
    }
    let kind = match kind {
        Some(kind) => kind,
        None => {
            return Err(StoreError::InvalidArgument);
        },
    };
    let mode = match utf8_text(entry.mode.as_slice()) {
        Some(mode) => mode,
        None => {
            return Err(StoreError::CorruptEntry);
        },
    };
    let name = match utf8_text(entry.name.as_slice()) {
        Some(name) => name,
        None => {
            return Err(StoreError::CorruptEntry);
        },
    };
    proof {
        encode_utf8_decode_utf8(mode@);
        encode_utf8_decode_utf8(name@);
    }
    let width = mode.unicode_len();
    let mut text = String::new();
    let mut filled: usize = width;
    assert(text@ =~= zeros(0));
    while filled < 6
        invariant
            width <= filled,
            filled <= 6 || filled == width,
            text@ == zeros(filled - width),
        decreases 6 - filled,
    {
        text.append("0");
        filled += 1;
    }
    assert(text@ == zeros(6 - mode@.len()));
    text.append(mode);
    text.append(" ");
    let tag = kind.to_string();
    text.append(tag.as_str());
    text.append(" ");
    let hex = digest_hex(&entry.digest);
    text.append(hex.as_str());
    text.append("    ");
    text.append(name);
    assert(text@ =~= long_line(mode@, kind, entry.digest@, name@));
    Ok(text)
}

} // verus!
