//! Commits: a tree, at most one parent, who made it and when, and a message.
//!
//! ```text
//! tree <hex digest>
//! parent <hex digest>          (only where there is a parent)
//! author <identity> <seconds> <zone>
//! committer <identity> <seconds> <zone>
//!
//! <message>
//! ```

use vstd::prelude::*;
use vstd::string::*;
use vstd::utf8::encode_utf8;
use crate::error::StoreError;
use crate::object::{storable, Kind, ObjectView};
use crate::store::{is_digest_hex, is_object_name, store_object, StoredObject};

verus! {

/// Who made a commit, and when: the identity, the time in seconds since the
/// Unix epoch, and the offset of the time zone, such as `+0000`.
#[derive(Debug)]
pub struct Signature {
    pub identity: String,
    pub seconds: u64,
    pub zone: String,
}

/// The text of one decimal digit.
pub open spec fn digit_text(d: nat) -> Seq<char> {
    if d == 0 {
        "0"@
    } else if d == 1 {
        "1"@
    } else if d == 2 {
        "2"@
    } else if d == 3 {
        "3"@
    } else if d == 4 {
        "4"@
    } else if d == 5 {
        "5"@
    } else if d == 6 {
        "6"@
    } else if d == 7 {
        "7"@
    } else if d == 8 {
        "8"@
    } else {
        "9"@
    }
}

/// The decimal text of a number.
pub open spec fn decimal_text(n: nat) -> Seq<char>
    decreases n,
{
    if n < 10 {
        digit_text(n)
    } else {
        decimal_text(n / 10) + digit_text(n % 10)
    }
}

/// `"<identity> <seconds> <zone>"`.
pub open spec fn signature_text(identity: Seq<char>, seconds: nat, zone: Seq<char>) -> Seq<char> {
    identity + " "@ + decimal_text(seconds) + " "@ + zone
}

/// The record of a commit.
pub open spec fn commit_text(
    parent: Option<Seq<char>>,
    message: Seq<char>,
    tree: Seq<char>,
    who: Seq<char>,
) -> Seq<char> {
    "tree "@ + tree + "\n"@ + (match parent {
        Some(parent) => "parent "@ + parent + "\n"@,
        None => Seq::<char>::empty(),
    }) + "author "@ + who + "\n"@ + "committer "@ + who + "\n"@ + "\n"@ + message + "\n"@
}

/// The commit object with the given record.
pub open spec fn commit_object(
    parent: Option<Seq<char>>,
    message: Seq<char>,
    tree: Seq<char>,
    who: Seq<char>,
) -> ObjectView {
    ObjectView { kind: Kind::Commit, content: encode_utf8(commit_text(parent, message, tree, who)) }
}

/// The text of a parent, where there is one.
pub open spec fn parent_text(parent: Option<String>) -> Option<Seq<char>> {
    match parent {
        Some(parent) => Some(parent@),
        None => None,
    }
}

/// The text of the baseline signature.
pub open spec fn baseline_text() -> Seq<char> {
    signature_text("Xiezk <you@example.com>"@, 1715157556, "+0000"@)
}

/// Why the commit cannot be made ready, if it cannot: `InvalidArgument`
/// unless tree and parent are names of objects, `Io` where its record cannot
/// be compressed.
pub open spec fn commit_failure(
    parent: Option<Seq<char>>,
    message: Seq<char>,
    tree: Seq<char>,
    who: Seq<char>,
) -> Option<StoreError> {
    if !valid_commit_names(parent, tree) {
        Some(StoreError::InvalidArgument)
    } else if !storable(Kind::Commit, commit_object(parent, message, tree, who).content) {
        Some(StoreError::Io)
    } else {
        None
    }
}

/// Whether tree and parent are names of objects.
pub open spec fn valid_commit_names(parent: Option<Seq<char>>, tree: Seq<char>) -> bool {
    &&& is_digest_hex(tree)
    &&& parent matches Some(parent) ==> is_digest_hex(parent)
}

impl Signature {
    /// The text of this signature in a commit.
    pub open spec fn text(&self) -> Seq<char> {
        signature_text(self.identity@, self.seconds as nat, self.zone@)
    }

    /// The signature that commits carry where none is given.
    pub fn baseline() -> (who: Signature)
        ensures
            who.identity@ == "Xiezk <you@example.com>"@,
            who.seconds == 1715157556,
            who.zone@ == "+0000"@,
    {
        Signature {
            identity: String::from_str("Xiezk <you@example.com>"),
            seconds: 1715157556,
            zone: String::from_str("+0000"),
        }
    }

    /// Appends the text of this signature to `out`.
    pub fn write_to(&self, out: &mut String)
        ensures
            final(out)@ == old(out)@ + self.text(),
    {
        out.append(self.identity.as_str());
        out.append(" ");
        write_decimal_text(out, self.seconds);
        out.append(" ");
        out.append(self.zone.as_str());
        assert(out@ =~= old(out)@ + self.text());
    }
}

/// Appends a number in decimal to `out`.
pub fn write_decimal_text(out: &mut String, n: u64)
    ensures
        final(out)@ == old(out)@ + decimal_text(n as nat),
    decreases n,
{
    if n >= 10 {
        write_decimal_text(out, n / 10);
    }
    let d: u64 = n % 10;
    let digit: &str = if d == 0 {
        "0"
    } else if d == 1 {
        "1"
    } else if d == 2 {
        "2"
    } else if d == 3 {
        "3"
    } else if d == 4 {
        "4"
    } else if d == 5 {
        "5"
    } else if d == 6 {
        "6"
    } else if d == 7 {
        "7"
    } else if d == 8 {
        "8"
    } else {
        "9"
    };
    out.append(digit);
    assert(out@ =~= old(out)@ + decimal_text(n as nat));
}

/// The record of a commit of `tree_hash`, with or without a parent.
pub fn commit_record(
    parent: &Option<String>,
    message: &str,
    tree_hash: &str,
    who: &Signature,
) -> (record: String)
    ensures
        record@ == commit_text(parent_text(*parent), message@, tree_hash@, who.text()),
{
    let mut record = String::from_str("tree ");
    record.append(tree_hash);
    record.append("\n");
    match parent {
        Some(parent) => {
            record.append("parent ");
            record.append(parent.as_str());
            record.append("\n");
        },
        None => {},
    }
    let ghost head = record@;
    record.append("author ");
    who.write_to(&mut record);
    record.append("\n");
    record.append("committer ");
    who.write_to(&mut record);
    record.append("\n");
    record.append("\n");
    record.append(message);
    record.append("\n");
    proof {
        assert(head =~= "tree "@ + tree_hash@ + "\n"@ + (match parent_text(*parent) {
            Some(parent) => "parent "@ + parent + "\n"@,
            None => Seq::<char>::empty(),
        }));
        assert(record@ =~= commit_text(parent_text(*parent), message@, tree_hash@, who.text()));
    }
    record
}

/// Makes the commit of a tree ready for the store, signed by `who`.
/// `InvalidArgument` unless `tree_hash`, and `parent` where there is one,
/// are names of objects; `Io` where the compressor fails, and only there.
pub fn commit_tree_signed(
    parent: Option<String>,
    message: String,
    tree_hash: String,
    who: &Signature,
) -> (stored: Result<StoredObject, StoreError>)
    ensures
        match stored {
            Ok(ready) => {
                &&& commit_failure(parent_text(parent), message@, tree_hash@, who.text()) is None
                &&& ready.stores(
                    commit_object(parent_text(parent), message@, tree_hash@, who.text()),
                )
            },
            Err(e) => commit_failure(parent_text(parent), message@, tree_hash@, who.text())
                == Some(e),
        },
{
    if !is_object_name(tree_hash.as_str()) {
        return Err(StoreError::InvalidArgument);
    }
    match &parent {
        Some(name) => {
            if !is_object_name(name.as_str()) {
                return Err(StoreError::InvalidArgument);
            }
        },
        None => {},
    }
    let record = commit_record(&parent, message.as_str(), tree_hash.as_str(), who);
    store_object(Kind::Commit, record.as_str().as_bytes())
}

/// Makes the commit of a tree ready for the store, with the baseline
/// signature. Errors as `commit_tree_signed`.
pub fn commit_tree_for(parent: Option<String>, message: String, tree_hash: String) -> (stored:
    Result<StoredObject, StoreError>)
    ensures
        match stored {
            Ok(ready) => {
                &&& commit_failure(parent_text(parent), message@, tree_hash@, baseline_text())
                    is None
                &&& ready.stores(
                    commit_object(parent_text(parent), message@, tree_hash@, baseline_text()),
                )
            },
            Err(e) => commit_failure(parent_text(parent), message@, tree_hash@, baseline_text())
                == Some(e),
        },
{
    let who = Signature::baseline();
    commit_tree_signed(parent, message, tree_hash, &who)
}

} // verus!
