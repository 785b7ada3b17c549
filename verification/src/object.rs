//! Objects and their framing.
//!
//! An object is a kind and a byte string. Stored, it is the header
//! `"<kind> <size>\0"` followed by the content, the whole zlib-compressed;
//! its name is the SHA-1 digest of the uncompressed framing.

use vstd::prelude::*;
use vstd::utf8::valid_utf8;
use crate::bytes::{find, position};
use crate::codec::{inflate, sha1_digest, utf8_text, zlib_deflated, zlib_inflated, HashWriter};
use crate::error::StoreError;

verus! {

/// The three kinds of object.
#[derive(Clone, Copy, Debug, PartialEq, Eq, Structural)]
pub enum Kind {
    Blob,
    Tree,
    Commit,
}

impl Kind {
    /// The tag of this kind in a header, as text.
    pub open spec fn tag_text(self) -> Seq<char> {
        match self {
            Kind::Blob => seq!['b', 'l', 'o', 'b'],
            Kind::Tree => seq!['t', 'r', 'e', 'e'],
            Kind::Commit => seq!['c', 'o', 'm', 'm', 'i', 't'],
        }
    }

    /// The tag of this kind in a header, as bytes.
    pub open spec fn tag(self) -> Seq<u8> {
        match self {
            Kind::Blob => seq![0x62u8, 0x6c, 0x6f, 0x62],
            Kind::Tree => seq![0x74u8, 0x72, 0x65, 0x65],
            Kind::Commit => seq![0x63u8, 0x6f, 0x6d, 0x6d, 0x69, 0x74],
        }
    }

    /// The kind that a tag names, if any.
    pub open spec fn of_tag(tag: Seq<u8>) -> Option<Kind> {
        if tag =~= Kind::Blob.tag() {
            Some(Kind::Blob)
        } else if tag =~= Kind::Tree.tag() {
            Some(Kind::Tree)
        } else if tag =~= Kind::Commit.tag() {
            Some(Kind::Commit)
        } else {
            None
        }
    }

    /// The kind that a tag, given as text, names, if any.
    pub open spec fn of_text(text: Seq<char>) -> Option<Kind> {
        if text =~= Kind::Blob.tag_text() {
            Some(Kind::Blob)
        } else if text =~= Kind::Tree.tag_text() {
            Some(Kind::Tree)
        } else if text =~= Kind::Commit.tag_text() {
            Some(Kind::Commit)
        } else {
            None
        }
    }

    /// Reads a kind from its tag: `"blob"`, `"tree"` or `"commit"`. Any other
    /// text names no kind.
    pub fn new(kind: &str) -> (found: Option<Kind>)
        ensures
            found == Kind::of_text(kind@),
    {
        if !kind.is_ascii() {
            return None;
        }
        proof {
            vstd::string::is_ascii_spec_bytes(kind);
        }
        let bytes = kind.as_bytes();
        let found = Kind::from_tag(bytes);
        proof {
            let text = kind@;
            assert(bytes@.len() == text.len());
            assert forall|i: int| 0 <= i < text.len() implies bytes@[i] == text[i] as u8 by {}
            if text =~= Kind::Blob.tag_text() {
                assert(bytes@ =~= Kind::Blob.tag());
            }
            if text =~= Kind::Tree.tag_text() {
                assert(bytes@ =~= Kind::Tree.tag());
            }
            if text =~= Kind::Commit.tag_text() {
                assert(bytes@ =~= Kind::Commit.tag());
            }
            if bytes@ == Kind::Blob.tag() {
                assert(text =~= Kind::Blob.tag_text());
            }
            if bytes@ == Kind::Tree.tag() {
                assert(text =~= Kind::Tree.tag_text());
            }
            if bytes@ == Kind::Commit.tag() {
                assert(text =~= Kind::Commit.tag_text());
            }
        }
        found
    }

    /// Reads a kind from the tag bytes of a header.
    pub fn from_tag(tag: &[u8]) -> (found: Option<Kind>)
        ensures
            found == Kind::of_tag(tag@),
    {
        if tag.len() == 4 && tag[0] == 0x62 && tag[1] == 0x6c && tag[2] == 0x6f && tag[3] == 0x62 {
            assert(tag@ =~= Kind::Blob.tag());
            Some(Kind::Blob)
        } else if tag.len() == 4 && tag[0] == 0x74 && tag[1] == 0x72 && tag[2] == 0x65 && tag[3]
            == 0x65 {
            assert(tag@ =~= Kind::Tree.tag());
            Some(Kind::Tree)
        } else if tag.len() == 6 && tag[0] == 0x63 && tag[1] == 0x6f && tag[2] == 0x6d && tag[3]
            == 0x6d && tag[4] == 0x69 && tag[5] == 0x74 {
            assert(tag@ =~= Kind::Commit.tag());
            Some(Kind::Commit)
        } else {
            None
        }
    }

    /// The tag of this kind, as it stands in a header.
    pub fn to_string(&self) -> (text: String)
        ensures
            text@ == self.tag_text(),
    {
        proof {
            reveal_strlit("blob");
            reveal_strlit("tree");
            reveal_strlit("commit");
        }
        let text = match self {
            Kind::Blob => "blob".to_owned(),
            Kind::Tree => "tree".to_owned(),
            Kind::Commit => "commit".to_owned(),
        };
        assert(text@ =~= self.tag_text());
        text
    }
}

/// The ASCII digit for a value below ten.
pub open spec fn digit(d: nat) -> u8 {
    (0x30 + d) as u8
}

/// Whether a byte is an ASCII digit.
pub open spec fn is_digit(byte: u8) -> bool {
    0x30 <= byte <= 0x39
}

/// The decimal text of a number: no sign, no leading zeros.
pub open spec fn decimal(n: nat) -> Seq<u8>
    decreases n,
{
    if n < 10 {
        seq![digit(n)]
    } else {
        decimal(n / 10).push(digit(n % 10))
    }
}

/// Whether every byte is an ASCII digit.
pub open spec fn all_digits(text: Seq<u8>) -> bool {
    forall|i: int| 0 <= i < text.len() ==> is_digit(#[trigger] text[i])
}

/// The number that a string of digits denotes.
pub open spec fn decimal_value(digits: Seq<u8>) -> nat
    decreases digits.len(),
{
    if digits.len() == 0 {
        0
    } else {
        10 * decimal_value(digits.drop_last()) + (digits.last() - 0x30) as nat
    }
}

/// The size that the text of a header field denotes: one or more digits
/// after an optional `+`, with a value that fits in `usize`.
pub open spec fn parse_size(text: Seq<u8>) -> Option<nat> {
    let digits = if text.len() > 0 && text[0] == 0x2b {
        text.skip(1)
    } else {
        text
    };
    if digits.len() > 0 && all_digits(digits) && decimal_value(digits) <= usize::MAX {
        Some(decimal_value(digits))
    } else {
        None
    }
}

/// The header of an object: `"<kind> <size>\0"`.
pub open spec fn header(kind: Kind, size: nat) -> Seq<u8> {
    kind.tag() + seq![0x20u8] + decimal(size) + seq![0u8]
}

/// An object as it is hashed and, compressed, stored: header, then content.
pub open spec fn framed(kind: Kind, content: Seq<u8>) -> Seq<u8> {
    header(kind, content.len()) + content
}

/// The name of an object: the SHA-1 digest of its framing.
pub open spec fn object_digest(kind: Kind, content: Seq<u8>) -> Seq<u8> {
    sha1_digest(framed(kind, content))
}

/// Whether the framing of an object can be compressed.
pub open spec fn storable(kind: Kind, content: Seq<u8>) -> bool {
    zlib_deflated(framed(kind, content)) is Some
}

/// Whether `digest` and `stream` are what writing an object gives: the
/// digest of its framing, and the compressed framing, which decompresses to
/// the framing again.
pub open spec fn is_written(kind: Kind, content: Seq<u8>, digest: Seq<u8>, stream: Seq<u8>) -> bool {
    &&& digest == object_digest(kind, content)
    &&& zlib_deflated(framed(kind, content)) == Some(stream)
    &&& zlib_inflated(stream) == Some(framed(kind, content))
}

/// What a header line, taken without its closing NUL, says: the kind and
/// the declared size.
pub open spec fn parse_header(line: Seq<u8>) -> Result<(Kind, nat), StoreError> {
    let space = position(line, 0x20);
    if !valid_utf8(line) || space == line.len() {
        Err(StoreError::CorruptHeader)
    } else {
        match Kind::of_tag(line.take(space)) {
            None => Err(StoreError::UnknownKind),
            Some(kind) => match parse_size(line.skip(space + 1)) {
                None => Err(StoreError::CorruptHeader),
                Some(size) => Ok((kind, size)),
            },
        }
    }
}

/// The object that uncompressed bytes hold: a header up to the first NUL,
/// then as many bytes of content as the header declares. Bytes beyond them
/// are not read; too few of them is a failed read.
pub open spec fn parse_framed(raw: Seq<u8>) -> Result<ObjectView, StoreError> {
    let nul = position(raw, 0);
    if nul == raw.len() {
        Err(StoreError::CorruptHeader)
    } else {
        match parse_header(raw.take(nul)) {
            Err(e) => Err(e),
            Ok((kind, size)) => if raw.len() - (nul + 1) < size {
                Err(StoreError::Io)
            } else {
                Ok(ObjectView { kind, content: raw.subrange(nul + 1, nul + 1 + size) })
            },
        }
    }
}

/// The object that stored, compressed bytes hold.
pub open spec fn parse_stored(stored: Seq<u8>) -> Result<ObjectView, StoreError> {
    match zlib_inflated(stored) {
        None => Err(StoreError::Io),
        Some(raw) => parse_framed(raw),
    }
}

/// Of all digits, a prefix denotes no more than the whole.
pub proof fn lemma_value_of_prefix(digits: Seq<u8>, k: int)
    requires
        0 <= k <= digits.len(),
        all_digits(digits),
    ensures
        decimal_value(digits.take(k)) <= decimal_value(digits),
    decreases digits.len() - k,
{
    if k == digits.len() {
        assert(digits.take(k) =~= digits);
    } else {
        lemma_value_of_prefix(digits, k + 1);
        let longer = digits.take(k + 1);
        assert(longer.drop_last() =~= digits.take(k));
        assert(is_digit(digits[k]));
        assert(longer.last() == digits[k]);
    }
}

/// Writes a number in decimal.
pub fn write_decimal(out: &mut Vec<u8>, n: usize)
    ensures
        final(out)@ == old(out)@ + decimal(n as nat),
    decreases n,
{
    if n >= 10 {
        write_decimal(out, n / 10);
    }
    let d: usize = n % 10;
    out.push(0x30u8 + d as u8);
    proof {
        if n >= 10 {
            assert(out@ =~= old(out)@ + decimal((n / 10) as nat).push(digit((n % 10) as nat)));
        } else {
            assert(out@ =~= old(out)@ + seq![digit(n as nat)]);
        }
    }
}

/// Reads the size field of a header.
pub fn read_size(text: &[u8]) -> (size: Option<usize>)
    ensures
        match size {
            Some(n) => parse_size(text@) == Some(n as nat),
            None => parse_size(text@) is None,
        },
{
    let start: usize = if text.len() > 0 && text[0] == 0x2b {
        1
    } else {
        0
    };
    let ghost digits = text@.skip(start as int);
    assert(text@.skip(0) =~= text@);
    if start == text.len() {
        return None;
    }
    let mut value: usize = 0;
    let mut i: usize = start;
    assert(digits.take(0) =~= Seq::<u8>::empty());
    while i < text.len()
        invariant
            start <= i <= text.len(),
            start == if text@.len() > 0 && text@[0] == 0x2b { 1int } else { 0int },
            digits == text@.skip(start as int),
            all_digits(digits.take(i - start)),
            value == decimal_value(digits.take(i - start)),
        decreases text.len() - i,
    {
        let byte: u8 = text[i];
        let ghost longer = digits.take(i + 1 - start);
        assert(longer.drop_last() =~= digits.take(i - start));
        assert(longer.last() == byte);
        if byte < 0x30 || byte > 0x39 {
            assert(!is_digit(digits[i - start]));
            return None;
        }
        let d: usize = (byte - 0x30) as usize;
        let grown = match value.checked_mul(10) {
            Some(tens) => tens.checked_add(d),
            None => None,
        };
        match grown {
            Some(v) => {
                value = v;
            },
            None => {
                proof {
                    assert(decimal_value(longer) > usize::MAX);
                    assert(text@.skip(0) =~= text@);
                    if all_digits(digits) {
                        lemma_value_of_prefix(digits, i + 1 - start);
                    }
                }
                return None;
            },
        }
        assert forall|j: int| 0 <= j < longer.len() implies is_digit(#[trigger] longer[j]) by {
            if j < longer.len() - 1 {
                assert(longer[j] == digits.take(i - start)[j]);
            }
        }
        i += 1;
    }
    assert(digits.take(i - start) =~= digits);
    Some(value)
}

/// An object seen as a value: its kind and its content.
pub struct ObjectView {
    pub kind: Kind,
    pub content: Seq<u8>,
}

/// An object of the store. Its declared size is the length of its content.
#[derive(Debug)]
pub struct Object {
    pub kind: Kind,
    pub content: Vec<u8>,
}

impl View for Object {
    type V = ObjectView;

    open spec fn view(&self) -> ObjectView {
        ObjectView { kind: self.kind, content: self.content@ }
    }
}

/// Writes the header of an object of the given kind and size.
pub fn header_line(kind: Kind, size: usize) -> (line: Vec<u8>)
    ensures
        line@ == header(kind, size as nat),
{
    let mut line: Vec<u8> = Vec::new();
    match kind {
        Kind::Blob => {
            line.push(0x62);
            line.push(0x6c);
            line.push(0x6f);
            line.push(0x62);
        },
        Kind::Tree => {
            line.push(0x74);
            line.push(0x72);
            line.push(0x65);
            line.push(0x65);
        },
        Kind::Commit => {
            line.push(0x63);
            line.push(0x6f);
            line.push(0x6d);
            line.push(0x6d);
            line.push(0x69);
            line.push(0x74);
        },
    }
    assert(line@ =~= kind.tag());
    line.push(0x20);
    write_decimal(&mut line, size);
    line.push(0);
    assert(line@ =~= header(kind, size as nat));
    line
}

/// The name of the object of the given kind and content.
pub fn digest_of(kind: Kind, content: &[u8]) -> (digest: [u8; 20])
    ensures
        digest@ == object_digest(kind, content@),
{
    let mut sink = HashWriter::new();
    let line = header_line(kind, content.len());
    sink.write(line.as_slice());
    sink.write(content);
    sink.digest()
}

/// Writes header and content through the hashing and compressing sink: the
/// object's name, and the stream to store. `Io` where the compressor fails,
/// and only there.
pub fn write_framed(kind: Kind, content: &[u8]) -> (written: Result<
    ([u8; 20], Vec<u8>),
    StoreError,
>)
    ensures
        match written {
            Ok((digest, stream)) => is_written(kind, content@, digest@, stream@),
            Err(e) => e == StoreError::Io && !storable(kind, content@),
        },
{
    let mut sink = HashWriter::new();
    let line = header_line(kind, content.len());
    sink.write(line.as_slice());
    sink.write(content);
    sink.finish()
}

impl Object {
    /// The size that the header declares: the length of the content.
    pub fn size(&self) -> (size: usize)
        ensures
            size == self.content@.len(),
    {
        self.content.len()
    }

    /// The header that precedes the content: `"<kind> <size>\0"`.
    pub fn header(&self) -> (line: Vec<u8>)
        ensures
            line@ == header(self.kind, self.content@.len()),
    {
        header_line(self.kind, self.content.len())
    }

    /// Parses uncompressed bytes: the header up to the first NUL, then the
    /// content, cut to the size that the header declares.
    ///
    /// `CorruptHeader` where there is no NUL, the header is not UTF-8, has
    /// no space, or its size is no number; `UnknownKind` where its tag is
    /// none of the three; `Io` where fewer bytes follow than it declares.
    pub fn parse(raw: &[u8]) -> (parsed: Result<Object, StoreError>)
        ensures
            match parsed {
                Ok(object) => parse_framed(raw@) == Ok::<ObjectView, StoreError>(object@),
                Err(e) => parse_framed(raw@) == Err::<ObjectView, StoreError>(e),
            },
    {
        let nul = find(raw, 0);
        if nul == raw.len() {
            return Err(StoreError::CorruptHeader);
        }
        let line = vstd::slice::slice_subrange(raw, 0, nul);
        assert(line@ =~= raw@.take(nul as int));
        if utf8_text(line).is_none() {
            return Err(StoreError::CorruptHeader);
        }
        let space = find(line, 0x20);
        if space == line.len() {
            return Err(StoreError::CorruptHeader);
        }
        let tag = vstd::slice::slice_subrange(line, 0, space);
        assert(tag@ =~= line@.take(space as int));
        let kind = match Kind::from_tag(tag) {
            Some(kind) => kind,
            None => {
                return Err(StoreError::UnknownKind);
            },
        };
        let field = vstd::slice::slice_subrange(line, space + 1, line.len());
        assert(field@ =~= line@.skip(space + 1));
        let size = match read_size(field) {
            Some(size) => size,
            None => {
                return Err(StoreError::CorruptHeader);
            },
        };
        if raw.len() - (nul + 1) < size {
            return Err(StoreError::Io);
        }
        let content = vstd::slice::slice_to_vec(
            vstd::slice::slice_subrange(raw, nul + 1, nul + 1 + size),
        );
        Ok(Object { kind, content })
    }

    /// Reads an object from its stored form: decompresses, then parses as
    /// `parse` does. `Io` where the bytes are no zlib stream.
    pub fn read(stored: &[u8]) -> (found: Result<Object, StoreError>)
        ensures
            match found {
                Ok(object) => parse_stored(stored@) == Ok::<ObjectView, StoreError>(object@),
                Err(e) => parse_stored(stored@) == Err::<ObjectView, StoreError>(e),
            },
    {
        match inflate(stored) {
            Some(raw) => Object::parse(raw.as_slice()),
            None => Err(StoreError::Io),
        }
    }

    /// The name of the object: the SHA-1 digest of header and content.
    pub fn digest(&self) -> (digest: [u8; 20])
        ensures
            digest@ == object_digest(self.kind, self.content@),
    {
        digest_of(self.kind, self.content.as_slice())
    }

    /// Serializes the object through the hashing and compressing sink:
    /// its name, and the stream to store under that name. `Io` where the
    /// compressor fails, and only there.
    pub fn write(&self) -> (written: Result<([u8; 20], Vec<u8>), StoreError>)
        ensures
            match written {
                Ok((digest, stream)) => is_written(self.kind, self.content@, digest@, stream@),
                Err(e) => e == StoreError::Io && !storable(self.kind, self.content@),
            },
    {
        write_framed(self.kind, self.content.as_slice())
    }
}

} // verus!
