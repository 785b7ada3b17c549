//! What holds of the framing of objects: what was written reads back, equal
//! objects have equal names, and a damaged header is reported as such.

use vstd::prelude::*;
use vstd::utf8::{encode_utf8, encode_utf8_valid_utf8, is_ascii_chars, is_ascii_chars_encode_utf8, valid_utf8};
use crate::bytes::{lemma_position, lemma_position_is, position};
use crate::codec::zlib_inflated;
use crate::error::StoreError;
use crate::object::{
    all_digits, decimal, decimal_value, digit, framed, header, is_digit, is_written, parse_framed,
    parse_header, parse_size, parse_stored, Kind, ObjectView,
};

verus! {

/// A byte string of ASCII only is well-formed UTF-8.
pub proof fn lemma_ascii_is_utf8(bytes: Seq<u8>)
    requires
        forall|i: int| 0 <= i < bytes.len() ==> bytes[i] < 0x80,
    ensures
        valid_utf8(bytes),
{
    let chars = Seq::new(bytes.len(), |i: int| bytes[i] as char);
    assert(is_ascii_chars(chars));
    is_ascii_chars_encode_utf8(chars);
    assert(encode_utf8(chars) =~= bytes);
    encode_utf8_valid_utf8(chars);
}

/// The decimal text of a number is one or more digits that denote it.
pub proof fn lemma_decimal(n: nat)
    ensures
        decimal(n).len() >= 1,
        all_digits(decimal(n)),
        decimal_value(decimal(n)) == n,
    decreases n,
{
    if n < 10 {
        let text = decimal(n);
        assert(text.drop_last() =~= Seq::<u8>::empty());
        assert(decimal_value(text.drop_last()) == 0);
    } else {
        lemma_decimal(n / 10);
        let text = decimal(n);
        assert(text.drop_last() =~= decimal(n / 10));
        assert(text.last() == digit(n % 10));
        assert forall|i: int| 0 <= i < text.len() implies is_digit(#[trigger] text[i]) by {
            if i < text.len() - 1 {
                assert(text[i] == decimal(n / 10)[i]);
            }
        }
    }
}

/// The size field that was written for a size reads back as that size.
pub proof fn lemma_size_round_trip(n: nat)
    requires
        n <= usize::MAX,
    ensures
        parse_size(decimal(n)) == Some(n),
{
    lemma_decimal(n);
    assert(is_digit(decimal(n)[0]));
}

/// The header that was written for a kind and a size reads back as both.
pub proof fn lemma_header_round_trip(kind: Kind, size: nat)
    requires
        size <= usize::MAX,
    ensures
        parse_header(kind.tag() + seq![0x20u8] + decimal(size)) == Ok::<(Kind, nat), StoreError>(
            (kind, size),
        ),
        position(header(kind, size), 0) == header(kind, size).len() - 1,
{
    let tag = kind.tag();
    let line = tag + seq![0x20u8] + decimal(size);
    lemma_decimal(size);
    lemma_size_round_trip(size);
    assert forall|i: int| 0 <= i < line.len() implies line[i] < 0x80 && line[i] != 0 by {
        if i > tag.len() {
            assert(is_digit(decimal(size)[i - tag.len() - 1]));
        }
    }
    lemma_ascii_is_utf8(line);
    assert forall|j: int| 0 <= j < tag.len() implies line[j] != 0x20 by {}
    lemma_position_is(line, 0x20, tag.len() as int);
    assert(line.take(tag.len() as int) =~= tag);
    assert(line.skip(tag.len() as int + 1) =~= decimal(size));
    let whole = header(kind, size);
    assert(whole =~= line + seq![0u8]);
    assert forall|j: int| 0 <= j < whole.len() - 1 implies whole[j] != 0 by {
        assert(whole[j] == line[j]);
    }
    lemma_position_is(whole, 0, whole.len() - 1);
}

/// Round trip: the framing of an object parses back to that object, whatever
/// follows it.
pub proof fn lemma_parse_framed(kind: Kind, content: Seq<u8>, beyond: Seq<u8>)
    requires
        content.len() <= usize::MAX,
    ensures
        parse_framed(framed(kind, content) + beyond) == Ok::<ObjectView, StoreError>(
            ObjectView { kind, content },
        ),
{
    let size = content.len();
    let head = header(kind, size);
    let line = kind.tag() + seq![0x20u8] + decimal(size);
    let raw = framed(kind, content) + beyond;
    lemma_header_round_trip(kind, size);
    lemma_position(head, 0);
    assert(head =~= line + seq![0u8]);
    let nul = head.len() - 1;
    assert forall|j: int| 0 <= j < nul implies raw[j] != 0 by {
        assert(raw[j] == head[j]);
    }
    assert(raw[nul] == head[nul]);
    lemma_position_is(raw, 0, nul);
    assert(raw.take(nul) =~= line);
    assert(raw.subrange(nul + 1, nul + 1 + size) =~= content);
}

/// Round trip through the store: bytes that decompress to the framing of an
/// object are read as that object, with its kind, size and content.
pub proof fn lemma_read_after_write(kind: Kind, content: Seq<u8>, stored: Seq<u8>)
    requires
        content.len() <= usize::MAX,
        zlib_inflated(stored) == Some(framed(kind, content)),
    ensures
        parse_stored(stored) == Ok::<ObjectView, StoreError>(ObjectView { kind, content }),
{
    lemma_parse_framed(kind, content, Seq::<u8>::empty());
    assert(framed(kind, content) + Seq::<u8>::empty() =~= framed(kind, content));
}

/// Content addressing: the name of an object is the digest of
/// `"<kind> <size>\0<content>"`, so two writes of one kind and content give
/// one name, and what either stored reads back as that object.
pub proof fn lemma_content_addressing(
    kind: Kind,
    content: Seq<u8>,
    first: (Seq<u8>, Seq<u8>),
    second: (Seq<u8>, Seq<u8>),
)
    requires
        content.len() <= usize::MAX,
        is_written(kind, content, first.0, first.1),
        is_written(kind, content, second.0, second.1),
    ensures
        first == second,
        first.0 == crate::codec::sha1_digest(
            kind.tag() + seq![0x20u8] + decimal(content.len()) + seq![0u8] + content,
        ),
        parse_stored(first.1) == Ok::<ObjectView, StoreError>(ObjectView { kind, content }),
{
    lemma_read_after_write(kind, content, first.1);
}

/// A damaged header is told apart: without a space it is `CorruptHeader`,
/// with a tag that names no kind `UnknownKind`, with a size that is no
/// number `CorruptHeader`; and what parses holds a header that says what
/// was parsed.
pub proof fn lemma_corrupt_header_is_detected(raw: Seq<u8>)
    ensures
        ({
            let nul = position(raw, 0);
            let line = raw.take(nul);
            let space = position(line, 0x20);
            let tag = line.take(space);
            let field = line.skip(space + 1);
            &&& nul == raw.len() ==> parse_framed(raw) == Err::<ObjectView, StoreError>(
                StoreError::CorruptHeader,
            )
            &&& nul < raw.len() && space == line.len() ==> parse_framed(raw) == Err::<
                ObjectView,
                StoreError,
            >(StoreError::CorruptHeader)
            &&& nul < raw.len() && !valid_utf8(line) ==> parse_framed(raw) == Err::<
                ObjectView,
                StoreError,
            >(StoreError::CorruptHeader)
            &&& nul < raw.len() && valid_utf8(line) && space < line.len() && Kind::of_tag(tag)
                is None ==> parse_framed(raw) == Err::<ObjectView, StoreError>(
                StoreError::UnknownKind,
            )
            &&& nul < raw.len() && valid_utf8(line) && space < line.len() && Kind::of_tag(tag)
                is Some && parse_size(field) is None ==> parse_framed(raw) == Err::<
                ObjectView,
                StoreError,
            >(StoreError::CorruptHeader)
            &&& parse_framed(raw) matches Ok(object) ==> {
                &&& Kind::of_tag(tag) == Some(object.kind)
                &&& parse_size(field) == Some(object.content.len())
                &&& line == tag + seq![0x20u8] + field
                &&& raw.take(nul + 1 + object.content.len()) == line + seq![0u8] + object.content
            }
        }),
{
    let nul = position(raw, 0);
    let line = raw.take(nul);
    let space = position(line, 0x20);
    lemma_position(raw, 0);
    lemma_position(line, 0x20);
    if parse_framed(raw) is Ok {
        let object = parse_framed(raw)->Ok_0;
        let tag = line.take(space);
        let field = line.skip(space + 1);
        assert(line =~= tag + seq![0x20u8] + field);
        assert(raw.take(nul + 1 + object.content.len()) =~= line + seq![0u8] + object.content);
    }
}

} // verus!
