//! The digest and compression layer.
//!
//! SHA-1, zlib and hex encoding are done by the `sha1`, `flate2` and `hex`
//! crates. The functions that call them are the only unproved code of the
//! library; each states what it takes for granted.

use vstd::prelude::*;
use vstd::string::StringSliceAdditionalSpecFns;
use crate::bytes::append;
use crate::error::StoreError;

verus! {

/// The SHA-1 digest of a byte string, as the `sha1` crate computes it.
pub uninterp spec fn sha1_digest(data: Seq<u8>) -> Seq<u8>;

/// The zlib stream that the `flate2` crate writes for `data` at its default
/// level, or `None` where it reports a failure.
pub uninterp spec fn zlib_deflated(data: Seq<u8>) -> Option<Seq<u8>>;

/// What the zlib stream `data` decompresses to, as the `flate2` crate reads
/// it, or `None` where it reports a failure.
pub uninterp spec fn zlib_inflated(data: Seq<u8>) -> Option<Seq<u8>>;

/// The lowercase hex digit for a value below 16.
pub open spec fn hex_digit(n: int) -> char {
    seq!['0', '1', '2', '3', '4', '5', '6', '7', '8', '9', 'a', 'b', 'c', 'd', 'e', 'f'][n]
}

/// The lowercase hex text of a byte string: two digits per byte, high
/// nibble first.
pub open spec fn hex_text(bytes: Seq<u8>) -> Seq<char> {
    Seq::new(
        2 * bytes.len(),
        |i: int|
            if i % 2 == 0 {
                hex_digit(bytes[i / 2] as int / 16)
            } else {
                hex_digit(bytes[i / 2] as int % 16)
            },
    )
}

/// Calls `sha1::Sha1::digest`. Trusted: the 20 bytes returned are the SHA-1
/// digest of `data`, a function of `data` alone.
#[verifier::external_body]
pub(crate) fn sha1(data: &[u8]) -> (digest: [u8; 20])
    ensures
        digest@ == sha1_digest(data@),
{
    <sha1::Sha1 as sha1::Digest>::digest(data).into()
}

/// Feeds `data` to a `flate2::write::ZlibEncoder` at the default level and
/// finishes it. Trusted: the outcome is a function of `data` alone, and
/// where the encoder reports success, the stream it wrote decompresses to
/// `data` again.
#[verifier::external_body]
pub(crate) fn deflate(data: &[u8]) -> (stream: Option<Vec<u8>>)
    ensures
        match stream {
            Some(bytes) => zlib_deflated(data@) == Some(bytes@) && zlib_inflated(bytes@) == Some(
                data@,
            ),
            None => zlib_deflated(data@) is None,
        },
{
    let mut encoder = flate2::write::ZlibEncoder::new(Vec::new(), flate2::Compression::default());
    match std::io::Write::write_all(&mut encoder, data) {
        Ok(()) => encoder.finish().ok(),
        Err(_) => None,
    }
}

/// Reads `data` to the end through a `flate2::read::ZlibDecoder`. Trusted:
/// the outcome is a function of `data` alone.
#[verifier::external_body]
pub(crate) fn inflate(data: &[u8]) -> (plain: Option<Vec<u8>>)
    ensures
        match plain {
            Some(bytes) => zlib_inflated(data@) == Some(bytes@),
            None => zlib_inflated(data@) is None,
        },
{
    let mut plain = Vec::new();
    match std::io::Read::read_to_end(&mut flate2::read::ZlibDecoder::new(data), &mut plain) {
        Ok(_) => Some(plain),
        Err(_) => None,
    }
}

/// Calls `hex::encode`. Trusted: the result is the lowercase hex text of
/// `bytes`, two digits per byte.
#[verifier::external_body]
pub(crate) fn hex_encode(bytes: &[u8]) -> (text: String)
    ensures
        text@ == hex_text(bytes@),
{
    hex::encode(bytes)
}

/// Calls `std::str::from_utf8`. Trusted: it accepts exactly the well-formed
/// UTF-8 byte strings and hands the same bytes back as text.
#[verifier::external_body]
pub(crate) fn utf8_text(bytes: &[u8]) -> (text: Option<&str>)
    ensures
        text.is_some() == vstd::utf8::valid_utf8(bytes@),
        text matches Some(s) ==> s.spec_bytes() == bytes@,
{
    std::str::from_utf8(bytes).ok()
}

/// Hex text of a digest, as used for object names.
pub fn digest_hex(digest: &[u8; 20]) -> (text: String)
    ensures
        text@ == hex_text(digest@),
        text@.len() == 40,
{
    hex_encode(digest.as_slice())
}

/// A sink that hashes and compresses what is written to it. Its view is
/// everything written so far.
pub struct HashWriter {
    written: Vec<u8>,
}

impl View for HashWriter {
    type V = Seq<u8>;

    closed spec fn view(&self) -> Seq<u8> {
        self.written@
    }
}

impl HashWriter {
    /// A sink to which nothing was written yet.
    pub fn new() -> (sink: HashWriter)
        ensures
            sink@ == Seq::<u8>::empty(),
    {
        HashWriter { written: Vec::new() }
    }

    /// Writes all of `buf`.
    pub fn write(&mut self, buf: &[u8])
        ensures
            final(self)@ == old(self)@ + buf@,
    {
        append(&mut self.written, buf);
    }

    /// The digest of everything written so far.
    pub fn digest(&self) -> (digest: [u8; 20])
        ensures
            digest@ == sha1_digest(self@),
    {
        sha1(self.written.as_slice())
    }

    /// Closes the sink: the digest of everything written, and the zlib
    /// stream of it, which decompresses to it again. Fails with `Io` where
    /// the compressor does.
    pub fn finish(self) -> (sealed: Result<([u8; 20], Vec<u8>), StoreError>)
        ensures
            match sealed {
                Ok((digest, stream)) => {
                    &&& digest@ == sha1_digest(self@)
                    &&& zlib_deflated(self@) == Some(stream@)
                    &&& zlib_inflated(stream@) == Some(self@)
                },
                Err(e) => e == StoreError::Io && zlib_deflated(self@) is None,
            },
    {
        let digest = sha1(self.written.as_slice());
        seal(digest, deflate(self.written.as_slice()))
    }
}

/// The outcome of closing a sink, from the digest of what was written and
/// what the compressor made of it: both where there is a stream, `Io`
/// where there is none.
pub fn seal(digest: [u8; 20], stream: Option<Vec<u8>>) -> (sealed: Result<
    ([u8; 20], Vec<u8>),
    StoreError,
>)
    ensures
        sealed == match stream {
            Some(bytes) => Ok::<([u8; 20], Vec<u8>), StoreError>((digest, bytes)),
            None => Err::<([u8; 20], Vec<u8>), StoreError>(StoreError::Io),
        },
{
    match stream {
        Some(bytes) => Ok((digest, bytes)),
        None => Err(StoreError::Io),
    }
}

} // verus!
