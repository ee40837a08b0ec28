//! Codecs: zlib (DEFLATE) through flate2, and an identity codec.

use crate::{Compressor, Expander, StreamlinerError};
use std::io::{Read, Write};
use vstd::prelude::*;
use vstd::utf8::*;

verus! {

/// Whether the two header bytes of a zlib stream name DEFLATE and pass the
/// check modulo 31 (a stream shorter than two bytes has no header).
pub open spec fn zlib_header_ok(stream: Seq<u8>) -> bool {
    stream.len() >= 2 && stream[0] % 16 == 8 && (stream[0] * 256 + stream[1]) % 31 == 0
}

/// The cause given when expanded bytes are not valid UTF-8.
pub open spec fn utf8_cause() -> Seq<char> {
    "UTF-8 conversion failed: invalid byte sequence"@
}

/// The zlib stream that flate2 writes for `data` at the default level.
pub uninterp spec fn zlib_compressed(data: Seq<u8>) -> Seq<u8>;

/// The bytes that flate2's zlib decoder reads out of `stream`, or `None`
/// where it reports the stream as corrupt or incomplete.
pub uninterp spec fn zlib_inflated(stream: Seq<u8>) -> Option<Seq<u8>>;

/// Relies on flate2's `write::ZlibEncoder` (`new` at `Compression::default()`,
/// `write_all`, `finish`): the zlib stream of `data`. It writes into a `Vec`,
/// which never fails, so the encoder does not fail either.
#[verifier::external_body]
fn zlib_deflate(data: &[u8]) -> (r: Result<Vec<u8>, String>)
    ensures
        r is Ok,
        r->Ok_0@ == zlib_compressed(data@),
{
    let mut encoder = flate2::write::ZlibEncoder::new(Vec::new(), flate2::Compression::default());
    match encoder.write_all(data) {
        Ok(()) => {},
        Err(e) => return Err(e.to_string()),
    }
    match encoder.finish() {
        Ok(stream) => Ok(stream),
        Err(e) => Err(e.to_string()),
    }
}

/// Relies on flate2's `read::ZlibDecoder` (`new`, read to the end): the
/// decoded bytes of a zlib stream, which for a stream that the encoder wrote
/// are the bytes that were encoded. A stream shorter than its two header
/// bytes, one whose header names another method than DEFLATE or fails the
/// check modulo 31, and a stream cut short before its end are reported as
/// incomplete or corrupt; the error is passed on as its (non-empty) message.
#[verifier::external_body]
fn zlib_inflate(stream: &[u8]) -> (r: Result<Vec<u8>, String>)
    ensures
        r is Ok <==> zlib_inflated(stream@) is Some,
        r is Ok ==> r->Ok_0@ == zlib_inflated(stream@)->0,
        r is Err ==> r->Err_0@.len() > 0,
        forall|data: Seq<u8>|
            stream@ == zlib_compressed(data) ==> (r is Ok && r->Ok_0@ == data),
        !zlib_header_ok(stream@) ==> r is Err,
        forall|data: Seq<u8>, k: int|
            0 <= k < zlib_compressed(data).len() && stream@ == zlib_compressed(data).subrange(0, k)
                ==> r is Err,
{
    let mut decoder = flate2::read::ZlibDecoder::new(stream);
    let mut out: Vec<u8> = Vec::new();
    match decoder.read_to_end(&mut out) {
        Ok(_) => Ok(out),
        Err(e) => Err(e.to_string()),
    }
}

/// Relies on `String::from_utf8`: succeeds exactly on valid UTF-8, and then
/// holds the decoded characters.
#[verifier::external_body]
pub(crate) fn utf8_to_string(bytes: Vec<u8>) -> (r: Option<String>)
    ensures
        r is Some <==> valid_utf8(bytes@),
        r is Some ==> r->0@ == decode_utf8(bytes@),
{
    String::from_utf8(bytes).ok()
}

/// The text whose UTF-8 bytes are `bytes`, if they are valid UTF-8.
pub open spec fn utf8_text(bytes: Seq<u8>) -> Option<Seq<char>> {
    if valid_utf8(bytes) {
        Some(decode_utf8(bytes))
    } else {
        None
    }
}

/// The text that a zlib stream expands to: the decoded bytes read as UTF-8.
pub open spec fn zlib_text(stream: Seq<u8>) -> Option<Seq<char>> {
    match zlib_inflated(stream) {
        Some(bytes) => utf8_text(bytes),
        None => None,
    }
}

/// Decodes UTF-8 bytes, failing with an expansion error that names the cause.
fn bytes_to_text(bytes: Vec<u8>) -> (r: Result<String, StreamlinerError>)
    ensures
        r is Ok <==> utf8_text(bytes@) is Some,
        r is Ok ==> r->Ok_0@ == utf8_text(bytes@)->0,
        r is Err ==> r->Err_0 is ExpansionError,
        r is Err ==> r->Err_0->ExpansionError_0@ == utf8_cause(),
        utf8_cause().len() > 0,
{
    proof {
        reveal_strlit("UTF-8 conversion failed: invalid byte sequence");
    }
    match utf8_to_string(bytes) {
        Some(text) => Ok(text),
        None => Err(StreamlinerError::ExpansionError(String::from_str("UTF-8 conversion failed: invalid byte sequence"))),
    }
}

/// An owned copy of `b[start..end]`.
pub(crate) fn copy_range(b: &[u8], start: usize, end: usize) -> (r: Vec<u8>)
    requires
        start <= end <= b@.len(),
    ensures
        r@ == b@.subrange(start as int, end as int),
{
    let mut out: Vec<u8> = Vec::new();
    let mut i = start;
    while i < end
        invariant
            start <= i <= end,
            end <= b@.len(),
            out@ == b@.subrange(start as int, i as int),
        decreases end - i,
    {
        out.push(b[i]);
        i = i + 1;
        assert(out@ =~= b@.subrange(start as int, i as int));
    }
    out
}

/// Zlib (DEFLATE) compression at the default level.
pub struct ZlibCompressor;

/// Zlib (DEFLATE) expansion.
pub struct ZlibExpander;

impl Compressor for ZlibCompressor {
    open spec fn compressed_of(&self, text: Seq<char>) -> Seq<u8> {
        zlib_compressed(encode_utf8(text))
    }

    open spec fn infallible(&self) -> bool {
        true
    }

    fn compress(&self, context: &str) -> (r: Result<Vec<u8>, StreamlinerError>)
        ensures
            r is Ok,
    {
        match zlib_deflate(context.as_bytes()) {
            Ok(stream) => Ok(stream),
            Err(cause) => Err(StreamlinerError::CompressionError(cause)),
        }
    }
}

impl Expander for ZlibExpander {
    open spec fn expanded_of(&self, data: Seq<u8>) -> Option<Seq<char>> {
        zlib_text(data)
    }

    open spec fn produced_from(&self, data: Seq<u8>, text: Seq<char>) -> bool {
        data == zlib_compressed(encode_utf8(text))
    }

    fn expand(&self, compressed: &[u8]) -> (r: Result<String, StreamlinerError>)
        ensures
            !zlib_header_ok(compressed@) ==> r is Err,
            forall|data: Seq<u8>, k: int|
                0 <= k < zlib_compressed(data).len() && compressed@ == zlib_compressed(
                    data,
                ).subrange(0, k) ==> r is Err,
            zlib_inflated(compressed@) is Some && !valid_utf8(zlib_inflated(compressed@)->0) ==> (
            r is Err && r->Err_0->ExpansionError_0@ == utf8_cause()),
    {
        proof {
            broadcast use vstd::utf8::group_utf8_lib;
        }
        match zlib_inflate(compressed) {
            Ok(bytes) => bytes_to_text(bytes),
            Err(cause) => Err(StreamlinerError::ExpansionError(cause)),
        }
    }
}

/// Identity compression: the text's UTF-8 bytes, unchanged.
pub struct IdentityCompressor;

/// Identity expansion: the bytes read as UTF-8 text.
pub struct IdentityExpander;

impl Compressor for IdentityCompressor {
    open spec fn compressed_of(&self, text: Seq<char>) -> Seq<u8> {
        encode_utf8(text)
    }

    open spec fn infallible(&self) -> bool {
        true
    }

    fn compress(&self, context: &str) -> (r: Result<Vec<u8>, StreamlinerError>)
        ensures
            r is Ok,
    {
        let bytes = context.as_bytes();
        let out = copy_range(bytes, 0, bytes.len());
        assert(out@ =~= bytes@);
        Ok(out)
    }
}

impl Expander for IdentityExpander {
    open spec fn expanded_of(&self, data: Seq<u8>) -> Option<Seq<char>> {
        utf8_text(data)
    }

    open spec fn produced_from(&self, data: Seq<u8>, text: Seq<char>) -> bool {
        data == encode_utf8(text)
    }

    fn expand(&self, compressed: &[u8]) -> (r: Result<String, StreamlinerError>)
        ensures
            !valid_utf8(compressed@) ==> (r is Err && r->Err_0->ExpansionError_0@ == utf8_cause()),
    {
        proof {
            broadcast use vstd::utf8::group_utf8_lib;
        }
        let bytes = copy_range(compressed, 0, compressed.len());
        assert(bytes@ =~= compressed@);
        bytes_to_text(bytes)
    }
}

/// The zlib pair is matched: what the zlib compressor makes of a text is
/// recognised by the zlib expander as made from that text, so expanding it
/// gives the text back.
pub proof fn zlib_codecs_match(text: Seq<char>)
    ensures
        ZlibExpander.produced_from(ZlibCompressor.compressed_of(text), text),
{
}

/// The identity pair is matched in the same way, and expands its own output
/// to the text it came from.
pub proof fn identity_codecs_match(text: Seq<char>)
    ensures
        IdentityExpander.produced_from(IdentityCompressor.compressed_of(text), text),
        IdentityExpander.expanded_of(IdentityCompressor.compressed_of(text)) == Some(text),
{
    broadcast use vstd::utf8::group_utf8_lib;

}

} // verus!
