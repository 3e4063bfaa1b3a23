//! Declarations of the outside types that the library's errors carry, and
//! the few calls into other crates that the logic makes.

use vstd::prelude::*;
use sha1::Digest;
use std::io::{Read, Write};
use vstd::utf8::*;
use vstd::string::*;
use crate::encoding::{hex_bytes, is_hex_text, parses_as_usize, usize_value};

verus! {

/// `std::io::Error`, carried by the errors of disk and compression work.
#[verifier::external_type_specification]
#[verifier::external_body]
pub struct ExIoError(std::io::Error);

/// `std::str::Utf8Error`, carried where an object header is not UTF-8.
#[verifier::external_type_specification]
#[verifier::external_body]
pub struct ExUtf8Error(std::str::Utf8Error);

/// `std::num::ParseIntError`, carried where an object's size is not a number.
#[verifier::external_type_specification]
#[verifier::external_body]
pub struct ExParseIntError(std::num::ParseIntError);

/// `std::time::SystemTimeError`, carried where the clock is before the epoch.
#[verifier::external_type_specification]
#[verifier::external_body]
pub struct ExSystemTimeError(std::time::SystemTimeError);

/// `std::time::SystemTime`, an instant of the system clock.
#[verifier::external_type_specification]
#[verifier::external_body]
pub struct ExSystemTime(std::time::SystemTime);

/// `hex::FromHexError`, carried where a tree entry's hash is not hexadecimal.
#[verifier::external_type_specification]
#[verifier::external_body]
pub struct ExFromHexError(hex::FromHexError);

/// The SHA-1 digest of a byte sequence.
pub uninterp spec fn sha1(data: Seq<u8>) -> Seq<u8>;

/// Calls `sha1::Sha1` (`Digest::new`, `update`, `finalize`) on `data`.
/// Claimed: the 20-byte digest is `sha1(data)`.
#[verifier::external_body]
pub(crate) fn sha1_digest(data: &[u8]) -> (res: Vec<u8>)
    ensures
        res@ == sha1(data@),
        res@.len() == 20,
{
    let mut hasher = sha1::Sha1::new();
    hasher.update(data);
    hasher.finalize().to_vec()
}

/// Result of compressing a byte sequence into a zlib stream with flate2's
/// default compression level.
pub uninterp spec fn zlib_compress(data: Seq<u8>) -> Seq<u8>;

/// Result of decompressing a zlib stream with flate2: `None` where the bytes
/// are not a well-formed zlib stream.
pub uninterp spec fn zlib_decompress(stream: Seq<u8>) -> Option<Seq<u8>>;

/// Calls `flate2::write::ZlibEncoder` (level `Compression::default()`) over
/// a `Vec`, `write_all(data)`, then `finish()`.
/// Claimed: it succeeds, with `zlib_compress(data)`, and decompressing that
/// gives `data` back (zlib is lossless). The encoder's only error paths are
/// a failing inner writer, and writing into a `Vec` does not fail, and the
/// deflate stream reporting misuse (bad parameters, a failed output
/// callback), which a fresh encoder fed once and finished does not meet.
#[verifier::external_body]
pub(crate) fn zlib_encode(data: &[u8]) -> (res: Result<Vec<u8>, std::io::Error>)
    ensures
        res is Ok,
        res matches Ok(v) ==> v@ == zlib_compress(data@) && zlib_decompress(v@) == Some(data@),
{
    let mut encoder = flate2::write::ZlibEncoder::new(Vec::new(), flate2::Compression::default());
    encoder.write_all(data)?;
    encoder.finish()
}

/// Calls `flate2::read::ZlibDecoder` over `stream` and `read_to_end`.
/// Claimed: it succeeds exactly when `zlib_decompress(stream)` is `Some`, with
/// those bytes.
#[verifier::external_body]
pub(crate) fn zlib_decode(stream: &[u8]) -> (res: Result<Vec<u8>, std::io::Error>)
    ensures
        res is Ok <==> zlib_decompress(stream@) is Some,
        res matches Ok(v) ==> zlib_decompress(stream@) == Some(v@),
{
    let mut decoder = flate2::read::ZlibDecoder::new(stream);
    let mut out = Vec::new();
    decoder.read_to_end(&mut out)?;
    Ok(out)
}

/// Calls `hex::decode` on `text`.
/// Claimed (from the crate's source): it succeeds exactly when `text` has an
/// even number of bytes, all of them hexadecimal digits of either case, and
/// then returns the bytes they spell, two digits per byte.
#[verifier::external_body]
pub(crate) fn hex_decode(text: &[u8]) -> (res: Result<Vec<u8>, hex::FromHexError>)
    ensures
        res is Ok <==> is_hex_text(text@),
        res matches Ok(v) ==> v@ == hex_bytes(text@),
{
    hex::decode(text)
}

/// Calls `std::str::from_utf8`.
/// Claimed: it succeeds exactly when the bytes are valid UTF-8, and then the
/// string's characters are the decoded bytes.
#[verifier::external_body]
pub(crate) fn utf8_str(bytes: &[u8]) -> (res: Result<&str, std::str::Utf8Error>)
    ensures
        res is Ok <==> valid_utf8(bytes@),
        res matches Ok(s) ==> s@ == decode_utf8(bytes@),
{
    std::str::from_utf8(bytes)
}

/// Calls `str::parse::<usize>`.
/// Claimed (from its documentation): it accepts an optional `+` followed by
/// one or more ASCII digits whose value fits in a `usize`, and returns that
/// value; anything else is an error.
#[verifier::external_body]
pub(crate) fn parse_usize(text: &str) -> (res: Result<usize, std::num::ParseIntError>)
    ensures
        res is Ok <==> parses_as_usize(text.spec_bytes()),
        res matches Ok(n) ==> n as nat == usize_value(text.spec_bytes()),
{
    text.parse::<usize>()
}

/// Calls `SystemTime::now()`. The value is the clock's: nothing is claimed
/// of it.
#[verifier::external_body]
pub(crate) fn system_now() -> (res: std::time::SystemTime) {
    std::time::SystemTime::now()
}

/// Calls `SystemTime::duration_since(UNIX_EPOCH)` on `t` and takes the whole
/// seconds of the duration. What `t` holds is opaque here, so nothing is
/// claimed of the result; it is an error where `t` is before the epoch.
#[verifier::external_body]
pub(crate) fn seconds_since_epoch(t: &std::time::SystemTime) -> (res: Result<u64, std::time::SystemTimeError>) {
    Ok(t.duration_since(std::time::UNIX_EPOCH)?.as_secs())
}

} // verus!
