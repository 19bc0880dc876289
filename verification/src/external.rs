//! The calls into sha1, flate2, hex and the standard library that the
//! object formats rely on. Verus takes the contracts in this file on trust;
//! each doc comment says what is claimed of the outside function.

use sha1::{Digest, Sha1};
use std::io::{Read, Write};
use vstd::prelude::*;
use vstd::utf8::{decode_utf8, valid_utf8};

verus! {

/// The error type of `hex::decode` (hex crate), carried through opaquely.
#[verifier::external_type_specification]
#[verifier::external_body]
pub struct ExFromHexError(hex::FromHexError);

/// The SHA-1 digest of a byte string, as computed by the sha1 crate.
pub uninterp spec fn sha1_digest(data: Seq<u8>) -> Seq<u8>;

/// What a zlib encoder of the flate2 crate at the default level produces
/// from `data`, or `None` where it reports an error.
pub uninterp spec fn zlib_deflated(data: Seq<u8>) -> Option<Seq<u8>>;

/// What a zlib decoder of the flate2 crate produces when it reads one zlib
/// stream from the front of `stream`: the decoded bytes and the number of
/// input bytes it consumed, or `None` where it reports an error.
pub uninterp spec fn zlib_inflated(stream: Seq<u8>) -> Option<(Seq<u8>, int)>;

/// The text that `String::from_utf8_lossy` makes of a byte string.
pub uninterp spec fn utf8_lossy(bytes: Seq<u8>) -> Seq<char>;

/// The text of a byte string, invalid UTF-8 replaced as
/// `String::from_utf8_lossy` replaces it: valid UTF-8 is decoded.
pub open spec fn lossy_text(bytes: Seq<u8>) -> Seq<char> {
    if valid_utf8(bytes) {
        decode_utf8(bytes)
    } else {
        utf8_lossy(bytes)
    }
}

/// `Sha1::digest` (sha1 crate): the result is the digest of `data`, named by
/// `sha1_digest`, and is 20 bytes long (the output size of SHA-1).
#[verifier::external_body]
pub(crate) fn sha1(data: &[u8]) -> (digest: Vec<u8>)
    ensures
        digest@ == sha1_digest(data@),
        digest@.len() == 20,
{
    Sha1::digest(data).to_vec()
}

/// `flate2::write::ZlibEncoder` at `Compression::default()`, fed `data` with
/// `write_all` and closed with `finish`. The result is named by
/// `zlib_deflated`; where the encoder succeeds, a zlib decoder of the same
/// crate reads `data` back from its output (the crate's round trip). Whether
/// the encoder can fail on a `Vec` is left unsaid.
#[verifier::external_body]
pub(crate) fn zlib_compress(data: &[u8]) -> (compressed: Option<Vec<u8>>)
    ensures
        match compressed {
            Some(c) => zlib_deflated(data@) == Some(c@),
            None => zlib_deflated(data@) is None,
        },
        compressed matches Some(c) ==> (zlib_inflated(c@) matches Some((d, _)) && d == data@),
{
    let mut encoder = flate2::write::ZlibEncoder::new(Vec::new(), flate2::Compression::default());
    match encoder.write_all(data) {
        Ok(()) => {},
        Err(_) => return None,
    }
    match encoder.finish() {
        Ok(c) => Some(c),
        Err(_) => None,
    }
}

/// `flate2::read::ZlibDecoder` over `stream`, read with `read_to_end`, then
/// asked for `total_in`. The decoder reads a single zlib stream and stops at
/// its end; the result is named by `zlib_inflated`, and the number of bytes
/// consumed is at most the length of the input.
#[verifier::external_body]
pub(crate) fn zlib_decompress(stream: &[u8]) -> (decoded: Option<(Vec<u8>, u64)>)
    ensures
        match decoded {
            Some((d, n)) => zlib_inflated(stream@) == Some((d@, n as int)),
            None => zlib_inflated(stream@) is None,
        },
        decoded matches Some((_, n)) ==> n <= stream@.len(),
{
    let mut decoder = flate2::read::ZlibDecoder::new(stream);
    let mut out = Vec::new();
    match decoder.read_to_end(&mut out) {
        Ok(_) => Some((out, decoder.total_in())),
        Err(_) => None,
    }
}

/// The value of an ASCII hexadecimal digit, either case.
pub open spec fn hex_digit_value(c: u8) -> Option<u8> {
    if 48 <= c <= 57 {
        Some((c - 48) as u8)
    } else if 97 <= c <= 102 {
        Some((c - 87) as u8)
    } else if 65 <= c <= 70 {
        Some((c - 55) as u8)
    } else {
        None
    }
}

/// The bytes that a hexadecimal text stands for, two digits per byte, or
/// `None` where its length is odd or a character is not a hex digit.
pub open spec fn hex_decoded(text: Seq<u8>) -> Option<Seq<u8>>
    decreases text.len(),
{
    if text.len() == 0 {
        Some(Seq::empty())
    } else if text.len() == 1 {
        None
    } else {
        match (hex_digit_value(text[0]), hex_digit_value(text[1]), hex_decoded(text.skip(2))) {
            (Some(hi), Some(lo), Some(rest)) => Some(seq![(hi * 16 + lo) as u8] + rest),
            _ => None,
        }
    }
}

/// `hex::decode` (hex crate): succeeds exactly on texts of even length made
/// of hex digits of either case, and gives the bytes they stand for.
#[verifier::external_body]
pub(crate) fn hex_decode(text: &[u8]) -> (decoded: Result<Vec<u8>, hex::FromHexError>)
    ensures
        match decoded {
            Ok(v) => hex_decoded(text@) == Some(v@),
            Err(_) => hex_decoded(text@) is None,
        },
{
    hex::decode(text)
}

/// `String::from_utf8_lossy`, its characters collected: the result is named
/// by `utf8_lossy`, and on valid UTF-8 it is the decoded text. What it makes
/// of invalid UTF-8 (which sequences become U+FFFD) is left unsaid.
#[verifier::external_body]
pub(crate) fn lossy_chars(bytes: &[u8]) -> (text: Vec<char>)
    ensures
        text@ == utf8_lossy(bytes@),
        valid_utf8(bytes@) ==> text@ == decode_utf8(bytes@),
{
    String::from_utf8_lossy(bytes).chars().collect()
}

/// `std::str::from_utf8`: succeeds exactly on valid UTF-8.
#[verifier::external_body]
pub(crate) fn is_utf8(bytes: &[u8]) -> (valid: bool)
    ensures
        valid == valid_utf8(bytes@),
{
    std::str::from_utf8(bytes).is_ok()
}

/// `String`'s `FromIterator<char>`: the string holds the given characters.
#[verifier::external_body]
pub(crate) fn string_from_chars(chars: &[char]) -> (s: String)
    ensures
        s@ == chars@,
{
    chars.iter().collect()
}

} // verus!
