//! Calls into std and outside crates whose behaviour Verus takes on trust.
use flate2::read::ZlibDecoder;
use flate2::write::ZlibEncoder;
use flate2::Compression;
use sha1::Digest;
use std::io::Read;
use std::io::Write;
use vstd::prelude::*;
use vstd::string::*;
use vstd::utf8::*;

verus! {

/// `String::from_utf8_lossy` followed by `into_owned`.
///
/// Trusted claim: when the bytes are valid UTF-8 the string holds exactly the
/// characters they encode (as the std documentation says). What is returned
/// for invalid input (replacement characters) is left unsaid.
#[verifier::external_body]
pub(crate) fn utf8_lossy_string(bytes: &[u8]) -> (res: String)
    ensures
        valid_utf8(bytes@) ==> res@ == decode_utf8(bytes@),
{
    String::from_utf8_lossy(bytes).into_owned()
}


#[verifier::external_type_specification]
#[verifier::external_body]
pub struct ExParseIntError(std::num::ParseIntError);

/// Value of an ASCII hexadecimal digit of either case.
pub open spec fn hex_digit_value(c: u8) -> Option<u8> {
    if 48 <= c <= 57 {
        Some((c - 48) as u8)
    } else if 97 <= c <= 102 {
        Some((c - 87) as u8)
    } else if 65 <= c <= 70 {
        Some((c - 55) as u8)
    } else {
        None
    }
}

/// What `u8::from_str_radix(_, 16)` accepts in a two-byte string: an
/// optional `+` followed by hexadecimal digits (two digits never overflow).
pub open spec fn radix16_pair(b0: u8, b1: u8) -> Option<u8> {
    if b0 == 43 {
        hex_digit_value(b1)
    } else {
        match (hex_digit_value(b0), hex_digit_value(b1)) {
            (Some(h), Some(l)) => Some((16 * h + l) as u8),
            _ => None,
        }
    }
}

/// `u8::from_str_radix(s, radix)` at radix 16 on a string of two bytes.
///
/// Trusted claim, from the std documentation ("an optional `+` sign followed
/// by only digits", digits `0-9`, `a-f`, `A-F` for radix 16): the call succeeds
/// exactly on such strings and returns their value. The error value is opaque.
#[verifier::external_body]
pub(crate) fn u8_from_str_radix(s: &str, radix: u32) -> (res: Result<u8, std::num::ParseIntError>)
    requires
        radix == 16,
        s.spec_bytes().len() == 2,
    ensures
        res is Ok <==> radix16_pair(s.spec_bytes()[0], s.spec_bytes()[1]) is Some,
        res matches Ok(v) ==> Some(v) == radix16_pair(s.spec_bytes()[0], s.spec_bytes()[1]),
{
    u8::from_str_radix(s, radix)
}


/// The SHA-1 digest of a byte string (FIPS 180-4), as the `sha1` crate
/// computes it.
pub uninterp spec fn sha1_of(data: Seq<u8>) -> Seq<u8>;

/// `sha1::Sha1::digest`.
///
/// Trusted claim: the 20 bytes returned are the SHA-1 digest of `data`, a
/// value that depends on `data` alone.
#[verifier::external_body]
pub(crate) fn sha1_digest(data: &[u8]) -> (res: [u8; 20])
    ensures
        res@ == sha1_of(data@),
{
    sha1::Sha1::digest(data).into()
}

/// `String::from_utf8`.
///
/// Trusted claim, from the std documentation: the call succeeds exactly when
/// the bytes are valid UTF-8, and the string then holds the characters they
/// encode. The error value is dropped.
#[verifier::external_body]
pub(crate) fn string_from_utf8(bytes: Vec<u8>) -> (res: Option<String>)
    ensures
        res is Some <==> valid_utf8(bytes@),
        res matches Some(s) ==> s@ == decode_utf8(bytes@),
{
    String::from_utf8(bytes).ok()
}


#[verifier::external_type_specification]
#[verifier::external_body]
pub struct ExIoError(std::io::Error);

/// The zlib stream (RFC 1950) that `flate2` produces for `data` at the given
/// compression level.
pub uninterp spec fn zlib_compressed(data: Seq<u8>, level: u32) -> Seq<u8>;

/// The bytes that `flate2` decompresses from a zlib stream, when it is one.
pub uninterp spec fn zlib_decompressed(data: Seq<u8>) -> Option<Seq<u8>>;

/// `flate2::write::ZlibEncoder` over a `Vec<u8>`: `new`, `write_all`, `finish`.
///
/// Trusted claim: the call succeeds, and the bytes are the zlib stream that
/// compresses `data` at `level`, which depends on the two alone. (The
/// encoder's source reports only the errors of the writer under it, here a
/// vector, which never fails, and stream errors that deflating does not
/// produce.)
#[verifier::external_body]
pub(crate) fn zlib_compress(data: &[u8], level: u32) -> (res: Result<Vec<u8>, std::io::Error>)
    requires
        level <= 9,
    ensures
        res is Ok,
        res matches Ok(v) ==> v@ == zlib_compressed(data@, level),
{
    let mut encoder = ZlibEncoder::new(Vec::new(), Compression::new(level));
    encoder.write_all(data)?;
    encoder.finish()
}

/// `flate2::read::ZlibDecoder` over a byte slice, read to its end.
///
/// Trusted claim: decoding succeeds exactly when `zlib_decompressed` names a
/// result, and gives it; and a stream that the encoder produced decodes to
/// the bytes it was made from (zlib is lossless).
#[verifier::external_body]
pub(crate) fn zlib_decompress(data: &[u8]) -> (res: Result<Vec<u8>, std::io::Error>)
    ensures
        res is Ok <==> zlib_decompressed(data@) is Some,
        res matches Ok(v) ==> Some(v@) == zlib_decompressed(data@),
        res is Ok <== exists|d: Seq<u8>, level: u32|
            level <= 9 && data@ == zlib_compressed(d, level),
        res matches Ok(v) ==> forall|d: Seq<u8>, level: u32|
            level <= 9 && data@ == zlib_compressed(d, level) ==> v@ == d,
{
    let mut out = Vec::new();
    ZlibDecoder::new(data).read_to_end(&mut out)?;
    Ok(out)
}


/// The text that `{:?}` formats for a string: quoted, with the characters
/// that `str::escape_debug` escapes escaped.
pub uninterp spec fn debug_text(s: Seq<char>) -> Seq<char>;

/// `format!("{:?}", s)` on a string slice.
///
/// Trusted claim: the result depends on the string's characters alone.
#[verifier::external_body]
pub(crate) fn debug_string(s: &str) -> (res: String)
    ensures
        res@ == debug_text(s@),
{
    format!("{:?}", s)
}

/// The unified diff, line by line, that `similar` computes between two texts
/// with its default settings (Myers' algorithm, no deadline, three lines of
/// context, no file header).
pub uninterp spec fn unified_diff_text(old: Seq<char>, new: Seq<char>) -> Seq<char>;

/// `similar::TextDiff::from_lines(old, new).unified_diff()`, rendered with
/// `to_string`.
///
/// Trusted claim: the result depends on the two texts alone (no deadline is
/// set, so no clock is read).
#[verifier::external_body]
pub(crate) fn unified_diff(old: &str, new: &str) -> (res: String)
    ensures
        res@ == unified_diff_text(old@, new@),
{
    similar::TextDiff::from_lines(old, new).unified_diff().to_string()
}

} // verus!
