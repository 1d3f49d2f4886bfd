//! The few places where the library leans on outside crates (and on two std
//! string functions that vstd gives no specification): each call sits behind
//! one wrapper whose contract states what the callee's documentation and
//! source promise, and no more.

use sha1::Digest;
use std::io::Read;
use std::io::Write;
use vstd::prelude::*;

verus! {

/// The 20-byte SHA-1 digest of a byte sequence.
pub uninterp spec fn sha1_of(data: Seq<u8>) -> Seq<u8>;

/// Relies on sha1::Sha1 (update/finalize): the digest is a function of the
/// input bytes alone, and is always 20 bytes long.
#[verifier::external_body]
pub(crate) fn sha1_digest(data: &[u8]) -> (r: Vec<u8>)
    ensures
        r@ == sha1_of(data@),
        r@.len() == 20,
{
    let mut hasher = sha1::Sha1::new();
    hasher.update(data);
    hasher.finalize().to_vec()
}

/// The zlib stream that the deflate compressor produces for a byte sequence
/// at the default compression level.
pub uninterp spec fn zlib_of(data: Seq<u8>) -> Seq<u8>;

/// Relies on flate2::write::ZlibEncoder at Compression::default(): the
/// compressed stream is a function of the input bytes alone. Writing into a
/// Vec-backed encoder does not fail.
#[verifier::external_body]
pub(crate) fn zlib_compress(data: &[u8]) -> (r: Vec<u8>)
    ensures
        r@ == zlib_of(data@),
{
    let mut enc = flate2::write::ZlibEncoder::new(Vec::new(), flate2::Compression::default());
    enc.write_all(data).expect("writing to a Vec cannot fail");
    enc.finish().expect("finishing a Vec-backed encoder cannot fail")
}

/// Holds when `r` undoes the compression of whatever `data` is a compressed
/// stream of: if `data` is `zlib_of` some original, `r` is that original.
pub open spec fn undoes_zlib(data: Seq<u8>, r: Option<Vec<u8>>) -> bool {
    forall|orig: Seq<u8>| data == zlib_of(orig) ==> (r matches Some(v) && v@ == orig)
}

/// Relies on flate2::read::ZlibDecoder: decompression is lossless, so
/// decoding a stream that the encoder produced yields exactly the bytes that
/// were compressed. Of other inputs nothing is claimed.
#[verifier::external_body]
pub(crate) fn zlib_decompress(data: &[u8]) -> (r: Option<Vec<u8>>)
    ensures
        undoes_zlib(data@, r),
{
    let mut out = Vec::new();
    let mut dec = flate2::read::ZlibDecoder::new(data);
    match dec.read_to_end(&mut out) {
        Ok(_) => Some(out),
        Err(_) => None,
    }
}

/// Whether a regular expression matches somewhere in a text; None when the
/// pattern does not compile. A function of the two strings alone.
pub uninterp spec fn regex_match(pattern: Seq<char>, text: Seq<char>) -> Option<bool>;

/// Relies on regex::Regex::new and regex::Regex::is_match: compiling the
/// pattern and testing the text is deterministic in the two strings.
#[verifier::external_body]
pub(crate) fn regex_is_match(pattern: &str, text: &str) -> (r: Option<bool>)
    ensures
        r == regex_match(pattern@, text@),
{
    match regex::Regex::new(pattern) {
        Ok(re) => Some(re.is_match(text)),
        Err(_) => None,
    }
}

/// Relies on std's String::push: appends one character at the end of the
/// string and changes nothing else.
#[verifier::external_body]
pub(crate) fn push_char(s: &mut String, c: char)
    ensures
        final(s)@ == old(s)@.push(c),
{
    s.push(c);
}

/// Relies on std's String::from_utf8: returns the string exactly when the
/// bytes are valid UTF-8, and then its characters are their decoding.
#[verifier::external_body]
pub(crate) fn string_from_utf8(v: Vec<u8>) -> (r: Option<String>)
    ensures
        r matches Some(s) ==> vstd::utf8::valid_utf8(v@) && s@ == vstd::utf8::decode_utf8(v@),
        r is None ==> !vstd::utf8::valid_utf8(v@),
{
    String::from_utf8(v).ok()
}

} // verus!
