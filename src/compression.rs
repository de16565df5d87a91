//! Compressed payloads carried as text: a block of the LZ4 format with its
//! length in front, encoded with the codec of this crate.
use vstd::prelude::*;
use vstd::string::StringSliceAdditionalSpecFns;
use vstd::utf8::{decode_utf8, encode_utf8_decode_utf8, encode_utf8_valid_utf8, valid_utf8};

use crate::codec::{base64_decode, base64_encode, decode_spec, encode_spec, lemma_round_trip};

verus! {

#[verifier::external_type_specification]
#[verifier::external_body]
pub struct ExDecompressError(lz4_flex::block::DecompressError);

/// The block that LZ4 compression with the length put in front makes of `b`.
pub uninterp spec fn lz4_packed(b: Seq<u8>) -> Seq<u8>;

/// The bytes that a block with its length in front decompresses to; `None`
/// where it is not a well-formed block.
pub uninterp spec fn lz4_unpacked(b: Seq<u8>) -> Option<Seq<u8>>;

/// Relies on lz4_flex::compress_prepend_size: the compressed block, after
/// four bytes that hold the input's length, which
/// lz4_flex::decompress_size_prepended turns back into the input wherever
/// that length fits in those four bytes.
#[verifier::external_body]
fn lz4_compress(data: &[u8]) -> (r: Vec<u8>)
    ensures
        r@ == lz4_packed(data@),
        r@.len() >= 4,
        data@.len() <= u32::MAX ==> lz4_unpacked(r@) == Some(data@),
{
    lz4_flex::compress_prepend_size(data)
}

/// Relies on lz4_flex::decompress_size_prepended: the decompressed bytes,
/// or an error for a malformed block, at the latest where fewer than four
/// bytes are given.
#[verifier::external_body]
fn lz4_decompress(data: &[u8]) -> (r: Result<Vec<u8>, lz4_flex::block::DecompressError>)
    ensures
        match r {
            Ok(v) => lz4_unpacked(data@) == Some(v@),
            Err(_) => lz4_unpacked(data@) is None,
        },
        data@.len() < 4 ==> r is Err,
{
    lz4_flex::decompress_size_prepended(data)
}

/// Relies on String::from_utf8: a text exactly where the bytes are valid
/// UTF-8, and then the text they encode.
#[verifier::external_body]
fn utf8_string(b: Vec<u8>) -> (r: Option<String>)
    ensures
        r is Some <==> valid_utf8(b@),
        r matches Some(s) ==> s@ == decode_utf8(b@),
{
    String::from_utf8(b).ok()
}

/// The text that `decompress_from_text` recovers from `s`, if any: `s`
/// decoded, the block decompressed, the bytes read as UTF-8.
pub open spec fn unpacked_text(s: Seq<char>) -> Option<Seq<char>> {
    match decode_spec(s) {
        Ok(b) => match lz4_unpacked(b) {
            Some(u) => if valid_utf8(u) {
                Some(decode_utf8(u))
            } else {
                None
            },
            None => None,
        },
        Err(_) => None,
    }
}

/// Compresses the UTF-8 bytes of `data` and encodes the block as text;
/// returns that text and the block's length in bytes. Where the bytes number
/// at most `u32::MAX`, `decompress_from_text` recovers `data` from the text.
pub fn compress_to_text(data: &str) -> (r: (String, usize))
    ensures
        r.0@ == encode_spec(lz4_packed(data.spec_bytes())),
        r.1 == lz4_packed(data.spec_bytes()).len(),
        r.1 >= 4,
        data.spec_bytes().len() <= u32::MAX ==> unpacked_text(r.0@) == Some(data@),
{
    let block = lz4_compress(data.as_bytes());
    let text = base64_encode(block.as_slice());
    proof {
        lemma_round_trip(block@);
        encode_utf8_valid_utf8(data@);
        encode_utf8_decode_utf8(data@);
    }
    (text, block.len())
}

/// Recovers the text that `compress_to_text` encoded: `None` where `data`
/// does not decode, the block is malformed, or its bytes are not UTF-8.
pub fn decompress_from_text(data: &str) -> (r: Option<String>)
    ensures
        match r {
            Some(t) => unpacked_text(data@) == Some(t@),
            None => unpacked_text(data@) is None,
        },
{
    let block = match base64_decode(data) {
        Ok(b) => b,
        Err(_) => return None,
    };
    let bytes = match lz4_decompress(block.as_slice()) {
        Ok(v) => v,
        Err(_) => return None,
    };
    utf8_string(bytes)
}

} // verus!
