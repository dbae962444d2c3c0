//! The byte codecs that the protocol relies on: LZ4 block compression (from
//! `lz4_flex`) and lossy UTF-8 decoding (from std).
use vstd::prelude::*;
use vstd::utf8::*;

verus! {

/// What `lz4_flex::compress_prepend_size` returns for `input`: the LZ4 block,
/// preceded by the length of `input` as a little-endian `u32`.
pub uninterp spec fn lz4_compressed(input: Seq<u8>) -> Seq<u8>;

/// What `lz4_flex::decompress_size_prepended` returns for `input`: `None`
/// where it reports an error.
pub uninterp spec fn lz4_decompressed(input: Seq<u8>) -> Option<Seq<u8>>;

/// What `String::from_utf8_lossy` returns for `bytes`.
pub uninterp spec fn utf8_lossy(bytes: Seq<u8>) -> Seq<char>;

/// The text that lossy decoding gives: the plain decoding for valid UTF-8
/// (which is what `from_utf8_lossy` documents for such input), the lossy one
/// otherwise.
pub open spec fn lossy_text(bytes: Seq<u8>) -> Seq<char> {
    if valid_utf8(bytes) {
        decode_utf8(bytes)
    } else {
        utf8_lossy(bytes)
    }
}

/// The four little-endian bytes of `x`.
pub open spec fn le32_bytes(x: u32) -> Seq<u8> {
    seq![(x & 0xffu32) as u8, ((x >> 8u32) & 0xffu32) as u8, ((x >> 16u32) & 0xffu32) as u8, (x
        >> 24u32) as u8]
}

/// Calls `lz4_flex::compress_prepend_size`.
///
/// Claimed of it: the result is a function of the input alone; it starts
/// with the input length as a little-endian `u32` (the crate writes
/// `(input.len() as u32).to_le_bytes()` before the block); and
/// `decompress_size_prepended` gives the input back (the pairing that the
/// crate documents) when the input length fits that prefix. The `requires`
/// keeps out inputs for which the crate's bound on the output size,
/// `16 + 4 + len * 110 / 100`, would overflow.
#[verifier::external_body]
pub(crate) fn lz4_compress_prepend_size(input: &[u8]) -> (out: Vec<u8>)
    requires
        input@.len() * 110 <= usize::MAX,
    ensures
        out@ == lz4_compressed(input@),
        out@.len() >= 4,
        out@.take(4) == le32_bytes(input@.len() as u32),
        input@.len() <= u32::MAX ==> lz4_decompressed(out@) == Some(input@),
{
    lz4_flex::compress_prepend_size(input)
}

/// Calls `lz4_flex::decompress_size_prepended`; an error becomes `None`.
///
/// Claimed of it: the result is a function of the input alone.
#[verifier::external_body]
pub(crate) fn lz4_decompress_size_prepended(input: &[u8]) -> (out: Option<Vec<u8>>)
    ensures
        match out {
            Some(v) => lz4_decompressed(input@) == Some(v@),
            None => lz4_decompressed(input@) is None,
        },
{
    lz4_flex::decompress_size_prepended(input).ok()
}

/// Calls `String::from_utf8_lossy` and takes an owned `String`.
///
/// Claimed of it: the result is a function of the bytes alone, and for valid
/// UTF-8 it is the plain decoding, as std documents. What it does with
/// invalid sequences is left to the name `utf8_lossy`.
#[verifier::external_body]
pub(crate) fn string_from_utf8_lossy(bytes: &[u8]) -> (s: String)
    ensures
        s@ == utf8_lossy(bytes@),
        valid_utf8(bytes@) ==> s@ == decode_utf8(bytes@),
{
    String::from_utf8_lossy(bytes).to_string()
}

} // verus!
