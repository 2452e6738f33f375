//! The legacy 8-bit code page for entry names, behind trusted wrappers.
use vstd::prelude::*;
use crate::chars::{bytes_as_chars, chars_as_bytes, is_ascii_byte_seq, is_ascii_char_seq};

verus! {

/// What `encoding_rs::GBK.decode` makes of a byte buffer. The decoder is
/// total and depends on the bytes alone.
pub uninterp spec fn gbk_chars_of(bytes: Seq<u8>) -> Seq<char>;

/// What `encoding_rs::GBK.encode` makes of a string. Unmappable characters
/// are replaced, so this is total and depends on the characters alone.
pub uninterp spec fn gbk_bytes_of(s: Seq<char>) -> Seq<u8>;

/// Relies on `encoding_rs::Encoding::decode` on GBK: the result is a pure
/// function of the bytes, and seven-bit input passes through unchanged
/// (GBK is ASCII-compatible, and no BOM starts with a seven-bit byte).
#[verifier::external_body]
pub(crate) fn gbk_decode(bytes: &[u8]) -> (r: String)
    ensures
        r@ == gbk_chars_of(bytes@),
        is_ascii_byte_seq(bytes@) ==> r@ == bytes_as_chars(bytes@),
{
    let (decoded, _, _) = encoding_rs::GBK.decode(bytes);
    decoded.into_owned()
}

/// Relies on `encoding_rs::Encoding::encode` on GBK: the result is a pure
/// function of the characters, and a seven-bit string is returned as its
/// own bytes (GBK is ASCII-compatible).
#[verifier::external_body]
pub(crate) fn gbk_encode(s: &str) -> (r: Vec<u8>)
    ensures
        r@ == gbk_bytes_of(s@),
        is_ascii_char_seq(s@) ==> r@ == chars_as_bytes(s@),
{
    let (encoded, _, _) = encoding_rs::GBK.encode(s);
    encoded.into_owned()
}

} // verus!
