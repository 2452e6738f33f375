//! The whole-archive obfuscation transform and its detection heuristic.
use vstd::prelude::*;
use crate::bytes::le32;

verus! {

/// The fixed single-byte obfuscation key applied to every byte of an archive
/// file.
pub const CRYPT_KEY: u8 = 0xF7;

/// The four-byte magic number that opens every well-formed archive,
/// read as a little-endian `u32`.
pub const PAK_MAGIC: u32 = 0xBAC04AC0;

/// `PAK_MAGIC` with each of its four bytes XORed with `CRYPT_KEY`: the value
/// the leading word reads as while the file is still obfuscated.
pub const PAK_MAGIC_OBFUSCATED: u32 = 0x4D37BD37;

/// What one pass of the transform does to a single byte.
pub open spec fn crypt_byte(b: u8) -> u8 {
    b ^ CRYPT_KEY
}

/// The transform applied to a whole buffer, byte for byte.
pub open spec fn crypt_seq(s: Seq<u8>) -> Seq<u8> {
    s.map_values(|b: u8| crypt_byte(b))
}

/// Applying the transform twice to one byte gives the byte back.
pub proof fn lemma_crypt_byte_involutive(b: u8)
    ensures
        crypt_byte(crypt_byte(b)) == b,
{
    assert((b ^ CRYPT_KEY) ^ CRYPT_KEY == b) by (bit_vector);
}

/// Obfuscation is its own inverse: transforming a buffer twice yields the
/// original buffer, for every byte buffer.
pub proof fn lemma_crypt_involutive(s: Seq<u8>)
    ensures
        crypt_seq(crypt_seq(s)) == s,
{
    let t = crypt_seq(crypt_seq(s));
    assert forall|i: int| 0 <= i < s.len() implies t[i] == s[i] by {
        lemma_crypt_byte_involutive(s[i]);
    }
    assert(t =~= s);
}

/// XOR every byte of the buffer with the fixed key, in place. One call
/// obfuscates a plain archive; a second call undoes the first.
pub fn crypt_data(data: &mut Vec<u8>)
    ensures
        final(data)@ == crypt_seq(old(data)@),
{
    let n = data.len();
    let mut i: usize = 0;
    while i < n
        invariant
            n == old(data)@.len(),
            data@.len() == n,
            i <= n,
            forall|j: int| 0 <= j < i ==> data@[j] == crypt_byte(old(data)@[j]),
            forall|j: int| i <= j < n ==> data@[j] == old(data)@[j],
        decreases n - i,
    {
        let b = data[i];
        data.set(i, b ^ CRYPT_KEY);
        i = i + 1;
    }
    assert(data@ =~= crypt_seq(old(data)@));
}

/// An archive whose plain bytes open with the magic number reads as
/// obfuscated once the transform has been applied to it.
pub proof fn lemma_detect_after_crypt(s: Seq<u8>)
    requires
        s.len() >= 8,
        le32(s, 0) == PAK_MAGIC,
    ensures
        spec_detect_encryption(crypt_seq(s)),
{
    let c = crypt_seq(s);
    assert(c[0] == crypt_byte(s[0]));
    assert(c[1] == crypt_byte(s[1]));
    assert(c[2] == crypt_byte(s[2]));
    assert(c[3] == crypt_byte(s[3]));
    let b0 = s[0];
    let b1 = s[1];
    let b2 = s[2];
    let b3 = s[3];
    assert(((b0 as u32) | ((b1 as u32) << 8) | ((b2 as u32) << 16) | ((b3 as u32) << 24)
        == 0xBAC04AC0u32) ==> (((b0 ^ 0xF7u8) as u32) | (((b1 ^ 0xF7u8) as u32) << 8) | (((b2
        ^ 0xF7u8) as u32) << 16) | (((b3 ^ 0xF7u8) as u32) << 24) == 0x4D37BD37u32))
        by (bit_vector);
}

/// Whether a buffer's leading four bytes, read little-endian, equal the
/// obfuscated form of the magic number. Any other leading value (including
/// the plain magic, and any buffer shorter than eight bytes) counts as not
/// obfuscated: unrecognized inputs deliberately fail open.
pub open spec fn spec_detect_encryption(data: Seq<u8>) -> bool {
    data.len() >= 8 && le32(data, 0) == PAK_MAGIC_OBFUSCATED
}

/// Report whether an archive buffer is currently obfuscated, by comparing
/// its leading word against the obfuscated magic.
pub fn detect_encryption(data: &[u8]) -> (r: bool)
    ensures
        r == spec_detect_encryption(data@),
{
    if data.len() < 8 {
        return false;
    }
    let w = (data[0] as u32) | ((data[1] as u32) << 8) | ((data[2] as u32) << 16) | ((
    data[3] as u32) << 24);
    w == PAK_MAGIC_OBFUSCATED
}

} // verus!
