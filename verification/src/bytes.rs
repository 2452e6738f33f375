//! Little-endian integer reads over a byte buffer, with bounds checking.
use vstd::prelude::*;
use crate::errors::FormatError;

verus! {

/// A little-endian `u32` assembled from the four bytes at `pos`.
pub open spec fn le32(data: Seq<u8>, pos: int) -> u32
    recommends
        0 <= pos,
        pos + 4 <= data.len(),
{
    (data[pos] as u32) | ((data[pos + 1] as u32) << 8) | ((data[pos + 2] as u32) << 16) | ((
    data[pos + 3] as u32) << 24)
}

/// A little-endian `u64` assembled from the eight bytes at `pos`.
pub open spec fn le64(data: Seq<u8>, pos: int) -> u64
    recommends
        0 <= pos,
        pos + 8 <= data.len(),
{
    (data[pos] as u64) | ((data[pos + 1] as u64) << 8) | ((data[pos + 2] as u64) << 16) | ((
    data[pos + 3] as u64) << 24) | ((data[pos + 4] as u64) << 32) | ((data[pos + 5] as u64) << 40)
        | ((data[pos + 6] as u64) << 48) | ((data[pos + 7] as u64) << 56)
}

/// The little-endian four-byte encoding of a `u32`.
pub open spec fn u32_le_bytes(v: u32) -> Seq<u8> {
    seq![
        (v & 0xFF) as u8,
        ((v >> 8) & 0xFF) as u8,
        ((v >> 16) & 0xFF) as u8,
        ((v >> 24) & 0xFF) as u8,
    ]
}

/// The little-endian eight-byte encoding of a `u64`.
pub open spec fn u64_le_bytes(v: u64) -> Seq<u8> {
    seq![
        (v & 0xFF) as u8,
        ((v >> 8) & 0xFF) as u8,
        ((v >> 16) & 0xFF) as u8,
        ((v >> 24) & 0xFF) as u8,
        ((v >> 32) & 0xFF) as u8,
        ((v >> 40) & 0xFF) as u8,
        ((v >> 48) & 0xFF) as u8,
        ((v >> 56) & 0xFF) as u8,
    ]
}

/// Reading back the four bytes of `u32_le_bytes` yields the value again.
pub proof fn lemma_le32_round_trip(v: u32, data: Seq<u8>, pos: int)
    requires
        0 <= pos,
        pos + 4 <= data.len(),
        data.subrange(pos, pos + 4) == u32_le_bytes(v),
    ensures
        le32(data, pos) == v,
{
    assert(data[pos] == u32_le_bytes(v)[0]);
    assert(data[pos + 1] == u32_le_bytes(v)[1]);
    assert(data[pos + 2] == u32_le_bytes(v)[2]);
    assert(data[pos + 3] == u32_le_bytes(v)[3]);
    assert(((v & 0xFF) as u8 as u32) | (((v >> 8) & 0xFF) as u8 as u32) << 8 | (((v >> 16)
        & 0xFF) as u8 as u32) << 16 | (((v >> 24) & 0xFF) as u8 as u32) << 24 == v)
        by (bit_vector);
}

/// Reading back the eight bytes of `u64_le_bytes` yields the value again.
pub proof fn lemma_le64_round_trip(v: u64, data: Seq<u8>, pos: int)
    requires
        0 <= pos,
        pos + 8 <= data.len(),
        data.subrange(pos, pos + 8) == u64_le_bytes(v),
    ensures
        le64(data, pos) == v,
{
    assert(data[pos] == u64_le_bytes(v)[0]);
    assert(data[pos + 1] == u64_le_bytes(v)[1]);
    assert(data[pos + 2] == u64_le_bytes(v)[2]);
    assert(data[pos + 3] == u64_le_bytes(v)[3]);
    assert(data[pos + 4] == u64_le_bytes(v)[4]);
    assert(data[pos + 5] == u64_le_bytes(v)[5]);
    assert(data[pos + 6] == u64_le_bytes(v)[6]);
    assert(data[pos + 7] == u64_le_bytes(v)[7]);
    assert(((v & 0xFF) as u8 as u64) | (((v >> 8) & 0xFF) as u8 as u64) << 8 | (((v >> 16)
        & 0xFF) as u8 as u64) << 16 | (((v >> 24) & 0xFF) as u8 as u64) << 24 | (((v >> 32)
        & 0xFF) as u8 as u64) << 32 | (((v >> 40) & 0xFF) as u8 as u64) << 40 | (((v >> 48)
        & 0xFF) as u8 as u64) << 48 | (((v >> 56) & 0xFF) as u8 as u64) << 56 == v)
        by (bit_vector);
}

/// Read a little-endian `u32` at `*pos`, advancing `*pos` past it; on a
/// buffer too short the cursor is left where it was.
pub fn read_u32_le(data: &[u8], pos: &mut usize) -> (r: Result<u32, FormatError>)
    ensures
        *old(pos) + 4 <= data@.len() ==> r == Ok::<u32, FormatError>(le32(data@, *old(pos) as int))
            && *final(pos) == *old(pos) + 4,
        *old(pos) + 4 > data@.len() ==> r == Err::<u32, FormatError>(FormatError::UnexpectedEof)
            && *final(pos) == *old(pos),
{
    if data.len() < 4 || *pos > data.len() - 4 {
        return Err(FormatError::UnexpectedEof);
    }
    let p = *pos;
    let value = (data[p] as u32) | ((data[p + 1] as u32) << 8) | ((data[p + 2] as u32) << 16) | ((
    data[p + 3] as u32) << 24);
    *pos = p + 4;
    Ok(value)
}

/// Read a little-endian `u64` at `*pos`, advancing `*pos` past it; on a
/// buffer too short the cursor is left where it was.
pub fn read_u64_le(data: &[u8], pos: &mut usize) -> (r: Result<u64, FormatError>)
    ensures
        *old(pos) + 8 <= data@.len() ==> r == Ok::<u64, FormatError>(le64(data@, *old(pos) as int))
            && *final(pos) == *old(pos) + 8,
        *old(pos) + 8 > data@.len() ==> r == Err::<u64, FormatError>(FormatError::UnexpectedEof)
            && *final(pos) == *old(pos),
{
    if data.len() < 8 || *pos > data.len() - 8 {
        return Err(FormatError::UnexpectedEof);
    }
    let p = *pos;
    let value = (data[p] as u64) | ((data[p + 1] as u64) << 8) | ((data[p + 2] as u64) << 16) | ((
    data[p + 3] as u64) << 24) | ((data[p + 4] as u64) << 32) | ((data[p + 5] as u64) << 40) | ((
    data[p + 6] as u64) << 48) | ((data[p + 7] as u64) << 56);
    *pos = p + 8;
    Ok(value)
}

/// Append the little-endian bytes of a `u32` to `out`.
pub fn write_u32_le(out: &mut Vec<u8>, v: u32)
    ensures
        final(out)@ == old(out)@ + u32_le_bytes(v),
{
    out.push((v & 0xFF) as u8);
    out.push(((v >> 8) & 0xFF) as u8);
    out.push(((v >> 16) & 0xFF) as u8);
    out.push(((v >> 24) & 0xFF) as u8);
    assert(out@ =~= old(out)@ + u32_le_bytes(v));
}

/// Append the little-endian bytes of a `u64` to `out`.
pub fn write_u64_le(out: &mut Vec<u8>, v: u64)
    ensures
        final(out)@ == old(out)@ + u64_le_bytes(v),
{
    out.push((v & 0xFF) as u8);
    out.push(((v >> 8) & 0xFF) as u8);
    out.push(((v >> 16) & 0xFF) as u8);
    out.push(((v >> 24) & 0xFF) as u8);
    out.push(((v >> 32) & 0xFF) as u8);
    out.push(((v >> 40) & 0xFF) as u8);
    out.push(((v >> 48) & 0xFF) as u8);
    out.push(((v >> 56) & 0xFF) as u8);
    assert(out@ =~= old(out)@ + u64_le_bytes(v));
}

} // verus!
