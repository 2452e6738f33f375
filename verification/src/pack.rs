//! The archive encoder and the payload-region reader.
use vstd::prelude::*;
use crate::bytes::{u32_le_bytes, u64_le_bytes, write_u32_le, write_u64_le};
use crate::chars::{chars_as_bytes, is_ascii_char_seq};
use crate::crypt::PAK_MAGIC;
use crate::errors::FormatError;
use crate::gbk::gbk_bytes_of;
use crate::pak::{EntryBytes, EntryChars, FileInfo, PakInfo, INFO_END, write_string_by_u8_head};

verus! {

/// The ghost image of a record about to be encoded: its name run through
/// the legacy code page, everything else verbatim.
pub open spec fn entry_bytes_of_info(f: EntryChars) -> EntryBytes {
    EntryBytes { name: gbk_bytes_of(f.name), z_size: f.z_size, size: f.size, time: f.time }
}

/// One record's table bytes: entry flag, length-prefixed name, payload
/// size, the original size only in compressed mode, and the timestamp.
pub open spec fn spec_encode_record(e: EntryBytes, compress: bool) -> Seq<u8> {
    seq![0x00u8] + seq![e.name.len() as u8] + e.name + u32_le_bytes(e.z_size) + (if compress {
        u32_le_bytes(e.size)
    } else {
        Seq::<u8>::empty()
    }) + u64_le_bytes(e.time)
}

/// All records' table bytes, in order.
pub open spec fn spec_encode_records(entries: Seq<EntryBytes>, compress: bool) -> Seq<u8>
    decreases entries.len(),
{
    if entries.len() == 0 {
        Seq::<u8>::empty()
    } else {
        spec_encode_record(entries[0], compress) + spec_encode_records(
            entries.drop_first(),
            compress,
        )
    }
}

/// The header and the whole file table: magic, version, records, sentinel.
pub open spec fn spec_encode_table(version: u32, entries: Seq<EntryBytes>, compress: bool) -> Seq<
    u8,
> {
    u32_le_bytes(PAK_MAGIC) + u32_le_bytes(version) + spec_encode_records(entries, compress)
        + seq![INFO_END]
}

/// The payload region: every entry's bytes, in table order, no padding.
pub open spec fn spec_concat(payloads: Seq<Seq<u8>>) -> Seq<u8>
    decreases payloads.len(),
{
    if payloads.len() == 0 {
        Seq::<u8>::empty()
    } else {
        payloads[0] + spec_concat(payloads.drop_first())
    }
}

/// Appending one record to the table appends its bytes to the encoding.
pub proof fn lemma_encode_records_snoc(s: Seq<EntryBytes>, e: EntryBytes, compress: bool)
    ensures
        spec_encode_records(s.push(e), compress) == spec_encode_records(s, compress)
            + spec_encode_record(e, compress),
    decreases s.len(),
{
    if s.len() == 0 {
        let se = s.push(e);
        assert(se.len() == 1);
        assert(se[0] == e);
        assert(se.drop_first() =~= Seq::<EntryBytes>::empty());
        assert(spec_encode_records(se, compress) == spec_encode_record(e, compress)
            + spec_encode_records(se.drop_first(), compress));
        assert(spec_encode_records(se.drop_first(), compress) == Seq::<u8>::empty());
        assert(spec_encode_records(s, compress) == Seq::<u8>::empty());
        assert(spec_encode_record(e, compress) + Seq::<u8>::empty() =~= Seq::<u8>::empty()
            + spec_encode_record(e, compress));
        assert(spec_encode_records(s.push(e), compress) =~= spec_encode_records(s, compress)
            + spec_encode_record(e, compress));
    } else {
        assert(s.push(e).drop_first() =~= s.drop_first().push(e));
        lemma_encode_records_snoc(s.drop_first(), e, compress);
        assert(spec_encode_records(s.push(e), compress) =~= spec_encode_records(s, compress)
            + spec_encode_record(e, compress));
    }
}

/// Appending one payload to the region appends its bytes to the whole.
pub proof fn lemma_concat_snoc(s: Seq<Seq<u8>>, p: Seq<u8>)
    ensures
        spec_concat(s.push(p)) == spec_concat(s) + p,
    decreases s.len(),
{
    if s.len() == 0 {
        let sp = s.push(p);
        assert(sp.len() == 1);
        assert(sp[0] == p);
        assert(sp.drop_first() =~= Seq::<Seq<u8>>::empty());
        assert(spec_concat(sp) == p + spec_concat(sp.drop_first()));
        assert(spec_concat(sp.drop_first()) == Seq::<u8>::empty());
        assert(spec_concat(s) == Seq::<u8>::empty());
        assert(p + Seq::<u8>::empty() =~= Seq::<u8>::empty() + p);
        assert(spec_concat(s.push(p)) =~= spec_concat(s) + p);
    } else {
        assert(s.push(p).drop_first() =~= s.drop_first().push(p));
        lemma_concat_snoc(s.drop_first(), p);
        assert(spec_concat(s.push(p)) =~= spec_concat(s) + p);
    }
}

/// The ghost images of a container's records as they would be encoded.
pub open spec fn entry_bytes_seq(infos: Seq<EntryChars>) -> Seq<EntryBytes> {
    Seq::new(infos.len(), |i: int| entry_bytes_of_info(infos[i]))
}

/// Whether the encoder writes an original-size field per record.
pub open spec fn spec_compress_flag(compress: Option<bool>) -> bool {
    compress matches Some(true)
}

/// Encode a container and its payloads into one archive byte buffer:
/// header, file table, then every payload in table order. Refused with
/// `NameTooLong` exactly when some name exceeds 255 bytes once encoded.
/// The buffer is returned plain; obfuscation is a separate pass.
pub fn encode_pak(info: &PakInfo, payloads: &Vec<Vec<u8>>) -> (r: Result<Vec<u8>, FormatError>)
    requires
        payloads@.len() == info.file_info_library@.len(),
        forall|i: int|
            0 <= i < payloads@.len() ==> #[trigger] payloads@[i]@.len()
                == info.file_info_library@[i].z_size,
    ensures
        ({
            let ebs = entry_bytes_seq(info.file_info_library@.map_values(|f: FileInfo| f@));
            if forall|i: int| 0 <= i < ebs.len() ==> (#[trigger] ebs[i].name).len() <= 255 {
                r matches Ok(out) && out@ == spec_encode_table(
                    info.version,
                    ebs,
                    spec_compress_flag(info.compress),
                ) + spec_concat(payloads@.map_values(|p: Vec<u8>| p@)) && (forall|i: int|
                    0 <= i < ebs.len() && is_ascii_char_seq(
                        #[trigger] info.file_info_library@[i]@.name,
                    ) ==> ebs[i].name == chars_as_bytes(info.file_info_library@[i]@.name))
            } else {
                r matches Err(e) && e == FormatError::NameTooLong
            }
        }),
{
    let ghost infos = info.file_info_library@.map_values(|f: FileInfo| f@);
    let ghost ebs = entry_bytes_seq(infos);
    let compress = match info.compress {
        Some(true) => true,
        _ => false,
    };
    let mut out: Vec<u8> = Vec::new();
    write_u32_le(&mut out, PAK_MAGIC);
    write_u32_le(&mut out, info.version);

    let n = info.file_info_library.len();
    let mut i: usize = 0;
    while i < n
        invariant
            n == info.file_info_library@.len(),
            i <= n,
            infos == info.file_info_library@.map_values(|f: FileInfo| f@),
            ebs == entry_bytes_seq(infos),
            compress == spec_compress_flag(info.compress),
            forall|j: int| 0 <= j < i ==> (#[trigger] ebs[j].name).len() <= 255,
            forall|j: int|
                0 <= j < i && is_ascii_char_seq(#[trigger] infos[j].name) ==> ebs[j].name
                    == chars_as_bytes(infos[j].name),
            out@ == u32_le_bytes(PAK_MAGIC) + u32_le_bytes(info.version) + spec_encode_records(
                ebs.take(i as int),
                compress,
            ),
        decreases n - i,
    {
        let f = &info.file_info_library[i];
        let ghost prev = out@;
        out.push(0x00u8);
        match write_string_by_u8_head(&mut out, f.file_name.as_str()) {
            Ok(_) => {},
            Err(e) => {
                return Err(e);
            },
        }
        write_u32_le(&mut out, f.z_size);
        if compress {
            write_u32_le(&mut out, f._size);
        }
        write_u64_le(&mut out, f._file_time);
        proof {
            assert(ebs[i as int] == entry_bytes_of_info(infos[i as int]));
            assert(out@ =~= prev + spec_encode_record(ebs[i as int], compress));
            lemma_encode_records_snoc(ebs.take(i as int), ebs[i as int], compress);
            assert(ebs.take(i + 1 as int) =~= ebs.take(i as int).push(ebs[i as int]));
            assert(out@ =~= u32_le_bytes(PAK_MAGIC) + u32_le_bytes(info.version)
                + spec_encode_records(ebs.take(i + 1 as int), compress));
        }
        i = i + 1;
    }
    out.push(INFO_END);
    proof {
        assert(ebs.take(n as int) =~= ebs);
        assert(out@ =~= spec_encode_table(info.version, ebs, compress));
    }

    let ghost table = out@;
    let ghost pviews = payloads@.map_values(|p: Vec<u8>| p@);
    let mut k: usize = 0;
    while k < payloads.len()
        invariant
            k <= payloads@.len(),
            pviews == payloads@.map_values(|p: Vec<u8>| p@),
            out@ == table + spec_concat(pviews.take(k as int)),
        decreases payloads@.len() - k,
    {
        let ghost prev = out@;
        out.extend_from_slice(payloads[k].as_slice());
        proof {
            lemma_concat_snoc(pviews.take(k as int), pviews[k as int]);
            assert(pviews.take(k + 1 as int) =~= pviews.take(k as int).push(pviews[k as int]));
            assert(out@ =~= table + spec_concat(pviews.take(k + 1 as int)));
        }
        k = k + 1;
    }
    proof {
        assert(pviews.take(pviews.len() as int) =~= pviews);
    }
    Ok(out)
}

/// The byte offset where entry `i`'s payload slice starts, with the
/// payload region starting at `start`.
pub open spec fn spec_payload_offset(entries: Seq<EntryChars>, start: int, i: int) -> int
    decreases i,
{
    if i <= 0 {
        start
    } else {
        spec_payload_offset(entries, start, i - 1) + entries[i - 1].z_size
    }
}

/// Slice every entry's payload out of the archive buffer, in table order,
/// starting at `start` (the offset the decoder returned). Fails with
/// `UnexpectedEof` exactly when the region would run past the buffer.
pub fn extract_payloads(data: &[u8], start: usize, infos: &Vec<FileInfo>) -> (r: Result<
    Vec<Vec<u8>>,
    FormatError,
>)
    requires
        start <= data@.len(),
    ensures
        ({
            let ents = infos@.map_values(|f: FileInfo| f@);
            if spec_payload_offset(ents, start as int, ents.len() as int) <= data@.len() {
                r matches Ok(v) && v@.len() == ents.len() && (forall|i: int|
                    0 <= i < ents.len() ==> #[trigger] v@[i]@ == data@.subrange(
                        spec_payload_offset(ents, start as int, i),
                        spec_payload_offset(ents, start as int, i) + ents[i].z_size,
                    ))
            } else {
                r matches Err(e) && e == FormatError::UnexpectedEof
            }
        }),
{
    let ghost ents = infos@.map_values(|f: FileInfo| f@);
    let data_len = data.len();
    let mut result: Vec<Vec<u8>> = Vec::new();
    let mut off: usize = start;
    let mut i: usize = 0;
    while i < infos.len()
        invariant
            data@.len() <= usize::MAX,
            data_len == data@.len(),
            ents == infos@.map_values(|f: FileInfo| f@),
            i <= ents.len(),
            off == spec_payload_offset(ents, start as int, i as int),
            off <= data@.len(),
            result@.len() == i,
            forall|j: int|
                0 <= j < i ==> #[trigger] result@[j]@ == data@.subrange(
                    spec_payload_offset(ents, start as int, j),
                    spec_payload_offset(ents, start as int, j) + ents[j].z_size,
                ),
            forall|j: int|
                0 <= j <= i ==> spec_payload_offset(ents, start as int, j) <= data@.len(),
        decreases infos@.len() - i,
    {
        let z = infos[i].z_size as usize;
        if z > data_len - off {
            proof {
                assert(spec_payload_offset(ents, start as int, i + 1 as int) == off + ents[
                    i as int].z_size);
                lemma_payload_offset_le(ents, start as int, i + 1 as int, ents.len() as int);
            }
            return Err(FormatError::UnexpectedEof);
        }
        let mut piece: Vec<u8> = Vec::new();
        let mut b: usize = 0;
        while b < z
            invariant
                data@.len() <= usize::MAX,
                off + z <= data@.len(),
                b <= z,
                piece@ == data@.subrange(off as int, off + b),
            decreases z - b,
        {
            piece.push(data[off + b]);
            assert(piece@ =~= data@.subrange(off as int, off + (b + 1)));
            b = b + 1;
        }
        result.push(piece);
        off = off + z;
        i = i + 1;
    }
    proof {
        lemma_payload_offset_monotone(ents, start as int);
    }
    Ok(result)
}

/// Payload offsets only grow along the table; if the last entry's slice
/// fits, every earlier offset fits too, and the converse: once an offset
/// runs past the buffer, the final offset does as well.
proof fn lemma_payload_offset_monotone(entries: Seq<EntryChars>, start: int)
    ensures
        forall|i: int, j: int|
            0 <= i <= j <= entries.len() ==> #[trigger] spec_payload_offset(entries, start, i)
                <= #[trigger] spec_payload_offset(entries, start, j),
{
    assert forall|i: int, j: int|
        0 <= i <= j <= entries.len() implies #[trigger] spec_payload_offset(entries, start, i)
        <= #[trigger] spec_payload_offset(entries, start, j) by {
        lemma_payload_offset_le(entries, start, i, j);
    }
}

/// Offsets grow between any two indices of the table.
proof fn lemma_payload_offset_le(entries: Seq<EntryChars>, start: int, i: int, j: int)
    requires
        0 <= i <= j,
    ensures
        spec_payload_offset(entries, start, i) <= spec_payload_offset(entries, start, j),
    decreases j - i,
{
    if i < j {
        lemma_payload_offset_le(entries, start, i, j - 1);
    }
}

} // verus!
