//! The codec's laws: what parsing gives back of what encoding wrote, that
//! decoding is one value, and that a truncated table always reads as a
//! truncation error.
use vstd::prelude::*;
use crate::bytes::{le32, u32_le_bytes, u64_le_bytes, lemma_le32_round_trip, lemma_le64_round_trip};
use crate::crypt::PAK_MAGIC;
use crate::errors::FormatError;
use crate::pack::{spec_concat, spec_encode_record, spec_encode_records, spec_encode_table};
use crate::pak::{
    spec_detect_compress, spec_parse_entries, spec_parse_pak, EntryBytes, ParsedTable, INFO_END,
};

verus! {

/// The records as the decoder returns them for an uncompressed archive:
/// names, payload sizes and timestamps kept, original sizes read as zero.
pub open spec fn entries_size_zeroed(entries: Seq<EntryBytes>) -> Seq<EntryBytes> {
    Seq::new(
        entries.len(),
        |i: int|
            EntryBytes {
                name: entries[i].name,
                z_size: entries[i].z_size,
                size: 0,
                time: entries[i].time,
            },
    )
}

/// Where entry `i`'s bytes start within the concatenated payload region.
pub open spec fn spec_concat_offset(payloads: Seq<Seq<u8>>, i: int) -> int
    decreases i,
{
    if i <= 0 {
        0
    } else {
        spec_concat_offset(payloads, i - 1) + payloads[i - 1].len()
    }
}

/// The payload region is exactly as long as its entries' offsets say.
pub proof fn lemma_concat_len(payloads: Seq<Seq<u8>>)
    ensures
        spec_concat(payloads).len() == spec_concat_offset(payloads, payloads.len() as int),
        spec_concat_offset(payloads, payloads.len() as int) >= 0,
    decreases payloads.len(),
{
    if payloads.len() == 0 {
    } else {
        lemma_concat_len(payloads.drop_first());
        lemma_concat_offset_drop(payloads, payloads.len() as int);
    }
}

/// Offsets in a region with its first payload removed sit one payload
/// earlier than in the whole region.
proof fn lemma_concat_offset_drop(payloads: Seq<Seq<u8>>, i: int)
    requires
        payloads.len() > 0,
        1 <= i <= payloads.len(),
    ensures
        spec_concat_offset(payloads, i) == payloads[0].len() + spec_concat_offset(
            payloads.drop_first(),
            i - 1,
        ),
    decreases i,
{
    if i == 1 {
        assert(spec_concat_offset(payloads, 1) == spec_concat_offset(payloads, 0)
            + payloads[0].len());
        assert(spec_concat_offset(payloads, 0) == 0);
        assert(spec_concat_offset(payloads.drop_first(), 0) == 0);
    } else {
        lemma_concat_offset_drop(payloads, i - 1);
        assert(payloads.drop_first()[i - 2] == payloads[i - 1]);
        assert(spec_concat_offset(payloads, i) == spec_concat_offset(payloads, i - 1)
            + payloads[i - 1].len());
        assert(spec_concat_offset(payloads.drop_first(), i - 1) == spec_concat_offset(
            payloads.drop_first(),
            i - 2,
        ) + payloads.drop_first()[i - 2].len());
    }
}

/// Each payload can be sliced back out of the concatenated region at its
/// own offset, unchanged.
pub proof fn lemma_concat_slice(payloads: Seq<Seq<u8>>, i: int)
    requires
        0 <= i < payloads.len(),
    ensures
        spec_concat_offset(payloads, i) >= 0,
        spec_concat_offset(payloads, i) + payloads[i].len() <= spec_concat(payloads).len(),
        spec_concat(payloads).subrange(
            spec_concat_offset(payloads, i),
            spec_concat_offset(payloads, i) + payloads[i].len(),
        ) == payloads[i],
    decreases i,
{
    lemma_concat_len(payloads);
    lemma_concat_offsets_bounded(payloads, i + 1);
    lemma_concat_offsets_bounded(payloads, i);
    if i == 0 {
        assert(spec_concat(payloads) == payloads[0] + spec_concat(payloads.drop_first()));
        assert(spec_concat(payloads).subrange(0, payloads[0].len() as int) =~= payloads[0]);
    } else {
        lemma_concat_slice(payloads.drop_first(), i - 1);
        lemma_concat_offset_drop(payloads, i);
        let off = spec_concat_offset(payloads, i);
        let off_d = spec_concat_offset(payloads.drop_first(), i - 1);
        assert(payloads.drop_first()[i - 1] == payloads[i]);
        assert(spec_concat(payloads) == payloads[0] + spec_concat(payloads.drop_first()));
        assert(spec_concat(payloads).subrange(off, off + payloads[i].len()) =~= spec_concat(
            payloads.drop_first(),
        ).subrange(off_d, off_d + payloads[i].len()));
    }
}

/// Offsets never run past the end of the region.
proof fn lemma_concat_offsets_bounded(payloads: Seq<Seq<u8>>, i: int)
    requires
        0 <= i <= payloads.len(),
    ensures
        0 <= spec_concat_offset(payloads, i) <= spec_concat(payloads).len(),
    decreases i,
{
    lemma_concat_len(payloads);
    lemma_concat_offset_le(payloads, i, payloads.len() as int);
    lemma_concat_offset_le(payloads, 0, i);
}

/// Offsets grow along the region.
proof fn lemma_concat_offset_le(payloads: Seq<Seq<u8>>, i: int, j: int)
    requires
        0 <= i <= j,
    ensures
        spec_concat_offset(payloads, i) <= spec_concat_offset(payloads, j),
    decreases j - i,
{
    if i < j {
        lemma_concat_offset_le(payloads, i, j - 1);
    }
}

/// Decode determinism: the parse of one byte buffer is one value, so two
/// decodes of the same archive agree on the entry list, the detected mode
/// and the header-size offset.
pub proof fn lemma_decode_deterministic(data: Seq<u8>, t1: ParsedTable, t2: ParsedTable)
    requires
        spec_parse_pak(data) == Ok::<ParsedTable, FormatError>(t1),
        spec_parse_pak(data) == Ok::<ParsedTable, FormatError>(t2),
    ensures
        t1 == t2,
{
}

/// A successful table parse always ends past where it started and within
/// the buffer.
pub proof fn lemma_parse_entries_end(data: Seq<u8>, pos: int, compress: Option<bool>)
    requires
        spec_parse_entries(data, pos, compress) is Ok,
    ensures
        pos < spec_parse_entries(data, pos, compress)->Ok_0.1 <= data.len(),
    decreases data.len() - pos,
{
    let flag = data[pos];
    if flag == INFO_END {
    } else {
        let det = if compress is Some {
            Ok::<bool, FormatError>(compress->0)
        } else {
            spec_detect_compress(data, pos + 1)
        };
        let c = det->Ok_0;
        let (entry, pos2) = crate::pak::spec_read_entry(data, pos + 1, c)->Ok_0;
        lemma_parse_entries_end(data, pos2, Some(c));
    }
}

/// Parsing the encoding of an uncompressed record sequence placed at `pos`
/// (records, then the end sentinel) yields the records back, with original
/// sizes read as zero, ending just past the sentinel.
proof fn lemma_parse_records(
    full: Seq<u8>,
    pos: int,
    entries: Seq<EntryBytes>,
    compress: Option<bool>,
)
    requires
        0 <= pos,
        pos + spec_encode_records(entries, false).len() + 1 <= full.len(),
        full.subrange(pos, pos + spec_encode_records(entries, false).len() + 1)
            == spec_encode_records(entries, false) + seq![INFO_END],
        forall|i: int| 0 <= i < entries.len() ==> (#[trigger] entries[i].name).len() <= 255,
        compress == Some(false) || compress is None,
        compress is None && entries.len() > 0 ==> spec_detect_compress(full, pos + 1) == Ok::<
            bool,
            FormatError,
        >(false),
    ensures
        spec_parse_entries(full, pos, compress) == Ok::<
            (Seq<EntryBytes>, int, Option<bool>),
            FormatError,
        >(
            (
                entries_size_zeroed(entries),
                pos + spec_encode_records(entries, false).len() + 1,
                if entries.len() == 0 {
                    compress
                } else {
                    Some(false)
                },
            ),
        ),
    decreases entries.len(),
{
    let rr = spec_encode_records(entries, false);
    let tail = rr + seq![INFO_END];
    assert forall|j: int| 0 <= j < tail.len() implies full[pos + j] == #[trigger] tail[j] by {
        assert(full.subrange(pos, pos + tail.len())[j] == full[pos + j]);
    }
    if entries.len() == 0 {
        assert(tail[0] == INFO_END);
        assert(full[pos] == INFO_END);
        assert(entries_size_zeroed(entries) =~= Seq::<EntryBytes>::empty());
    } else {
        let e0 = entries[0];
        let rec0 = spec_encode_record(e0, false);
        let n = e0.name.len() as int;
        assert(rec0 == seq![0x00u8] + seq![e0.name.len() as u8] + e0.name + u32_le_bytes(e0.z_size)
            + Seq::<u8>::empty() + u64_le_bytes(e0.time));
        assert(rec0.len() == 14 + n);
        let rest = entries.drop_first();
        let rr_rest = spec_encode_records(rest, false);
        assert(rr == rec0 + rr_rest);
        assert forall|j: int| 0 <= j < rec0.len() implies tail[j] == rec0[j] by {
            assert(rr[j] == rec0[j]);
        }
        // the flag and the name-length byte
        assert(tail[0] == rec0[0]);
        assert(rec0[0] == 0x00u8);
        assert(full[pos] == 0x00u8);
        assert(tail[1] == rec0[1]);
        assert(rec0[1] == e0.name.len() as u8);
        assert(full[pos + 1] == e0.name.len() as u8);
        assert((e0.name.len() as u8) as int == n);
        // the name bytes
        assert forall|i: int| 0 <= i < n implies full[pos + 2 + i] == e0.name[i] by {
            assert(tail[2 + i] == rec0[2 + i]);
            assert(rec0[2 + i] == e0.name[i]);
        }
        assert(full.subrange(pos + 2, pos + 2 + n) =~= e0.name);
        let p1 = pos + 2 + n;
        // the payload-size word
        assert forall|i: int| 0 <= i < 4 implies full[p1 + i] == u32_le_bytes(e0.z_size)[i] by {
            assert(tail[2 + n + i] == rec0[2 + n + i]);
            assert(rec0[2 + n + i] == u32_le_bytes(e0.z_size)[i]);
        }
        assert(full.subrange(p1, p1 + 4) =~= u32_le_bytes(e0.z_size));
        lemma_le32_round_trip(e0.z_size, full, p1);
        // the timestamp
        assert forall|i: int| 0 <= i < 8 implies full[p1 + 4 + i] == u64_le_bytes(e0.time)[i] by {
            assert(tail[6 + n + i] == rec0[6 + n + i]);
            assert(rec0[6 + n + i] == u64_le_bytes(e0.time)[i]);
        }
        assert(full.subrange(p1 + 4, p1 + 12) =~= u64_le_bytes(e0.time));
        lemma_le64_round_trip(e0.time, full, p1 + 4);
        let pos2 = p1 + 12;
        assert(pos2 == pos + rec0.len());
        assert(crate::pak::spec_read_entry(full, pos + 1, false) == Ok::<
            (EntryBytes, int),
            FormatError,
        >((EntryBytes { name: e0.name, z_size: e0.z_size, size: 0, time: e0.time }, pos2)));
        // the rest of the table sits just past this record
        assert forall|j: int| 0 <= j < rr_rest.len() + 1 implies full[pos2 + j] == (rr_rest + seq![
            INFO_END,
        ])[j] by {
            assert(full[pos + (rec0.len() + j)] == tail[rec0.len() + j]);
            if j < rr_rest.len() {
                assert(tail[rec0.len() + j] == rr[rec0.len() + j]);
                assert(rr[rec0.len() + j] == rr_rest[j]);
            } else {
                assert(tail[rec0.len() + j] == INFO_END);
            }
        }
        assert(full.subrange(pos2, pos2 + rr_rest.len() + 1) =~= rr_rest + seq![INFO_END]);
        assert forall|i: int| 0 <= i < rest.len() implies (#[trigger] rest[i].name).len()
            <= 255 by {
            assert(rest[i] == entries[i + 1]);
        }
        lemma_parse_records(full, pos2, rest, Some(false));
        assert(seq![EntryBytes { name: e0.name, z_size: e0.z_size, size: 0, time: e0.time }]
            + entries_size_zeroed(rest) =~= entries_size_zeroed(entries));
    }
}

/// Round trip at the byte level: parsing an archive encoded without
/// compression gives back the version word, every record (its original
/// size reading as zero), the offset of the payload region, and each
/// payload slice unchanged — provided the mode-detection heuristic reads
/// the encoded bytes as uncompressed, which it does not on all inputs.
pub proof fn lemma_pack_round_trip(version: u32, entries: Seq<EntryBytes>, payloads: Seq<Seq<u8>>)
    requires
        forall|i: int| 0 <= i < entries.len() ==> (#[trigger] entries[i].name).len() <= 255,
        payloads.len() == entries.len(),
        entries.len() > 0 ==> spec_detect_compress(
            spec_encode_table(version, entries, false) + spec_concat(payloads),
            9,
        ) == Ok::<bool, FormatError>(false),
    ensures
        ({
            let table = spec_encode_table(version, entries, false);
            let full = table + spec_concat(payloads);
            spec_parse_pak(full) == Ok::<ParsedTable, FormatError>(
                ParsedTable {
                    version,
                    entries: entries_size_zeroed(entries),
                    compress: if entries.len() == 0 {
                        None
                    } else {
                        Some(false)
                    },
                    end: table.len() as int,
                },
            ) && (forall|i: int|
                0 <= i < payloads.len() ==> full.subrange(
                    table.len() + spec_concat_offset(payloads, i),
                    table.len() + spec_concat_offset(payloads, i) + (#[trigger] payloads[i]).len(),
                ) == payloads[i])
        }),
{
    let table = spec_encode_table(version, entries, false);
    let rr = spec_encode_records(entries, false);
    let full = table + spec_concat(payloads);
    assert(table == u32_le_bytes(PAK_MAGIC) + u32_le_bytes(version) + rr + seq![INFO_END]);
    assert(table.len() == 9 + rr.len());
    assert forall|j: int| 0 <= j < table.len() implies full[j] == table[j] by {}
    assert(full.subrange(0, 4) =~= u32_le_bytes(PAK_MAGIC));
    lemma_le32_round_trip(PAK_MAGIC, full, 0);
    assert(full.subrange(4, 8) =~= u32_le_bytes(version));
    lemma_le32_round_trip(version, full, 4);
    assert forall|j: int| 0 <= j < rr.len() + 1 implies full[8 + j] == (rr + seq![INFO_END])[j] by {
        assert(full[8 + j] == table[8 + j]);
    }
    assert(full.subrange(8, 8 + rr.len() as int + 1) =~= rr + seq![INFO_END]);
    lemma_parse_records(full, 8, entries, None);
    assert(spec_parse_pak(full) == Ok::<ParsedTable, FormatError>(
        ParsedTable {
            version,
            entries: entries_size_zeroed(entries),
            compress: if entries.len() == 0 {
                None
            } else {
                Some(false)
            },
            end: table.len() as int,
        },
    ));
    assert forall|i: int| 0 <= i < payloads.len() implies full.subrange(
        table.len() + spec_concat_offset(payloads, i),
        table.len() + spec_concat_offset(payloads, i) + (#[trigger] payloads[i]).len(),
    ) == payloads[i] by {
        lemma_concat_slice(payloads, i);
        let off = spec_concat_offset(payloads, i);
        assert(full.subrange(table.len() + off, table.len() + off + payloads[i].len())
            =~= spec_concat(payloads).subrange(off, off + payloads[i].len()));
    }
}

/// Cutting a table that parses without compression anywhere before its end
/// leaves a parse that fails as a truncation, whatever the cut keeps.
proof fn lemma_parse_entries_truncated(data: Seq<u8>, cut: int, pos: int, compress: Option<bool>)
    requires
        0 <= pos <= cut <= data.len(),
        compress != Some(true),
        spec_parse_entries(data, pos, compress) is Ok,
        cut < spec_parse_entries(data, pos, compress)->Ok_0.1,
        spec_parse_entries(data, pos, compress)->Ok_0.2 != Some(true),
    ensures
        spec_parse_entries(data.take(cut), pos, compress) == Err::<
            (Seq<EntryBytes>, int, Option<bool>),
            FormatError,
        >(FormatError::UnexpectedEof),
    decreases data.len() - pos,
{
    let tr = data.take(cut);
    let res = spec_parse_entries(data, pos, compress)->Ok_0;
    lemma_parse_entries_end(data, pos, compress);
    if pos == cut {
        // nothing of the table is left to read
    } else {
        let flag = data[pos];
        assert(tr[pos] == data[pos]);
        if flag == INFO_END {
            // the sentinel would end the parse at pos + 1, but the cut is
            // strictly between pos and pos + 1: impossible
            assert(false);
        } else {
            let c = if compress is Some {
                compress->0
            } else {
                spec_detect_compress(data, pos + 1)->Ok_0
            };
            let (e0, pos2) = crate::pak::spec_read_entry(data, pos + 1, c)->Ok_0;
            lemma_parse_entries_keeps_compress(data, pos2, c);
            assert(res.2 == Some(c));
            assert(c == false);
            if compress is None && pos + 1 >= cut {
                // the heuristic itself runs off the cut
                assert(spec_detect_compress(tr, pos + 1) == Err::<bool, FormatError>(
                    FormatError::UnexpectedEof,
                ));
            } else {
                if compress is None {
                    assert(tr[pos + 1] == data[pos + 1]);
                    let nl0 = data[pos + 1] as int;
                    let probe = pos + 1 + 1 + nl0 + 4 + 12;
                    if probe < cut {
                        assert(tr[probe] == data[probe]);
                        assert(spec_detect_compress(tr, pos + 1) == spec_detect_compress(
                            data,
                            pos + 1,
                        ));
                    } else {
                        assert(spec_detect_compress(tr, pos + 1) == Ok::<bool, FormatError>(false));
                    }
                }
                // both parses now read this record uncompressed
                if pos + 1 >= cut {
                    assert(crate::pak::spec_read_entry(tr, pos + 1, false) == Err::<
                        (EntryBytes, int),
                        FormatError,
                    >(FormatError::UnexpectedEof));
                } else {
                    assert(tr[pos + 1] == data[pos + 1]);
                    let nl = data[pos + 1] as int;
                    let p1 = pos + 1 + 1 + nl;
                    if p1 > cut || p1 + 4 > cut || p1 + 12 > cut {
                        // some field of the record runs off the cut
                        assert(crate::pak::spec_read_entry(tr, pos + 1, false) == Err::<
                            (EntryBytes, int),
                            FormatError,
                        >(FormatError::UnexpectedEof));
                    } else {
                        assert(crate::pak::spec_read_entry(tr, pos + 1, false) matches Ok(p)
                            && p.1 == pos2);
                        lemma_parse_entries_truncated(data, cut, pos2, Some(false));
                    }
                }
            }
        }
    }
}

/// Truncating a well-formed archive that decodes as uncompressed anywhere
/// before the end of its table makes the decode fail with `UnexpectedEof`:
/// never another error, and never a quietly shortened entry list.
pub proof fn lemma_truncation_eof(data: Seq<u8>, cut: int)
    requires
        spec_parse_pak(data) is Ok,
        (spec_parse_pak(data)->Ok_0).compress != Some(true),
        0 <= cut < (spec_parse_pak(data)->Ok_0).end,
    ensures
        spec_parse_pak(data.take(cut)) == Err::<ParsedTable, FormatError>(
            FormatError::UnexpectedEof,
        ),
{
    let tr = data.take(cut);
    let t = spec_parse_pak(data)->Ok_0;
    lemma_parse_entries_end(data, 8, None);
    if cut < 4 {
        // not even the magic can be read
    } else {
        assert(tr[0] == data[0]);
        assert(tr[1] == data[1]);
        assert(tr[2] == data[2]);
        assert(tr[3] == data[3]);
        assert(le32(tr, 0) == le32(data, 0));
        if cut < 8 {
            // the version word runs off the cut
        } else {
            lemma_parse_entries_truncated(data, cut, 8, None);
        }
    }
}

/// Once the compression mode is known, parsing the rest of the table
/// neither forgets nor changes it.
pub proof fn lemma_parse_entries_keeps_compress(data: Seq<u8>, pos: int, b: bool)
    requires
        spec_parse_entries(data, pos, Some(b)) is Ok,
    ensures
        spec_parse_entries(data, pos, Some(b))->Ok_0.2 == Some(b),
    decreases data.len() - pos,
{
    let flag = data[pos];
    if flag == INFO_END {
    } else {
        let (entry, pos2) = crate::pak::spec_read_entry(data, pos + 1, b)->Ok_0;
        lemma_parse_entries_keeps_compress(data, pos2, b);
    }
}

} // verus!
