//! The archive data model and the file-table decoder.
use vstd::prelude::*;
use crate::bytes::{le32, le64, read_u32_le, read_u64_le};
use crate::chars::{bytes_as_chars, chars_as_bytes, is_ascii_byte_seq, is_ascii_char_seq};
use crate::crypt::PAK_MAGIC;
use crate::errors::FormatError;
use crate::gbk::{gbk_chars_of, gbk_decode, gbk_encode, gbk_bytes_of};

verus! {

/// The flag byte that closes the file table.
pub const INFO_END: u8 = 0x80;

/// The version word every archive is written with.
pub const PAK_VERSION: u32 = 0;

/// The timestamp written for every packed file, the sources having no
/// authoritative timestamp concept of their own.
pub const DEFAULT_FILE_TIME: u64 = 129146222018596744;

/// One file's metadata record, as decoded from or encoded into the table.
#[derive(Debug, Clone)]
pub struct FileInfo {
    /// Backslash-delimited virtual path, unique within an archive.
    pub file_name: String,
    /// Byte length of this entry's payload slice in the archive.
    pub z_size: u32,
    /// Original size; meaningful only in compressed mode, 0 otherwise.
    pub _size: u32,
    /// Timestamp carried through verbatim, never interpreted.
    pub _file_time: u64,
}

/// The ghost image of a `FileInfo`: its name as characters, the sizes and
/// the timestamp as they stand.
pub struct EntryChars {
    pub name: Seq<char>,
    pub z_size: u32,
    pub size: u32,
    pub time: u64,
}

impl View for FileInfo {
    type V = EntryChars;

    open spec fn view(&self) -> EntryChars {
        EntryChars { name: self.file_name@, z_size: self.z_size, size: self._size, time: self._file_time }
    }
}

impl FileInfo {
    /// A field-for-field copy of the record.
    pub fn duplicate(&self) -> (r: FileInfo)
        ensures
            r == *self,
    {
        FileInfo {
            file_name: self.file_name.clone(),
            z_size: self.z_size,
            _size: self._size,
            _file_time: self._file_time,
        }
    }
}

/// The ghost image of one table record with the name still in its raw
/// table bytes, before the legacy code page is applied.
pub struct EntryBytes {
    pub name: Seq<u8>,
    pub z_size: u32,
    pub size: u32,
    pub time: u64,
}

/// A raw record as the decoder hands it on: the name bytes run through the
/// legacy code page, everything else verbatim.
pub open spec fn entry_chars_of_bytes(e: EntryBytes) -> EntryChars {
    EntryChars { name: gbk_chars_of(e.name), z_size: e.z_size, size: e.size, time: e.time }
}

/// Everything parsing an archive's header and table determines: the version
/// word, the records in table order, the detected compression mode, and the
/// offset just past the end sentinel, where the payload region starts.
pub struct ParsedTable {
    pub version: u32,
    pub entries: Seq<EntryBytes>,
    pub compress: Option<bool>,
    pub end: int,
}

/// The whole decoded container.
#[derive(Debug)]
pub struct PakInfo {
    /// The magic number; validated on decode and never consulted again.
    pub _magic: u32,
    /// The version word, stored verbatim.
    pub version: u32,
    /// The file records, in table order, which is also payload order.
    pub file_info_library: Vec<FileInfo>,
    /// The compression mode: chosen by the packer, or auto-detected once
    /// per archive on decode.
    pub compress: Option<bool>,
    pub pc: bool,
    pub win: bool,
}

impl PakInfo {
    /// An empty container in the state the packer starts from.
    pub fn new() -> (r: Self)
        ensures
            r._magic == PAK_MAGIC,
            r.version == PAK_VERSION,
            r.file_info_library@ == Seq::<FileInfo>::empty(),
            r.compress is None,
            r.pc,
            r.win,
    {
        PakInfo {
            _magic: PAK_MAGIC,
            version: PAK_VERSION,
            file_info_library: Vec::new(),
            compress: None,
            pc: true,
            win: true,
        }
    }
}

/// The compression-mode auto-detection heuristic, run once on the first
/// record, with `pos` at that record's name-length byte: skip ahead as if a
/// 4-byte original-size field were present, and report compressed mode when
/// the byte that would then follow the record reads as a plausible flag.
pub open spec fn spec_detect_compress(data: Seq<u8>, pos: int) -> Result<bool, FormatError> {
    if pos >= data.len() {
        Err(FormatError::UnexpectedEof)
    } else {
        let p = pos + 1 + (data[pos] as int) + 4;
        if p + 12 < data.len() {
            Ok(data[p + 12] == 0x00u8 || data[p + 12] == INFO_END)
        } else {
            Ok(false)
        }
    }
}

/// One record read at `pos` (its name-length byte) under a known
/// compression mode; yields the record and the offset just past it.
pub open spec fn spec_read_entry(data: Seq<u8>, pos: int, compress: bool) -> Result<
    (EntryBytes, int),
    FormatError,
> {
    if pos >= data.len() {
        Err(FormatError::UnexpectedEof)
    } else {
        let n = data[pos] as int;
        if pos + 1 + n > data.len() {
            Err(FormatError::UnexpectedEof)
        } else {
            let name = data.subrange(pos + 1, pos + 1 + n);
            let p1 = pos + 1 + n;
            if p1 + 4 > data.len() {
                Err(FormatError::UnexpectedEof)
            } else {
                let z = le32(data, p1);
                if compress {
                    if p1 + 8 > data.len() {
                        Err(FormatError::UnexpectedEof)
                    } else if p1 + 16 > data.len() {
                        Err(FormatError::UnexpectedEof)
                    } else {
                        Ok(
                            (
                                EntryBytes {
                                    name,
                                    z_size: z,
                                    size: le32(data, p1 + 4),
                                    time: le64(data, p1 + 8),
                                },
                                p1 + 16,
                            ),
                        )
                    }
                } else {
                    if p1 + 12 > data.len() {
                        Err(FormatError::UnexpectedEof)
                    } else {
                        Ok(
                            (
                                EntryBytes { name, z_size: z, size: 0, time: le64(data, p1 + 4) },
                                p1 + 12,
                            ),
                        )
                    }
                }
            }
        }
    }
}

/// The table loop from `pos`: read a flag byte, stop at the end sentinel,
/// refuse any other nonzero flag, detect the compression mode at the first
/// record, and read records until the sentinel. Yields the records read,
/// the offset just past the sentinel, and the mode as known by then.
pub open spec fn spec_parse_entries(data: Seq<u8>, pos: int, compress: Option<bool>) -> Result<
    (Seq<EntryBytes>, int, Option<bool>),
    FormatError,
>
    decreases data.len() - pos,
{
    if pos < 0 || pos >= data.len() {
        Err(FormatError::UnexpectedEof)
    } else {
        let flag = data[pos];
        if flag == INFO_END {
            Ok((Seq::<EntryBytes>::empty(), pos + 1, compress))
        } else if flag != 0x00u8 {
            Err(FormatError::BadFlag { flag, offset: pos as usize })
        } else {
            let det = if compress is Some {
                Ok(compress->0)
            } else {
                spec_detect_compress(data, pos + 1)
            };
            match det {
                Err(e) => Err(e),
                Ok(c) => match spec_read_entry(data, pos + 1, c) {
                    Err(e) => Err(e),
                    Ok((entry, pos2)) => match spec_parse_entries(data, pos2, Some(c)) {
                        Err(e) => Err(e),
                        Ok((rest, end, comp)) => Ok((seq![entry] + rest, end, comp)),
                    },
                },
            }
        }
    }
}

/// The whole header-and-table parse: magic, version, then the table loop.
pub open spec fn spec_parse_pak(data: Seq<u8>) -> Result<ParsedTable, FormatError> {
    if data.len() < 4 {
        Err(FormatError::UnexpectedEof)
    } else if le32(data, 0) != PAK_MAGIC {
        Err(FormatError::BadMagic)
    } else if data.len() < 8 {
        Err(FormatError::UnexpectedEof)
    } else {
        match spec_parse_entries(data, 8, None) {
            Err(e) => Err(e),
            Ok((entries, end, compress)) => Ok(
                ParsedTable { version: le32(data, 4), entries, compress, end },
            ),
        }
    }
}

/// The compression-mode heuristic, executed; see `spec_detect_compress`.
fn detect_compress(data: &[u8], pos: usize) -> (r: Result<bool, FormatError>)
    ensures
        r == spec_detect_compress(data@, pos as int),
{
    if pos >= data.len() {
        return Err(FormatError::UnexpectedEof);
    }
    let n = data[pos] as usize;
    // The byte probed sits at pos + n + 17; the probe is meaningful only
    // when it lies strictly before the last byte of the buffer.
    let probe_wide: u128 = pos as u128 + n as u128 + 17;
    if probe_wide < data.len() as u128 {
        let probe = pos + n + 17;
        let b = data[probe];
        Ok(b == 0x00u8 || b == INFO_END)
    } else {
        Ok(false)
    }
}

/// Read a name at `*pos`: one length byte, then that many bytes decoded
/// through the legacy code page. Advances `*pos` past the name on success
/// and leaves it where it was on a truncated buffer.
pub fn read_string_by_u8_head(data: &[u8], pos: &mut usize) -> (r: Result<String, FormatError>)
    ensures
        ({
            let p = *old(pos) as int;
            if p >= data@.len() {
                r matches Err(e) && e == FormatError::UnexpectedEof && *final(pos) == *old(pos)
            } else if p + 1 + (data@[p] as int) > data@.len() {
                r matches Err(e) && e == FormatError::UnexpectedEof && *final(pos) == *old(pos)
            } else {
                r matches Ok(s) && s@ == gbk_chars_of(data@.subrange(p + 1, p + 1 + (data@[p] as int)))
                    && *final(pos) == *old(pos) + 1 + data@[p] && (is_ascii_byte_seq(
                    data@.subrange(p + 1, p + 1 + (data@[p] as int)),
                ) ==> s@ == bytes_as_chars(data@.subrange(p + 1, p + 1 + (data@[p] as int))))
            }
        }),
{
    let p = *pos;
    if p >= data.len() {
        return Err(FormatError::UnexpectedEof);
    }
    let length = data[p] as usize;
    if length > data.len() - (p + 1) {
        return Err(FormatError::UnexpectedEof);
    }
    let mut name_bytes: Vec<u8> = Vec::new();
    let mut i: usize = 0;
    while i < length
        invariant
            data@.len() <= usize::MAX,
            p + 1 + length <= data@.len(),
            i <= length,
            name_bytes@ == data@.subrange(p + 1, p + 1 + i),
        decreases length - i,
    {
        name_bytes.push(data[p + 1 + i]);
        assert(name_bytes@ =~= data@.subrange(p as int + 1, p + 1 + (i + 1)));
        i = i + 1;
    }
    let s = gbk_decode(name_bytes.as_slice());
    *pos = p + 1 + length;
    Ok(s)
}

/// Append a name to `out`: one length byte, then the name's bytes in the
/// legacy code page. A name longer than 255 encoded bytes does not fit the
/// length prefix and is refused, leaving `out` untouched.
pub fn write_string_by_u8_head(out: &mut Vec<u8>, s: &str) -> (r: Result<(), FormatError>)
    ensures
        gbk_bytes_of(s@).len() > 255 ==> (r matches Err(e) && e == FormatError::NameTooLong
            && final(out)@ == old(out)@),
        gbk_bytes_of(s@).len() <= 255 ==> (r matches Ok(u)
            && final(out)@ == old(out)@ + seq![gbk_bytes_of(s@).len() as u8] + gbk_bytes_of(s@)
            && (is_ascii_char_seq(s@) ==> gbk_bytes_of(s@) == chars_as_bytes(s@))),
{
    let encoded = gbk_encode(s);
    if encoded.len() > 255 {
        return Err(FormatError::NameTooLong);
    }
    out.push(encoded.len() as u8);
    let mut i: usize = 0;
    while i < encoded.len()
        invariant
            encoded@ == gbk_bytes_of(s@),
            encoded@.len() <= 255,
            i <= encoded@.len(),
            out@ == old(out)@ + seq![encoded@.len() as u8] + encoded@.take(i as int),
        decreases encoded@.len() - i,
    {
        out.push(encoded[i]);
        assert(out@ =~= old(out)@ + seq![encoded@.len() as u8] + encoded@.take(i + 1 as int));
        i = i + 1;
    }
    assert(encoded@.take(encoded@.len() as int) =~= encoded@);
    Ok(())
}

/// Decode an archive's header and file table from raw (de-obfuscated)
/// bytes: the container's metadata and records, plus the byte offset just
/// past the end sentinel, where the payload region starts. Fails exactly
/// where `spec_parse_pak` does, with the same typed error.
pub fn parse_pak_info(data: &[u8]) -> (r: Result<(PakInfo, usize), FormatError>)
    ensures
        ({
            match spec_parse_pak(data@) {
                Ok(t) => r matches Ok(v) && v.1 == t.end && v.0._magic == PAK_MAGIC && v.0.version
                    == t.version && v.0.compress == t.compress && v.0.pc && v.0.win
                    && v.0.file_info_library@.len() == t.entries.len() && (forall|i: int|
                    0 <= i < t.entries.len() ==> #[trigger] v.0.file_info_library@[i]@
                        == entry_chars_of_bytes(t.entries[i])) && (forall|i: int|
                    0 <= i < t.entries.len() && is_ascii_byte_seq(#[trigger] t.entries[i].name)
                        ==> v.0.file_info_library@[i]@.name == bytes_as_chars(t.entries[i].name)),
                Err(e) => r matches Err(e2) && e2 == e,
            }
        }),
{
    let mut pos: usize = 0;
    let magic = match read_u32_le(data, &mut pos) {
        Ok(m) => m,
        Err(e) => {
            return Err(e);
        },
    };
    if magic != PAK_MAGIC {
        return Err(FormatError::BadMagic);
    }
    let version = match read_u32_le(data, &mut pos) {
        Ok(v) => v,
        Err(e) => {
            return Err(e);
        },
    };

    let data_len = data.len();
    assert(data_len == data@.len() && data@.len() <= usize::MAX);

    let mut entries: Vec<FileInfo> = Vec::new();
    let ghost mut acc: Seq<EntryBytes> = Seq::empty();
    let mut compress: Option<bool> = None;
    let end: usize;

    loop
        invariant_except_break
            ({
                match spec_parse_entries(data@, pos as int, compress) {
                    Ok((rest, e, comp)) => spec_parse_entries(data@, 8, None) == Ok::<
                        (Seq<EntryBytes>, int, Option<bool>),
                        FormatError,
                    >((acc + rest, e, comp)),
                    Err(er) => spec_parse_entries(data@, 8, None) == Err::<
                        (Seq<EntryBytes>, int, Option<bool>),
                        FormatError,
                    >(er),
                }
            }),
        invariant
            8 <= pos <= data@.len(),
            data@.len() >= 8,
            data@.len() <= usize::MAX,
            le32(data@, 0) == PAK_MAGIC,
            version == le32(data@, 4),
            entries@.len() == acc.len(),
            forall|i: int|
                0 <= i < acc.len() ==> #[trigger] entries@[i]@ == entry_chars_of_bytes(acc[i]),
            forall|i: int|
                0 <= i < acc.len() && is_ascii_byte_seq(#[trigger] acc[i].name) ==> entries@[i]@.name
                    == bytes_as_chars(acc[i].name),
        ensures
            8 <= pos <= data@.len(),
            spec_parse_entries(data@, 8, None) == Ok::<
                (Seq<EntryBytes>, int, Option<bool>),
                FormatError,
            >((acc, pos as int, compress)),
            entries@.len() == acc.len(),
            forall|i: int|
                0 <= i < acc.len() ==> #[trigger] entries@[i]@ == entry_chars_of_bytes(acc[i]),
            forall|i: int|
                0 <= i < acc.len() && is_ascii_byte_seq(#[trigger] acc[i].name) ==> entries@[i]@.name
                    == bytes_as_chars(acc[i].name),
        decreases data@.len() - pos,
    {
        if pos >= data.len() {
            return Err(FormatError::UnexpectedEof);
        }
        let flag = data[pos];
        let ghost flag_pos = pos as int;
        if flag == INFO_END {
            proof {
                assert(acc + Seq::<EntryBytes>::empty() =~= acc);
            }
            pos = pos + 1;
            break;
        }
        if flag != 0x00u8 {
            return Err(FormatError::BadFlag { flag, offset: pos });
        }
        pos = pos + 1;

        let c: bool = match compress {
            Some(b) => b,
            None => {
                match detect_compress(data, pos) {
                    Ok(b) => b,
                    Err(e) => {
                        return Err(e);
                    },
                }
            },
        };
        compress = Some(c);

        let ghost entry_pos = pos as int;
        let file_name = match read_string_by_u8_head(data, &mut pos) {
            Ok(s) => s,
            Err(e) => {
                return Err(e);
            },
        };
        let z_size = match read_u32_le(data, &mut pos) {
            Ok(v) => v,
            Err(e) => {
                return Err(e);
            },
        };
        let size = if c {
            match read_u32_le(data, &mut pos) {
                Ok(v) => v,
                Err(e) => {
                    return Err(e);
                },
            }
        } else {
            0
        };
        let file_time = match read_u64_le(data, &mut pos) {
            Ok(v) => v,
            Err(e) => {
                return Err(e);
            },
        };

        proof {
            let eb_pair = spec_read_entry(data@, entry_pos, c);
            assert(eb_pair matches Ok(p2) && p2.1 == pos as int);
        }
        let ghost eb = spec_read_entry(data@, entry_pos, c)->Ok_0.0;
        entries.push(FileInfo { file_name, z_size, _size: size, _file_time: file_time });
        proof {
            assert(entries@[acc.len() as int]@ == entry_chars_of_bytes(eb));
            let old_acc = acc;
            acc = acc.push(eb);
            assert forall|i: int| 0 <= i < acc.len() implies #[trigger] entries@[i]@
                == entry_chars_of_bytes(acc[i]) by {
                if i < old_acc.len() {
                    assert(entries@[i]@ == entry_chars_of_bytes(old_acc[i]));
                }
            }
            assert forall|i: int|
                0 <= i < acc.len() && is_ascii_byte_seq(
                    #[trigger] acc[i].name,
                ) implies entries@[i]@.name == bytes_as_chars(acc[i].name) by {
                if i < old_acc.len() {
                    assert(acc[i] == old_acc[i]);
                    assert(entries@[i] == entries@.subrange(0, old_acc.len() as int)[i]);
                } else {
                    assert(acc[i] == eb);
                }
            }
            match spec_parse_entries(data@, pos as int, Some(c)) {
                Ok((rest, e, comp)) => {
                    assert(old_acc + (seq![eb] + rest) =~= acc + rest);
                },
                Err(er) => {},
            }
        }
    }

    let info = PakInfo {
        _magic: PAK_MAGIC,
        version,
        file_info_library: entries,
        compress,
        pc: true,
        win: true,
    };
    Ok((info, pos))
}

} // verus!
