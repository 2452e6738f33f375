use pvz_pak_tool::collect::build_file_infos;
use pvz_pak_tool::crypt::{crypt_data, detect_encryption, CRYPT_KEY, PAK_MAGIC};
use pvz_pak_tool::errors::{FormatError, InputError};
use pvz_pak_tool::pack::{encode_pak, extract_payloads};
use pvz_pak_tool::pak::{parse_pak_info, PakInfo, DEFAULT_FILE_TIME};
use pvz_pak_tool::{read_string_by_u8_head, read_u32_le, read_u64_le, write_string_by_u8_head};

fn sample_archive() -> Vec<u8> {
    let names = vec!["a.txt".to_string(), "sub\\b.txt".to_string()];
    let sizes = vec![3u64, 5u64];
    let infos = build_file_infos(&names, &sizes).unwrap();
    let mut pak = PakInfo::new();
    pak.file_info_library = infos;
    pak.compress = Some(false);
    let payloads = vec![vec![1u8, 2, 3], vec![10u8, 20, 30, 40, 50]];
    encode_pak(&pak, &payloads).unwrap()
}

#[test]
fn crypt_is_involutive() {
    let mut data: Vec<u8> = (0u8..=255).collect();
    let original = data.clone();
    crypt_data(&mut data);
    assert_ne!(data, original);
    crypt_data(&mut data);
    assert_eq!(data, original);
}

#[test]
fn crypt_xors_each_byte() {
    let mut data = vec![0u8, 0xFF, 0x42];
    crypt_data(&mut data);
    assert_eq!(data, vec![CRYPT_KEY, 0xFF ^ CRYPT_KEY, 0x42 ^ CRYPT_KEY]);
}

#[test]
fn detect_encryption_on_obfuscated_archive() {
    let mut data = sample_archive();
    assert!(!detect_encryption(&data));
    crypt_data(&mut data);
    assert!(detect_encryption(&data));
    crypt_data(&mut data);
    assert!(!detect_encryption(&data));
}

#[test]
fn detect_encryption_fails_open_on_unknown_magic() {
    // anything that is not the obfuscated magic reads as "not obfuscated"
    let data = vec![9u8, 9, 9, 9, 0, 0, 0, 0];
    assert!(!detect_encryption(&data));
    // too short to even hold a header
    assert!(!detect_encryption(&vec![0x37u8, 0xBD, 0x37, 0x4D]));
}

#[test]
fn read_u32_le_exact_value() {
    let data = [0x78u8, 0x56, 0x34, 0x12, 0xFF];
    let mut pos = 0usize;
    assert_eq!(read_u32_le(&data, &mut pos), Ok(0x12345678));
    assert_eq!(pos, 4);
    let mut pos = 2usize;
    assert_eq!(read_u32_le(&data, &mut pos), Err(FormatError::UnexpectedEof));
    assert_eq!(pos, 2);
}

#[test]
fn read_u64_le_exact_value() {
    let data = [0x01u8, 0x02, 0x03, 0x04, 0x05, 0x06, 0x07, 0x08];
    let mut pos = 0usize;
    assert_eq!(read_u64_le(&data, &mut pos), Ok(0x0807060504030201));
    assert_eq!(pos, 8);
    let mut pos = 1usize;
    assert_eq!(read_u64_le(&data, &mut pos), Err(FormatError::UnexpectedEof));
}

#[test]
fn name_codec_round_trips_ascii() {
    let mut out: Vec<u8> = Vec::new();
    write_string_by_u8_head(&mut out, "hello.txt").unwrap();
    assert_eq!(out[0], 9);
    assert_eq!(&out[1..], b"hello.txt");
    let mut pos = 0usize;
    let back = read_string_by_u8_head(&out, &mut pos).unwrap();
    assert_eq!(back, "hello.txt");
    assert_eq!(pos, 10);
}

#[test]
fn name_codec_uses_legacy_code_page() {
    // a name outside ASCII takes the legacy 8-bit encoding, not UTF-8
    let name = "\u{690D}\u{7269}.txt";
    let mut out: Vec<u8> = Vec::new();
    write_string_by_u8_head(&mut out, name).unwrap();
    let (expected, _, _) = encoding_rs::GBK.encode(name);
    assert_eq!(out[0] as usize, expected.len());
    assert_eq!(&out[1..], expected.as_ref());
    assert_ne!(&out[1..], name.as_bytes());
    let mut pos = 0usize;
    let back = read_string_by_u8_head(&out, &mut pos).unwrap();
    assert_eq!(back, name);
}

#[test]
fn name_too_long_is_refused() {
    let long: String = std::iter::repeat('x').take(256).collect();
    let mut out: Vec<u8> = Vec::new();
    assert_eq!(write_string_by_u8_head(&mut out, &long), Err(FormatError::NameTooLong));
    assert!(out.is_empty());
    let ok: String = std::iter::repeat('x').take(255).collect();
    assert!(write_string_by_u8_head(&mut out, &ok).is_ok());
}

#[test]
fn encode_then_parse_round_trips() {
    let data = sample_archive();
    let (pak, header_size) = parse_pak_info(&data).unwrap();
    assert_eq!(pak.version, 0);
    assert_eq!(pak.compress, Some(false));
    assert_eq!(pak.file_info_library.len(), 2);
    assert_eq!(pak.file_info_library[0].file_name, "a.txt");
    assert_eq!(pak.file_info_library[0].z_size, 3);
    assert_eq!(pak.file_info_library[0]._file_time, DEFAULT_FILE_TIME);
    assert_eq!(pak.file_info_library[1].file_name, "sub\\b.txt");
    assert_eq!(pak.file_info_library[1].z_size, 5);
    assert_eq!(data.len(), header_size + 3 + 5);

    let payloads = extract_payloads(&data, header_size, &pak.file_info_library).unwrap();
    assert_eq!(payloads, vec![vec![1u8, 2, 3], vec![10u8, 20, 30, 40, 50]]);
}

#[test]
fn decode_is_deterministic() {
    let data = sample_archive();
    let (pak1, h1) = parse_pak_info(&data).unwrap();
    let (pak2, h2) = parse_pak_info(&data).unwrap();
    assert_eq!(h1, h2);
    assert_eq!(pak1.version, pak2.version);
    assert_eq!(pak1.compress, pak2.compress);
    assert_eq!(pak1.file_info_library.len(), pak2.file_info_library.len());
    for (a, b) in pak1.file_info_library.iter().zip(pak2.file_info_library.iter()) {
        assert_eq!(a.file_name, b.file_name);
        assert_eq!(a.z_size, b.z_size);
        assert_eq!(a._size, b._size);
        assert_eq!(a._file_time, b._file_time);
    }
}

#[test]
fn bad_magic_is_refused() {
    let mut data = sample_archive();
    data[0] ^= 0xFF;
    assert!(matches!(parse_pak_info(&data), Err(FormatError::BadMagic)));
}

#[test]
fn bad_flag_is_reported_with_offset() {
    let mut data: Vec<u8> = Vec::new();
    data.extend_from_slice(&PAK_MAGIC.to_le_bytes());
    data.extend_from_slice(&0u32.to_le_bytes());
    data.push(0x05);
    assert!(matches!(
        parse_pak_info(&data),
        Err(FormatError::BadFlag { flag: 0x05, offset: 8 })
    ));
}

#[test]
fn truncation_inside_table_reads_as_eof() {
    let data = sample_archive();
    let (_, header_size) = parse_pak_info(&data).unwrap();
    for cut in 0..header_size {
        let truncated = &data[..cut];
        assert!(
            matches!(parse_pak_info(truncated), Err(FormatError::UnexpectedEof)),
            "cut at {cut}"
        );
    }
}

#[test]
fn collector_accepts_the_32_bit_ceiling() {
    let names = vec!["big.bin".to_string()];
    let at_limit = vec![u32::MAX as u64];
    assert!(build_file_infos(&names, &at_limit).is_ok());
    let over_limit = vec![u32::MAX as u64 + 1];
    assert!(matches!(
        build_file_infos(&names, &over_limit),
        Err(InputError::FileTooLarge)
    ));
}

#[test]
fn collector_refuses_duplicates_and_emptiness() {
    assert!(matches!(build_file_infos(&vec![], &vec![]), Err(InputError::EmptyInput)));
    let names = vec!["x".to_string(), "y".to_string(), "x".to_string()];
    let sizes = vec![1u64, 2, 3];
    assert!(matches!(
        build_file_infos(&names, &sizes),
        Err(InputError::DuplicateName)
    ));
}

#[test]
fn encode_refuses_oversized_names() {
    let long: String = std::iter::repeat('n').take(300).collect();
    let names = vec![long];
    let sizes = vec![1u64];
    let infos = build_file_infos(&names, &sizes).unwrap();
    let mut pak = PakInfo::new();
    pak.file_info_library = infos;
    pak.compress = Some(false);
    let payloads = vec![vec![7u8]];
    assert_eq!(encode_pak(&pak, &payloads), Err(FormatError::NameTooLong));
}

#[test]
fn payload_extraction_checks_bounds() {
    let data = sample_archive();
    let (pak, header_size) = parse_pak_info(&data).unwrap();
    let short = &data[..data.len() - 1];
    assert_eq!(
        extract_payloads(short, header_size, &pak.file_info_library),
        Err(FormatError::UnexpectedEof)
    );
}

#[test]
fn compressed_mode_is_auto_detected() {
    // a hand-built archive in compressed mode: flag, name, z_size,
    // original size, timestamp, sentinel; the heuristic must see the
    // sentinel where the compressed layout predicts a flag
    let mut data: Vec<u8> = Vec::new();
    data.extend_from_slice(&PAK_MAGIC.to_le_bytes());
    data.extend_from_slice(&0u32.to_le_bytes());
    data.push(0x00);
    data.push(1);
    data.push(b'f');
    data.extend_from_slice(&4u32.to_le_bytes()); // z_size
    data.extend_from_slice(&9u32.to_le_bytes()); // original size
    data.extend_from_slice(&0u64.to_le_bytes()); // timestamp
    data.push(0x80);
    data.extend_from_slice(&[1, 2, 3, 4]);
    let (pak, header_size) = parse_pak_info(&data).unwrap();
    assert_eq!(pak.compress, Some(true));
    assert_eq!(pak.file_info_library.len(), 1);
    assert_eq!(pak.file_info_library[0].file_name, "f");
    assert_eq!(pak.file_info_library[0].z_size, 4);
    assert_eq!(pak.file_info_library[0]._size, 9);
    assert_eq!(data.len(), header_size + 4);
}

#[test]
fn empty_archive_parses_to_no_entries() {
    let pak = PakInfo::new();
    let out = encode_pak(&pak, &vec![]).unwrap();
    let (parsed, header_size) = parse_pak_info(&out).unwrap();
    assert!(parsed.file_info_library.is_empty());
    assert_eq!(parsed.compress, None);
    assert_eq!(header_size, 9);
    assert_eq!(out.len(), 9);
}
