use pak::archive::{parse_pak, extract_pak, normalize_path_exec, path_is_safe_exec, PakError};
use pak::bytes::decrypt;
use pak::reader::PakReader;

/// Lays records out in the plaintext archive format: header, one table
/// entry per record, the terminator byte, then the concatenated payloads.
fn encode_plain(records: &[(&str, &[u8])]) -> Vec<u8> {
    let mut v: Vec<u8> = Vec::new();
    v.extend_from_slice(&0xBAC04AC0u32.to_le_bytes());
    v.extend_from_slice(&0u32.to_le_bytes());
    for (name, content) in records {
        v.push(0u8);
        v.push(name.len() as u8);
        v.extend_from_slice(name.as_bytes());
        v.extend_from_slice(&(content.len() as u32).to_le_bytes());
        v.extend_from_slice(&0x01d8_9a2f_5b00_0000u64.to_le_bytes());
    }
    v.push(0x80);
    for (_, content) in records {
        v.extend_from_slice(content);
    }
    v
}

/// XOR-s every byte with the fixed key, turning plaintext into an archive
/// image (and back).
fn obfuscate(mut v: Vec<u8>) -> Vec<u8> {
    for b in &mut v {
        *b ^= 0xF7;
    }
    v
}

#[test]
fn round_trip_two_files() {
    let plain = encode_plain(&[("a\\b.txt", &[1, 2, 3]), ("dir/inner.bin", &[9, 8, 7, 6])]);
    let image = obfuscate(plain);
    let files = extract_pak(image).expect("round trip must decode");
    assert_eq!(files.len(), 2);
    assert_eq!(files[0].path, "a/b.txt");
    assert_eq!(files[0].data, vec![1, 2, 3]);
    assert_eq!(files[1].path, "dir/inner.bin");
    assert_eq!(files[1].data, vec![9, 8, 7, 6]);
}

#[test]
fn example_scenario() {
    let image = obfuscate(encode_plain(&[("a\\b.txt", &[0x01, 0x02, 0x03])]));
    let files = extract_pak(image).expect("scenario archive must decode");
    assert_eq!(files.len(), 1);
    assert_eq!(files[0].path, "a/b.txt");
    assert_eq!(files[0].data, vec![0x01, 0x02, 0x03]);
}

#[test]
fn terminator_only_yields_no_files() {
    let files = parse_pak(encode_plain(&[])).expect("empty table must decode");
    assert_eq!(files.len(), 0);
}

#[test]
fn header_rejection_bad_magic() {
    let mut plain = encode_plain(&[("a.txt", &[1])]);
    plain[0] ^= 0xFF;
    assert_eq!(parse_pak(plain), Err(PakError::BadMagic));
}

#[test]
fn header_rejection_short_buffer() {
    assert_eq!(parse_pak(vec![0xC0, 0x4A]), Err(PakError::EndOfStream));
}

#[test]
fn header_rejection_bad_version() {
    let mut plain = encode_plain(&[]);
    plain[4] = 1;
    assert_eq!(parse_pak(plain), Err(PakError::BadVersion));
}

#[test]
fn truncation_is_end_of_stream() {
    let mut plain = encode_plain(&[("a.txt", &[5, 6, 7])]);
    plain.pop();
    assert_eq!(parse_pak(plain), Err(PakError::EndOfStream));
}

#[test]
fn missing_terminator_is_end_of_stream() {
    let mut plain = encode_plain(&[]);
    plain.pop();
    assert_eq!(parse_pak(plain), Err(PakError::EndOfStream));
}

#[test]
fn traversal_dotdot_rejected() {
    let plain = encode_plain(&[("../../evil.txt", &[1])]);
    assert_eq!(parse_pak(plain), Err(PakError::UnsafePath));
}

#[test]
fn traversal_backslash_rejected() {
    let plain = encode_plain(&[("..\\evil.txt", &[1])]);
    assert_eq!(parse_pak(plain), Err(PakError::UnsafePath));
}

#[test]
fn absolute_path_rejected() {
    let plain = encode_plain(&[("/etc/evil", &[1])]);
    assert_eq!(parse_pak(plain), Err(PakError::UnsafePath));
}

#[test]
fn inner_parent_segment_rejected() {
    let plain = encode_plain(&[("a/../b.txt", &[1])]);
    assert_eq!(parse_pak(plain), Err(PakError::UnsafePath));
}

#[test]
fn plain_dots_in_names_allowed() {
    let plain = encode_plain(&[("a..b.txt", &[1]), ("...txt", &[2]), ("c/.hidden", &[3])]);
    let files = parse_pak(plain).expect("dotted names are not parent segments");
    assert_eq!(files[0].path, "a..b.txt");
    assert_eq!(files[1].path, "...txt");
    assert_eq!(files[2].path, "c/.hidden");
}

#[test]
fn zero_size_record_gives_empty_file() {
    let plain = encode_plain(&[("empty.txt", &[])]);
    let files = parse_pak(plain).expect("zero-size record must decode");
    assert_eq!(files.len(), 1);
    assert_eq!(files[0].path, "empty.txt");
    assert_eq!(files[0].data, Vec::<u8>::new());
}

#[test]
fn non_ascii_name_round_trips() {
    let plain = encode_plain(&[("caf\u{e9}/\u{43c}\u{438}\u{440}.txt", &[42])]);
    let files = parse_pak(plain).expect("UTF-8 names must decode");
    assert_eq!(files[0].path, "caf\u{e9}/\u{43c}\u{438}\u{440}.txt");
}

#[test]
fn invalid_utf8_name_rejected() {
    let mut v: Vec<u8> = Vec::new();
    v.extend_from_slice(&0xBAC04AC0u32.to_le_bytes());
    v.extend_from_slice(&0u32.to_le_bytes());
    v.push(0u8);
    v.push(2u8);
    v.extend_from_slice(&[0xFF, 0xFE]);
    v.extend_from_slice(&1u32.to_le_bytes());
    v.extend_from_slice(&0u64.to_le_bytes());
    v.push(0x80);
    v.push(7);
    assert_eq!(parse_pak(v), Err(PakError::InvalidUtf8));
}

#[test]
fn byte_order_u32() {
    let mut rd = PakReader::new(vec![0x01, 0x00, 0x00, 0x00]);
    assert_eq!(rd.read_u32(), Ok(1));
}

#[test]
fn byte_order_u32_general() {
    let mut rd = PakReader::new(vec![0x78, 0x56, 0x34, 0x12]);
    assert_eq!(rd.read_u32(), Ok(0x12345678));
}

#[test]
fn byte_order_u64() {
    let mut rd = PakReader::new(vec![0xF0, 0xDE, 0xBC, 0x9A, 0x78, 0x56, 0x34, 0x12]);
    assert_eq!(rd.read_u64(), Ok(0x123456789ABCDEF0));
}

#[test]
fn reader_u8_and_end_of_stream() {
    let mut rd = PakReader::new(vec![0xAB]);
    assert_eq!(rd.read_u8(), Ok(0xAB));
    assert_eq!(rd.read_u8(), Err(PakError::EndOfStream));
}

#[test]
fn reader_vec_exact_and_empty() {
    let mut rd = PakReader::new(vec![10, 20, 30]);
    assert_eq!(rd.read_vec_u8(0), Ok(Vec::new()));
    assert_eq!(rd.read_vec_u8(2), Ok(vec![10, 20]));
    assert_eq!(rd.read_vec_u8(2), Err(PakError::EndOfStream));
}

#[test]
fn reader_u32_end_of_stream() {
    let mut rd = PakReader::new(vec![1, 2, 3]);
    assert_eq!(rd.read_u32(), Err(PakError::EndOfStream));
}

#[test]
fn reader_u64_end_of_stream() {
    let mut rd = PakReader::new(vec![1, 2, 3, 4, 5, 6, 7]);
    assert_eq!(rd.read_u64(), Err(PakError::EndOfStream));
}

#[test]
fn reader_string_decodes_utf8() {
    let mut rd = PakReader::new("h\u{e9}llo!".as_bytes().to_vec());
    let s = rd.read_string(3).expect("valid UTF-8 must decode");
    assert_eq!(s, "h\u{e9}");
    assert_eq!(rd.read_string(10), Err(PakError::EndOfStream));
}

#[test]
fn reader_string_rejects_invalid_utf8() {
    let mut rd = PakReader::new(vec![0xC3, 0x28]);
    assert_eq!(rd.read_string(2), Err(PakError::InvalidUtf8));
}

#[test]
fn decrypt_is_involutive() {
    let v: Vec<u8> = vec![0x00, 0x12, 0xF7, 0xFF, 0x42];
    assert_eq!(decrypt(decrypt(v.clone())), v);
}

#[test]
fn decrypt_applies_fixed_key() {
    assert_eq!(decrypt(vec![0x00, 0xF7]), vec![0xF7, 0x00]);
}

#[test]
fn normalization_replaces_backslashes() {
    let s = String::from("a\\b\\c.txt");
    assert_eq!(normalize_path_exec(&s), "a/b/c.txt");
    let t = String::from("no-change.txt");
    assert_eq!(normalize_path_exec(&t), "no-change.txt");
}

#[test]
fn safety_check_on_normalized_paths() {
    assert!(path_is_safe_exec(&String::from("a/b.txt")));
    assert!(path_is_safe_exec(&String::from("")));
    assert!(path_is_safe_exec(&String::from("..a/b")));
    assert!(!path_is_safe_exec(&String::from("../b")));
    assert!(!path_is_safe_exec(&String::from("a/..")));
    assert!(!path_is_safe_exec(&String::from("..")));
    assert!(!path_is_safe_exec(&String::from("/a")));
    assert!(!path_is_safe_exec(&String::from("x/../y")));
}

#[test]
fn low_flag_bits_are_ignored() {
    let mut v: Vec<u8> = Vec::new();
    v.extend_from_slice(&0xBAC04AC0u32.to_le_bytes());
    v.extend_from_slice(&0u32.to_le_bytes());
    v.push(0x3F);
    v.push(5u8);
    v.extend_from_slice(b"x.bin");
    v.extend_from_slice(&2u32.to_le_bytes());
    v.extend_from_slice(&0u64.to_le_bytes());
    v.push(0xFF);
    v.extend_from_slice(&[0xAA, 0xBB]);
    let files = parse_pak(v).expect("only bit 7 of the flags byte matters");
    assert_eq!(files.len(), 1);
    assert_eq!(files[0].path, "x.bin");
    assert_eq!(files[0].data, vec![0xAA, 0xBB]);
}

#[test]
fn longest_name_round_trips() {
    let long_name = "n".repeat(255);
    let plain = encode_plain(&[(&long_name, &[1])]);
    let files = parse_pak(plain).expect("a 255-byte name fits the length field");
    assert_eq!(files[0].path, long_name);
}

#[test]
fn payloads_follow_table_order() {
    let plain = encode_plain(&[("one", &[1]), ("two", &[2, 2]), ("three", &[3, 3, 3])]);
    let files = parse_pak(plain).expect("well-formed archive must decode");
    assert_eq!(files[0].data, vec![1]);
    assert_eq!(files[1].data, vec![2, 2]);
    assert_eq!(files[2].data, vec![3, 3, 3]);
}
