use objectstore::decimal::{format_u64, parse_u64};
use objectstore::encoding::{get_object_prefix, get_object_prefix_bytes, hash_object, read_header_from_slice};
use objectstore::hexcode::{decode_hex, encode_hex};
use objectstore::objects::{Mode, ObjectType};
use objectstore::bodies::{encode_tree_body, parse_tree_entries, TreeEntry};
use sha2::Digest;

#[test]
fn hex_encode_known() {
    assert_eq!(encode_hex(&[0u8, 255, 16]), "00ff10");
    assert_eq!(encode_hex(&[]), "");
}

#[test]
fn hex_decode_known() {
    assert_eq!(decode_hex("00ff10"), Some(vec![0u8, 255, 16]));
    assert_eq!(decode_hex("ABCDEF"), Some(vec![0xABu8, 0xCD, 0xEF]));
    assert_eq!(decode_hex("0"), None);
    assert_eq!(decode_hex("zz"), None);
    assert_eq!(decode_hex(""), Some(vec![]));
}

#[test]
fn hex_matches_hex_crate() {
    let bytes = vec![1u8, 2, 3, 250, 251, 252];
    assert_eq!(encode_hex(bytes.as_slice()), hex::encode(&bytes));
    assert_eq!(
        decode_hex("0102fdfe").unwrap(),
        hex::decode("0102fdfe").unwrap()
    );
}

#[test]
fn hash_from_string_accepts_128_hex() {
    let text: String = "ab".repeat(64);
    let h = objectstore::hash::Hash::from_string(&text).expect("valid hash");
    assert_eq!(h.hash.len(), 64);
    assert_eq!(h.hash_string, text);
}

#[test]
fn hash_from_string_canonicalizes_case() {
    let upper: String = "AB".repeat(64);
    let h = objectstore::hash::Hash::from_string(&upper).expect("valid hash");
    assert_eq!(h.hash_string, "ab".repeat(64));
}

#[test]
fn hash_from_string_rejects_wrong_lengths() {
    let too_short: String = "a".repeat(127);
    let too_long: String = "a".repeat(129);
    assert!(objectstore::hash::Hash::from_string(&too_short).is_none());
    assert!(objectstore::hash::Hash::from_string(&too_long).is_none());
}

#[test]
fn hash_from_string_rejects_non_hex() {
    let mut text: String = "a".repeat(127);
    text.push('g');
    assert_eq!(text.len(), 128);
    assert!(objectstore::hash::Hash::from_string(&text).is_none());
}

#[test]
fn hash_parts_and_path() {
    let text: String = "ab".repeat(64);
    let h = objectstore::hash::Hash::from_string(&text).unwrap();
    let (dir, file) = h.get_parts();
    assert_eq!(dir, "ab");
    assert_eq!(file, "ab".repeat(63));
    let path = h.get_path("cache");
    assert_eq!(path, format!("cache/ab/{}", "ab".repeat(63)));
}

#[test]
fn hash_from_path_roundtrip() {
    let text: String = "12".repeat(64);
    let h = objectstore::hash::Hash::from_string(&text).unwrap();
    let (dir, file) = h.get_parts();
    let dir = dir.to_string();
    let file = file.to_string();
    let h2 = objectstore::hash::Hash::from_path(&dir, &file).expect("valid path parts");
    assert_eq!(h, h2);
}

#[test]
fn hash_from_path_rejects_bad_parts() {
    let file126: String = "a".repeat(126);
    assert!(objectstore::hash::Hash::from_path("abc", &file126).is_none());
    assert!(objectstore::hash::Hash::from_path("ab", "a").is_none());
    let mut bad = "a".repeat(125);
    bad.push('!');
    assert!(objectstore::hash::Hash::from_path("ab", &bad).is_none());
}

#[test]
fn object_prefix_text() {
    assert_eq!(get_object_prefix(ObjectType::Blob, 5), "blob 5\0");
    assert_eq!(get_object_prefix(ObjectType::Tree, 0), "tree 0\0");
    assert_eq!(get_object_prefix(ObjectType::Index, 1234), "index 1234\0");
    assert_eq!(
        get_object_prefix_bytes(ObjectType::Blob, 5),
        b"blob 5\0".to_vec()
    );
}

#[test]
fn header_parses_back() {
    assert_eq!(
        read_header_from_slice(b"blob 5"),
        Some((ObjectType::Blob, 5))
    );
    assert_eq!(
        read_header_from_slice(b"tree 007"),
        Some((ObjectType::Tree, 7))
    );
    assert_eq!(
        read_header_from_slice(b"index 18446744073709551615"),
        Some((ObjectType::Index, u64::MAX))
    );
}

#[test]
fn header_rejects_malformed() {
    assert_eq!(read_header_from_slice(b"blob"), None);
    assert_eq!(read_header_from_slice(b"blob x"), None);
    assert_eq!(read_header_from_slice(b"blob "), None);
    assert_eq!(read_header_from_slice(b"commit 5"), None);
    assert_eq!(read_header_from_slice(b"blob 18446744073709551616"), None);
    assert_eq!(read_header_from_slice(b"blob +5"), None);
    assert_eq!(read_header_from_slice(b""), None);
}

#[test]
fn mode_codec() {
    assert_eq!(Mode::from_str("040000"), Some(Mode::Tree));
    assert_eq!(Mode::from_str("100644"), Some(Mode::Normal));
    assert_eq!(Mode::from_str("100755"), Some(Mode::Executable));
    assert_eq!(Mode::from_str("120000"), Some(Mode::SymbolicLink));
    assert_eq!(Mode::from_str("000000"), None);
    assert_eq!(Mode::Tree.to_str(), "040000");
    assert_eq!(Mode::Normal.to_str(), "100644");
    assert_eq!(Mode::Executable.to_str(), "100755");
    assert_eq!(Mode::SymbolicLink.to_str(), "120000");
}

#[test]
fn object_type_codec() {
    assert_eq!(ObjectType::from_str("blob"), Some(ObjectType::Blob));
    assert_eq!(ObjectType::from_str("tree"), Some(ObjectType::Tree));
    assert_eq!(ObjectType::from_str("index"), Some(ObjectType::Index));
    assert_eq!(ObjectType::from_str("Blob"), None);
    assert_eq!(ObjectType::from_str(""), None);
    assert_eq!(ObjectType::Blob.to_str(), "blob");
    assert_eq!(ObjectType::Tree.to_str(), "tree");
    assert_eq!(ObjectType::Index.to_str(), "index");
}

#[test]
fn decimal_codec() {
    assert_eq!(format_u64(0), "0");
    assert_eq!(format_u64(42), "42");
    assert_eq!(format_u64(u64::MAX), "18446744073709551615");
    assert_eq!(parse_u64(b"0"), Some(0));
    assert_eq!(parse_u64(b"18446744073709551615"), Some(u64::MAX));
    assert_eq!(parse_u64(b"18446744073709551616"), None);
    assert_eq!(parse_u64(b""), None);
    assert_eq!(parse_u64(b"+5"), None);
    assert_eq!(parse_u64(b"5 "), None);
}

#[test]
fn object_hash_matches_direct_digest() {
    let h = hash_object(ObjectType::Blob, b"hello");
    let expected = sha2::Sha512::digest(b"blob 5\0hello");
    assert_eq!(h.hash, expected.to_vec());
    assert_eq!(h.hash_string, hex::encode(expected));
}

#[test]
fn empty_input_digest_is_sha512_of_prefix() {
    let h = hash_object(ObjectType::Blob, b"");
    let expected = sha2::Sha512::digest(b"blob 0\0");
    assert_eq!(h.hash_string, hex::encode(expected));
}

#[test]
fn tree_body_roundtrips_through_parse() {
    let child = hash_object(ObjectType::Blob, b"hello");
    let entries = vec![
        TreeEntry { mode: Mode::Normal, name: b"a.txt".to_vec(), hash: child.duplicate() },
        TreeEntry { mode: Mode::Tree, name: b"sub".to_vec(), hash: child.duplicate() },
    ];
    let body = encode_tree_body(&entries);
    assert_eq!(&body[..7], b"100644 ");
    let parsed = parse_tree_entries(body.as_slice()).expect("well-formed tree body");
    assert_eq!(parsed.len(), 2);
    assert_eq!(parsed[0].name, b"a.txt".to_vec());
    assert_eq!(parsed[0].mode, Mode::Normal);
    assert_eq!(parsed[0].hash, child);
    assert_eq!(parsed[1].name, b"sub".to_vec());
    assert_eq!(parsed[1].mode, Mode::Tree);
}

#[test]
fn tree_body_parse_rejects_garbage() {
    assert!(parse_tree_entries(b"100644 a.txt").is_none());
    assert!(parse_tree_entries(b"999999 a.txt\0").is_none());
    assert!(parse_tree_entries(b"10064").is_none());
}
