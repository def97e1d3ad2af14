use objectstore::encoding::hash_object;
use objectstore::errors::StoreError;
use objectstore::objects::ObjectType;
use objectstore::server::{
    check_download_request, check_upload_request, DownloadDecision, PresenceSets, TestCodec,
    UploadOutcome, UploadRequestCheck,
};

fn hello_hash_text() -> String {
    hash_object(ObjectType::Blob, b"hello").hash_string
}

#[test]
fn upload_accepts_matching_body() {
    let id = hello_hash_text();
    let check = check_upload_request(
        &id,
        false,
        Some(&"blob".to_string()),
        Some(&"5".to_string()),
    );
    let (mut sess, prefix) = match check {
        UploadRequestCheck::Proceed(s, p) => (s, p),
        _ => panic!("expected the upload to proceed"),
    };
    assert_eq!(prefix, b"blob 5\0".to_vec());
    assert!(sess.push_chunk(b"hel"));
    assert!(sess.push_chunk(b"lo"));
    assert_eq!(sess.finish(), UploadOutcome::Created);
}

#[test]
fn upload_rejects_digest_mismatch() {
    let id = hello_hash_text();
    let check = check_upload_request(
        &id,
        false,
        Some(&"blob".to_string()),
        Some(&"5".to_string()),
    );
    let mut sess = match check {
        UploadRequestCheck::Proceed(s, _) => s,
        _ => panic!("expected the upload to proceed"),
    };
    assert!(sess.push_chunk(b"world"));
    assert_eq!(sess.finish(), UploadOutcome::HashMismatch);
}

#[test]
fn upload_rejects_length_mismatch() {
    let id = hello_hash_text();
    let check = check_upload_request(
        &id,
        false,
        Some(&"blob".to_string()),
        Some(&"4".to_string()),
    );
    let mut sess = match check {
        UploadRequestCheck::Proceed(s, _) => s,
        _ => panic!("expected the upload to proceed"),
    };
    assert!(sess.push_chunk(b"hello"));
    assert_eq!(sess.finish(), UploadOutcome::LengthMismatch);
}

#[test]
fn upload_duplicate_is_a_noop_success() {
    let id = hello_hash_text();
    let check = check_upload_request(
        &id,
        true,
        Some(&"blob".to_string()),
        Some(&"5".to_string()),
    );
    assert!(matches!(check, UploadRequestCheck::Duplicate(_)));
}

#[test]
fn upload_rejects_invalid_hash() {
    let short = "abc".to_string();
    let check = check_upload_request(
        &short,
        false,
        Some(&"blob".to_string()),
        Some(&"5".to_string()),
    );
    assert!(matches!(check, UploadRequestCheck::InvalidHash));
}

#[test]
fn upload_rejects_bad_headers() {
    let id = hello_hash_text();
    let c1 = check_upload_request(&id, false, None, Some(&"5".to_string()));
    assert!(matches!(c1, UploadRequestCheck::MissingOrInvalidHeader));
    let c2 = check_upload_request(&id, false, Some(&"blob".to_string()), None);
    assert!(matches!(c2, UploadRequestCheck::MissingOrInvalidHeader));
    let c3 = check_upload_request(
        &id,
        false,
        Some(&"commit".to_string()),
        Some(&"5".to_string()),
    );
    assert!(matches!(c3, UploadRequestCheck::MissingOrInvalidHeader));
    let c4 = check_upload_request(
        &id,
        false,
        Some(&"blob".to_string()),
        Some(&"five".to_string()),
    );
    assert!(matches!(c4, UploadRequestCheck::MissingOrInvalidHeader));
}

#[test]
fn download_absent_and_invalid() {
    let id = hello_hash_text();
    assert!(matches!(
        check_download_request(&id, false),
        DownloadDecision::Absent
    ));
    assert!(matches!(
        check_download_request(&id, true),
        DownloadDecision::Proceed(_)
    ));
    let bad = "xyz".to_string();
    assert!(matches!(
        check_download_request(&bad, false),
        DownloadDecision::InvalidHash
    ));
}

#[test]
fn decoder_strips_header_and_streams_body() {
    let mut codec = TestCodec::new();
    let mut buf: Vec<u8> = b"blob 5\0hello".to_vec();
    let first = codec.decode(&mut buf).expect("well-formed header");
    assert_eq!(codec.0, Some((ObjectType::Blob, 5)));
    assert_eq!(first, Some(b"hello".to_vec()));
    assert!(buf.is_empty());
    let again = codec.decode(&mut buf).expect("no more data");
    assert_eq!(again, None);
}

#[test]
fn decoder_waits_for_header_across_chunks() {
    let mut codec = TestCodec::new();
    let mut buf: Vec<u8> = b"blob ".to_vec();
    assert_eq!(codec.decode(&mut buf).expect("needs more data"), None);
    assert_eq!(codec.0, None);
    buf.extend_from_slice(b"5\0he");
    let first = codec.decode(&mut buf).expect("header now complete");
    assert_eq!(codec.0, Some((ObjectType::Blob, 5)));
    assert_eq!(first, Some(b"he".to_vec()));
    buf.extend_from_slice(b"llo");
    let second = codec.decode(&mut buf).expect("body passthrough");
    assert_eq!(second, Some(b"llo".to_vec()));
}

#[test]
fn decoder_rejects_corrupt_header() {
    let mut codec = TestCodec::new();
    let mut buf: Vec<u8> = b"garbage\0rest".to_vec();
    assert_eq!(codec.decode(&mut buf), Err(StoreError::CorruptObject));
}

#[test]
fn presence_sets_classify_scanned_objects() {
    let mut sets = PresenceSets::new();
    let blob = hash_object(ObjectType::Blob, b"hello");
    let (dir, file) = blob.get_parts();
    let dir = dir.to_string();
    let file = file.to_string();
    let r = sets
        .record_object(&dir, &file, b"blob 5")
        .expect("valid stored object");
    assert_eq!(r, (ObjectType::Blob, 5));
    assert_eq!(sets.blobs.len(), 1);
    assert_eq!(sets.trees.len(), 0);
    assert_eq!(sets.indexes.len(), 0);
    assert_eq!(sets.total_size, 5);
    let r2 = sets.record_object(&dir, &file, b"tree 12");
    assert_eq!(r2, Ok((ObjectType::Tree, 12)));
    assert_eq!(sets.trees.len(), 1);
    assert_eq!(sets.total_size, 17);
}

#[test]
fn presence_sets_reject_bad_input() {
    let mut sets = PresenceSets::new();
    let file126: String = "a".repeat(126);
    assert_eq!(
        sets.record_object("abc", &file126, b"blob 5"),
        Err(StoreError::InvalidHash)
    );
    assert_eq!(
        sets.record_object("ab", &file126, b"garbage"),
        Err(StoreError::CorruptObject)
    );
    assert_eq!(sets.blobs.len(), 0);
    assert_eq!(sets.total_size, 0);
}
