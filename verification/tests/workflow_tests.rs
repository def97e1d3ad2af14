use objectstore::encoding::hash_object;
use objectstore::errors::StoreError;
use objectstore::objects::ObjectType;
use objectstore::store::Store;
use objectstore::workflow::{commit, restore, DirEntry, FsNode};

fn file(content: &[u8]) -> FsNode {
    FsNode::File { content: content.to_vec() }
}

fn dir(entries: Vec<(&str, FsNode)>) -> FsNode {
    FsNode::Dir {
        entries: entries
            .into_iter()
            .map(|(name, node)| DirEntry { name: name.as_bytes().to_vec(), node })
            .collect(),
    }
}

fn sample_tree() -> FsNode {
    dir(vec![
        ("a.txt", file(b"hello")),
        ("sub", dir(vec![("b.txt", file(b"world"))])),
    ])
}

fn assert_same_tree(a: &FsNode, b: &FsNode) {
    match (a, b) {
        (FsNode::File { content: c1 }, FsNode::File { content: c2 }) => {
            assert_eq!(c1, c2);
        }
        (FsNode::Dir { entries: e1 }, FsNode::Dir { entries: e2 }) => {
            assert_eq!(e1.len(), e2.len());
            for (x, y) in e1.iter().zip(e2.iter()) {
                assert_eq!(x.name, y.name);
                assert_same_tree(&x.node, &y.node);
            }
        }
        _ => panic!("tree shapes differ"),
    }
}

const TS: &str = "2024-05-01T12:00:00Z";

#[test]
fn commit_then_restore_reproduces_the_tree() {
    let root = sample_tree();
    let mut store = Store::new();
    let (index_hash, total) = commit(&root, &TS.to_string(), &mut store).expect("commit succeeds");
    assert_eq!(total, 10);
    let (restored, ts) = restore(&store, &index_hash).expect("restore succeeds");
    assert_eq!(ts, TS);
    assert_same_tree(&restored, &root);
}

#[test]
fn commit_is_idempotent() {
    let root = sample_tree();
    let mut store = Store::new();
    let (h1, _) = commit(&root, &TS.to_string(), &mut store).unwrap();
    let count_after_first = store.object_count();
    let (h2, _) = commit(&root, &TS.to_string(), &mut store).unwrap();
    assert_eq!(h1, h2);
    assert_eq!(store.object_count(), count_after_first);
}

#[test]
fn commit_rejects_a_file_root() {
    let mut store = Store::new();
    let r = commit(&file(b"hello"), &TS.to_string(), &mut store);
    assert_eq!(r.unwrap_err(), StoreError::NotADirectory);
    assert_eq!(store.object_count(), 0);
}

#[test]
fn content_change_changes_every_hash_up_to_the_index() {
    let mut s1 = Store::new();
    let mut s2 = Store::new();
    let (i1, _) = commit(&sample_tree(), &TS.to_string(), &mut s1).unwrap();
    let changed = dir(vec![
        ("a.txt", file(b"hellp")),
        ("sub", dir(vec![("b.txt", file(b"world"))])),
    ]);
    let (i2, _) = commit(&changed, &TS.to_string(), &mut s2).unwrap();
    assert_ne!(
        hash_object(ObjectType::Blob, b"hello"),
        hash_object(ObjectType::Blob, b"hellp")
    );
    assert_ne!(i1, i2);
}

#[test]
fn rename_keeps_the_blob_hash_but_changes_the_tree() {
    let mut s1 = Store::new();
    let mut s2 = Store::new();
    let (i1, _) = commit(&sample_tree(), &TS.to_string(), &mut s1).unwrap();
    let renamed = dir(vec![
        ("a2.txt", file(b"hello")),
        ("sub", dir(vec![("b.txt", file(b"world"))])),
    ]);
    let (i2, _) = commit(&renamed, &TS.to_string(), &mut s2).unwrap();
    // the renamed file's own blob hash is unchanged...
    let blob = hash_object(ObjectType::Blob, b"hello");
    assert!(s1.contains(&blob));
    assert!(s2.contains(&blob));
    // ...but the enclosing tree's hash, and so the index hash, changed
    assert_ne!(i1, i2);
}

#[test]
fn store_write_deduplicates() {
    let mut store = Store::new();
    let h = hash_object(ObjectType::Blob, b"hello");
    assert!(store.write(&h, b"blob 5\0hello".to_vec()));
    assert!(!store.write(&h, b"blob 5\0hello".to_vec()));
    assert_eq!(store.object_count(), 1);
}

#[test]
fn cat_returns_the_raw_body() {
    let root = sample_tree();
    let mut store = Store::new();
    commit(&root, &TS.to_string(), &mut store).unwrap();
    let blob = hash_object(ObjectType::Blob, b"hello");
    assert_eq!(store.cat(&blob), Ok(b"hello".to_vec()));
}

#[test]
fn cat_of_missing_object_is_not_found() {
    let store = Store::new();
    let h = hash_object(ObjectType::Blob, b"hello");
    assert_eq!(store.cat(&h), Err(StoreError::NotFound));
    assert_eq!(store.read_header(&h), Err(StoreError::NotFound));
}

#[test]
fn read_header_reports_kind_and_size() {
    let root = sample_tree();
    let mut store = Store::new();
    let (index_hash, _) = commit(&root, &TS.to_string(), &mut store).unwrap();
    let blob = hash_object(ObjectType::Blob, b"hello");
    assert_eq!(store.read_header(&blob), Ok((ObjectType::Blob, 5)));
    assert_eq!(
        store.read_header(&index_hash).unwrap().0,
        ObjectType::Index
    );
}

#[test]
fn restore_of_missing_index_is_not_found() {
    let store = Store::new();
    let h = hash_object(ObjectType::Index, b"nothing");
    assert_eq!(
        restore(&store, &h).map(|_| ()),
        Err(StoreError::NotFound)
    );
}

#[test]
fn restore_of_a_blob_hash_is_a_kind_mismatch() {
    let root = sample_tree();
    let mut store = Store::new();
    commit(&root, &TS.to_string(), &mut store).unwrap();
    let blob = hash_object(ObjectType::Blob, b"hello");
    assert_eq!(
        restore(&store, &blob).map(|_| ()),
        Err(StoreError::KindMismatch)
    );
}

#[test]
fn empty_directory_commits_and_restores() {
    let root = dir(vec![]);
    let mut store = Store::new();
    let (index_hash, total) = commit(&root, &TS.to_string(), &mut store).unwrap();
    assert_eq!(total, 0);
    let (restored, _) = restore(&store, &index_hash).unwrap();
    assert_same_tree(&restored, &root);
}
