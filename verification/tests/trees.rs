//! Tree objects: the entry grammar, canonical sorting, and the builder's
//! per-entry decisions.

use objstore::error::StoreError;
use objstore::object::Object;
use objstore::tree::{TreeData, TreeItem};
use objstore::treewalk::{entry_mode, skip_entry};

fn empty_blob() -> Object {
    Object::Blob(Vec::new())
}

fn hello_blob() -> Object {
    Object::Blob(b"hello\n".to_vec())
}

#[test]
fn one_entry_tree_hash() {
    let mut tree = TreeData::empty();
    tree.add_object(&empty_blob(), "a", 0o100644).unwrap();
    tree.sort();
    let obj = Object::Tree(tree);
    assert_eq!(obj.hash_string(), "496d6428b9cf92981dc9495211e6e1120fb6f2ba");
}

#[test]
fn insertion_order_does_not_change_the_tree() {
    let mut forward = TreeData::empty();
    forward.add_object(&empty_blob(), "a", 0o100644).unwrap();
    forward.add_object(&hello_blob(), "b", 0o100755).unwrap();
    forward.sort();

    let mut backward = TreeData::empty();
    backward.add_object(&hello_blob(), "b", 0o100755).unwrap();
    backward.add_object(&empty_blob(), "a", 0o100644).unwrap();
    backward.sort();

    assert_eq!(forward.data, backward.data);
    let id = Object::Tree(forward).hash_string();
    assert_eq!(id, Object::Tree(backward).hash_string());
    assert_eq!(id, "9f64687c5f04704db72d349d890b21eb96c137f3");
}

#[test]
fn rebuilding_the_same_directory_gives_the_same_id() {
    let build = || {
        let mut tree = TreeData::empty();
        tree.add_object(&hello_blob(), "script", entry_mode(false, true)).unwrap();
        tree.add_object(&empty_blob(), "notes", entry_mode(false, false)).unwrap();
        tree.sort();
        Object::Tree(tree)
    };
    let first = build();
    let second = build();
    assert_eq!(first.hash_string(), second.hash_string());
    assert_eq!(first.contents_bytes(), second.contents_bytes());
}

#[test]
fn sorting_twice_changes_nothing() {
    let mut tree = TreeData::empty();
    tree.add_object(&hello_blob(), "z", 0o100644).unwrap();
    tree.add_object(&empty_blob(), "a", 0o100644).unwrap();
    tree.sort();
    let once = tree.data.clone();
    tree.sort();
    assert_eq!(tree.data, once);
}

#[test]
fn tree_round_trip_keeps_entries() {
    let mut tree = TreeData::empty();
    tree.add_object(&empty_blob(), "a", 0o100644).unwrap();
    tree.add_object(&hello_blob(), "sub", 0o040000).unwrap();
    tree.sort();
    let obj = Object::Tree(tree);
    let encoded = obj.encode();
    let decoded = Object::decode(&encoded).unwrap();
    assert_eq!(decoded.kind(), "tree");
    assert_eq!(decoded.contents_bytes(), obj.contents_bytes());
    let items = match decoded {
        Object::Tree(t) => t.iter(),
        _ => panic!("expected a tree"),
    };
    assert_eq!(items.len(), 2);
    assert_eq!(items[0].name, b"a".to_vec());
    assert_eq!(items[1].name, b"sub".to_vec());
}

#[test]
fn parse_reads_one_entry_and_the_rest() {
    let mut payload: Vec<u8> = Vec::new();
    payload.extend_from_slice(b"100644 file.txt\0");
    payload.extend_from_slice(&[7u8; 20]);
    payload.extend_from_slice(b"trailing");
    let (rest, item) = TreeItem::parse(&payload).unwrap();
    assert_eq!(item.mode, 0o100644);
    assert_eq!(item.name, b"file.txt".to_vec());
    assert_eq!(item.hash, vec![7u8; 20]);
    assert_eq!(rest, b"trailing".as_slice());
}

#[test]
fn parse_without_nul_is_malformed() {
    let payload = b"100644 file.txt".to_vec();
    assert!(matches!(TreeItem::parse(&payload), Err(StoreError::Malformed)));
}

#[test]
fn parse_with_short_hash_is_malformed() {
    let mut payload: Vec<u8> = Vec::new();
    payload.extend_from_slice(b"100644 file.txt\0");
    payload.extend_from_slice(&[7u8; 19]);
    assert!(matches!(TreeItem::parse(&payload), Err(StoreError::Malformed)));
}

#[test]
fn parse_without_space_is_malformed() {
    let mut payload: Vec<u8> = Vec::new();
    payload.extend_from_slice(b"100644file.txt\0");
    payload.extend_from_slice(&[7u8; 20]);
    assert!(matches!(TreeItem::parse(&payload), Err(StoreError::Malformed)));
}

#[test]
fn parse_with_bad_mode_is_malformed() {
    let mut payload: Vec<u8> = Vec::new();
    payload.extend_from_slice(b"10096 f\0");
    payload.extend_from_slice(&[7u8; 20]);
    assert!(matches!(TreeItem::parse(&payload), Err(StoreError::Malformed)));
}

#[test]
fn is_file_reads_the_mode_type_bits() {
    let file = TreeItem { mode: 0o100644, name: b"f".to_vec(), hash: vec![0u8; 20] };
    let executable = TreeItem { mode: 0o100755, name: b"x".to_vec(), hash: vec![0u8; 20] };
    let subtree = TreeItem { mode: 0o040000, name: b"d".to_vec(), hash: vec![0u8; 20] };
    let link = TreeItem { mode: 0o120000, name: b"l".to_vec(), hash: vec![0u8; 20] };
    assert!(file.is_file());
    assert!(executable.is_file());
    assert!(!subtree.is_file());
    assert!(!link.is_file());
}

#[test]
fn add_object_forces_the_type_bit() {
    let mut tree = TreeData::empty();
    tree.add_object(&empty_blob(), "f", 0o000644).unwrap();
    let items = tree.iter();
    assert_eq!(items[0].mode, 0o100644);

    let mut inner = TreeData::empty();
    inner.sort();
    let mut outer = TreeData::empty();
    outer.add_object(&Object::Tree(inner), "d", 0o140000).unwrap();
    let items = outer.iter();
    assert_eq!(items[0].mode, 0o040000);
}

#[test]
fn builder_modes_and_skip_rule() {
    assert_eq!(entry_mode(true, false), 0o040000);
    assert_eq!(entry_mode(false, true), 0o100755);
    assert_eq!(entry_mode(false, false), 0o100644);
    assert!(skip_entry(".git"));
    assert!(skip_entry(".hidden-file"));
    assert!(!skip_entry("src"));
    assert!(!skip_entry("notes.txt"));
}

#[test]
fn iter_returns_entries_in_payload_order() {
    let mut tree = TreeData::empty();
    tree.add_object(&hello_blob(), "zz", 0o100644).unwrap();
    tree.add_object(&empty_blob(), "aa", 0o100644).unwrap();
    let before = tree.iter();
    assert_eq!(before[0].name, b"zz".to_vec());
    assert_eq!(before[1].name, b"aa".to_vec());
    tree.sort();
    let after = tree.iter();
    assert_eq!(after[0].name, b"aa".to_vec());
    assert_eq!(after[1].name, b"zz".to_vec());
}

#[test]
fn render_line_matches_the_documented_listing() {
    let file = TreeItem { mode: 0o100644, name: b"a.txt".to_vec(), hash: vec![7u8; 20] };
    assert_eq!(
        file.render_line(),
        "100644 blob 0707070707070707070707070707070707070707    a.txt"
    );
    let sub = TreeItem { mode: 0o040000, name: b"src".to_vec(), hash: vec![0xabu8; 20] };
    assert_eq!(
        sub.render_line(),
        "040000 tree abababababababababababababababababababab    src"
    );
}
