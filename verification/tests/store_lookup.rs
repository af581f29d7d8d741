//! The store's pure lookup pipeline, exercised against an in-memory
//! stand-in for the `objects/` directory: saving produces a path and
//! bytes, finding matches names and verifies what it decodes.

use objstore::commit::CommitData;
use objstore::error::StoreError;
use objstore::ids::ObjectRef;
use objstore::object::Object;
use objstore::store::{check_found_object, head_contents, pick_entry};

/// An in-memory loose-object directory: file names (under one fan-out
/// prefix) and their bytes.
struct FakeStore {
    prefixes: Vec<String>,
    files: Vec<(String, String, Vec<u8>)>,
}

impl FakeStore {
    fn new() -> FakeStore {
        FakeStore { prefixes: Vec::new(), files: Vec::new() }
    }

    fn save(&mut self, obj: &Object) -> String {
        let id = obj.hash_string();
        let (prefix, remainder) = id.split_at(2);
        let bytes = obj.encode();
        if !self.prefixes.iter().any(|p| p == prefix) {
            self.prefixes.push(prefix.to_string());
        }
        self.files.push((prefix.to_string(), remainder.to_string(), bytes));
        id
    }

    fn find(&self, oref: &ObjectRef) -> Result<Object, StoreError> {
        let i = pick_entry(&self.prefixes, &oref.hash_prefix())?;
        let chosen = &self.prefixes[i];
        let names: Vec<String> = self
            .files
            .iter()
            .filter(|(p, _, _)| p == chosen)
            .map(|(_, n, _)| n.clone())
            .collect();
        let j = pick_entry(&names, &oref.hash_remainder())?;
        let raw: &Vec<u8> = self
            .files
            .iter()
            .filter(|(p, _, _)| p == chosen)
            .map(|(_, _, b)| b)
            .nth(j)
            .unwrap();
        check_found_object(oref, raw)
    }
}

#[test]
fn save_then_find_returns_a_verified_object() {
    let mut store = FakeStore::new();
    let blob = Object::Blob(b"stored contents\n".to_vec());
    let id = store.save(&blob);
    let oref = ObjectRef::from_sha1(&id).unwrap();
    let found = store.find(&oref).unwrap();
    assert_eq!(found.hash_string(), id);
    assert_eq!(found.contents_bytes(), blob.contents_bytes());
}

#[test]
fn find_matches_ignoring_ascii_case() {
    let mut store = FakeStore::new();
    let blob = Object::Blob(b"case test\n".to_vec());
    let id = store.save(&blob);
    let upper = id.to_uppercase();
    let oref = ObjectRef::from_sha1(&upper).unwrap();
    let found = store.find(&oref).unwrap();
    assert_eq!(found.hash_string(), id);
}

#[test]
fn find_an_absent_id_is_not_found() {
    let mut store = FakeStore::new();
    store.save(&Object::Blob(b"something else\n".to_vec()));
    let oref = ObjectRef::from_sha1("e69de29bb2d1d6434b8b29ae775ad8c2e48c5391").unwrap();
    assert!(matches!(store.find(&oref), Err(StoreError::NotFound)));
}

#[test]
fn find_in_an_empty_store_is_not_found() {
    let store = FakeStore::new();
    let oref = ObjectRef::from_sha1("e69de29bb2d1d6434b8b29ae775ad8c2e48c5391").unwrap();
    assert!(matches!(store.find(&oref), Err(StoreError::NotFound)));
}

#[test]
fn a_file_stored_under_the_wrong_id_is_a_hash_mismatch() {
    let real = Object::Blob(b"a".to_vec());
    let raw = real.encode();
    let other = Object::Blob(b"b".to_vec());
    let oref = ObjectRef::from_sha1(&other.hash_string()).unwrap();
    assert!(matches!(check_found_object(&oref, &raw), Err(StoreError::HashMismatch)));
}

#[test]
fn a_truncated_file_is_malformed() {
    let blob = Object::Blob(b"will be cut\n".to_vec());
    let mut raw = blob.encode();
    raw.truncate(raw.len() - 3);
    let oref = ObjectRef::from_sha1(&blob.hash_string()).unwrap();
    assert!(matches!(check_found_object(&oref, &raw), Err(StoreError::Malformed)));
}

#[test]
fn commit_tree_refuses_an_absent_tree() {
    // The referential check of commit creation: the tree is looked up
    // before anything is written, and an absent tree ends the command
    // with NotFound, leaving no commit behind.
    let store = FakeStore::new();
    let tree_id = "496d6428b9cf92981dc9495211e6e1120fb6f2ba";
    let oref = ObjectRef::from_sha1(tree_id).unwrap();
    let lookup = store.find(&oref);
    assert!(matches!(lookup, Err(StoreError::NotFound)));
    // no commit is built or saved once the lookup has failed
}

#[test]
fn commit_tree_saves_when_the_tree_exists() {
    let mut store = FakeStore::new();
    let mut tree = objstore::tree::TreeData::empty();
    tree.add_object(&Object::Blob(Vec::new()), "a", 0o100644).unwrap();
    tree.sort();
    let tree_obj = Object::Tree(tree);
    let tree_id = store.save(&tree_obj);
    let oref = ObjectRef::from_sha1(&tree_id).unwrap();
    store.find(&oref).unwrap();

    let record = CommitData {
        tree_hash: tree_id.as_bytes().to_vec(),
        parent_hashes: Vec::new(),
        author: objstore::commit::PersonLine {
            name: b"John Smith".to_vec(),
            email: b"john.smith@example.com".to_vec(),
            timestamp: 1700000000,
            timezone: 0,
        },
        committer: objstore::commit::PersonLine {
            name: b"John Doe".to_vec(),
            email: b"john.doe@example.com".to_vec(),
            timestamp: 1700000000,
            timezone: 0,
        },
        message: b"a commit\n".to_vec(),
    };
    assert!(record.check_wf());
    let commit_obj = Object::Commit(record.to_commit());
    let commit_id = store.save(&commit_obj);
    let commit_ref = ObjectRef::from_sha1(&commit_id).unwrap();
    let found = store.find(&commit_ref).unwrap();
    assert_eq!(found.kind(), "commit");
}

#[test]
fn invalid_references_are_rejected() {
    assert!(matches!(ObjectRef::from_sha1("zz"), Err(StoreError::InvalidArgument)));
    assert!(matches!(
        ObjectRef::from_sha1("496d6428b9cf92981dc9495211e6e1120fb6f2bg"),
        Err(StoreError::InvalidArgument)
    ));
    assert!(matches!(
        ObjectRef::from_sha1("496D6428B9CF92981DC9495211E6E1120FB6F2BA"),
        Ok(_)
    ));
}

#[test]
fn reference_accessors_split_the_id() {
    let oref = ObjectRef::from_sha1("496d6428b9cf92981dc9495211e6e1120fb6f2ba").unwrap();
    assert_eq!(oref.hash_prefix(), "49");
    assert_eq!(oref.hash_remainder(), "6d6428b9cf92981dc9495211e6e1120fb6f2ba");
    assert!(oref.matches("496D6428B9CF92981DC9495211E6E1120FB6F2BA"));
    assert!(oref.matches_remainder("6D6428B9CF92981DC9495211E6E1120FB6F2BA"));
    assert!(!oref.matches_remainder("6d6428b9cf92981dc9495211e6e1120fb6f2bb"));
}

#[test]
fn head_file_contents_are_fixed() {
    assert_eq!(head_contents(), "ref: refs/heads/master\n");
}
