//! Commit records: the header grammar, the person stamps, the serializer,
//! and their round trip.

use objstore::commit::{Commit, CommitData, PersonLine};
use objstore::error::StoreError;
use objstore::object::Object;

fn stamp(name: &str, email: &str, timestamp: u64, timezone: i32) -> PersonLine {
    PersonLine {
        name: name.as_bytes().to_vec(),
        email: email.as_bytes().to_vec(),
        timestamp,
        timezone,
    }
}

fn sample_commit() -> CommitData {
    CommitData {
        tree_hash: b"496d6428b9cf92981dc9495211e6e1120fb6f2ba".to_vec(),
        parent_hashes: vec![b"e69de29bb2d1d6434b8b29ae775ad8c2e48c5391".to_vec()],
        author: stamp("Ada Writer", "ada@example.com", 1700000000, 0),
        committer: stamp("Bob Keeper", "bob@example.com", 1700000001, -230),
        message: b"first snapshot\n\nwith a body\n".to_vec(),
    }
}

#[test]
fn serializer_writes_the_documented_layout() {
    let commit = sample_commit().to_commit();
    let expected = "tree 496d6428b9cf92981dc9495211e6e1120fb6f2ba\n\
                    parent e69de29bb2d1d6434b8b29ae775ad8c2e48c5391\n\
                    author Ada Writer <ada@example.com> 1700000000 +0000\n\
                    committer Bob Keeper <bob@example.com> 1700000001 -0230\n\
                    \n\
                    first snapshot\n\nwith a body\n";
    assert_eq!(commit.bytes(), expected.as_bytes());
}

#[test]
fn commit_round_trip() {
    let original = sample_commit();
    assert!(original.check_wf());
    let commit = original.to_commit();
    let reparsed = commit.data();
    assert_eq!(reparsed.tree_hash, original.tree_hash);
    assert_eq!(reparsed.parent_hashes, original.parent_hashes);
    assert_eq!(reparsed.author.name, original.author.name);
    assert_eq!(reparsed.author.email, original.author.email);
    assert_eq!(reparsed.author.timestamp, original.author.timestamp);
    assert_eq!(reparsed.author.timezone, original.author.timezone);
    assert_eq!(reparsed.committer.timezone, original.committer.timezone);
    assert_eq!(reparsed.message, original.message);
}

#[test]
fn commit_object_round_trip() {
    let obj = Object::Commit(sample_commit().to_commit());
    let encoded = obj.encode();
    let decoded = Object::decode(&encoded).unwrap();
    assert_eq!(decoded.kind(), "commit");
    assert_eq!(decoded.contents_bytes(), obj.contents_bytes());
    assert_eq!(decoded.hash_string(), obj.hash_string());
}

#[test]
fn commit_without_parents_round_trips() {
    let mut record = sample_commit();
    record.parent_hashes = Vec::new();
    let commit = record.to_commit();
    let reparsed = commit.data();
    assert!(reparsed.parent_hashes.is_empty());
}

#[test]
fn person_line_parses() {
    let line = b"Grace Hopper <grace@example.com> 315532800 +0000";
    let person = PersonLine::parse(line).unwrap();
    assert_eq!(person.name, b"Grace Hopper".to_vec());
    assert_eq!(person.email, b"grace@example.com".to_vec());
    assert_eq!(person.timestamp, 315532800);
    assert_eq!(person.timezone, 0);
}

#[test]
fn person_line_without_email_is_malformed() {
    assert!(matches!(
        PersonLine::parse(b"Grace Hopper 315532800 +0000"),
        Err(StoreError::Malformed)
    ));
}

#[test]
fn person_line_with_bad_timestamp_is_malformed() {
    assert!(matches!(
        PersonLine::parse(b"G <g@e> yesterday +0000"),
        Err(StoreError::Malformed)
    ));
}

#[test]
fn person_line_with_bad_timezone_is_malformed() {
    assert!(matches!(
        PersonLine::parse(b"G <g@e> 315532800 here"),
        Err(StoreError::Malformed)
    ));
}

#[test]
fn commit_without_tree_is_malformed() {
    let text = b"author A <a@e> 1 +000\ncommitter B <b@e> 1 +000\n\nmsg";
    assert!(matches!(CommitData::parse(text), Err(StoreError::Malformed)));
}

#[test]
fn commit_with_two_trees_is_malformed() {
    let text = b"tree 496d6428b9cf92981dc9495211e6e1120fb6f2ba\n\
                 tree 496d6428b9cf92981dc9495211e6e1120fb6f2ba\n\
                 author A <a@e> 1 +000\ncommitter B <b@e> 1 +000\n\nmsg";
    assert!(matches!(CommitData::parse(text), Err(StoreError::Malformed)));
}

#[test]
fn commit_with_unknown_tag_is_malformed() {
    let text = b"tree 496d6428b9cf92981dc9495211e6e1120fb6f2ba\n\
                 signed yes\n\
                 author A <a@e> 1 +000\ncommitter B <b@e> 1 +000\n\nmsg";
    assert!(matches!(CommitData::parse(text), Err(StoreError::Malformed)));
}

#[test]
fn commit_with_short_tree_id_is_malformed() {
    let text = b"tree 496d\nauthor A <a@e> 1 +000\ncommitter B <b@e> 1 +000\n\nmsg";
    assert!(matches!(CommitData::parse(text), Err(StoreError::Malformed)));
}

#[test]
fn commit_without_empty_line_is_malformed() {
    let text = b"tree 496d6428b9cf92981dc9495211e6e1120fb6f2ba\n\
                 author A <a@e> 1 +000\ncommitter B <b@e> 1 +000\n";
    assert!(matches!(CommitData::parse(text), Err(StoreError::Malformed)));
}

#[test]
fn commit_from_bytes_keeps_the_text() {
    let text = b"tree 496d6428b9cf92981dc9495211e6e1120fb6f2ba\n\
                 author A <a@e> 1 +000\ncommitter B <b@e> 1 +000\n\nmsg";
    let commit = Commit::from_bytes(text).unwrap();
    assert_eq!(commit.bytes(), text.as_slice());
    let record = commit.data();
    assert_eq!(record.message, b"msg".to_vec());
    assert_eq!(record.author.timezone, 0);
}

#[test]
fn check_wf_rejects_a_name_with_an_angle_bracket() {
    let mut record = sample_commit();
    record.author.name = b"A < B".to_vec();
    assert!(!record.check_wf());
}

#[test]
fn check_wf_rejects_a_short_tree_id() {
    let mut record = sample_commit();
    record.tree_hash = b"496d".to_vec();
    assert!(!record.check_wf());
}

#[test]
fn timezone_renders_signed_and_padded() {
    assert_eq!(objstore::numbers::render_tz(0), b"+0000".to_vec());
    assert_eq!(objstore::numbers::render_tz(42), b"+0042".to_vec());
    assert_eq!(objstore::numbers::render_tz(-230), b"-0230".to_vec());
    assert_eq!(objstore::numbers::render_tz(12345), b"+12345".to_vec());
    assert_eq!(objstore::numbers::parse_i32(b"+000"), Some(0));
    assert_eq!(objstore::numbers::parse_i32(b"-230"), Some(-230));
    assert_eq!(objstore::numbers::parse_i32(b""), None);
    assert_eq!(objstore::numbers::parse_i32(b"2147483648"), None);
    assert_eq!(objstore::numbers::parse_i32(b"-2147483648"), Some(i32::MIN));
}

#[test]
fn commit_with_bad_utf8_is_malformed() {
    let mut text = b"tree 496d6428b9cf92981dc9495211e6e1120fb6f2ba\n\
                     author A <a@e> 1 +000\ncommitter B <b@e> 1 +000\n\nmsg "
        .to_vec();
    text.push(0xff);
    assert!(matches!(CommitData::parse(&text), Err(StoreError::Malformed)));
}

#[test]
fn extreme_timestamps_round_trip() {
    let line = format!("A <a@e> {} +1400", u64::MAX);
    let person = PersonLine::parse(line.as_bytes()).unwrap();
    assert_eq!(person.timestamp, u64::MAX);
    assert_eq!(person.timezone, 1400);
    // one past the maximum no longer parses
    let too_big = format!("A <a@e> {}0 +1400", u64::MAX);
    assert!(matches!(PersonLine::parse(too_big.as_bytes()), Err(StoreError::Malformed)));
}
