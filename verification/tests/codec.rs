//! The loose-object codec: round trips, the canonical hash, and the
//! rejection of malformed envelopes.

use objstore::error::StoreError;
use objstore::object::Object;
use std::io::Write;

fn zlib_pack(env: &[u8]) -> Vec<u8> {
    let mut enc = flate2::write::ZlibEncoder::new(Vec::new(), flate2::Compression::fast());
    enc.write_all(env).unwrap();
    enc.finish().unwrap()
}

#[test]
fn empty_blob_hash() {
    let blob = Object::Blob(Vec::new());
    assert_eq!(blob.hash_string(), "e69de29bb2d1d6434b8b29ae775ad8c2e48c5391");
}

#[test]
fn small_blob_hash() {
    let blob = Object::Blob(b"hello\n".to_vec());
    assert_eq!(blob.hash_string(), "ce013625030ba8dba906f756967f9e9ca394464a");
    assert_eq!(blob.hash().len(), 20);
}

#[test]
fn blob_round_trip() {
    let blob = Object::Blob(b"some file contents\n".to_vec());
    let encoded = blob.encode();
    let decoded = Object::decode(&encoded).unwrap();
    assert_eq!(decoded.kind(), "blob");
    assert_eq!(decoded.contents_bytes(), b"some file contents\n".as_slice());
    assert_eq!(decoded.hash_string(), blob.hash_string());
}

#[test]
fn unknown_kind_round_trip() {
    let obj = Object::Unknown { kind: String::from("tag"), data: b"ref payload".to_vec() };
    let encoded = obj.encode();
    let decoded = Object::decode(&encoded).unwrap();
    assert_eq!(decoded.kind(), "tag");
    assert_eq!(decoded.contents_bytes(), b"ref payload".as_slice());
    assert_eq!(decoded.hash_string(), obj.hash_string());
}

#[test]
fn declared_length_too_long_is_malformed() {
    let stream = zlib_pack(b"blob 5\0hola");
    assert!(matches!(Object::decode(&stream), Err(StoreError::Malformed)));
}

#[test]
fn declared_length_too_short_is_malformed() {
    let stream = zlib_pack(b"blob 3\0hola");
    assert!(matches!(Object::decode(&stream), Err(StoreError::Malformed)));
}

#[test]
fn header_without_nul_is_malformed() {
    let stream = zlib_pack(b"blob 4");
    assert!(matches!(Object::decode(&stream), Err(StoreError::Malformed)));
}

#[test]
fn header_without_space_is_malformed() {
    let stream = zlib_pack(b"blob4\0hola");
    assert!(matches!(Object::decode(&stream), Err(StoreError::Malformed)));
}

#[test]
fn header_with_bad_length_is_malformed() {
    let stream = zlib_pack(b"blob x4\0hola");
    assert!(matches!(Object::decode(&stream), Err(StoreError::Malformed)));
}

#[test]
fn header_with_bad_utf8_is_malformed() {
    let stream = zlib_pack(b"bl\xffob 4\0hola");
    assert!(matches!(Object::decode(&stream), Err(StoreError::Malformed)));
}

#[test]
fn garbage_stream_is_malformed() {
    let garbage: Vec<u8> = vec![1, 2, 3, 4, 5];
    assert!(matches!(Object::decode(&garbage), Err(StoreError::Malformed)));
}

#[test]
fn length_header_accepts_leading_plus() {
    let stream = zlib_pack(b"blob +4\0hola");
    let decoded = Object::decode(&stream).unwrap();
    assert_eq!(decoded.contents_bytes(), b"hola".as_slice());
}

#[test]
fn tree_kind_with_bad_payload_is_malformed() {
    let stream = zlib_pack(b"tree 3\0abc");
    assert!(matches!(Object::decode(&stream), Err(StoreError::Malformed)));
}

#[test]
fn commit_kind_with_bad_payload_is_malformed() {
    let stream = zlib_pack(b"commit 3\0abc");
    assert!(matches!(Object::decode(&stream), Err(StoreError::Malformed)));
}

#[test]
fn stored_bytes_are_compressed_not_raw() {
    let blob = Object::Blob(b"hola".to_vec());
    let encoded = blob.encode();
    assert_ne!(encoded, b"blob 4\0hola".to_vec());
    // the uncompressed envelope is not a zlib stream, so it must not decode
    assert!(matches!(Object::decode(b"blob 4\0hola"), Err(StoreError::Malformed)));
}
