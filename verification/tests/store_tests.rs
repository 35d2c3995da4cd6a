use objstore::bytes::{bytes_eq, bytes_leq, find_byte_in, u64_to_dec};
use objstore::hex::{hex_to_bin, to_hex};
use objstore::object::{split_header_body, ObjectKind};
use objstore::store::{Store, StoreError};

use std::io::Write;

fn key_string(key: &Vec<u8>) -> String {
    String::from_utf8(key.clone()).unwrap()
}

#[test]
fn write_twice_same_key_one_object() {
    let mut store = Store::new();
    let k1 = store.write_object(ObjectKind::Blob, b"payload bytes");
    let k2 = store.write_object(ObjectKind::Blob, b"payload bytes");
    assert_eq!(k1, k2);
    assert_eq!(store.object_count(), 1);
}

#[test]
fn write_n_times_at_most_one_mutation() {
    let mut store = Store::new();
    let mut keys = Vec::new();
    for _ in 0..8 {
        keys.push(store.write_object(ObjectKind::Tree, b"abc\x00def"));
    }
    for k in &keys {
        assert_eq!(*k, keys[0]);
    }
    assert_eq!(store.object_count(), 1);
    let k_other = store.write_object(ObjectKind::Blob, b"other");
    assert_ne!(k_other, keys[0]);
    assert_eq!(store.object_count(), 2);
}

#[test]
fn read_after_write_round_trip() {
    let mut store = Store::new();
    let key = store.write_object(ObjectKind::Blob, b"hello round trip");
    let (kind, payload) = store.read_object(&key).unwrap();
    assert_eq!(kind, ObjectKind::Blob);
    assert_eq!(payload, b"hello round trip".to_vec());
}

#[test]
fn read_after_write_round_trip_empty_payload() {
    let mut store = Store::new();
    let key = store.write_object(ObjectKind::Blob, b"");
    let (kind, payload) = store.read_object(&key).unwrap();
    assert_eq!(kind, ObjectKind::Blob);
    assert_eq!(payload, Vec::<u8>::new());
}

#[test]
fn read_after_write_round_trip_all_kinds() {
    let mut store = Store::new();
    let kb = store.write_object(ObjectKind::Blob, b"x");
    let kt = store.write_object(ObjectKind::Tree, b"x");
    let kc = store.write_object(ObjectKind::Commit, b"x");
    assert_ne!(kb, kt);
    assert_ne!(kt, kc);
    assert_eq!(store.read_object(&kb).unwrap().0, ObjectKind::Blob);
    assert_eq!(store.read_object(&kt).unwrap().0, ObjectKind::Tree);
    assert_eq!(store.read_object(&kc).unwrap().0, ObjectKind::Commit);
}

#[test]
fn empty_blob_has_the_known_key() {
    let mut store = Store::new();
    let key = store.write_object(ObjectKind::Blob, b"");
    assert_eq!(key_string(&key), "e69de29bb2d1d6434b8b29ae775ad8c2e48c5391");
}

#[test]
fn hello_world_blob_has_the_known_key() {
    let mut store = Store::new();
    let key = store.write_object(ObjectKind::Blob, b"hello world\n");
    assert_eq!(key_string(&key), "3b18e512dba79e4c8300dd08aeb37f8e728b8dad");
}

#[test]
fn stored_bytes_are_compressed() {
    let mut store = Store::new();
    store.write_object(ObjectKind::Blob, b"some stored content");
    let obj = &store.objects()[0];
    // A zlib stream always starts with the 0x78 CMF byte, so the stored
    // bytes are not the raw frame.
    assert_eq!(obj.data[0], 0x78);
    assert_ne!(obj.data, b"blob 19\0some stored content".to_vec());
}

#[test]
fn unknown_key_is_object_not_found() {
    let mut store = Store::new();
    store.write_object(ObjectKind::Blob, b"something");
    let unused: Vec<u8> = b"0000000000000000000000000000000000000000".to_vec();
    assert_eq!(store.read_object(&unused), Err(StoreError::ObjectNotFound));
}

#[test]
fn truncated_stream_is_corrupt_object() {
    let mut store = Store::new();
    let key = store.write_object(ObjectKind::Blob, b"content that will be truncated on disk");
    let data = store.objects()[0].data.clone();
    let truncated = data[..data.len() / 2].to_vec();
    store.insert_raw(key.clone(), truncated);
    assert_eq!(store.read_object(&key), Err(StoreError::CorruptObject));
}

#[test]
fn stream_without_nul_is_corrupt_object() {
    let mut store = Store::new();
    let mut enc = flate2::write::ZlibEncoder::new(Vec::new(), flate2::Compression::default());
    enc.write_all(b"no separator here").unwrap();
    let data = enc.finish().unwrap();
    let key: Vec<u8> = b"ab00000000000000000000000000000000000000".to_vec();
    store.insert_raw(key.clone(), data);
    assert_eq!(store.read_object(&key), Err(StoreError::CorruptObject));
}

#[test]
fn wrong_declared_length_is_corrupt_object() {
    let mut store = Store::new();
    let mut enc = flate2::write::ZlibEncoder::new(Vec::new(), flate2::Compression::default());
    enc.write_all(b"blob 5\0abc").unwrap();
    let data = enc.finish().unwrap();
    let key: Vec<u8> = b"cd00000000000000000000000000000000000000".to_vec();
    store.insert_raw(key.clone(), data);
    assert_eq!(store.read_object(&key), Err(StoreError::CorruptObject));
}

#[test]
fn unknown_kind_label_is_corrupt_object() {
    let mut store = Store::new();
    let mut enc = flate2::write::ZlibEncoder::new(Vec::new(), flate2::Compression::default());
    enc.write_all(b"weird 2\0hi").unwrap();
    let data = enc.finish().unwrap();
    let key: Vec<u8> = b"ef00000000000000000000000000000000000000".to_vec();
    store.insert_raw(key.clone(), data);
    assert_eq!(store.read_object(&key), Err(StoreError::CorruptObject));
}

#[test]
fn externally_compressed_frame_reads_back() {
    let mut store = Store::new();
    let mut enc = flate2::write::ZlibEncoder::new(Vec::new(), flate2::Compression::best());
    enc.write_all(b"blob 2\0hi").unwrap();
    let data = enc.finish().unwrap();
    let key: Vec<u8> = b"1200000000000000000000000000000000000000".to_vec();
    store.insert_raw(key.clone(), data);
    let (kind, payload) = store.read_object(&key).unwrap();
    assert_eq!(kind, ObjectKind::Blob);
    assert_eq!(payload, b"hi".to_vec());
}

#[test]
fn split_header_body_splits_at_first_nul() {
    let (header, body) = split_header_body(b"blob 3\0abc").unwrap();
    assert_eq!(header, b"blob 3".to_vec());
    assert_eq!(body, b"abc".to_vec());
    let (header2, body2) = split_header_body(b"tree 0\0").unwrap();
    assert_eq!(header2, b"tree 0".to_vec());
    assert_eq!(body2, Vec::<u8>::new());
}

#[test]
fn split_header_body_without_nul_is_none() {
    assert!(split_header_body(b"no separator").is_none());
}

#[test]
fn hex_to_bin_decodes_pairs() {
    assert_eq!(hex_to_bin(b"0a1f"), vec![10u8, 31u8]);
    assert_eq!(hex_to_bin(b""), Vec::<u8>::new());
    assert_eq!(hex_to_bin(b"e69de2"), vec![0xe6u8, 0x9d, 0xe2]);
    assert_eq!(hex_to_bin(b"FF00"), vec![255u8, 0u8]);
}

#[test]
fn to_hex_renders_lowercase_pairs() {
    assert_eq!(to_hex(&[10u8, 31u8]), b"0a1f".to_vec());
    assert_eq!(to_hex(&[]), Vec::<u8>::new());
    assert_eq!(to_hex(&[255u8, 0u8]), b"ff00".to_vec());
    assert_eq!(hex_to_bin(&to_hex(&[1u8, 2, 250])), vec![1u8, 2, 250]);
}

#[test]
fn u64_to_dec_renders_decimal() {
    assert_eq!(u64_to_dec(0), b"0".to_vec());
    assert_eq!(u64_to_dec(7), b"7".to_vec());
    assert_eq!(u64_to_dec(1234567), b"1234567".to_vec());
    assert_eq!(u64_to_dec(u64::MAX), b"18446744073709551615".to_vec());
}

#[test]
fn byte_helpers_compare_and_find() {
    assert!(bytes_eq(b"abc", b"abc"));
    assert!(!bytes_eq(b"abc", b"abd"));
    assert!(bytes_leq(b"a", b"ab"));
    assert!(bytes_leq(b"ab", b"b"));
    assert!(!bytes_leq(b"b", b"ab"));
    assert_eq!(find_byte_in(b"ab\0c", 0), Some(2));
    assert_eq!(find_byte_in(b"abc", 0), None);
}
