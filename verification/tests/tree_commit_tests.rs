use objstore::commit::write_commit;
use objstore::hex::hex_to_bin;
use objstore::object::ObjectKind;
use objstore::store::{Store, StoreError};
use objstore::tree::{compose_tree, is_ignored, list_tree_names, FsEntry, FsNode};

fn file(name: &str, data: &[u8]) -> FsEntry {
    FsEntry { name: name.as_bytes().to_vec(), node: FsNode::File { data: data.to_vec() } }
}

fn dir(name: &str, entries: Vec<FsEntry>) -> FsEntry {
    FsEntry { name: name.as_bytes().to_vec(), node: FsNode::Dir { entries } }
}

#[test]
fn ignored_names() {
    assert!(is_ignored(b"."));
    assert!(is_ignored(b".."));
    assert!(is_ignored(b".git"));
    assert!(!is_ignored(b"x"));
    assert!(!is_ignored(b".gitignore"));
    assert!(!is_ignored(b"..."));
    assert!(!is_ignored(b""));
}

#[test]
fn tree_entries_come_out_sorted() {
    let mut store = Store::new();
    let entries = vec![
        file("zebra", b"z"),
        file("mango", b"m"),
        file("apple", b"a"),
    ];
    let key = compose_tree(&mut store, &entries);
    let names = list_tree_names(&store, &key).unwrap();
    assert_eq!(names, vec![b"apple".to_vec(), b"mango".to_vec(), b"zebra".to_vec()]);
}

#[test]
fn tree_key_ignores_enumeration_order() {
    let mut store_a = Store::new();
    let order_a = vec![file("c", b"1"), file("b", b"2"), file("a", b"3")];
    let key_a = compose_tree(&mut store_a, &order_a);

    let mut store_b = Store::new();
    let order_b = vec![file("a", b"3"), file("c", b"1"), file("b", b"2")];
    let key_b = compose_tree(&mut store_b, &order_b);

    assert_eq!(key_a, key_b);

    // Composing the unchanged directory again in the same store adds no
    // object and returns the same key.
    let count = store_a.object_count();
    let key_again = compose_tree(&mut store_a, &order_a);
    assert_eq!(key_again, key_a);
    assert_eq!(store_a.object_count(), count);
}

#[test]
fn empty_directory_is_a_valid_empty_tree() {
    let mut store = Store::new();
    let entries: Vec<FsEntry> = Vec::new();
    let key = compose_tree(&mut store, &entries);
    assert_eq!(
        String::from_utf8(key.clone()).unwrap(),
        "4b825dc642cb6eb9a060e54bf8d69288fbee4904"
    );
    let (kind, payload) = store.read_object(&key).unwrap();
    assert_eq!(kind, ObjectKind::Tree);
    assert_eq!(payload, Vec::<u8>::new());
    assert_eq!(list_tree_names(&store, &key).unwrap(), Vec::<Vec<u8>>::new());
}

#[test]
fn ignored_children_are_left_out() {
    let mut store = Store::new();
    let entries = vec![
        file("kept", b"k"),
        dir(".git", vec![file("HEAD", b"ref")]),
        dir(".", vec![]),
        dir("..", vec![]),
    ];
    let key = compose_tree(&mut store, &entries);
    let names = list_tree_names(&store, &key).unwrap();
    assert_eq!(names, vec![b"kept".to_vec()]);
}

#[test]
fn subdirectory_becomes_a_tree_entry() {
    let mut store = Store::new();
    let entries = vec![
        dir("sub", vec![file("inner", b"body")]),
        file("top", b"t"),
    ];
    let key = compose_tree(&mut store, &entries);
    let (kind, payload) = store.read_object(&key).unwrap();
    assert_eq!(kind, ObjectKind::Tree);

    let mut sub_store = Store::new();
    let sub_key = compose_tree(&mut sub_store, &vec![file("inner", b"body")]);
    let sub_bin = hex_to_bin(&sub_key);

    let mut expected = Vec::new();
    expected.extend_from_slice(b"40000 sub\0");
    expected.extend_from_slice(&sub_bin);
    expected.extend_from_slice(b"100644 top\0");
    let mut blob_store = Store::new();
    let blob_key = blob_store.write_object(ObjectKind::Blob, b"t");
    expected.extend_from_slice(&hex_to_bin(&blob_key));

    assert_eq!(payload, expected);
}

#[test]
fn identical_file_contents_share_one_blob() {
    let mut store = Store::new();
    let entries = vec![file("one", b"same bytes"), file("two", b"same bytes")];
    compose_tree(&mut store, &entries);
    // One blob for the shared content plus one tree object.
    assert_eq!(store.object_count(), 2);
}

#[test]
fn list_tree_names_rejects_non_tree() {
    let mut store = Store::new();
    let key = store.write_object(ObjectKind::Blob, b"not a tree");
    assert_eq!(list_tree_names(&store, &key), Err(StoreError::InvalidObjectKind));
    let unused: Vec<u8> = b"0000000000000000000000000000000000000000".to_vec();
    assert_eq!(list_tree_names(&store, &unused), Err(StoreError::ObjectNotFound));
}

#[test]
fn commit_payload_is_exactly_the_documented_text() {
    let mut store = Store::new();
    let tree_key = compose_tree(&mut store, &vec![file("a", b"1")]);
    let key = write_commit(
        &mut store,
        &tree_key,
        None,
        b"alice <alice@example.com>",
        1700000000,
        b"root",
    );
    let (kind, payload) = store.read_object(&key).unwrap();
    assert_eq!(kind, ObjectKind::Commit);
    let mut expected = Vec::new();
    expected.extend_from_slice(b"tree ");
    expected.extend_from_slice(&tree_key);
    expected.extend_from_slice(b"\n");
    expected.extend_from_slice(b"author alice <alice@example.com> 1700000000 +0000\n");
    expected.extend_from_slice(b"committer alice <alice@example.com> 1700000000 +0000\n");
    expected.extend_from_slice(b"\nroot\n");
    assert_eq!(payload, expected);
}

#[test]
fn commit_chain_records_the_parent_key() {
    let mut store = Store::new();
    let tree_a = compose_tree(&mut store, &vec![file("a", b"1")]);
    let tree_b = compose_tree(&mut store, &vec![file("a", b"2")]);
    let first = write_commit(&mut store, &tree_a, None, b"a <a@b>", 1700000000, b"root");
    let second = write_commit(
        &mut store,
        &tree_b,
        Some(&first),
        b"a <a@b>",
        1700000100,
        b"second",
    );
    let (kind, payload) = store.read_object(&second).unwrap();
    assert_eq!(kind, ObjectKind::Commit);
    let mut parent_line = Vec::new();
    parent_line.extend_from_slice(b"parent ");
    parent_line.extend_from_slice(&first);
    parent_line.extend_from_slice(b"\n");
    let found = payload
        .windows(parent_line.len())
        .any(|w| w == parent_line.as_slice());
    assert!(found);

    let mut expected = Vec::new();
    expected.extend_from_slice(b"tree ");
    expected.extend_from_slice(&tree_b);
    expected.extend_from_slice(b"\n");
    expected.extend_from_slice(&parent_line);
    expected.extend_from_slice(b"author a <a@b> 1700000100 +0000\n");
    expected.extend_from_slice(b"committer a <a@b> 1700000100 +0000\n");
    expected.extend_from_slice(b"\nsecond\n");
    assert_eq!(payload, expected);
}

#[test]
fn fixed_timestamp_makes_commits_deterministic() {
    let mut store = Store::new();
    let tree = compose_tree(&mut store, &vec![file("a", b"1")]);
    let k1 = write_commit(&mut store, &tree, None, b"a <a@b>", 1700000000, b"msg");
    let k2 = write_commit(&mut store, &tree, None, b"a <a@b>", 1700000000, b"msg");
    let k3 = write_commit(&mut store, &tree, None, b"a <a@b>", 1700000001, b"msg");
    assert_eq!(k1, k2);
    assert_ne!(k1, k3);
}
