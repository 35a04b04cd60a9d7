//! Tests of the small verified utilities: paths, numerals, the key-value
//! facade and the version store.

use oxen_core::hash::{hash_bytes, MerkleHash};
use oxen_core::model::{EntryDataType, FileNode, MerkleTreeNode};
use oxen_core::tree::{get_by_path, get_file_node, Tree};
use oxen_core::kvdb::KvDb;
use oxen_core::paths::{is_glob_path, name_extension, path_file_name, path_join, path_parent};
use oxen_core::strings::{parse_dec, str_eq, str_starts_with, u64_to_dec_string};
use oxen_core::version_store::VersionStore;

#[test]
fn path_parents_and_names() {
    assert_eq!(path_parent("a/b/c.txt"), "a/b");
    assert_eq!(path_parent("a"), "");
    assert_eq!(path_parent(""), "");
    assert_eq!(path_file_name("a/b/c.txt"), "c.txt");
    assert_eq!(path_file_name("c.txt"), "c.txt");
    assert_eq!(path_join("a/b", "c.txt"), "a/b/c.txt");
    assert_eq!(path_join("", "c.txt"), "c.txt");
}

#[test]
fn extensions() {
    assert_eq!(name_extension("data.csv"), "csv");
    assert_eq!(name_extension("archive.tar.gz"), "gz");
    assert_eq!(name_extension("noext"), "");
    assert_eq!(name_extension(".hidden"), "");
}

#[test]
fn glob_detection() {
    assert!(is_glob_path("*.txt"));
    assert!(is_glob_path("data/??.csv"));
    assert!(is_glob_path("set[ab]"));
    assert!(!is_glob_path("plain/path.txt"));
}

#[test]
fn decimal_round_trip() {
    assert_eq!(u64_to_dec_string(0), "0");
    assert_eq!(u64_to_dec_string(10), "10");
    assert_eq!(u64_to_dec_string(987654), "987654");
    assert_eq!(parse_dec("987654"), Some(987654));
    assert_eq!(parse_dec("007"), Some(7));
    assert_eq!(parse_dec(""), None);
    assert_eq!(parse_dec("12x"), None);
    assert_eq!(parse_dec("99999999999999999999999"), None);
}

#[test]
fn string_helpers() {
    assert!(str_eq("same", "same"));
    assert!(!str_eq("same", "other"));
    assert!(str_starts_with("refs/stashes/0", "refs/"));
    assert!(!str_starts_with("refs", "refs/stashes"));
}

#[test]
fn kv_store_basics() {
    let mut db: KvDb<u64> = KvDb::new();
    assert_eq!(db.len(), 0);
    db.put("one".to_string(), 1);
    db.put("two".to_string(), 2);
    db.put("one".to_string(), 11);
    assert_eq!(db.len(), 2);
    assert_eq!(db.get("one"), Some(&11));
    assert_eq!(db.get("two"), Some(&2));
    assert!(db.get("three").is_none());
    db.delete("one");
    assert!(db.get("one").is_none());
    assert_eq!(db.len(), 1);
    assert_eq!(db.num_keys(), 1);
    assert_eq!(db.key_at(0), "two");
    db.clear();
    assert_eq!(db.len(), 0);
}

#[test]
fn version_store_is_idempotent() {
    let mut store = VersionStore::new();
    let h = hash_bytes(b"payload");
    assert!(!store.has_version(h));
    store.store_version(h, b"payload".to_vec());
    assert!(store.has_version(h));
    // Storing the same hash again leaves the first blob in place.
    store.store_version(h, b"payload".to_vec());
    assert_eq!(store.open_version(h).unwrap(), &b"payload".to_vec());
    assert!(store.open_version(hash_bytes(b"other")).is_none());
}

#[test]
fn tree_lookup_by_path() {
    let mut tree = Tree::new();
    let h = hash_bytes(b"deep");
    tree.put_file(FileNode {
        name: "a/b/c.bin".to_string(),
        hash: MerkleHash::new(h),
        combined_hash: MerkleHash::new(h),
        metadata_hash: None,
        num_bytes: 4,
        last_modified_seconds: 1,
        last_modified_nanoseconds: 0,
        data_type: EntryDataType::Binary,
        metadata: None,
        mime_type: "application/octet-stream".to_string(),
        extension: "bin".to_string(),
    });

    // A file leaf, a directory along the way, and a miss.
    match get_by_path(&tree, "a/b/c.bin") {
        Some(MerkleTreeNode::File(n)) => assert_eq!(n.hash.to_u128(), h),
        _ => panic!("expected the file leaf"),
    }
    match get_by_path(&tree, "a/b") {
        Some(MerkleTreeNode::Directory(d)) => assert_eq!(d.name, "a/b"),
        _ => panic!("expected a directory"),
    }
    assert!(get_by_path(&tree, "a/zzz").is_none());

    // The one-level loader keys children by file name.
    let dir = tree.dir_with_children("a/b");
    let child = get_file_node(&Some(dir), "c.bin").expect("child should be found");
    assert_eq!(child.name, "a/b/c.bin");
}
