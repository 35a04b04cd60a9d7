//! Tests of the add pipeline: classification, staging, directory coverage,
//! conflict resolution, glob expansion and the content hasher.

use oxen_core::add::{
    add, add_files, determine_file_status, expand_add_paths, get_file_metadata,
    maybe_construct_generic_metadata_for_tabular, process_add_dir, data_type_from_extension,
    has_different_modification_time,
};
use oxen_core::conflicts::{mark_conflict_as_resolved, NodeMergeConflictDBReader};
use oxen_core::errors::OxenError;
use oxen_core::hash::{hash_bytes, MerkleHash};
use oxen_core::kvdb::KvDb;
use oxen_core::model::{
    EntryDataType, FileNode, GenericMetadata, MerkleTreeNode, MetadataField, MetadataSchema,
    NodeMergeConflict, StagedEntryStatus, StagedMerkleTreeNode, TabularMetadata, WorkingFile,
};
use oxen_core::tree::Tree;
use oxen_core::version_store::VersionStore;

fn working_file(bytes: &[u8], secs: i64, nanos: u32) -> WorkingFile {
    WorkingFile { bytes: bytes.to_vec(), mtime_seconds: secs, mtime_nanoseconds: nanos }
}

fn tracked_node(path: &str, bytes: &[u8], secs: i64, nanos: u32) -> FileNode {
    let h = hash_bytes(bytes);
    FileNode {
        name: path.to_string(),
        hash: MerkleHash::new(h),
        combined_hash: MerkleHash::new(h),
        metadata_hash: None,
        num_bytes: bytes.len() as u64,
        last_modified_seconds: secs,
        last_modified_nanoseconds: nanos,
        data_type: EntryDataType::Binary,
        metadata: None,
        mime_type: "application/octet-stream".to_string(),
        extension: String::new(),
    }
}

fn head_with(files: &[(&str, &[u8])]) -> (Tree, VersionStore) {
    let mut tree = Tree::new();
    let mut versions = VersionStore::new();
    for (path, bytes) in files {
        tree.put_file(tracked_node(path, bytes, 1, 0));
        versions.store_version(hash_bytes(bytes), bytes.to_vec());
    }
    (tree, versions)
}

fn file_entry_status(staged: &KvDb<StagedMerkleTreeNode>, path: &str) -> Option<StagedEntryStatus> {
    staged.get(path).map(|e| e.status)
}

#[test]
fn add_new_file_is_staged_added() {
    // Head has a.txt = "hello"; working adds b.txt = "world".
    let (tree, mut versions) = head_with(&[("a.txt", b"hello")]);
    let mut working: KvDb<WorkingFile> = KvDb::new();
    working.put("a.txt".to_string(), working_file(b"hello", 1, 0));
    working.put("b.txt".to_string(), working_file(b"world", 2, 0));
    let mut staged: KvDb<StagedMerkleTreeNode> = KvDb::new();
    let mut conflicts: KvDb<NodeMergeConflict> = KvDb::new();

    let (stats, unchanged) =
        process_add_dir(&working, &Some(tree), &mut versions, &mut staged, &mut conflicts, "");

    assert_eq!(stats.total_files, 1);
    assert_eq!(unchanged, 1);
    assert!(matches!(file_entry_status(&staged, "b.txt"), Some(StagedEntryStatus::Added)));
    // a.txt is unchanged: absent from the staged db.
    assert!(staged.get("a.txt").is_none());
    // The staged file node carries the hash of "world".
    match &staged.get("b.txt").unwrap().node {
        MerkleTreeNode::File(n) => assert_eq!(n.hash.to_u128(), hash_bytes(b"world")),
        _ => panic!("expected a file entry"),
    }
    // The blob entered the version store.
    assert!(versions.has_version(hash_bytes(b"world")));
}

#[test]
fn re_add_unchanged_writes_nothing() {
    // After staging b.txt once, a second run with no changes stages nothing new.
    let (tree, mut versions) = head_with(&[("a.txt", b"hello"), ("b.txt", b"world")]);
    let mut working: KvDb<WorkingFile> = KvDb::new();
    working.put("a.txt".to_string(), working_file(b"hello", 1, 0));
    working.put("b.txt".to_string(), working_file(b"world", 1, 0));
    let mut staged: KvDb<StagedMerkleTreeNode> = KvDb::new();
    let mut conflicts: KvDb<NodeMergeConflict> = KvDb::new();

    let (stats, unchanged) =
        process_add_dir(&working, &Some(tree), &mut versions, &mut staged, &mut conflicts, "");
    assert_eq!(stats.total_files, 0);
    assert_eq!(unchanged, 2);
    assert_eq!(staged.len(), 0);
}

#[test]
fn modified_file_is_staged_modified() {
    let (tree, mut versions) = head_with(&[("b.txt", b"world")]);
    let mut working: KvDb<WorkingFile> = KvDb::new();
    working.put("b.txt".to_string(), working_file(b"world!", 5, 7));
    let mut staged: KvDb<StagedMerkleTreeNode> = KvDb::new();
    let mut conflicts: KvDb<NodeMergeConflict> = KvDb::new();

    let (stats, _) =
        process_add_dir(&working, &Some(tree), &mut versions, &mut staged, &mut conflicts, "");
    assert_eq!(stats.total_files, 1);
    assert!(matches!(file_entry_status(&staged, "b.txt"), Some(StagedEntryStatus::Modified)));
    match &staged.get("b.txt").unwrap().node {
        MerkleTreeNode::File(n) => assert_eq!(n.hash.to_u128(), hash_bytes(b"world!")),
        _ => panic!("expected a file entry"),
    }
}

#[test]
fn content_addressing_same_bytes_same_hash() {
    // Two paths with byte-identical contents get equal file-node hashes.
    let mut working: KvDb<WorkingFile> = KvDb::new();
    working.put("one.bin".to_string(), working_file(b"same bytes", 1, 0));
    working.put("two/copy.bin".to_string(), working_file(b"same bytes", 9, 9));
    let mut staged: KvDb<StagedMerkleTreeNode> = KvDb::new();
    let mut conflicts: KvDb<NodeMergeConflict> = KvDb::new();
    let mut versions = VersionStore::new();

    process_add_dir(&working, &None, &mut versions, &mut staged, &mut conflicts, "");
    let h1 = match &staged.get("one.bin").unwrap().node {
        MerkleTreeNode::File(n) => n.hash.to_u128(),
        _ => panic!(),
    };
    let h2 = match &staged.get("two/copy.bin").unwrap().node {
        MerkleTreeNode::File(n) => n.hash.to_u128(),
        _ => panic!(),
    };
    assert_eq!(h1, h2);
}

#[test]
fn directory_coverage_ancestors_staged() {
    // A staged file at a/b/c.bin writes dir entries at a/b, a and the root.
    let mut working: KvDb<WorkingFile> = KvDb::new();
    working.put("a/b/c.bin".to_string(), working_file(b"deep", 1, 0));
    let mut staged: KvDb<StagedMerkleTreeNode> = KvDb::new();
    let mut conflicts: KvDb<NodeMergeConflict> = KvDb::new();
    let mut versions = VersionStore::new();

    process_add_dir(&working, &None, &mut versions, &mut staged, &mut conflicts, "");
    assert!(staged.get("a/b/c.bin").is_some());
    for dir in ["a/b", "a", ""] {
        let entry = staged.get(dir).expect("ancestor dir entry missing");
        assert!(matches!(entry.status, StagedEntryStatus::Added));
        match &entry.node {
            MerkleTreeNode::Directory(d) => assert_eq!(d.name, dir),
            _ => panic!("expected a directory entry"),
        }
    }
}

#[test]
fn unchanged_short_circuit_no_entry() {
    // Matching mtime and content hash: nothing is written for the file.
    let node = tracked_node("a.txt", b"hello", 42, 17);
    let mut tree = Tree::new();
    tree.put_file(node);
    let mut versions = VersionStore::new();
    versions.store_version(hash_bytes(b"hello"), b"hello".to_vec());

    let mut working: KvDb<WorkingFile> = KvDb::new();
    working.put("a.txt".to_string(), working_file(b"hello", 42, 17));
    let mut staged: KvDb<StagedMerkleTreeNode> = KvDb::new();
    let mut conflicts: KvDb<NodeMergeConflict> = KvDb::new();

    let (stats, unchanged) =
        process_add_dir(&working, &Some(tree), &mut versions, &mut staged, &mut conflicts, "");
    assert_eq!(stats.total_files, 0);
    assert_eq!(unchanged, 1);
    assert_eq!(staged.len(), 0);
}

#[test]
fn determine_status_rehashes_on_matching_mtime() {
    // Same mtime but different bytes: the rehash catches the change.
    let node = tracked_node("a.txt", b"hello", 42, 17);
    let mut tree = Tree::new();
    tree.put_file(node);
    let dir_node = Some(tree.dir_with_children(""));
    let file = working_file(b"HELLO!", 42, 17);
    let status = determine_file_status(&dir_node, "a.txt", "a.txt", &file);
    assert!(matches!(status.status, StagedEntryStatus::Modified));
    assert_eq!(status.hash.to_u128(), hash_bytes(b"HELLO!"));
    // A modified entry records the file's current size, mtime match or not.
    assert_eq!(status.num_bytes, 6);
}

#[test]
fn mtime_comparison() {
    let node = tracked_node("a.txt", b"hello", 42, 17);
    assert!(!has_different_modification_time(&node, 42, 17));
    assert!(has_different_modification_time(&node, 42, 18));
    assert!(has_different_modification_time(&node, 43, 17));
}

#[test]
fn tabular_metadata_annotations_preserved() {
    // Merging fresh tabular metadata with previously tracked metadata keeps
    // the previous field annotations, matched by name.
    let fresh = GenericMetadata::MetadataTabular(TabularMetadata {
        schema: MetadataSchema {
            fields: vec![
                MetadataField {
                    name: "height".to_string(),
                    dtype: "f64".to_string(),
                    metadata: None,
                },
                MetadataField {
                    name: "label".to_string(),
                    dtype: "str".to_string(),
                    metadata: None,
                },
            ],
        },
    });
    let previous = GenericMetadata::MetadataTabular(TabularMetadata {
        schema: MetadataSchema {
            fields: vec![MetadataField {
                name: "label".to_string(),
                dtype: "str".to_string(),
                metadata: Some("class name".to_string()),
            }],
        },
    });
    let merged = maybe_construct_generic_metadata_for_tabular(Some(fresh), previous).unwrap();
    match merged {
        GenericMetadata::MetadataTabular(t) => {
            assert_eq!(t.schema.fields.len(), 2);
            assert_eq!(t.schema.fields[0].name, "height");
            assert_eq!(t.schema.fields[0].metadata, None);
            assert_eq!(t.schema.fields[1].name, "label");
            assert_eq!(t.schema.fields[1].metadata, Some("class name".to_string()));
        },
        _ => panic!("expected tabular metadata"),
    }
}

#[test]
fn conflict_resolved_by_re_add() {
    // A pending conflict at a tracked path: re-adding stages Modified and
    // deletes the conflict record.
    let (tree, mut versions) = head_with(&[("a.txt", b"hello")]);
    let mut working: KvDb<WorkingFile> = KvDb::new();
    working.put("a.txt".to_string(), working_file(b"hello", 42, 17));
    let mut staged: KvDb<StagedMerkleTreeNode> = KvDb::new();
    let mut conflicts: KvDb<NodeMergeConflict> = KvDb::new();
    conflicts.put(
        "a.txt".to_string(),
        NodeMergeConflict {
            merge_entry_path: "a.txt".to_string(),
            base_hash: None,
            head_hash: None,
            merge_hash: None,
        },
    );
    assert!(NodeMergeConflictDBReader::has_conflicts(&conflicts));
    assert!(NodeMergeConflictDBReader::has_file(&conflicts, "a.txt"));

    process_add_dir(&working, &Some(tree), &mut versions, &mut staged, &mut conflicts, "");

    assert!(matches!(file_entry_status(&staged, "a.txt"), Some(StagedEntryStatus::Modified)));
    assert!(!NodeMergeConflictDBReader::has_file(&conflicts, "a.txt"));
    assert!(!NodeMergeConflictDBReader::has_conflicts(&conflicts));
}

#[test]
fn conflict_reader_lists_records() {
    let mut conflicts: KvDb<NodeMergeConflict> = KvDb::new();
    assert!(NodeMergeConflictDBReader::list_conflicts(&conflicts).is_empty());
    conflicts.put(
        "x.bin".to_string(),
        NodeMergeConflict {
            merge_entry_path: "x.bin".to_string(),
            base_hash: Some(MerkleHash::new(1)),
            head_hash: Some(MerkleHash::new(2)),
            merge_hash: Some(MerkleHash::new(3)),
        },
    );
    let listed = NodeMergeConflictDBReader::list_conflicts(&conflicts);
    assert_eq!(listed.len(), 1);
    assert_eq!(listed[0].merge_entry_path, "x.bin");
    let got = NodeMergeConflictDBReader::get_conflict(&conflicts, "x.bin").unwrap();
    assert_eq!(got.merge_entry_path, "x.bin");
    mark_conflict_as_resolved(&mut conflicts, "x.bin");
    assert!(NodeMergeConflictDBReader::get_conflict(&conflicts, "x.bin").is_none());
}

#[test]
fn glob_expansion_covers_working_and_head() {
    // "*.txt" matches a working file and a tracked file that is gone from
    // disk; the binary file stays out. This fails if the pattern matcher
    // ignored its pattern.
    let (tree, _versions) = head_with(&[("gone.txt", b"old"), ("kept.bin", b"k")]);
    let mut working: KvDb<WorkingFile> = KvDb::new();
    working.put("a.txt".to_string(), working_file(b"hello", 1, 0));
    working.put("b.bin".to_string(), working_file(b"binary", 1, 0));

    let paths = expand_add_paths(&working, &Some(tree), "*.txt").unwrap();
    let mut names: Vec<String> = paths;
    names.sort();
    assert_eq!(names, vec!["a.txt".to_string(), "gone.txt".to_string()]);
}

#[test]
fn glob_invalid_pattern_is_rejected() {
    let working: KvDb<WorkingFile> = KvDb::new();
    let r = expand_add_paths(&working, &None, "[invalid");
    assert!(matches!(r, Err(OxenError::InvalidGlobPattern(_))));
}

#[test]
fn add_stages_removal_of_missing_tracked_file() {
    // A plain path that exists nowhere on disk but is tracked: staged as
    // Removed.
    let (tree, mut versions) = head_with(&[("gone.txt", b"old")]);
    let working: KvDb<WorkingFile> = KvDb::new();
    let mut staged: KvDb<StagedMerkleTreeNode> = KvDb::new();
    let mut conflicts: KvDb<NodeMergeConflict> = KvDb::new();

    let stats = add(&working, &Some(tree), &mut versions, &mut staged, &mut conflicts, "gone.txt")
        .unwrap();
    assert_eq!(stats.total_files, 0);
    assert!(matches!(file_entry_status(&staged, "gone.txt"), Some(StagedEntryStatus::Removed)));
}

#[test]
fn add_stages_recursive_removal_of_missing_tracked_dir() {
    // A vanished directory whose files the head tracks: every tracked file
    // under it is staged as Removed.
    let (tree, mut versions) = head_with(&[("d/a.txt", b"one"), ("d/b.txt", b"two"), ("keep.txt", b"k")]);
    let working: KvDb<WorkingFile> = KvDb::new();
    let mut staged: KvDb<StagedMerkleTreeNode> = KvDb::new();
    let mut conflicts: KvDb<NodeMergeConflict> = KvDb::new();

    let stats =
        add(&working, &Some(tree), &mut versions, &mut staged, &mut conflicts, "d").unwrap();
    assert_eq!(stats.total_files, 0);
    assert!(matches!(file_entry_status(&staged, "d/a.txt"), Some(StagedEntryStatus::Removed)));
    assert!(matches!(file_entry_status(&staged, "d/b.txt"), Some(StagedEntryStatus::Removed)));
    assert!(staged.get("keep.txt").is_none());
}

#[test]
fn conflict_at_untracked_path_is_resolved_by_re_add() {
    // A pending conflict at a path the head does not track: re-adding the
    // file clears the record; the fresh file is staged as Added.
    let mut working: KvDb<WorkingFile> = KvDb::new();
    working.put("new.txt".to_string(), working_file(b"fresh", 1, 0));
    let mut staged: KvDb<StagedMerkleTreeNode> = KvDb::new();
    let mut conflicts: KvDb<NodeMergeConflict> = KvDb::new();
    conflicts.put(
        "new.txt".to_string(),
        NodeMergeConflict {
            merge_entry_path: "new.txt".to_string(),
            base_hash: None,
            head_hash: None,
            merge_hash: None,
        },
    );
    let mut versions = VersionStore::new();

    add(&working, &None, &mut versions, &mut staged, &mut conflicts, "new.txt").unwrap();
    assert!(!NodeMergeConflictDBReader::has_file(&conflicts, "new.txt"));
    assert!(matches!(file_entry_status(&staged, "new.txt"), Some(StagedEntryStatus::Added)));
}

#[test]
fn conflicts_are_listed_in_lexicographic_key_order() {
    // Records put out of order come back sorted by key.
    let mut conflicts: KvDb<NodeMergeConflict> = KvDb::new();
    for key in ["b/later.txt", "a/first.txt", "c.txt"] {
        conflicts.put(
            key.to_string(),
            NodeMergeConflict {
                merge_entry_path: key.to_string(),
                base_hash: None,
                head_hash: None,
                merge_hash: None,
            },
        );
    }
    let listed = NodeMergeConflictDBReader::list_conflicts(&conflicts);
    let names: Vec<&str> = listed.iter().map(|c| c.merge_entry_path.as_str()).collect();
    assert_eq!(names, vec!["a/first.txt", "b/later.txt", "c.txt"]);
}

#[test]
fn add_files_dispatches_files_and_dirs() {
    let mut working: KvDb<WorkingFile> = KvDb::new();
    working.put("top.txt".to_string(), working_file(b"top", 1, 0));
    working.put("sub/inner.txt".to_string(), working_file(b"inner", 1, 0));
    let mut staged: KvDb<StagedMerkleTreeNode> = KvDb::new();
    let mut conflicts: KvDb<NodeMergeConflict> = KvDb::new();
    let mut versions = VersionStore::new();

    let paths = vec!["top.txt".to_string(), "sub".to_string()];
    let stats = add_files(&working, &None, &mut versions, &mut staged, &mut conflicts, &paths);
    assert_eq!(stats.total_files, 2);
    assert!(staged.get("top.txt").is_some());
    assert!(staged.get("sub/inner.txt").is_some());
    assert!(staged.get("sub").is_some());
}

#[test]
fn data_types_from_extensions() {
    assert!(matches!(data_type_from_extension("csv"), EntryDataType::Tabular));
    assert!(matches!(data_type_from_extension("txt"), EntryDataType::Text));
    assert!(matches!(data_type_from_extension("png"), EntryDataType::Image));
    assert!(matches!(data_type_from_extension("mp3"), EntryDataType::Audio));
    assert!(matches!(data_type_from_extension("mp4"), EntryDataType::Video));
    assert!(matches!(data_type_from_extension("exe"), EntryDataType::Binary));
}

#[test]
fn text_metadata_counts_lines_and_bytes() {
    let bytes = b"one\ntwo\nthree".to_vec();
    match get_file_metadata(&bytes, EntryDataType::Text) {
        Some(GenericMetadata::MetadataText(t)) => {
            assert_eq!(t.num_lines, 2);
            assert_eq!(t.num_chars, 13);
        },
        _ => panic!("expected text metadata"),
    }
    assert!(get_file_metadata(&bytes, EntryDataType::Binary).is_none());
}

#[test]
fn hash_hex_rendering() {
    let h = MerkleHash::new(0xdeadbeef);
    let hex = h.to_hex_string();
    assert_eq!(hex.len(), 32);
    assert_eq!(hex, "000000000000000000000000deadbeef");
    // Distinct contents hash apart.
    assert_ne!(hash_bytes(b"a"), hash_bytes(b"b"));
    assert_ne!(hash_bytes(b""), hash_bytes(b"a"));
}
