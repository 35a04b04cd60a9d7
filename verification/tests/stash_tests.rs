//! Tests of the ref-backed stash engine: save, list, apply, pop, drop and
//! clear, the stack density, and the save-then-apply round trip.

use oxen_core::errors::OxenError;
use oxen_core::hash::{hash_bytes, MerkleHash};
use oxen_core::kvdb::KvDb;
use oxen_core::model::{
    Commit, EntryDataType, FileNode, NodeMergeConflict, StagedMerkleTreeNode, WorkingFile,
};
use oxen_core::repo::LocalRepository;
use oxen_core::stash;
use oxen_core::tree::Tree;
use oxen_core::version_store::VersionStore;
use oxen_core::copy_stash::{apply_copytree_slot, shelf_decision, ShelfOutcome};

fn tracked_node(path: &str, bytes: &[u8]) -> FileNode {
    let h = hash_bytes(bytes);
    FileNode {
        name: path.to_string(),
        hash: MerkleHash::new(h),
        combined_hash: MerkleHash::new(h),
        metadata_hash: None,
        num_bytes: bytes.len() as u64,
        last_modified_seconds: 1,
        last_modified_nanoseconds: 0,
        data_type: EntryDataType::Binary,
        metadata: None,
        mime_type: "application/octet-stream".to_string(),
        extension: String::new(),
    }
}

/// A repository whose head commit tracks the given files, with a working
/// tree holding the given contents.
fn mk_repo(head_files: &[(&str, &[u8])], working_files: &[(&str, &[u8])]) -> LocalRepository {
    let mut tree = Tree::new();
    let mut versions = VersionStore::new();
    for (path, bytes) in head_files {
        tree.put_file(tracked_node(path, bytes));
        versions.store_version(hash_bytes(bytes), bytes.to_vec());
    }
    let mut working: KvDb<WorkingFile> = KvDb::new();
    for (path, bytes) in working_files {
        working.put(
            path.to_string(),
            WorkingFile { bytes: bytes.to_vec(), mtime_seconds: 2, mtime_nanoseconds: 0 },
        );
    }
    let mut commits: KvDb<Commit> = KvDb::new();
    commits.put(
        "root".to_string(),
        Commit {
            id: "root".to_string(),
            parent_ids: Vec::new(),
            message: "initial commit".to_string(),
            author: "tester".to_string(),
            timestamp: 100,
        },
    );
    let mut trees: KvDb<Tree> = KvDb::new();
    trees.put("root".to_string(), tree);
    LocalRepository {
        working,
        staged: KvDb::new(),
        conflicts: KvDb::new(),
        versions,
        refs: KvDb::new(),
        commits,
        trees,
        head_commit_id: "root".to_string(),
        current_branch: Some("main".to_string()),
        author: "tester".to_string(),
    }
}

fn working_bytes(repo: &LocalRepository, path: &str) -> Option<Vec<u8>> {
    repo.working.get(path).map(|f| f.bytes.clone())
}

#[test]
fn save_on_clean_tree_creates_nothing() {
    let mut repo = mk_repo(&[("a.txt", b"hello")], &[("a.txt", b"hello")]);
    let r = stash::save(&mut repo, None).unwrap();
    assert!(r.is_none());
    assert_eq!(stash::list(&repo).unwrap().len(), 0);
}

#[test]
fn save_requires_a_branch() {
    let mut repo = mk_repo(&[("a.txt", b"hello")], &[("a.txt", b"HELLO")]);
    repo.current_branch = None;
    let r = stash::save(&mut repo, None);
    assert!(matches!(r, Err(OxenError::MustBeOnBranchToStash)));
}

#[test]
fn save_resets_working_tree_and_records_slot() {
    let mut repo = mk_repo(&[("a.txt", b"hello")], &[("a.txt", b"HELLO")]);
    let commit = stash::save(&mut repo, Some("wip change")).unwrap().unwrap();

    // The working tree is back at the head commit's content.
    assert_eq!(working_bytes(&repo, "a.txt").unwrap(), b"hello".to_vec());
    // One slot exists and points at the stash commit.
    let entries = stash::list(&repo).unwrap();
    assert_eq!(entries.len(), 1);
    assert_eq!(entries[0].name, "stash@{0}");
    assert_eq!(entries[0].ref_name, "refs/stashes/0");
    assert_eq!(entries[0].commit.id, commit.id);
    assert_eq!(commit.parent_ids, vec!["root".to_string()]);
    assert_eq!(commit.message, "WIP on main: root initial commit\n\nwip change");
}

#[test]
fn save_message_without_user_text() {
    let mut repo = mk_repo(&[("a.txt", b"hello")], &[("a.txt", b"HELLO")]);
    let commit = stash::save(&mut repo, None).unwrap().unwrap();
    assert_eq!(commit.message, "WIP on main: root initial commit");
}

#[test]
fn apply_restores_stashed_content() {
    let mut repo = mk_repo(&[("a.txt", b"hello")], &[("a.txt", b"HELLO")]);
    stash::save(&mut repo, None).unwrap().unwrap();
    assert_eq!(working_bytes(&repo, "a.txt").unwrap(), b"hello".to_vec());

    stash::apply(&mut repo, Some("stash@{0}")).unwrap();
    assert_eq!(working_bytes(&repo, "a.txt").unwrap(), b"HELLO".to_vec());
    // Apply retains the slot.
    assert_eq!(stash::list(&repo).unwrap().len(), 1);

    stash::drop(&mut repo, None).unwrap();
    assert_eq!(stash::list(&repo).unwrap().len(), 0);
}

#[test]
fn save_apply_round_trip_restores_working_tree() {
    let mut repo = mk_repo(
        &[("a.txt", b"hello")],
        &[("a.txt", b"HELLO"), ("new/nested.bin", b"fresh bytes")],
    );
    stash::save_apply_round_trip(&mut repo, Some("round trip")).unwrap();
    assert_eq!(working_bytes(&repo, "a.txt").unwrap(), b"HELLO".to_vec());
    assert_eq!(working_bytes(&repo, "new/nested.bin").unwrap(), b"fresh bytes".to_vec());
    assert_eq!(repo.working.len(), 2);
}

#[test]
fn stash_stack_density_across_saves_and_drops() {
    let mut repo = mk_repo(&[("a.txt", b"hello")], &[("a.txt", b"one")]);
    let c1 = stash::save(&mut repo, Some("first")).unwrap().unwrap();
    repo.working.put(
        "a.txt".to_string(),
        WorkingFile { bytes: b"two".to_vec(), mtime_seconds: 3, mtime_nanoseconds: 0 },
    );
    let c2 = stash::save(&mut repo, Some("second")).unwrap().unwrap();
    repo.working.put(
        "a.txt".to_string(),
        WorkingFile { bytes: b"three".to_vec(), mtime_seconds: 4, mtime_nanoseconds: 0 },
    );
    let c3 = stash::save(&mut repo, Some("third")).unwrap().unwrap();

    // Most recent first: slots 0, 1, 2.
    let entries = stash::list(&repo).unwrap();
    assert_eq!(entries.len(), 3);
    assert_eq!(entries[0].commit.id, c3.id);
    assert_eq!(entries[1].commit.id, c2.id);
    assert_eq!(entries[2].commit.id, c1.id);
    for (i, e) in entries.iter().enumerate() {
        assert_eq!(e.ref_name, format!("refs/stashes/{}", i));
        assert_eq!(e.name, format!("stash@{{{}}}", i));
    }

    // Dropping the middle slot compacts the stack: slots 0 and 1 remain.
    stash::drop(&mut repo, Some("1")).unwrap();
    let entries = stash::list(&repo).unwrap();
    assert_eq!(entries.len(), 2);
    assert_eq!(entries[0].commit.id, c3.id);
    assert_eq!(entries[1].commit.id, c1.id);
    assert_eq!(entries[0].ref_name, "refs/stashes/0");
    assert_eq!(entries[1].ref_name, "refs/stashes/1");

    stash::clear(&mut repo).unwrap();
    assert_eq!(stash::list(&repo).unwrap().len(), 0);
}

#[test]
fn resolve_accepts_index_name_ref_and_prefix() {
    let mut repo = mk_repo(&[("a.txt", b"hello")], &[("a.txt", b"one")]);
    let c = stash::save(&mut repo, None).unwrap().unwrap();

    let by_name = stash::resolve_stash_id_to_entry(&repo, Some("stash@{0}")).unwrap();
    assert_eq!(by_name.commit.id, c.id);
    let by_index = stash::resolve_stash_id_to_entry(&repo, Some("0")).unwrap();
    assert_eq!(by_index.commit.id, c.id);
    let by_ref = stash::resolve_stash_id_to_entry(&repo, Some("refs/stashes/0")).unwrap();
    assert_eq!(by_ref.commit.id, c.id);
    let prefix: String = c.id.chars().take(8).collect();
    let by_prefix = stash::resolve_stash_id_to_entry(&repo, Some(prefix.as_str())).unwrap();
    assert_eq!(by_prefix.commit.id, c.id);

    let missing = stash::resolve_stash_id_to_entry(&repo, Some("stash@{7}"));
    assert!(matches!(missing, Err(OxenError::StashIdNotFound(_))));
}

#[test]
fn stash_ops_on_empty_stack_report_no_stashes() {
    let mut repo = mk_repo(&[("a.txt", b"hello")], &[("a.txt", b"hello")]);
    assert!(matches!(stash::apply(&mut repo, None), Err(OxenError::NoStashesFound)));
    assert!(matches!(stash::pop(&mut repo, None), Err(OxenError::NoStashesFound)));
    assert!(matches!(stash::drop(&mut repo, None), Err(OxenError::NoStashesFound)));
}

#[test]
fn pop_applies_and_drops_slot() {
    let mut repo = mk_repo(&[("a.txt", b"hello")], &[("a.txt", b"HELLO")]);
    stash::save(&mut repo, None).unwrap().unwrap();
    stash::pop(&mut repo, None).unwrap();
    assert_eq!(working_bytes(&repo, "a.txt").unwrap(), b"HELLO".to_vec());
    assert_eq!(stash::list(&repo).unwrap().len(), 0);
}

#[test]
fn pop_on_conflict_retains_slot() {
    // Stash a change to a.txt, then move the head to a commit whose tree
    // changed a.txt differently: popping conflicts and the slot stays.
    let mut repo = mk_repo(&[("a.txt", b"hello")], &[("a.txt", b"stashed change")]);
    stash::save(&mut repo, None).unwrap().unwrap();

    // A new head whose a.txt differs from both the base and the stash.
    let mut other_tree = Tree::new();
    other_tree.put_file(tracked_node("a.txt", b"diverged"));
    repo.versions.store_version(hash_bytes(b"diverged"), b"diverged".to_vec());
    repo.commits.put(
        "other".to_string(),
        Commit {
            id: "other".to_string(),
            parent_ids: vec!["root".to_string()],
            message: "diverging commit".to_string(),
            author: "tester".to_string(),
            timestamp: 200,
        },
    );
    repo.trees.put("other".to_string(), other_tree);
    repo.head_commit_id = "other".to_string();

    let r = stash::pop(&mut repo, None);
    assert!(matches!(r, Err(OxenError::MergeConflict(_))));
    // The slot is still there, at its original index.
    let entries = stash::list(&repo).unwrap();
    assert_eq!(entries.len(), 1);
    assert_eq!(entries[0].ref_name, "refs/stashes/0");
    // The conflict was recorded.
    assert!(repo.conflicts.get("a.txt").is_some());
}

#[test]
fn stash_name_helpers() {
    assert_eq!(stash::stash_ref_name(0), "refs/stashes/0");
    assert_eq!(stash::stash_ref_name(12), "refs/stashes/12");
    assert_eq!(stash::stash_display_name(3), "stash@{3}");
    assert_eq!(stash::string_first_line("top\nrest"), "top");
    assert_eq!(stash::string_first_line("single"), "single");
    assert_eq!(stash::commit_id_prefix("0123456789abcdef"), "0123456789");
    assert_eq!(stash::commit_id_prefix("short"), "short");
}

#[test]
fn copytree_pop_conflict_keeps_local() {
    // The copy-tree variant: a slot shelves a.txt as "X" over base "hello";
    // locally a.txt was edited to "Y". The application conflicts and keeps
    // the local bytes, so the slot must be retained.
    let mut working: KvDb<WorkingFile> = KvDb::new();
    working.put(
        "a.txt".to_string(),
        WorkingFile { bytes: b"Y".to_vec(), mtime_seconds: 3, mtime_nanoseconds: 0 },
    );
    let shelved = vec![(
        "a.txt".to_string(),
        WorkingFile { bytes: b"X".to_vec(), mtime_seconds: 2, mtime_nanoseconds: 0 },
    )];
    let base_contents = vec![Some(b"hello".to_vec())];

    let conflicted = apply_copytree_slot(&mut working, &shelved, &base_contents);
    assert_eq!(conflicted, vec!["a.txt".to_string()]);
    assert_eq!(working.get("a.txt").unwrap().bytes, b"Y".to_vec());

    // The full decision table on direct inputs.
    let base = b"hello".to_vec();
    let stashed = b"X".to_vec();
    let local = b"Y".to_vec();
    assert!(matches!(
        shelf_decision(Some(&base), Some(&local), &stashed),
        ShelfOutcome::Conflict
    ));
    assert!(matches!(
        shelf_decision(Some(&base), Some(&stashed), &stashed),
        ShelfOutcome::WriteStashed
    ));
    assert!(matches!(
        shelf_decision(Some(&base), Some(&base), &stashed),
        ShelfOutcome::WriteStashed
    ));
    assert!(matches!(
        shelf_decision(Some(&base), Some(&local), &base),
        ShelfOutcome::KeepLocal
    ));
    assert!(matches!(
        shelf_decision(Some(&base), Some(&base), &base),
        ShelfOutcome::Unchanged
    ));
    // A file the base never tracked: conflicts only when it exists locally.
    assert!(matches!(shelf_decision(None, Some(&local), &stashed), ShelfOutcome::Conflict));
    assert!(matches!(shelf_decision(None, None, &stashed), ShelfOutcome::WriteStashed));
}

#[test]
fn apply_rejects_corrupt_stash_commit() {
    // A slot pointing at a commit without a parent cannot be applied.
    let mut repo = mk_repo(&[("a.txt", b"hello")], &[("a.txt", b"hello")]);
    repo.commits.put(
        "orphan".to_string(),
        Commit {
            id: "orphan".to_string(),
            parent_ids: Vec::new(),
            message: "no parent".to_string(),
            author: "tester".to_string(),
            timestamp: 7,
        },
    );
    repo.trees.put("orphan".to_string(), Tree::new());
    repo.refs.put("refs/stashes/0".to_string(), "orphan".to_string());
    let r = stash::apply(&mut repo, None);
    assert!(matches!(r, Err(OxenError::CorruptStashCommit(_))));
}

#[test]
fn apply_rejects_unknown_base_commit() {
    // A slot whose commit names a base the commit store does not hold.
    let mut repo = mk_repo(&[("a.txt", b"hello")], &[("a.txt", b"hello")]);
    repo.commits.put(
        "floating".to_string(),
        Commit {
            id: "floating".to_string(),
            parent_ids: vec!["missing-base".to_string()],
            message: "dangling parent".to_string(),
            author: "tester".to_string(),
            timestamp: 7,
        },
    );
    repo.trees.put("floating".to_string(), Tree::new());
    repo.refs.put("refs/stashes/0".to_string(), "floating".to_string());
    let r = stash::apply(&mut repo, None);
    assert!(matches!(r, Err(OxenError::CommitIdDoesNotExist(_))));
}

#[test]
fn conflict_head_reads_first_line_of_merge_head() {
    let mut commits: KvDb<Commit> = KvDb::new();
    commits.put(
        "abc123".to_string(),
        Commit {
            id: "abc123".to_string(),
            parent_ids: Vec::new(),
            message: "merge target".to_string(),
            author: "tester".to_string(),
            timestamp: 7,
        },
    );
    let found = oxen_core::conflicts::conflict_head(&commits, "abc123\ntrailing noise");
    assert_eq!(found.unwrap().id, "abc123");
    assert!(oxen_core::conflicts::conflict_head(&commits, "missing\n").is_none());
}

#[test]
fn copytree_push_shelves_modified_files_and_reverts() {
    let mut versions = VersionStore::new();
    let mut head = Tree::new();
    for (path, bytes) in [("a.txt", b"hello".as_slice()), ("c.txt", b"same".as_slice())] {
        let h = hash_bytes(bytes);
        versions.store_version(h, bytes.to_vec());
        head.put_file(FileNode {
            name: path.to_string(),
            hash: MerkleHash::new(h),
            combined_hash: MerkleHash::new(h),
            metadata_hash: None,
            num_bytes: bytes.len() as u64,
            last_modified_seconds: 1,
            last_modified_nanoseconds: 0,
            data_type: EntryDataType::Binary,
            metadata: None,
            mime_type: "application/octet-stream".to_string(),
            extension: String::new(),
        });
    }
    let mut working: KvDb<WorkingFile> = KvDb::new();
    for (path, bytes) in
        [("a.txt", b"HELLO".as_slice()), ("b.txt", b"new".as_slice()), ("c.txt", b"same".as_slice())]
    {
        working.put(
            path.to_string(),
            WorkingFile { bytes: bytes.to_vec(), mtime_seconds: 2, mtime_nanoseconds: 0 },
        );
    }

    let shelved = oxen_core::copy_stash::copytree_push(&mut working, &head, &versions);
    let mut names: Vec<&str> = shelved.iter().map(|e| e.0.as_str()).collect();
    names.sort();
    assert_eq!(names, vec!["a.txt", "b.txt"]);
    let a = shelved.iter().find(|e| e.0 == "a.txt").unwrap();
    assert_eq!(a.1.bytes, b"HELLO".to_vec());

    // the working tree now mirrors the head commit
    assert_eq!(working.get("a.txt").unwrap().bytes, b"hello".to_vec());
    assert_eq!(working.get("c.txt").unwrap().bytes, b"same".to_vec());
    assert!(working.get("b.txt").is_none());
}

#[test]
fn newest_slot_picks_greatest_name() {
    let names =
        vec!["stash_100".to_string(), "stash_300".to_string(), "stash_200".to_string()];
    assert_eq!(oxen_core::copy_stash::newest_slot(&names), Some(1));
    let empty: Vec<String> = Vec::new();
    assert_eq!(oxen_core::copy_stash::newest_slot(&empty), None);
}
