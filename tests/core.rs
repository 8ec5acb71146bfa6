use rgit::blob::Blob;
use rgit::checkout::{
    is_index_modified, is_workspace_modified, merge_index_into_workspace, merge_tree_into_index, WorkspaceStep,
};
use rgit::command::{CommitTree, Checkout};
use rgit::commit::Commit;
use rgit::error::GitError;
use rgit::fs::{add_object, join_path, read_obj};
use rgit::hashing::hash_object;
use rgit::index::{Index, IndexEntry};
use rgit::merge::{diff_array, first_same_commit, handle_dirrence_file, handle_different_file, merge_action, needs_text_merge, MergeAction};
use rgit::objtype::{parse_meta, Obj, ObjKind};
use rgit::store::{obj_to_pathbuf, prepare_write};
use rgit::tree::{FileMode, Tree, TreeEntry};
use rgit::zlib::{compress_object, decode_envelope, decompress_object};

const HELLO_ID: &str = "ce013625030ba8dba906f756967f9e9ca394464a";
const EMPTY_ID: &str = "e69de29bb2d1d6434b8b29ae775ad8c2e48c5391";

fn entry(mode: FileMode, hash: &str, path: &str) -> TreeEntry {
    TreeEntry { mode, hash: hash.to_string(), path: path.to_string() }
}

#[test]
fn command_test_add() {}

#[test]
fn test_build_commit_content() {
    let commit_tree = CommitTree {
        tree_hash: "d8329fc1cc938780ffdd9f94e0d364e0ea74f579".to_string(),
        message: "Initial commit".to_string(),
        pcommit: Some("8ea8033adc42a4148773457c1ad871d9e2f21d2e".to_string()),
    };
    let content = commit_tree.build_commit_content("Default Name", "default_email@example.com", 1748165415);
    assert!(content.contains("tree d8329fc1cc938780ffdd9f94e0d364e0ea74f579"));
    assert!(content.contains("parent 8ea8033adc42a4148773457c1ad871d9e2f21d2e"));
    assert!(content.contains("author Default Name <default_email@example.com>"));
    assert!(content.contains("committer Default Name <default_email@example.com>"));
    assert!(content.contains("Initial commit"));
}

#[test]
fn commit_content_exact_text() {
    let commit_tree = CommitTree { tree_hash: "t".to_string(), message: "m".to_string(), pcommit: None };
    let content = commit_tree.build_commit_content("N", "e@x", 0);
    assert_eq!(content, "tree t\nauthor N <e@x> 0 +0000\ncommitter N <e@x> 0 +0000\n\nm");
}

#[test]
fn blob_ids_match_git() {
    assert_eq!(hash_object(ObjKind::Blob, b"hello\n"), HELLO_ID);
    assert_eq!(hash_object(ObjKind::Blob, b""), EMPTY_ID);
}

#[test]
fn content_addressing_same_bytes_same_id() {
    let a = hash_object(ObjKind::Blob, b"some content");
    let b = hash_object(ObjKind::Blob, b"some content");
    assert_eq!(a, b);
    assert_ne!(a, hash_object(ObjKind::Blob, b"other content"));
    assert_ne!(a, hash_object(ObjKind::Tree, b"some content"));
}

#[test]
fn object_path_splits_id() {
    let p = obj_to_pathbuf(HELLO_ID).unwrap();
    assert_eq!(p, b"objects/ce/013625030ba8dba906f756967f9e9ca394464a".to_vec());
    assert!(matches!(obj_to_pathbuf("abc"), Err(GitError::InvalidHash(_))));
    assert_eq!(
        obj_to_pathbuf(&"z".repeat(40)).unwrap(),
        format!("objects/zz/{}", "z".repeat(38)).into_bytes()
    );
    assert!(obj_to_pathbuf(&"a".repeat(41)).is_err());
}

#[test]
fn write_idempotence_same_plan_twice() {
    let w1 = prepare_write(ObjKind::Blob, b"hello\n").unwrap();
    let w2 = prepare_write(ObjKind::Blob, b"hello\n").unwrap();
    assert_eq!(w1.id, HELLO_ID);
    assert_eq!(w1.id, w2.id);
    assert_eq!(w1.path, w2.path);
    assert_eq!(w1.data, w2.data);
}

#[test]
fn envelope_round_trip() {
    let stored = compress_object(ObjKind::Blob, b"hello\n").unwrap();
    assert_ne!(stored, b"blob 6\0hello\n".to_vec());
    let raw = decompress_object(&stored).unwrap();
    assert_eq!(raw, b"blob 6\0hello\n".to_vec());
    let (kind, content) = decode_envelope(&stored).unwrap();
    assert_eq!(kind, ObjKind::Blob);
    assert_eq!(content, b"hello\n".to_vec());
    match read_obj(&stored).unwrap() {
        Obj::B(b) => assert_eq!(b.0, b"hello\n".to_vec()),
        _ => panic!("expected a blob"),
    }
}

#[test]
fn envelope_rejects_damage() {
    assert!(decompress_object(b"not zlib at all").is_err());
    assert!(parse_meta(b"blob 6hello").is_none());
    assert!(parse_meta(b"blub 6\0hello").is_none());
    assert!(parse_meta(b"tree \0").is_none());
    assert_eq!(parse_meta(b"commit 12\0x"), Some((ObjKind::Commit, 10)));
    let blob = Blob::parse_object(b"blob 3\0abc").unwrap();
    assert_eq!(blob.0, b"abc".to_vec());
}

#[test]
fn tree_round_trip() {
    let t = Tree(vec![
        entry(FileMode::Blob, HELLO_ID, "a.txt"),
        entry(FileMode::Tree, EMPTY_ID, "dir with space"),
        entry(FileMode::Exec, HELLO_ID, "run.sh"),
    ]);
    let bytes = t.encode();
    assert!(bytes.starts_with(b"100644 a.txt\0"));
    assert_eq!(bytes.len(), 3 * 20 + "100644 a.txt\0".len() + "40000 dir with space\0".len() + "100755 run.sh\0".len());
    let back = Tree::parse(&bytes).unwrap();
    assert_eq!(back.0.len(), 3);
    assert_eq!(back.0[1].mode, FileMode::Tree);
    assert_eq!(back.0[1].path, "dir with space");
    assert_eq!(back.0[2].hash, HELLO_ID);
    assert_eq!(back.encode(), bytes);
}

#[test]
fn tree_rejects_bad_mode() {
    let mut bytes = b"100600 a\0".to_vec();
    bytes.extend_from_slice(&[7u8; 20]);
    assert!(matches!(Tree::parse(&bytes), Err(GitError::InvalidFileMode(_))));
    let short = b"100644 a\0abc".to_vec();
    assert!(matches!(Tree::parse(&short), Err(GitError::InvalidEntry(_))));
}

#[test]
fn commit_round_trip_normalises_message() {
    let c = Commit {
        tree_hash: EMPTY_ID.to_string(),
        parent_hash: vec![HELLO_ID.to_string(), EMPTY_ID.to_string()],
        author: "A U Thor <a@x> 1 +0000".to_string(),
        committer: "C O Mitter <c@x> 2 +0000".to_string(),
        message: "subject".to_string(),
    };
    let bytes = c.encode();
    let text = String::from_utf8(bytes.clone()).unwrap();
    assert_eq!(
        text,
        format!("tree {EMPTY_ID}\nparent {HELLO_ID}\nparent {EMPTY_ID}\nauthor A U Thor <a@x> 1 +0000\ncommitter C O Mitter <c@x> 2 +0000\n\nsubject\n")
    );
    let back = Commit::parse(&bytes).unwrap();
    assert_eq!(back.parent_hash, c.parent_hash);
    assert_eq!(back.author, c.author);
    assert_eq!(back.message, "subject\n");
    assert_eq!(back.encode(), bytes);
}

#[test]
fn commit_skips_signature_block() {
    let text = "tree t\nauthor a\ncommitter c\ngpgsig -----BEGIN\n sig\n\nmessage\n";
    let c = Commit::parse(text.as_bytes()).unwrap();
    assert_eq!(c.tree_hash, "t");
    assert!(c.parent_hash.is_empty());
    assert_eq!(c.message, "message\n");
}

#[test]
fn commit_missing_author_is_malformed() {
    assert!(matches!(Commit::parse(b"tree t\ncommitter c\n\nm"), Err(GitError::InvalidCommit(_))));
    assert!(matches!(Commit::parse(b"parent p\n"), Err(GitError::InvalidCommit(_))));
}

#[test]
fn object_kind_mismatch() {
    let obj = Obj::decode(b"blob 1\0x").unwrap();
    assert_eq!(obj.get_type(), ObjKind::Blob);
    assert!(matches!(Tree::from_obj(obj), Err(GitError::NotATTree(_))));
}

fn sample_index() -> Index {
    let mut ix = Index::new();
    ix.add_entry(IndexEntry::new(0o100644, HELLO_ID.to_string(), "a.txt".to_string()));
    ix.add_entry(IndexEntry::new(0o100755, EMPTY_ID.to_string(), "dir/run.sh".to_string()));
    ix.add_entry(IndexEntry::new(0o120000, HELLO_ID.to_string(), "link".to_string()));
    ix
}

#[test]
fn index_round_trip() {
    let ix = sample_index();
    let bytes = ix.encode();
    assert_eq!(&bytes[0..4], b"DIRC");
    assert_eq!(&bytes[4..8], &[0, 0, 0, 2]);
    assert_eq!(&bytes[8..12], &[0, 0, 0, 3]);
    assert_eq!(&bytes[36..40], &0o100644u32.to_be_bytes());
    assert_eq!(&bytes[72..74], &[0, 5]);
    let entry_len = |n: usize| (62 + n + 1 + 7) / 8 * 8;
    assert_eq!(bytes.len(), 12 + entry_len(5) + entry_len(10) + entry_len(4) + 20);
    let back = Index::parse(&bytes).unwrap();
    assert_eq!(back.entries.len(), 3);
    for (x, y) in back.entries.iter().zip(ix.entries.iter()) {
        assert_eq!(x.mode, y.mode);
        assert_eq!(x.hash, y.hash);
        assert_eq!(x.name, y.name);
    }
}

#[test]
fn index_rejects_bad_header() {
    let mut bytes = sample_index().encode();
    bytes[5] = 3;
    assert!(Index::parse(&bytes).is_err());
    assert!(Index::parse(b"DIRX\0\0\0\x02\0\0\0\0").is_err());
    let ok = Index::new().encode();
    assert_eq!(ok.len(), 32);
    assert!(Index::parse(&ok).unwrap().entries.is_empty());
    assert!(Index::parse(&ok[..31]).is_err());
}

#[test]
fn remove_entry_reports_presence() {
    let mut ix = sample_index();
    assert!(ix.remove_entry("a.txt"));
    assert!(!ix.remove_entry("a.txt"));
    assert_eq!(ix.entries.len(), 2);
    assert_eq!(ix.entries[0].name, "dir/run.sh");
}

#[test]
fn fast_forward_is_detected() {
    let ours = vec!["A".to_string()];
    let theirs = vec!["A".to_string(), "B".to_string(), "C".to_string()];
    let base = first_same_commit(&ours, &theirs).unwrap();
    assert_eq!(base, "A");
    assert_eq!(merge_action(&base, "A", "C"), MergeAction::FastForward);
    assert_eq!(merge_action(&base, "C", "A"), MergeAction::UpToDate);
    assert_eq!(merge_action("B", "C", "D"), MergeAction::ThreeWay);
}

#[test]
fn unrelated_histories_have_no_base() {
    let a = vec!["A".to_string(), "B".to_string()];
    let b = vec!["X".to_string()];
    assert!(matches!(first_same_commit(&a, &b), Err(GitError::NoSameAncestor(_))));
    let c = vec!["A".to_string(), "C".to_string()];
    assert_eq!(first_same_commit(&a, &c).unwrap(), "A");
}

#[test]
fn disjoint_edits_merge_cleanly() {
    let x = vec![entry(FileMode::Blob, EMPTY_ID, "base"), entry(FileMode::Blob, HELLO_ID, "f1")];
    let y = vec![entry(FileMode::Blob, EMPTY_ID, "base"), entry(FileMode::Blob, HELLO_ID, "f2")];
    let (only, same) = diff_array(&x, &y);
    assert_eq!(only.iter().map(|e| e.path.as_str()).collect::<Vec<_>>(), vec!["f1", "f2"]);
    assert_eq!(same.len(), 1);
    assert!(!needs_text_merge(&same[0].0, &same[0].1));
    let mut ix = Index::new();
    handle_dirrence_file(&mut ix, &only);
    let tree = Tree::from_index(&ix);
    let paths: Vec<&str> = tree.0.iter().map(|e| e.path.as_str()).collect();
    assert_eq!(paths, vec!["f1", "f2"]);
}

#[test]
fn conflicting_edits_stage_both_versions() {
    let a = entry(FileMode::Blob, HELLO_ID, "f");
    let b = entry(FileMode::Blob, EMPTY_ID, "f");
    assert!(needs_text_merge(&a, &b));
    let mut ix = Index::new();
    let out = handle_different_file(&mut ix, &a, &b, b"ours\n", b"theirs\n");
    assert!(out.conflict);
    let text = String::from_utf8(out.blob.clone()).unwrap();
    assert!(text.contains("<<<<<<<") && text.contains("ours") && text.contains("theirs"));
    assert_eq!(ix.entries.len(), 3);
    assert!(ix.entries.iter().all(|e| e.name == "f"));
    assert_eq!(ix.entries[0].hash, HELLO_ID);
    assert_eq!(ix.entries[1].hash, EMPTY_ID);
    assert_eq!(ix.entries[2].hash, hash_object(ObjKind::Blob, &out.blob));
}

#[test]
fn one_sided_content_merges() {
    let a = entry(FileMode::Blob, EMPTY_ID, "f");
    let b = entry(FileMode::Blob, HELLO_ID, "f");
    let mut ix = Index::new();
    let out = handle_different_file(&mut ix, &a, &b, b"", b"hello\n");
    assert!(!out.conflict);
    assert_eq!(out.blob, b"hello\n".to_vec());
    assert_eq!(ix.entries.len(), 1);
    assert_eq!(ix.entries[0].hash, HELLO_ID);
}

#[test]
fn workspace_edit_is_detected_and_revert_clears_it() {
    let (e, _) = add_object("f.txt", b"hello\n", false).unwrap();
    assert_eq!(e.hash, HELLO_ID);
    assert_eq!(e.mode, 0o100644);
    let mut ix = Index::new();
    ix.add_entry(e);
    assert!(!is_workspace_modified(&ix, &vec![Some(b"hello\n".to_vec())], &vec![false]));
    assert!(is_workspace_modified(&ix, &vec![Some(b"hello, edited\n".to_vec())], &vec![false]));
    assert!(!is_workspace_modified(&ix, &vec![Some(b"hello\n".to_vec())], &vec![false]));
    assert!(is_workspace_modified(&ix, &vec![None], &vec![false]));
}

#[test]
fn index_against_tree() {
    let tree = vec![entry(FileMode::Blob, HELLO_ID, "a.txt")];
    let mut ix = Index::new();
    ix.add_entry(IndexEntry::new(0o100644, HELLO_ID.to_string(), "a.txt".to_string()));
    assert!(!is_index_modified(&tree, &ix));
    ix.add_entry(IndexEntry::new(0o100644, EMPTY_ID.to_string(), "b.txt".to_string()));
    assert!(is_index_modified(&tree, &ix));
    let mut other = Index::new();
    other.add_entry(IndexEntry::new(0o100644, EMPTY_ID.to_string(), "a.txt".to_string()));
    assert!(is_index_modified(&tree, &other));
}

#[test]
fn tree_merge_into_index_keeps_local_state() {
    let mut ix = Index::new();
    ix.add_entry(IndexEntry::new(0o100644, EMPTY_ID.to_string(), "a.txt".to_string()));
    let leaves = vec![entry(FileMode::Blob, HELLO_ID, "a.txt"), entry(FileMode::Blob, HELLO_ID, "b.txt")];
    merge_tree_into_index(&mut ix, &leaves);
    assert_eq!(ix.entries.len(), 2);
    assert_eq!(ix.entries[0].hash, EMPTY_ID);
    assert_eq!(ix.entries[1].name, "b.txt");
    let bad = vec![entry(FileMode::Symbolic, HELLO_ID, "l")];
    merge_tree_into_index(&mut ix, &bad);
    assert_eq!(ix.entries.len(), 3);
    assert_eq!(ix.entries[2].mode, 0o120000);
}

#[test]
fn index_into_workspace_steps() {
    let mut ix = Index::new();
    ix.add_entry(IndexEntry::new(0o100644, HELLO_ID.to_string(), "same".to_string()));
    ix.add_entry(IndexEntry::new(0o100644, HELLO_ID.to_string(), "edited".to_string()));
    ix.add_entry(IndexEntry::new(0o100644, HELLO_ID.to_string(), "missing".to_string()));
    ix.add_entry(IndexEntry::new(0o40000, EMPTY_ID.to_string(), "dir".to_string()));
    let found = vec![Some(b"hello\n".to_vec()), Some(b"local\n".to_vec()), None, Some(vec![])];
    let steps = merge_index_into_workspace(&ix, &found).unwrap();
    assert_eq!(steps, vec![WorkspaceStep::Write, WorkspaceStep::Keep, WorkspaceStep::Write, WorkspaceStep::Descend]);
    let mut bad = Index::new();
    bad.add_entry(IndexEntry::new(0o120000, HELLO_ID.to_string(), "l".to_string()));
    assert!(merge_index_into_workspace(&bad, &vec![None]).is_err());
}

#[test]
fn paths_and_checkout_helpers() {
    assert_eq!(join_path("", "a"), "a");
    assert_eq!(join_path("dir/sub", "a"), "dir/sub/a");
    let c = Checkout::from_internal(Some("main".to_string()), vec![]);
    assert!(!c.create_new_branch);
    assert_eq!(c.branch_name_or_commit_hash.as_deref(), Some("main"));
    assert_eq!(FileMode::from_value(0o40000).unwrap(), FileMode::Tree);
    assert!(matches!(FileMode::from_value(0o100600), Err(GitError::InvalidFileMode(_))));
    assert_eq!(FileMode::Exec.value(), 0o100755);
}

#[test]
fn error_constructors_carry_text() {
    assert_eq!(GitError::network_error("down".to_string()), GitError::InvalidCommand("Network error: down".to_string()));
    assert_eq!(GitError::no_subcommand(), GitError::NoSubCommand);
    assert_eq!(GitError::invalid_commit("x"), GitError::InvalidCommit("invalid commit: x".to_string()));
    assert_eq!(
        GitError::invalid_hash("abc"),
        GitError::InvalidHash("expect hash code of length 40 but got abc of length 3".to_string())
    );
    assert_eq!(GitError::invalid_tree("bad".to_string()), GitError::InvalidEntry("bad".to_string()));
}
