use rgit::checkout::is_selected;
use rgit::merge::finish_merge;
use rgit::checkout::{is_workspace_modified, is_workspace_modified_for_tree, merge_index_into_workspace_for_tree, WorkspaceStep};
use rgit::blob::Blob;
use rgit::commit::Commit;
use rgit::merge::first_parent;
use rgit::objtype::Obj;
use rgit::command::{Checkout, HashObject};
use rgit::error::GitError;
use rgit::fs::build_tree_recursive;
use rgit::hashing::hash_object;
use rgit::index::{Index, IndexEntry};
use rgit::merge::{conflict_error, diff_array, diff_text, handle_same_file};
use rgit::objtype::ObjKind;
use rgit::store::prepare_write;
use rgit::tree::{FileMode, Tree, TreeEntry};
use rgit::zlib::compress_object;

const HELLO_ID: &str = "ce013625030ba8dba906f756967f9e9ca394464a";
const EMPTY_ID: &str = "e69de29bb2d1d6434b8b29ae775ad8c2e48c5391";

fn leaf(hash: &str, path: &str) -> TreeEntry {
    TreeEntry { mode: FileMode::Blob, hash: hash.to_string(), path: path.to_string() }
}

#[test]
fn diff_text_ranges() {
    assert_eq!(diff_text(b"a\nb\nc", b"a\nb\nc"), vec![]);
    assert_eq!(diff_text(b"a\nb\nc\nd", b"a\nX\nY\nd"), vec![(2, 3)]);
    assert_eq!(diff_text(b"x\nb\ny", b"a\nb\nc"), vec![(1, 1), (3, 3)]);
    assert_eq!(diff_text(b"a", b"a\nb\nc"), vec![(2, 3)]);
    assert_eq!(diff_text(b"x\ny\nz", b"q"), vec![(1, 1), (2, 3)]);
    assert_eq!(diff_text(b"", b"x"), vec![(1, 1)]);
}

#[test]
fn same_paths_merge_and_report_conflicts() {
    let same = vec![
        (leaf(HELLO_ID, "kept"), leaf(HELLO_ID, "kept")),
        (leaf(HELLO_ID, "clash"), leaf(EMPTY_ID, "clash")),
    ];
    let texts = vec![(vec![], vec![]), (b"ours\n".to_vec(), b"theirs\n".to_vec())];
    let mut index = Index::new();
    let out = handle_same_file(&mut index, &same, &texts);
    assert_eq!(out.blobs.len(), 1);
    assert_eq!(out.conflicts.len(), 1);
    assert_eq!(out.conflicts[0].0, "clash");
    assert_eq!(out.conflicts[0].1, vec![(1, 1)]);
    let names: Vec<&str> = index.entries.iter().map(|e| e.name.as_str()).collect();
    assert_eq!(names, vec!["kept", "clash", "clash", "clash"]);
    match conflict_error(&out.conflicts) {
        GitError::MergeConflict(m) => assert_eq!(m, "Merge conflict in clash: 1"),
        other => panic!("unexpected {other:?}"),
    }
    let wide = vec![("f".to_string(), vec![(2usize, 4usize)])];
    assert_eq!(conflict_error(&wide), GitError::MergeConflict("Merge conflict in f: [2, 4]".to_string()));
}

#[test]
fn three_way_disjoint_additions_build_one_tree() {
    let x = vec![leaf(EMPTY_ID, "base"), leaf(HELLO_ID, "f1")];
    let y = vec![leaf(EMPTY_ID, "base"), leaf(HELLO_ID, "f2")];
    let (only, same) = diff_array(&x, &y);
    let mut index = Index::new();
    rgit::merge::handle_dirrence_file(&mut index, &only);
    let texts = vec![(vec![], vec![]); same.len()];
    let out = handle_same_file(&mut index, &same, &texts);
    assert!(out.conflicts.is_empty());
    let (root, writes) = build_tree_recursive(&index).unwrap();
    assert_eq!(writes.len(), 1);
    assert_eq!(writes[0].id, root);
    let (kind, content) = rgit::zlib::decode_envelope(&writes[0].data).unwrap();
    assert_eq!(kind, ObjKind::Tree);
    let tree = Tree::parse(&content).unwrap();
    let mut names: Vec<&str> = tree.0.iter().map(|e| e.path.as_str()).collect();
    names.sort();
    assert_eq!(names, vec!["base", "f1", "f2"]);
}

#[test]
fn nested_paths_become_subtrees() {
    let mut index = Index::new();
    index.add_entry(IndexEntry::new(0o100644, HELLO_ID.to_string(), "dir/sub/a.txt".to_string()));
    index.add_entry(IndexEntry::new(0o100644, EMPTY_ID.to_string(), "top.txt".to_string()));
    index.add_entry(IndexEntry::new(0o100755, HELLO_ID.to_string(), "dir/run.sh".to_string()));
    let (root, writes) = build_tree_recursive(&index).unwrap();
    assert_eq!(writes.len(), 3);
    assert_eq!(writes.last().unwrap().id, root);
    let (_, content) = rgit::zlib::decode_envelope(&writes[2].data).unwrap();
    let top = Tree::parse(&content).unwrap();
    assert_eq!(top.0.len(), 2);
    assert_eq!(top.0[0].path, "dir");
    assert_eq!(top.0[0].mode, FileMode::Tree);
    assert_eq!(top.0[0].hash, writes[1].id);
    let (_, dir_content) = rgit::zlib::decode_envelope(&writes[1].data).unwrap();
    let dir = Tree::parse(&dir_content).unwrap();
    assert_eq!(dir.0.iter().map(|e| e.path.as_str()).collect::<Vec<_>>(), vec!["sub", "run.sh"]);
    // git's id for a tree holding the empty blob as "top.txt" only
    let mut single = Index::new();
    single.add_entry(IndexEntry::new(0o100644, EMPTY_ID.to_string(), "top.txt".to_string()));
    let (id, _) = build_tree_recursive(&single).unwrap();
    let expected = Tree(vec![leaf(EMPTY_ID, "top.txt")]).encode();
    assert_eq!(id, hash_object(ObjKind::Tree, &expected));
}

#[test]
fn bad_index_ids_are_refused_by_tree_building() {
    let mut index = Index::new();
    index.add_entry(IndexEntry::new(0o100644, "nothex".to_string(), "a".to_string()));
    assert!(matches!(build_tree_recursive(&index), Err(GitError::InvalidHash(_))));
}

#[test]
fn typed_reads_of_stored_objects() {
    let stored_blob = compress_object(ObjKind::Blob, b"hello\n").unwrap();
    assert_eq!(Checkout::read_blob(&stored_blob, HELLO_ID).unwrap().0, b"hello\n".to_vec());
    match Checkout::read_tree(&stored_blob, HELLO_ID) {
        Err(GitError::InvalidCommand(m)) => assert_eq!(m, format!("failed to parse tree data for {HELLO_ID}")),
        _ => panic!("a blob is not a tree"),
    }
    let tree_bytes = Tree(vec![leaf(HELLO_ID, "a")]).encode();
    let stored_tree = prepare_write(ObjKind::Tree, &tree_bytes).unwrap();
    assert_eq!(Checkout::read_tree(&stored_tree.data, &stored_tree.id).unwrap().0[0].path, "a");
    let commit = format!("tree {}\nauthor a\ncommitter c\n\nmsg\n", stored_tree.id);
    let stored_commit = compress_object(ObjKind::Commit, commit.as_bytes()).unwrap();
    assert_eq!(Checkout::read_commit(&stored_commit, "c").unwrap().tree_hash, stored_tree.id);
    let h = HashObject { write: false, filepath: "f".to_string() };
    assert_eq!(h.hash(b"hello\n"), HELLO_ID);
}

#[test]
fn index_sorts_by_name_bytes() {
    let mut index = Index::new();
    for name in ["b.txt", "a/z", "a.txt", "B", "a/b"] {
        index.add_entry(IndexEntry::new(0o100644, HELLO_ID.to_string(), name.to_string()));
    }
    index.sort_by_name();
    let names: Vec<&str> = index.entries.iter().map(|e| e.name.as_str()).collect();
    assert_eq!(names, vec!["B", "a.txt", "a/b", "a/z", "b.txt"]);
    let (_, writes) = build_tree_recursive(&index).unwrap();
    let (_, content) = rgit::zlib::decode_envelope(&writes.last().unwrap().data).unwrap();
    let root = Tree::parse(&content).unwrap();
    let top: Vec<&str> = root.0.iter().map(|e| e.path.as_str()).collect();
    assert_eq!(top, vec!["B", "a.txt", "a", "b.txt"]);
}

#[test]
fn each_error_has_an_input() {
    let mut bad_path = b"100644 \xff\xfe\0".to_vec();
    bad_path.extend_from_slice(&[1u8; 20]);
    assert!(matches!(Tree::parse(&bad_path), Err(GitError::InvaildPathEncoding(_))));
    assert!(matches!(Index::parse(b"DIRC"), Err(GitError::FailedToReadFile(_))));
    assert!(matches!(rgit::zlib::decompress_object(b"junk"), Err(GitError::InvalidObj(_))));
    assert!(matches!(Obj::decode(b"tree x\0"), Err(GitError::InvalidObj(_))));
    let blob = Obj::decode(b"blob 1\0x").unwrap();
    assert_eq!(
        first_parent(blob, "abc".to_string()),
        Err(GitError::BrokenCommitHistory("abc".to_string()))
    );
    let tree = Obj::decode(b"tree 0\0").unwrap();
    assert!(matches!(Blob::from_obj(tree), Err(GitError::NotABBlob(_))));
    let tree = Obj::decode(b"tree 0\0").unwrap();
    assert!(matches!(Commit::from_obj(tree), Err(GitError::NotACCommit(_))));
    let commit = Obj::decode(b"commit 40\0tree t\nparent p\nauthor a\ncommitter c\n\nm").unwrap();
    assert_eq!(first_parent(commit, "c".to_string()), Ok(Some("p".to_string())));
}

#[test]
fn report_joins_lines_and_merge_ends() {
    let cs = vec![("a".to_string(), vec![(1usize, 1usize), (3, 5)]), ("b".to_string(), vec![(2, 2)])];
    assert_eq!(
        finish_merge(&cs, "o".to_string(), "t".to_string()),
        Err(GitError::MergeConflict("Merge conflict in a: 1\nMerge conflict in a: [3, 5]\nMerge conflict in b: 2".to_string()))
    );
    assert_eq!(finish_merge(&vec![], "o".to_string(), "t".to_string()), Ok(vec!["o".to_string(), "t".to_string()]));
    let c = rgit::merge::merge_commit("t".to_string(), vec!["o".to_string(), "x".to_string()], "me".to_string(), "dev");
    assert_eq!(c.message, "merge dev into this\n");
    assert_eq!(c.parent_hash.len(), 2);
}

#[test]
fn stored_writes_succeed_and_inflate_back() {
    let w = prepare_write(ObjKind::Commit, b"tree t\n").unwrap();
    let (kind, content) = rgit::zlib::decode_envelope(&w.data).unwrap();
    assert_eq!(kind, ObjKind::Commit);
    assert_eq!(content, b"tree t\n".to_vec());
    let (e, w2) = rgit::fs::add_object("x", b"hello\n", true).unwrap();
    assert_eq!(e.mode, 0o100755);
    assert_eq!(w2.id, HELLO_ID);
}

#[test]
fn sorting_and_flattening_steps() {
    let mut v = vec![leaf(HELLO_ID, "b"), leaf(HELLO_ID, "a/c"), leaf(HELLO_ID, "a.txt")];
    rgit::tree::sort_by_path(&mut v);
    assert_eq!(v.iter().map(|e| e.path.as_str()).collect::<Vec<_>>(), vec!["a.txt", "a/c", "b"]);
    let t = Tree(vec![leaf(HELLO_ID, "f"), TreeEntry { mode: FileMode::Tree, hash: EMPTY_ID.to_string(), path: "d".to_string() }]);
    let (files, dirs) = rgit::fs::flatten_step(&t, "top");
    assert_eq!(files[0].path, "top/f");
    assert_eq!(dirs, vec![(EMPTY_ID.to_string(), "top/d".to_string())]);
    assert_eq!(rgit::checkout::switch_plan(false, false), rgit::checkout::SwitchPlan::Restore);
    assert_eq!(rgit::checkout::switch_plan(true, false), rgit::checkout::SwitchPlan::Carry);
}

#[test]
fn directory_entries_consult_their_tree() {
    let leaves = vec![leaf(HELLO_ID, "d/a")];
    assert!(!is_workspace_modified_for_tree(&leaves, &vec![Some(b"hello\n".to_vec())]));
    assert!(is_workspace_modified_for_tree(&leaves, &vec![Some(b"other".to_vec())]));
    let mut ix = Index::new();
    ix.add_entry(IndexEntry::new(0o40000, EMPTY_ID.to_string(), "d".to_string()));
    assert!(!is_workspace_modified(&ix, &vec![Some(vec![])], &vec![false]));
    assert!(is_workspace_modified(&ix, &vec![Some(vec![])], &vec![true]));
    let steps = merge_index_into_workspace_for_tree(&leaves, &vec![Some(b"other".to_vec())]).unwrap();
    assert_eq!(steps, vec![WorkspaceStep::Keep]);
}

#[test]
fn checkout_path_selection() {

    assert!(is_selected("dir/a.txt", "dir"));
    assert!(is_selected("dir", "dir"));
    assert!(!is_selected("dir2/a.txt", "dir"));
    assert!(!is_selected("di", "dir"));
}
