use vstd::prelude::*;
use crate::bytes::str_eq;
use crate::error::GitError;
use crate::hashing::{hash_object, object_id};
use crate::index::{Index, IndexEntryView};
use crate::merge::{stage_of, staged};
use crate::objtype::ObjKind;
use crate::tree::{entries_view, EntryView, FileMode, TreeEntry};

verus! {

/// The id staged for `name`: that of the first entry of that path.
pub open spec fn staged_hash(es: Seq<IndexEntryView>, name: Seq<char>) -> Option<Seq<char>>
    decreases es.len(),
{
    if es.len() == 0 {
        None
    } else if es[0].name == name {
        Some(es[0].hash)
    } else {
        staged_hash(es.drop_first(), name)
    }
}

pub open spec fn has_name(es: Seq<IndexEntryView>, name: Seq<char>) -> bool {
    exists|k: int| 0 <= k < es.len() && (#[trigger] es[k]).name == name
}

pub open spec fn tree_has_path(es: Seq<EntryView>, p: Seq<char>) -> bool {
    exists|k: int| 0 <= k < es.len() && (#[trigger] es[k]).path == p
}

/// Whether the index differs from a tree's leaves: a leaf that is not
/// staged, or staged with another id, or a staged path that is no leaf.
pub open spec fn index_differs(tree: Seq<EntryView>, index: Seq<IndexEntryView>) -> bool {
    (exists|i: int| 0 <= i < tree.len() && staged_hash(index, (#[trigger] tree[i]).path) != Some(tree[i].hash))
        || (exists|j: int| 0 <= j < index.len() && !tree_has_path(tree, (#[trigger] index[j]).name))
}

/// The id staged for `name`, if any.
fn lookup_staged(index: &Index, name: &str) -> (r: Option<String>)
    ensures
        crate::merge::opt_view(r) == staged_hash(index@, name@),
{
    let mut i: usize = 0;
    assert(index@.subrange(0, index@.len() as int) =~= index@);
    while i < index.entries.len()
        invariant
            i <= index.entries@.len(),
            staged_hash(index@, name@) == staged_hash(index@.subrange(i as int, index@.len() as int), name@),
        decreases index.entries@.len() - i,
    {
        let ghost rest = index@.subrange(i as int, index@.len() as int);
        assert(rest.drop_first() =~= index@.subrange(i + 1, index@.len() as int));
        if str_eq(index.entries[i].name.as_str(), name) {
            return Some(index.entries[i].hash.clone());
        }
        i = i + 1;
    }
    None
}

fn staged_name(index: &Index, name: &str) -> (r: bool)
    ensures
        r == has_name(index@, name@),
{
    let mut i: usize = 0;
    while i < index.entries.len()
        invariant
            i <= index.entries@.len(),
            forall|k: int| 0 <= k < i ==> index@[k].name != name@,
        decreases index.entries@.len() - i,
    {
        if str_eq(index.entries[i].name.as_str(), name) {
            assert(index@[i as int].name == name@);
            return true;
        }
        i = i + 1;
    }
    false
}

/// Whether the index differs from the leaves of a tree.
pub fn is_index_modified(tree: &Vec<TreeEntry>, index: &Index) -> (r: bool)
    ensures
        r == index_differs(entries_view(tree@), index@),
{
    let ghost tv = entries_view(tree@);
    let mut i: usize = 0;
    while i < tree.len()
        invariant
            i <= tree@.len(),
            tv == entries_view(tree@),
            forall|k: int| 0 <= k < i ==> staged_hash(index@, (#[trigger] tv[k]).path) == Some(tv[k].hash),
        decreases tree@.len() - i,
    {
        match lookup_staged(index, tree[i].path.as_str()) {
            None => {
                assert(staged_hash(index@, tv[i as int].path) != Some(tv[i as int].hash));
                return true;
            },
            Some(h) => {
                if !str_eq(h.as_str(), tree[i].hash.as_str()) {
                    assert(staged_hash(index@, tv[i as int].path) != Some(tv[i as int].hash));
                    return true;
                }
            },
        }
        i = i + 1;
    }
    let mut j: usize = 0;
    while j < index.entries.len()
        invariant
            j <= index.entries@.len(),
            tv == entries_view(tree@),
            forall|k: int| 0 <= k < tv.len() ==> staged_hash(index@, (#[trigger] tv[k]).path) == Some(tv[k].hash),
            forall|k: int| 0 <= k < j ==> tree_has_path(tv, (#[trigger] index@[k]).name),
        decreases index.entries@.len() - j,
    {
        if !crate::merge::find_path(tree, index.entries[j].name.as_str()) {
            assert(!tree_has_path(tv, index@[j as int].name));
            return true;
        }
        j = j + 1;
    }
    false
}

/// The index after staging each leaf whose path is not staged yet, in order;
/// staged entries are never replaced.
pub open spec fn merged_into(index: Seq<IndexEntryView>, leaves: Seq<EntryView>) -> Seq<IndexEntryView>
    decreases leaves.len(),
{
    if leaves.len() == 0 {
        index
    } else {
        let acc = merged_into(index, leaves.drop_last());
        if has_name(acc, leaves.last().path) {
            acc
        } else {
            acc.push(staged(leaves.last()))
        }
    }
}

pub open spec fn is_file_mode(m: FileMode) -> bool {
    m == FileMode::Blob || m == FileMode::Exec
}

/// Stages every leaf of a tree whose path the index does not hold yet;
/// local staged state wins.
pub fn merge_tree_into_index(index: &mut Index, leaves: &Vec<TreeEntry>)
    ensures
        final(index)@ == merged_into(old(index)@, entries_view(leaves@)),
{
    let ghost start = index@;
    let ghost lv = entries_view(leaves@);
    let mut i: usize = 0;
    assert(lv.subrange(0, 0) =~= Seq::<EntryView>::empty());
    while i < leaves.len()
        invariant
            i <= leaves@.len(),
            lv == entries_view(leaves@),
            index@ == merged_into(start, lv.subrange(0, i as int)),
        decreases leaves@.len() - i,
    {
        assert(lv.subrange(0, i + 1).drop_last() =~= lv.subrange(0, i as int));
        assert(lv.subrange(0, i + 1).last() == lv[i as int]);
        if !staged_name(index, leaves[i].path.as_str()) {
            index.add_entry(stage_of(&leaves[i]));
        }
        i = i + 1;
    }
    assert(lv.subrange(0, leaves@.len() as int) =~= lv);
}

pub open spec fn is_file_value(m: u32) -> bool {
    m == 0o100644 || m == 0o100755
}

/// Whether a staged entry differs from what the workspace holds at its
/// path: nothing there, a file whose content has another id, or a directory
/// whose tree differs from it (`subtree_differs`).
pub open spec fn entry_differs(e: IndexEntryView, found: Option<Seq<u8>>, subtree_differs: bool) -> bool {
    match found {
        None => true,
        Some(content) => (is_file_value(e.mode) && object_id(ObjKind::Blob, content) != e.hash) || (e.mode
            == 0o40000 && subtree_differs),
    }
}

/// Whether a leaf of a tree differs from what the workspace holds at its
/// path: nothing there, or a file whose content has another id.
pub open spec fn leaf_differs(e: EntryView, found: Option<Seq<u8>>) -> bool {
    match found {
        None => true,
        Some(content) => is_file_mode(e.mode) && object_id(ObjKind::Blob, content) != e.hash,
    }
}

pub open spec fn found_view(v: Seq<Option<Vec<u8>>>) -> Seq<Option<Seq<u8>>> {
    Seq::new(v.len(), |i: int| match v[i] { None => None, Some(c) => Some(c@) })
}

/// Whether the workspace differs from the leaves of a tree (the files of a
/// staged directory). `found[i]` is what the workspace holds at the path of
/// leaf `i`.
pub fn is_workspace_modified_for_tree(leaves: &Vec<TreeEntry>, found: &Vec<Option<Vec<u8>>>) -> (r: bool)
    requires
        found@.len() == leaves@.len(),
    ensures
        r == exists|i: int| 0 <= i < leaves@.len() && leaf_differs((#[trigger] leaves@[i])@, found_view(found@)[i]),
{
    let ghost fv = found_view(found@);
    let mut i: usize = 0;
    while i < leaves.len()
        invariant
            i <= leaves@.len(),
            found@.len() == leaves@.len(),
            fv == found_view(found@),
            forall|k: int| 0 <= k < i ==> !leaf_differs((#[trigger] leaves@[k])@, fv[k]),
        decreases leaves@.len() - i,
    {
        let e = &leaves[i];
        match &found[i] {
            None => {
                assert(leaf_differs(leaves@[i as int]@, fv[i as int]));
                return true;
            },
            Some(content) => {
                if e.mode == FileMode::Blob || e.mode == FileMode::Exec {
                    let h = hash_object(ObjKind::Blob, content.as_slice());
                    if !str_eq(h.as_str(), e.hash.as_str()) {
                        assert(leaf_differs(leaves@[i as int]@, fv[i as int]));
                        return true;
                    }
                }
            },
        }
        i = i + 1;
    }
    false
}

/// Whether the workspace differs from the index. `found[i]` is what the
/// workspace holds at the path of entry `i`: `None` when nothing is there,
/// the file's content for a file (any bytes for a directory). For a
/// directory entry, `subtree_differs[i]` tells whether the workspace differs
/// from the tree it names (see `is_workspace_modified_for_tree`).
pub fn is_workspace_modified(index: &Index, found: &Vec<Option<Vec<u8>>>, subtree_differs: &Vec<bool>) -> (r: bool)
    requires
        found@.len() == index@.len(),
        subtree_differs@.len() == index@.len(),
    ensures
        r == exists|i: int|
            0 <= i < index@.len() && entry_differs(#[trigger] index@[i], found_view(found@)[i], subtree_differs@[i]),
{
    let ghost fv = found_view(found@);
    let mut i: usize = 0;
    while i < index.entries.len()
        invariant
            i <= index.entries@.len(),
            found@.len() == index@.len(),
            subtree_differs@.len() == index@.len(),
            fv == found_view(found@),
            forall|k: int| 0 <= k < i ==> !entry_differs(#[trigger] index@[k], fv[k], subtree_differs@[k]),
        decreases index.entries@.len() - i,
    {
        let e = &index.entries[i];
        match &found[i] {
            None => {
                assert(entry_differs(index@[i as int], fv[i as int], subtree_differs@[i as int]));
                return true;
            },
            Some(content) => {
                if e.mode == 0o100644 || e.mode == 0o100755 {
                    let h = hash_object(ObjKind::Blob, content.as_slice());
                    if !str_eq(h.as_str(), e.hash.as_str()) {
                        assert(entry_differs(index@[i as int], fv[i as int], subtree_differs@[i as int]));
                        return true;
                    }
                } else if e.mode == 0o40000 && subtree_differs[i] {
                    assert(entry_differs(index@[i as int], fv[i as int], subtree_differs@[i as int]));
                    return true;
                }
            },
        }
        i = i + 1;
    }
    false
}

/// What to do with the workspace path of one staged entry when the index is
/// carried into the workspace.
#[derive(Debug, Clone, Copy, PartialEq, Eq, Structural)]
pub enum WorkspaceStep {
    /// Write the staged content to the file.
    Write,
    /// Leave the file: it holds a local edit.
    Keep,
    /// Make sure the directory exists and carry its tree in.
    Descend,
}

/// The step for one staged entry, given what the workspace holds there.
pub open spec fn step_for(e: IndexEntryView, found: Option<Seq<u8>>) -> WorkspaceStep {
    if e.mode == 0o40000 {
        WorkspaceStep::Descend
    } else {
        match found {
            Some(content) if object_id(ObjKind::Blob, content) != e.hash => WorkspaceStep::Keep,
            _ => WorkspaceStep::Write,
        }
    }
}

/// Plans carrying the index into the workspace: each staged file is written
/// unless the workspace file holds other content, which is kept as a local
/// edit. Fails on an entry that is neither a regular file nor a directory.
pub fn merge_index_into_workspace(index: &Index, found: &Vec<Option<Vec<u8>>>) -> (r: Result<Vec<WorkspaceStep>, GitError>)
    requires
        found@.len() == index@.len(),
    ensures
        r is Err <==> exists|i: int| 0 <= i < index@.len() && !(is_file_value((#[trigger] index@[i]).mode) || index@[i].mode == 0o40000),
        r matches Ok(steps) ==> steps@.len() == index@.len() && forall|i: int| 0 <= i < index@.len() ==> #[trigger] steps@[i] == step_for(index@[i], found_view(found@)[i]),
{
    let ghost fv = found_view(found@);
    let mut steps: Vec<WorkspaceStep> = Vec::new();
    let mut i: usize = 0;
    while i < index.entries.len()
        invariant
            i <= index.entries@.len(),
            found@.len() == index@.len(),
            fv == found_view(found@),
            steps@.len() == i,
            forall|k: int| 0 <= k < i ==> is_file_value((#[trigger] index@[k]).mode) || index@[k].mode == 0o40000,
            forall|k: int| 0 <= k < i ==> #[trigger] steps@[k] == step_for(index@[k], fv[k]),
        decreases index.entries@.len() - i,
    {
        let e = &index.entries[i];
        if e.mode == 0o40000 {
            steps.push(WorkspaceStep::Descend);
        } else if e.mode == 0o100644 || e.mode == 0o100755 {
            let step = match &found[i] {
                None => WorkspaceStep::Write,
                Some(content) => {
                    let h = hash_object(ObjKind::Blob, content.as_slice());
                    if str_eq(h.as_str(), e.hash.as_str()) {
                        WorkspaceStep::Write
                    } else {
                        WorkspaceStep::Keep
                    }
                },
            };
            steps.push(step);
        } else {
            assert(!(is_file_value(index@[i as int].mode) || index@[i as int].mode == 0o40000));
            return Err(GitError::invalid_command("unsupported file mode in index".to_owned()));
        }
        i = i + 1;
    }
    Ok(steps)
}

/// Plans carrying the files of a staged directory into the workspace, by
/// the rule for staged files: each leaf is written unless the workspace file
/// holds other content. `found[i]` is what the workspace holds at the path
/// of leaf `i`. Fails on a leaf that is not a regular file.
pub fn merge_index_into_workspace_for_tree(leaves: &Vec<TreeEntry>, found: &Vec<Option<Vec<u8>>>) -> (r: Result<
    Vec<WorkspaceStep>,
    GitError,
>)
    requires
        found@.len() == leaves@.len(),
    ensures
        r is Err <==> exists|i: int| 0 <= i < leaves@.len() && !is_file_mode((#[trigger] leaves@[i]).mode),
        r matches Ok(steps) ==> steps@.len() == leaves@.len() && forall|i: int|
            0 <= i < leaves@.len() ==> #[trigger] steps@[i] == step_for(staged(leaves@[i]@), found_view(found@)[i]),
{
    let ghost fv = found_view(found@);
    let mut steps: Vec<WorkspaceStep> = Vec::new();
    let mut i: usize = 0;
    while i < leaves.len()
        invariant
            i <= leaves@.len(),
            found@.len() == leaves@.len(),
            fv == found_view(found@),
            steps@.len() == i,
            forall|k: int| 0 <= k < i ==> is_file_mode((#[trigger] leaves@[k]).mode),
            forall|k: int| 0 <= k < i ==> #[trigger] steps@[k] == step_for(staged(leaves@[k]@), fv[k]),
        decreases leaves@.len() - i,
    {
        let e = &leaves[i];
        if !(e.mode == FileMode::Blob || e.mode == FileMode::Exec) {
            assert(!is_file_mode(leaves@[i as int].mode));
            return Err(GitError::invalid_command("unsupported file mode in tree".to_owned()));
        }
        let step = match &found[i] {
            None => WorkspaceStep::Write,
            Some(content) => {
                let h = hash_object(ObjKind::Blob, content.as_slice());
                if str_eq(h.as_str(), e.hash.as_str()) {
                    WorkspaceStep::Write
                } else {
                    WorkspaceStep::Keep
                }
            },
        };
        steps.push(step);
        i = i + 1;
    }
    Ok(steps)
}

/// How a branch switch treats the workspace.
#[derive(Debug, Clone, Copy, PartialEq, Eq, Structural)]
pub enum SwitchPlan {
    /// Nothing local to keep: restore the target's tree outright.
    Restore,
    /// Local changes: stage the target's tree into the index (local state
    /// wins) and carry the index into the workspace.
    Carry,
}

/// Chooses how to switch branches: restore outright only when neither the
/// workspace nor the index differs from the current branch's tree.
pub fn switch_plan(workspace_modified: bool, index_modified: bool) -> (r: SwitchPlan)
    ensures
        r == (if !workspace_modified && !index_modified {
            SwitchPlan::Restore
        } else {
            SwitchPlan::Carry
        }),
{
    if !workspace_modified && !index_modified {
        SwitchPlan::Restore
    } else {
        SwitchPlan::Carry
    }
}

/// Whether a staged path is selected by a path named on the command line:
/// it is that path, or lies under it as a directory.
pub open spec fn path_selected(name: Seq<u8>, path: Seq<u8>) -> bool {
    name == path || (name.len() > path.len() && name.subrange(0, path.len() as int) == path && name[path.len() as int]
        == 47u8)
}

/// Whether the staged path `name` is `path` or lies below it.
pub fn is_selected(name: &str, path: &str) -> (r: bool)
    ensures
        r == path_selected(vstd::utf8::encode_utf8(name@), vstd::utf8::encode_utf8(path@)),
{
    let n = name.as_bytes();
    let p = path.as_bytes();
    if crate::bytes::bytes_eq(n, p) {
        return true;
    }
    if n.len() <= p.len() {
        return false;
    }
    crate::bytes::bytes_at(n, 0, p) && n[p.len()] == 47
}

} // verus!
