use vstd::prelude::*;
use vstd::string::StringExecFns;
use crate::error::GitError;
use crate::index::{Index, IndexEntry, IndexEntryView};
use crate::objtype::{decodes, Obj, ObjKind};
use crate::store::{prepare_write, ObjectWrite, object_path, stored_bytes};
use crate::hashing::object_id;
use crate::tree::{entries_view, is_mode_value, mode_of_value, EntryView, FileMode, Tree, TreeEntry};
use crate::zlib::{decompress, zlib_inflated};

verus! {

/// The kind of a stored object, when its bytes decode.
pub open spec fn stored_kind(data: Seq<u8>) -> Option<ObjKind> {
    match zlib_inflated(data) {
        Some(raw) => if decodes(raw) {
            Some(crate::objtype::meta_of(raw).unwrap().0)
        } else {
            None
        },
        None => None,
    }
}

pub open spec fn kind_of(o: Obj) -> ObjKind {
    match o {
        Obj::B(_) => ObjKind::Blob,
        Obj::T(_) => ObjKind::Tree,
        Obj::C(_) => ObjKind::Commit,
    }
}

/// The content of a stored object: what follows the header once the
/// bytes are decompressed.
pub open spec fn stored_content(data: Seq<u8>) -> Seq<u8> {
    crate::objtype::content_of(zlib_inflated(data).unwrap())
}

/// Decodes the stored bytes of an object: decompression, header, content.
pub fn read_obj(data: &[u8]) -> (r: Result<Obj, GitError>)
    ensures
        r is Ok <==> stored_kind(data@) is Some,
        r matches Ok(o) ==> stored_kind(data@) == Some(kind_of(o)),
        r matches Ok(Obj::B(b)) ==> b@ == stored_content(data@),
        r matches Ok(Obj::T(t)) ==> crate::tree::parse_entries(stored_content(data@)) == Some(t@),
        r matches Ok(Obj::C(c)) ==> crate::commit::parse_commit(stored_content(data@)) == Some(c@),
{
    let raw = decompress(data)?;
    Obj::decode(raw.as_slice())
}

/// The file leaves of one tree level, with their paths put under `prefix`.
pub open spec fn level_files(es: Seq<EntryView>, prefix: Seq<char>) -> Seq<EntryView>
    decreases es.len(),
{
    if es.len() == 0 {
        Seq::empty()
    } else {
        let rest = level_files(es.drop_last(), prefix);
        let e = es.last();
        if e.mode == FileMode::Tree {
            rest
        } else {
            rest.push(EntryView { path: joined(prefix, e.path), ..e })
        }
    }
}

/// The subtrees of one tree level: each one's id and its path under `prefix`.
pub open spec fn level_dirs(es: Seq<EntryView>, prefix: Seq<char>) -> Seq<(Seq<char>, Seq<char>)>
    decreases es.len(),
{
    if es.len() == 0 {
        Seq::empty()
    } else {
        let rest = level_dirs(es.drop_last(), prefix);
        let e = es.last();
        if e.mode == FileMode::Tree {
            rest.push((e.hash, joined(prefix, e.path)))
        } else {
            rest
        }
    }
}

pub open spec fn dirs_view(v: Seq<(String, String)>) -> Seq<(Seq<char>, Seq<char>)> {
    Seq::new(v.len(), |i: int| (v[i].0@, v[i].1@))
}

/// One step of flattening a tree into its leaves: the file entries of this
/// level, with their paths under `prefix`, and the subtrees still to visit
/// (id and path). The caller reads each subtree and repeats.
pub fn flatten_step(tree: &Tree, prefix: &str) -> (r: (Vec<TreeEntry>, Vec<(String, String)>))
    ensures
        entries_view(r.0@) == level_files(tree@, prefix@),
        dirs_view(r.1@) == level_dirs(tree@, prefix@),
{
    let ghost tv = tree@;
    let mut files: Vec<TreeEntry> = Vec::new();
    let mut dirs: Vec<(String, String)> = Vec::new();
    let mut i: usize = 0;
    assert(tv.subrange(0, 0) =~= Seq::<EntryView>::empty());
    assert(entries_view(files@) =~= Seq::<EntryView>::empty());
    assert(dirs_view(dirs@) =~= Seq::<(Seq<char>, Seq<char>)>::empty());
    while i < tree.0.len()
        invariant
            i <= tree.0@.len(),
            tv == tree@,
            entries_view(files@) == level_files(tv.subrange(0, i as int), prefix@),
            dirs_view(dirs@) == level_dirs(tv.subrange(0, i as int), prefix@),
        decreases tree.0@.len() - i,
    {
        let e = &tree.0[i];
        assert(tv.subrange(0, i + 1).drop_last() =~= tv.subrange(0, i as int));
        assert(tv.subrange(0, i + 1).last() == tv[i as int]);
        assert(tv[i as int] == e@);
        let path = join_path(prefix, e.path.as_str());
        if e.mode == FileMode::Tree {
            let ghost before = dirs_view(dirs@);
            dirs.push((e.hash.clone(), path));
            assert(dirs_view(dirs@) =~= before.push((e@.hash, joined(prefix@, e@.path))));
        } else {
            let ghost before = entries_view(files@);
            files.push(TreeEntry { mode: e.mode, hash: e.hash.clone(), path });
            assert(entries_view(files@) =~= before.push(EntryView { path: joined(prefix@, e@.path), ..e@ }));
        }
        i = i + 1;
    }
    assert(tv.subrange(0, tree.0@.len() as int) =~= tv);
    (files, dirs)
}

/// A path given as text, unchanged.
pub fn to_pathbuf(slice: &str) -> (r: Result<String, String>)
    ensures
        r matches Ok(p) && p@ == slice@,
{
    Ok(slice.to_owned())
}

/// `prefix/name`, or `name` alone under an empty prefix.
pub open spec fn joined(prefix: Seq<char>, name: Seq<char>) -> Seq<char> {
    if prefix.len() == 0 {
        name
    } else {
        prefix + seq!['/'] + name
    }
}

/// The path of `name` inside the directory `prefix`.
pub fn join_path(prefix: &str, name: &str) -> (r: String)
    ensures
        r@ == joined(prefix@, name@),
{
    if prefix.is_empty() {
        name.to_owned()
    } else {
        proof { reveal_strlit("/"); }
        let r = String::from_str(prefix).concat("/").concat(name);
        assert(r@ =~= joined(prefix@, name@));
        r
    }
}

/// The tree entry for a staged entry.
pub open spec fn entry_of_staged(e: IndexEntryView) -> EntryView {
    EntryView { mode: mode_of_value(e.mode), hash: e.hash, path: e.name }
}

impl Tree {
    /// A tree holding the staged entries as they are, paths unchanged.
    pub fn from_index(index: &Index) -> (r: Tree)
        requires
            forall|i: int| 0 <= i < index@.len() ==> is_mode_value(#[trigger] index@[i].mode),
        ensures
            r@ == Seq::new(index@.len(), |i: int| entry_of_staged(index@[i])),
    {
        let mut out: Vec<TreeEntry> = Vec::new();
        let mut i: usize = 0;
        while i < index.entries.len()
            invariant
                i <= index.entries@.len(),
                forall|k: int| 0 <= k < index@.len() ==> is_mode_value(#[trigger] index@[k].mode),
                out@.len() == i,
                forall|k: int| 0 <= k < i ==> (#[trigger] out@[k])@ == entry_of_staged(index@[k]),
            decreases index.entries@.len() - i,
        {
            let e = &index.entries[i];
            assert(is_mode_value(index@[i as int].mode));
            let mode = match FileMode::from_value(e.mode) {
                Ok(m) => m,
                Err(_) => FileMode::Blob,
            };
            out.push(TreeEntry { mode, hash: e.hash.clone(), path: e.name.clone() });
            i = i + 1;
        }
        let r = Tree(out);
        assert(r@ =~= Seq::new(index@.len(), |i: int| entry_of_staged(index@[i])));
        r
    }
}

/// Stages a file of the workspace: its blob is prepared for writing, and
/// the entry records it under `path`, executable or not.
pub fn add_object(path: &str, content: &[u8], executable: bool) -> (r: Result<(IndexEntry, ObjectWrite), GitError>)
    ensures
        r is Ok,
        r matches Ok((e, w)) ==> e@ == (IndexEntryView {
            mode: if executable { 0o100755u32 } else { 0o100644u32 },
            hash: object_id(ObjKind::Blob, content@),
            name: path@,
        }) && w.id@ == object_id(ObjKind::Blob, content@) && w.path@ == object_path(w.id@)
            && w.data@ == stored_bytes(ObjKind::Blob, content@),
{
    let w = prepare_write(ObjKind::Blob, content)?;
    let mode: u32 = if executable { 0o100755 } else { 0o100644 };
    let e = IndexEntry::new(mode, w.id.clone(), path.to_owned());
    Ok((e, w))
}

} // verus!

verus! {

/// A staged path inside the tree being built: the path below the current
/// directory (as bytes), the mode, and the id.
struct Leaf {
    name: Vec<u8>,
    mode: u32,
    hash: String,
}

/// What a leaf holds, as mathematical values.
pub struct LeafView {
    pub name: Seq<u8>,
    pub mode: u32,
    pub hash: Seq<char>,
}

impl View for Leaf {
    type V = LeafView;

    closed spec fn view(&self) -> LeafView {
        LeafView { name: self.name@, mode: self.mode, hash: self.hash@ }
    }
}

spec fn leaves_view(v: Seq<Leaf>) -> Seq<LeafView> {
    Seq::new(v.len(), |i: int| v[i]@)
}

/// Whether a path has a directory part.
pub open spec fn has_slash(name: Seq<u8>) -> bool {
    crate::bytes::find_from(name, 0, 47) < name.len()
}

/// The first component of a path: everything before its first `/`.
pub open spec fn first_component(name: Seq<u8>) -> Seq<u8> {
    name.subrange(0, crate::bytes::find_from(name, 0, 47))
}

/// Whether a tree's entries account for a staged path: an entry named by
/// the path's first component, which for a plain file name is the file with
/// its mode and id, and otherwise a directory.
#[verifier::opaque]
pub open spec fn covers(es: Seq<EntryView>, name: Seq<u8>, mode: u32, hash: Seq<char>) -> bool {
    exists|j: int|
        0 <= j < es.len() && vstd::utf8::encode_utf8((#[trigger] es[j]).path) == first_component(name) && (if has_slash(
            name,
        ) {
            es[j].mode == FileMode::Tree
        } else {
            es[j].mode == mode_of_value(mode) && es[j].hash == hash
        })
}

/// What follows the first `/` of a path.
pub open spec fn rest_of(name: Seq<u8>) -> Seq<u8> {
    name.subrange(crate::bytes::find_from(name, 0, 47) + 1, name.len() as int)
}

/// A leaf that can be stored at a nesting of at most `depth` levels: a
/// recognised mode, an object id, and a UTF-8 path without NUL shorter than
/// `depth`.
pub open spec fn leaf_ok(l: LeafView, depth: int) -> bool {
    &&& is_mode_value(l.mode)
    &&& crate::hashing::is_hex_id(l.hash)
    &&& !l.name.contains(0u8)
    &&& vstd::utf8::valid_utf8(l.name)
    &&& l.name.len() <= depth
}

proof fn lemma_no_nul_subrange(b: Seq<u8>, lo: int, hi: int)
    requires
        0 <= lo <= hi <= b.len(),
        !b.contains(0u8),
    ensures
        !b.subrange(lo, hi).contains(0u8),
{
    if b.subrange(lo, hi).contains(0u8) {
        let j = choose|j: int| 0 <= j < hi - lo && b.subrange(lo, hi)[j] == 0u8;
        assert(b[lo + j] == 0u8);
    }
}

/// Splitting a storable path at its first `/` gives a storable directory
/// name and a storable rest, one level shallower.
proof fn lemma_split_leaf(l: LeafView, depth: int)
    requires
        leaf_ok(l, depth),
        has_slash(l.name),
    ensures
        leaf_ok(LeafView { name: rest_of(l.name), mode: l.mode, hash: l.hash }, depth - 1),
        vstd::utf8::valid_utf8(first_component(l.name)),
        !first_component(l.name).contains(0u8),
{
    let n = l.name;
    let s = crate::bytes::find_from(n, 0, 47);
    crate::bytes::lemma_find_bounds(n, 0, 47);
    assert(n[s] == 47u8);
    vstd::utf8::is_char_boundary_iff_not_is_continuation_byte(n, s);
    vstd::utf8::valid_utf8_split(n, s);
    let t = n.subrange(s, n.len() as int);
    assert(t[0] == 47u8);
    assert(vstd::utf8::is_char_boundary(t, 1)) by {
        if t.len() == 1 {
            vstd::utf8::is_char_boundary_start_end_of_seq(t);
        } else {
            vstd::utf8::is_char_boundary_iff_not_is_continuation_byte(t, 0);
            reveal_with_fuel(vstd::utf8::is_char_boundary, 2);
        }
    }
    vstd::utf8::valid_utf8_split(t, 1);
    assert(t.subrange(1, t.len() as int) =~= rest_of(n));
    lemma_no_nul_subrange(n, 0, s);
    lemma_no_nul_subrange(n, s + 1, n.len() as int);
}

/// Every write is the storage of a tree object under its own id.
pub open spec fn tree_writes_wf(ws: Seq<ObjectWrite>) -> bool {
    forall|i: int| 0 <= i < ws.len() ==> exists|c: Seq<u8>| {
        &&& crate::tree::parse_entries(c) is Some
        &&& crate::hashing::is_hex_id(ws[i].id@)
        &&& (#[trigger] ws[i]).id@ == object_id(ObjKind::Tree, c)
        &&& ws[i].path@ == object_path(ws[i].id@)
        &&& ws[i].data@ == stored_bytes(ObjKind::Tree, c)
    }
}

/// The staged entries as paths to store: encoded name, mode, id.
pub open spec fn index_leaves(es: Seq<IndexEntryView>) -> Seq<LeafView> {
    Seq::new(es.len(), |k: int| LeafView { name: vstd::utf8::encode_utf8(es[k].name), mode: es[k].mode, hash: es[k].hash })
}

/// Whether a tree entry stands for one of the staged paths: it is named by
/// that path's first component, and is the file itself (mode and id) for a
/// plain name, a directory otherwise.
#[verifier::opaque]
pub open spec fn from_leaf(e: EntryView, lv: Seq<LeafView>) -> bool {
    exists|k: int|
        0 <= k < lv.len() && vstd::utf8::encode_utf8(e.path) == first_component((#[trigger] lv[k]).name) && (if has_slash(
            lv[k].name,
        ) {
            e.mode == FileMode::Tree
        } else {
            e.mode == mode_of_value(lv[k].mode) && e.hash == lv[k].hash
        })
}

/// The entries of one tree level account for exactly the staged paths: every
/// path has its entry, and every entry stands for a path.
/// Whether a tree entry stands for a staged path: it is named by the path's
/// first component, and is the file itself (mode and id) for a plain name,
/// a directory otherwise.
pub open spec fn stands_for(e: EntryView, l: LeafView) -> bool {
    vstd::utf8::encode_utf8(e.path) == first_component(l.name) && (if has_slash(l.name) {
        e.mode == FileMode::Tree
    } else {
        e.mode == mode_of_value(l.mode) && e.hash == l.hash
    })
}

/// The entries come in the order of the paths they stand for: entry `j`
/// stands for path `src[j]`, and `src` increases.
#[verifier::opaque]
pub open spec fn first_come_order(es: Seq<EntryView>, lv: Seq<LeafView>) -> bool {
    exists|src: Seq<int>|
        #![trigger src.len()]
        src.len() == es.len() && (forall|j: int| 0 <= j < es.len() ==> 0 <= #[trigger] src[j] < lv.len() && stands_for(es[j], lv[src[j]]))
            && (forall|a: int, b: int| 0 <= a < b < es.len() ==> #[trigger] src[a] < #[trigger] src[b])
}

proof fn lemma_first_come_intro(es: Seq<EntryView>, lv: Seq<LeafView>, src: Seq<int>)
    requires
        src.len() == es.len(),
        forall|j: int| 0 <= j < es.len() ==> 0 <= #[trigger] src[j] < lv.len() && stands_for(es[j], lv[src[j]]),
        forall|a: int, b: int| 0 <= a < b < es.len() ==> #[trigger] src[a] < #[trigger] src[b],
    ensures
        first_come_order(es, lv),
{
    reveal(first_come_order);
}

pub open spec fn level_matches(es: Seq<EntryView>, lv: Seq<LeafView>) -> bool {
    &&& first_come_order(es, lv)
    &&& forall|k: int| 0 <= k < lv.len() ==> covers(es, (#[trigger] lv[k]).name, lv[k].mode, lv[k].hash)
    &&& forall|j: int| 0 <= j < es.len() ==> from_leaf(#[trigger] es[j], lv)
}

/// The paths below the directory `first`: each path whose first component
/// is `first`, with that component and its `/` taken off, in order.
pub open spec fn below(lv: Seq<LeafView>, first: Seq<u8>) -> Seq<LeafView>
    decreases lv.len(),
{
    if lv.len() == 0 {
        Seq::empty()
    } else {
        let r = below(lv.drop_last(), first);
        let l = lv.last();
        if has_slash(l.name) && first_component(l.name) == first {
            r.push(LeafView { name: rest_of(l.name), mode: l.mode, hash: l.hash })
        } else {
            r
        }
    }
}

/// Whether a write stores a tree whose entries account for exactly `lv`.
#[verifier::opaque]
pub open spec fn stores_level(w: ObjectWrite, lv: Seq<LeafView>) -> bool {
    exists|es: Seq<EntryView>|
        #[trigger] w.data@ == stored_bytes(ObjKind::Tree, crate::tree::tree_bytes(es)) && crate::tree::parse_entries(
            crate::tree::tree_bytes(es),
        ) == Some(es) && level_matches(es, lv)
}

/// Whether the entries hold a directory named `first` whose id is that of a
/// write storing a tree for exactly the paths below `first`.
#[verifier::opaque]
pub open spec fn dir_stored(es: Seq<EntryView>, ws: Seq<ObjectWrite>, lv: Seq<LeafView>, first: Seq<u8>) -> bool {
    exists|j: int, w: int|
        0 <= j < es.len() && 0 <= w < ws.len() && vstd::utf8::encode_utf8((#[trigger] es[j]).path) == first
            && es[j].mode == FileMode::Tree && (#[trigger] ws[w]).id@ == es[j].hash && stores_level(ws[w], below(lv, first))
}

/// Every directory part of the paths is stored as its own tree.
pub open spec fn dirs_stored(es: Seq<EntryView>, ws: Seq<ObjectWrite>, lv: Seq<LeafView>, upto: int) -> bool {
    forall|k: int| 0 <= k < upto && has_slash((#[trigger] lv[k]).name) ==> dir_stored(es, ws, lv, first_component(lv[k].name))
}

pub open spec fn extends(ws: Seq<ObjectWrite>, ws2: Seq<ObjectWrite>) -> bool {
    ws.len() <= ws2.len() && forall|i: int| 0 <= i < ws.len() ==> ws2[i] == ws[i]
}

proof fn lemma_dirs_stored_grow(
    es: Seq<EntryView>,
    es2: Seq<EntryView>,
    ws: Seq<ObjectWrite>,
    ws2: Seq<ObjectWrite>,
    lv: Seq<LeafView>,
    upto: int,
)
    requires
        dirs_stored(es, ws, lv, upto),
        extends(ws, ws2),
        es.len() <= es2.len(),
        forall|j: int| 0 <= j < es.len() ==> es2[j] == es[j],
    ensures
        dirs_stored(es2, ws2, lv, upto),
{
    reveal(dir_stored);
    assert forall|k: int| 0 <= k < upto && has_slash((#[trigger] lv[k]).name) implies dir_stored(
        es2,
        ws2,
        lv,
        first_component(lv[k].name),
    ) by {
        let f = first_component(lv[k].name);
        let (j, w) = choose|j: int, w: int|
            0 <= j < es.len() && 0 <= w < ws.len() && vstd::utf8::encode_utf8((#[trigger] es[j]).path) == f
                && es[j].mode == FileMode::Tree && (#[trigger] ws[w]).id@ == es[j].hash && stores_level(ws[w], below(lv, f));
        assert(es2[j] == es[j] && ws2[w] == ws[w]);
    }
}

proof fn lemma_dir_stored_new(es: Seq<EntryView>, ws: Seq<ObjectWrite>, lv: Seq<LeafView>, first: Seq<u8>)
    requires
        es.len() > 0,
        ws.len() > 0,
        vstd::utf8::encode_utf8(es.last().path) == first,
        es.last().mode == FileMode::Tree,
        ws.last().id@ == es.last().hash,
        stores_level(ws.last(), below(lv, first)),
    ensures
        dir_stored(es, ws, lv, first),
{
    reveal(dir_stored);
    assert(es[es.len() - 1] == es.last());
    assert(ws[ws.len() - 1] == ws.last());
}

proof fn lemma_below_none(lv: Seq<LeafView>, first: Seq<u8>)
    requires
        forall|m: int| 0 <= m < lv.len() ==> !(has_slash((#[trigger] lv[m]).name) && first_component(lv[m].name) == first),
    ensures
        below(lv, first) == Seq::<LeafView>::empty(),
    decreases lv.len(),
{
    if lv.len() > 0 {
        assert(!(has_slash(lv[lv.len() - 1].name) && first_component(lv[lv.len() - 1].name) == first));
        lemma_below_none(lv.drop_last(), first);
    }
}

/// The last write stores a tree whose entries account for exactly the leaves.
spec fn root_covers(ws: Seq<ObjectWrite>, leaves: Seq<LeafView>) -> bool {
    exists|es: Seq<EntryView>|
        #[trigger] ws.last().data@ == stored_bytes(ObjKind::Tree, crate::tree::tree_bytes(es)) && crate::tree::parse_entries(
            crate::tree::tree_bytes(es),
        ) == Some(es) && level_matches(es, leaves) && dirs_stored(es, ws, leaves, leaves.len() as int)
}

proof fn lemma_root_stores(ws: Seq<ObjectWrite>, lv: Seq<LeafView>)
    requires
        root_covers(ws, lv),
    ensures
        stores_level(ws.last(), lv),
{
    reveal(stores_level);
}

proof fn lemma_dirs_stored_step(es: Seq<EntryView>, ws: Seq<ObjectWrite>, lv: Seq<LeafView>, i: int)
    requires
        0 <= i < lv.len(),
        dirs_stored(es, ws, lv, i),
        has_slash(lv[i].name) ==> dir_stored(es, ws, lv, first_component(lv[i].name)),
    ensures
        dirs_stored(es, ws, lv, i + 1),
{
}

fn tree_name(b: Vec<u8>) -> (r: Result<String, GitError>)
    ensures
        r matches Ok(s) ==> !vstd::utf8::encode_utf8(s@).contains(0u8) && vstd::utf8::encode_utf8(s@) == b@,
        (!b@.contains(0u8) && vstd::utf8::valid_utf8(b@)) ==> r is Ok,
{
    let mut i: usize = 0;
    while i < b.len()
        invariant
            i <= b@.len(),
            forall|k: int| 0 <= k < i ==> b@[k] != 0u8,
        decreases b@.len() - i,
    {
        if b[i] == 0 {
            assert(b@.contains(0u8));
            return Err(GitError::invaild_path_encoding("a path holds a NUL byte"));
        }
        i = i + 1;
    }
    let ghost bv = b@;
    match crate::bytes::utf8_string(b) {
        Some(s) => {
            proof { vstd::utf8::decode_utf8_encode_utf8(bv); }
            Ok(s)
        },
        None => Err(GitError::invaild_path_encoding("a path is not UTF-8")),
    }
}

/// The first component of a path and whether the path has a directory part.
fn split_first(name: &[u8]) -> (r: (Vec<u8>, bool))
    ensures
        r.0@ == first_component(name@),
        r.1 == has_slash(name@),
        r.1 ==> r.0@.len() < name@.len(),
{
    let slash = crate::bytes::find_byte(name, 0, 47);
    proof { crate::bytes::lemma_find_bounds(name@, 0, 47); }
    (crate::bytes::copy_range(name, 0, slash), slash < name.len())
}

/// Whether a path before position `i` lies in the directory `first`.
fn seen_before(leaves: &Vec<Leaf>, i: usize, first: &[u8]) -> (r: bool)
    requires
        i <= leaves@.len(),
    ensures
        r <==> exists|k: int| 0 <= k < i && k < leaves@.len() && has_slash((#[trigger] leaves@[k]).name@)
            && first_component(leaves@[k].name@) == first@,
{
    let mut k: usize = 0;
    while k < i && k < leaves.len()
        invariant
            k <= i <= leaves@.len(),
            forall|m: int| 0 <= m < k ==> !(has_slash((#[trigger] leaves@[m]).name@) && first_component(leaves@[m].name@) == first@),
        decreases i - k,
    {
        let (other_first, slash) = split_first(leaves[k].name.as_slice());
        if slash && crate::bytes::bytes_eq(other_first.as_slice(), first) {
            assert(has_slash(leaves@[k as int].name@));
            return true;
        }
        k = k + 1;
    }
    false
}

proof fn lemma_from_leaf_at(e: EntryView, lv: Seq<LeafView>, k: int)
    requires
        0 <= k < lv.len(),
        vstd::utf8::encode_utf8(e.path) == first_component(lv[k].name),
        has_slash(lv[k].name) ==> e.mode == FileMode::Tree,
        !has_slash(lv[k].name) ==> e.mode == mode_of_value(lv[k].mode) && e.hash == lv[k].hash,
    ensures
        from_leaf(e, lv),
{
    reveal(from_leaf);
    reveal(covers);
}

proof fn lemma_covers_at(es: Seq<EntryView>, l: LeafView, j: int)
    requires
        0 <= j < es.len(),
        vstd::utf8::encode_utf8(es[j].path) == first_component(l.name),
        has_slash(l.name) ==> es[j].mode == FileMode::Tree,
        !has_slash(l.name) ==> es[j].mode == mode_of_value(l.mode) && es[j].hash == l.hash,
    ensures
        covers(es, l.name, l.mode, l.hash),
{
    reveal(from_leaf);
    reveal(covers);
}

proof fn lemma_covers_same_dir(es: Seq<EntryView>, a: LeafView, b: LeafView)
    requires
        covers(es, a.name, a.mode, a.hash),
        has_slash(a.name),
        has_slash(b.name),
        first_component(a.name) == first_component(b.name),
    ensures
        covers(es, b.name, b.mode, b.hash),
{
    reveal(covers);
}

/// One more path handled at a tree level: the entries so far still account
/// for the earlier paths, and for the new one.
proof fn lemma_level_extend(before: Seq<EntryView>, now: Seq<EntryView>, lv: Seq<LeafView>, i: int)
    requires
        0 <= i < lv.len(),
        forall|k: int| 0 <= k < i ==> covers(before, (#[trigger] lv[k]).name, lv[k].mode, lv[k].hash),
        forall|j: int| 0 <= j < before.len() ==> from_leaf(#[trigger] before[j], lv),
        now == before || (now.len() == before.len() + 1 && now.drop_last() == before && from_leaf(now.last(), lv)),
        covers(now, lv[i].name, lv[i].mode, lv[i].hash),
    ensures
        forall|k: int| 0 <= k <= i ==> covers(now, (#[trigger] lv[k]).name, lv[k].mode, lv[k].hash),
        forall|j: int| 0 <= j < now.len() ==> from_leaf(#[trigger] now[j], lv),
{
    reveal(covers);
    assert forall|k: int| 0 <= k <= i implies covers(now, (#[trigger] lv[k]).name, lv[k].mode, lv[k].hash) by {
        if k < i {
            let j0 = choose|j: int|
                0 <= j < before.len() && vstd::utf8::encode_utf8((#[trigger] before[j]).path) == first_component(
                    lv[k].name,
                ) && (if has_slash(lv[k].name) {
                    before[j].mode == FileMode::Tree
                } else {
                    before[j].mode == mode_of_value(lv[k].mode) && before[j].hash == lv[k].hash
                });
            assert(now[j0] == before[j0]);
        }
    }
    assert forall|j: int| 0 <= j < now.len() implies from_leaf(#[trigger] now[j], lv) by {
        if j < before.len() {
            assert(now[j] == before[j]);
        } else {
            assert(now[j] == now.last());
        }
    }
}

/// Stores one directory level: files become entries, and the paths that
/// share a first component become a subtree, stored first, at the place of
/// the first of them. Returns the level's id.
#[verifier::rlimit(60)]
fn build_level(leaves: &Vec<Leaf>, writes: &mut Vec<ObjectWrite>, depth: usize) -> (r: Result<String, GitError>)
    requires
        tree_writes_wf(old(writes)@),
    ensures
        tree_writes_wf(final(writes)@),
        extends(old(writes)@, final(writes)@),
        r is Ok ==> final(writes)@.len() > 0 && r->Ok_0@ == final(writes)@.last().id@ && root_covers(
            final(writes)@,
            leaves_view(leaves@),
        ),
        (forall|k: int| 0 <= k < leaves@.len() ==> leaf_ok(#[trigger] leaves_view(leaves@)[k], depth as int)) ==> r is Ok,
    decreases depth,
{
    let ghost lv = leaves_view(leaves@);
    let ghost all_ok = forall|k: int| 0 <= k < lv.len() ==> leaf_ok(#[trigger] lv[k], depth as int);
    let mut entries: Vec<TreeEntry> = Vec::new();
    let ghost mut src: Seq<int> = Seq::empty();
    let mut i: usize = 0;
    while i < leaves.len()
        invariant
            i <= leaves@.len(),
            lv == leaves_view(leaves@),
            src.len() == Tree(entries)@.len(),
            forall|j: int| 0 <= j < src.len() ==> 0 <= #[trigger] src[j] < i && stands_for(Tree(entries)@[j], lv[src[j]]),
            forall|a: int, b: int| 0 <= a < b < src.len() ==> #[trigger] src[a] < #[trigger] src[b],
            all_ok == (forall|k: int| 0 <= k < lv.len() ==> leaf_ok(#[trigger] lv[k], depth as int)),
            tree_writes_wf(writes@),
            crate::tree::tree_wf(Tree(entries)@),
            forall|k: int| 0 <= k < i ==> covers(Tree(entries)@, (#[trigger] lv[k]).name, lv[k].mode, lv[k].hash),
            forall|j: int| 0 <= j < Tree(entries)@.len() ==> from_leaf(#[trigger] Tree(entries)@[j], lv),
            extends(old(writes)@, writes@),
            dirs_stored(Tree(entries)@, writes@, lv, i as int),
        decreases leaves@.len() - i,
    {
        let (first, slash) = split_first(leaves[i].name.as_slice());
        let ghost before = Tree(entries)@;
        let ghost writes_before = writes@;
        assert(lv[i as int] == leaves@[i as int]@);
        if !slash {
            proof { crate::bytes::lemma_find_bounds(lv[i as int].name, 0, 47); }
            assert(first@ =~= lv[i as int].name);
            if !crate::store::is_object_id(leaves[i].hash.as_str()) {
                assert(!leaf_ok(lv[i as int], depth as int));
                return Err(GitError::invalid_hash(leaves[i].hash.as_str()));
            }
            let mode = match FileMode::from_value(leaves[i].mode) {
                Ok(m) => m,
                Err(e) => {
                    assert(!leaf_ok(lv[i as int], depth as int));
                    return Err(e);
                },
            };
            let path = match tree_name(first) {
                Ok(p) => p,
                Err(e) => {
                    assert(!leaf_ok(lv[i as int], depth as int));
                    return Err(e);
                },
            };
            entries.push(TreeEntry { mode, hash: leaves[i].hash.clone(), path });
            assert(Tree(entries)@ =~= before.push(entries@.last()@));
            assert(lv[i as int].name.subrange(0, lv[i as int].name.len() as int) =~= lv[i as int].name);
        } else if seen_before(leaves, i, first.as_slice()) {
            proof {
                let k2 = choose|k: int| 0 <= k < i && k < leaves@.len() && has_slash((#[trigger] leaves@[k]).name@)
                    && first_component(leaves@[k].name@) == first@;
                assert(lv[k2] == leaves@[k2]@);
                assert(covers(before, lv[k2].name, lv[k2].mode, lv[k2].hash));
                lemma_covers_same_dir(before, lv[k2], lv[i as int]);
            }
        } else {
            if depth == 0 {
                proof {
                    crate::bytes::lemma_find_bounds(lv[i as int].name, 0, 47);
                    if all_ok {
                        assert(leaf_ok(lv[i as int], depth as int));
                    }
                }
                return Err(GitError::invalid_tree("paths nest too deeply".to_owned()));
            }
            let mut group: Vec<Leaf> = Vec::new();
            let mut j = i;
            proof {
                assert forall|m: int| 0 <= m < i implies !(has_slash((#[trigger] lv.subrange(0, i as int)[m]).name)
                    && first_component(lv.subrange(0, i as int)[m].name) == first@) by {
                    assert(lv.subrange(0, i as int)[m] == leaves@[m]@);
                }
                lemma_below_none(lv.subrange(0, i as int), first@);
            }
            assert(leaves_view(group@) =~= Seq::<LeafView>::empty());
            while j < leaves.len()
                invariant
                    i <= j <= leaves@.len(),
                    depth > 0,
                    leaves_view(group@) == below(lv.subrange(0, j as int), first@),
                    lv == leaves_view(leaves@),
                    all_ok == (forall|k: int| 0 <= k < lv.len() ==> leaf_ok(#[trigger] lv[k], depth as int)),
                    all_ok ==> forall|g: int| 0 <= g < group@.len() ==> leaf_ok(#[trigger] leaves_view(group@)[g], depth - 1),
                decreases leaves@.len() - j,
            {
                let other = leaves[j].name.as_slice();
                let (other_first, other_slash) = split_first(other);
                assert(lv.subrange(0, j + 1).drop_last() =~= lv.subrange(0, j as int));
                assert(lv.subrange(0, j + 1).last() == lv[j as int]);
                assert(lv[j as int] == leaves@[j as int]@);
                if other_slash && crate::bytes::bytes_eq(other_first.as_slice(), first.as_slice()) {
                    let s2 = other_first.len();
                    let olen = other.len();
                    assert(s2 < olen);
                    let ghost before_group = leaves_view(group@);
                    group.push(Leaf {
                        name: crate::bytes::copy_range(other, s2 + 1, olen),
                        mode: leaves[j].mode,
                        hash: leaves[j].hash.clone(),
                    });
                    proof {
                        assert(lv[j as int] == leaves@[j as int]@);
                        crate::bytes::lemma_find_bounds(other@, 0, 47);
                        if all_ok {
                            assert(leaf_ok(lv[j as int], depth as int));
                            lemma_split_leaf(lv[j as int], depth as int);
                        }
                        let gv = leaves_view(group@);
                        assert(gv =~= before_group.push(group@.last()@));
                        assert(group@.last()@.name == rest_of(lv[j as int].name));
                    }
                }
                j = j + 1;
            }
            assert(lv.subrange(0, leaves@.len() as int) =~= lv);
            let id = match build_level(&group, writes, depth - 1) {
                Ok(id) => id,
                Err(e) => {
                    return Err(e);
                },
            };
            proof {
                if all_ok {
                    assert(leaf_ok(lv[i as int], depth as int));
                    lemma_split_leaf(lv[i as int], depth as int);
                }
            }
            let path = match tree_name(first) {
                Ok(p) => p,
                Err(e) => {
                    return Err(e);
                },
            };
            proof {
                let w = writes@.last();
                assert(writes@[writes@.len() - 1] == w);
                lemma_root_stores(writes@, below(lv, first@));
            }
            entries.push(TreeEntry { mode: FileMode::Tree, hash: id, path });
            assert(Tree(entries)@ =~= before.push(entries@.last()@));
            proof {
                lemma_dirs_stored_grow(before, Tree(entries)@, writes_before, writes@, lv, i as int);
                lemma_dir_stored_new(Tree(entries)@, writes@, lv, first@);
            }
        }
        proof {
            let now = Tree(entries)@;
            crate::bytes::lemma_find_bounds(lv[i as int].name, 0, 47);
            if now.len() > before.len() {
                assert(now.drop_last() =~= before);
                assert(now[before.len() as int] == now.last());
                let src0 = src;
                src = src.push(i as int);
                assert forall|j: int| 0 <= j < src.len() implies 0 <= #[trigger] src[j] < i + 1 && stands_for(now[j], lv[src[j]]) by {
                    if j < src0.len() {
                        assert(now[j] == before[j]);
                    }
                }
                lemma_from_leaf_at(now.last(), lv, i as int);
                lemma_covers_at(now, lv[i as int], before.len() as int);
            } else {
                assert(now =~= before);
            }
            lemma_level_extend(before, now, lv, i as int);
            if !slash {
                lemma_dirs_stored_grow(before, now, writes_before, writes@, lv, i as int);
            } else if now =~= before {
                lemma_dirs_stored_grow(before, now, writes_before, writes@, lv, i as int);
            }
            lemma_dirs_stored_step(now, writes@, lv, i as int);
        }
        i = i + 1;
    }
    let tree = Tree(entries);
    let content = tree.encode();
    proof { crate::tree::lemma_tree_round_trip(tree@); }
    let w = match prepare_write(ObjKind::Tree, content.as_slice()) {
        Ok(w) => w,
        Err(e) => {
            return Err(e);
        },
    };
    let id = w.id.clone();
    let ghost before = writes@;
    writes.push(w);
    proof {
        assert forall|k: int| 0 <= k < writes@.len() implies exists|c: Seq<u8>| {
            &&& crate::tree::parse_entries(c) is Some
            &&& crate::hashing::is_hex_id(writes@[k].id@)
            &&& (#[trigger] writes@[k]).id@ == object_id(ObjKind::Tree, c)
            &&& writes@[k].path@ == object_path(writes@[k].id@)
            &&& writes@[k].data@ == stored_bytes(ObjKind::Tree, c)
        } by {
            if k < before.len() {
                assert(writes@[k] == before[k]);
            } else {
                assert(crate::tree::parse_entries(content@) is Some);
            }
        }
        assert(writes@.last().data@ == stored_bytes(ObjKind::Tree, crate::tree::tree_bytes(tree@)));
        lemma_first_come_intro(tree@, lv, src);
        assert(level_matches(tree@, lv));
        lemma_dirs_stored_grow(tree@, tree@, before, writes@, lv, lv.len() as int);
    }
    Ok(id)
}

/// The trees that store the staged entries, nested by the `/`-separated
/// components of their paths, entries in the order the paths first come:
/// each write is a tree object under its id, subtrees before the trees that
/// hold them, and the root last. The root's entries account for exactly the
/// staged paths: each plain name is its file (mode and id), each directory
/// part a directory entry, and no entry stands for nothing. Each directory
/// entry's id is that of a stored tree whose entries account, in the same
/// way, for exactly the paths below it. Succeeds whenever every entry has a
/// recognised mode, an object id and a name without NUL.
pub fn build_tree_recursive(index: &Index) -> (r: Result<(String, Vec<ObjectWrite>), GitError>)
    ensures
        r matches Ok((root, ws)) ==> tree_writes_wf(ws@) && ws@.len() > 0 && root@ == ws@.last().id@
            && exists|es: Seq<EntryView>|
            #[trigger] ws@.last().data@ == stored_bytes(ObjKind::Tree, crate::tree::tree_bytes(es))
                && crate::tree::parse_entries(crate::tree::tree_bytes(es)) == Some(es) && level_matches(
                es,
                index_leaves(index@),
            ) && dirs_stored(es, ws@, index_leaves(index@), index@.len() as int),
        (forall|k: int| 0 <= k < index@.len() ==> crate::index::index_entry_wf(#[trigger] index@[k])) ==> r is Ok,
{
    let mut leaves: Vec<Leaf> = Vec::new();
    let mut depth: usize = 0;
    let mut i: usize = 0;
    while i < index.entries.len()
        invariant
            i <= index.entries@.len(),
            leaves@.len() == i,
            forall|k: int| 0 <= k < i ==> (#[trigger] leaves@[k])@.name.len() <= depth,
            forall|k: int| 0 <= k < i ==> (#[trigger] leaves@[k])@ == (LeafView {
                name: vstd::utf8::encode_utf8(index@[k].name),
                mode: index@[k].mode,
                hash: index@[k].hash,
            }),
        decreases index.entries@.len() - i,
    {
        let name = index.entries[i].name.as_str().as_bytes();
        if name.len() > depth {
            depth = name.len();
        }
        leaves.push(
            Leaf {
                name: crate::bytes::copy_range(name, 0, name.len()),
                mode: index.entries[i].mode,
                hash: index.entries[i].hash.clone(),
            },
        );
        assert(name@.subrange(0, name@.len() as int) =~= name@);
        i = i + 1;
    }
    let mut writes: Vec<ObjectWrite> = Vec::new();
    proof {
        let lv = leaves_view(leaves@);
        if forall|k: int| 0 <= k < index@.len() ==> crate::index::index_entry_wf(#[trigger] index@[k]) {
            assert forall|k: int| 0 <= k < lv.len() implies leaf_ok(#[trigger] lv[k], depth as int) by {
                assert(lv[k] == leaves@[k]@);
                assert(crate::index::index_entry_wf(index@[k]));
                vstd::utf8::encode_utf8_valid_utf8(index@[k].name);
            }
        }
    }
    let root = match build_level(&leaves, &mut writes, depth) {
        Ok(root) => root,
        Err(e) => {
            return Err(e);
        },
    };
    proof {
        assert(leaves_view(leaves@) =~= index_leaves(index@));
    }
    Ok((root, writes))
}

} // verus!
