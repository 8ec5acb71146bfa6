use vstd::prelude::*;
use vstd::string::StringExecFns;
use crate::command::{decimal_chars, decimal_string};
use crate::bytes::{bytes_eq, copy_range, find_byte, find_from, lemma_find_bounds, lemma_find_shift, str_eq};
use crate::error::GitError;
use crate::hashing::{hash_object, object_id};
use crate::index::{Index, IndexEntry, IndexEntryView};
use crate::objtype::{ObjKind, Obj};
use crate::tree::{entries_view, mode_value, EntryView, TreeEntry};

verus! {

/// Number of leading positions at which two histories agree, from `i` on.
pub open spec fn agree_from(a: Seq<Seq<char>>, b: Seq<Seq<char>>, i: int) -> int
    decreases a.len() - i,
{
    if 0 <= i < a.len() && i < b.len() && a[i] == b[i] {
        agree_from(a, b, i + 1)
    } else {
        i
    }
}

pub open spec fn ids_view(v: Seq<String>) -> Seq<Seq<char>> {
    Seq::new(v.len(), |i: int| v[i]@)
}

proof fn lemma_agree_bounds(a: Seq<Seq<char>>, b: Seq<Seq<char>>, i: int)
    requires
        0 <= i <= a.len(),
        i <= b.len(),
    ensures
        i <= agree_from(a, b, i) <= a.len(),
        agree_from(a, b, i) <= b.len(),
    decreases a.len() - i,
{
    if i < a.len() && i < b.len() && a[i] == b[i] {
        lemma_agree_bounds(a, b, i + 1);
    }
}

/// The merge base of two first-parent histories, each listed oldest first:
/// the last commit of their longest common prefix. Fails when they share no
/// prefix.
pub fn first_same_commit(ancestors1: &Vec<String>, ancestors2: &Vec<String>) -> (r: Result<String, GitError>)
    ensures
        ({
            let k = agree_from(ids_view(ancestors1@), ids_view(ancestors2@), 0);
            &&& r is Ok <==> k >= 1
            &&& r matches Ok(s) ==> s@ == ancestors1@[k - 1]@
        }),
        r matches Err(e) ==> e is NoSameAncestor,
{
    let ghost a = ids_view(ancestors1@);
    let ghost b = ids_view(ancestors2@);
    let mut i: usize = 0;
    while i < ancestors1.len() && i < ancestors2.len() && str_eq(ancestors1[i].as_str(), ancestors2[i].as_str())
        invariant
            i <= ancestors1@.len(),
            i <= ancestors2@.len(),
            a == ids_view(ancestors1@),
            b == ids_view(ancestors2@),
            agree_from(a, b, 0) == agree_from(a, b, i as int),
        decreases ancestors1@.len() - i,
    {
        i = i + 1;
    }
    if i >= 1 {
        Ok(ancestors1[i - 1].clone())
    } else {
        Err(GitError::no_same_ancestor("the two histories share no commit".to_owned()))
    }
}

/// Whether some entry of `b` has path `p`.
pub open spec fn has_path(b: Seq<EntryView>, p: Seq<char>) -> bool {
    exists|k: int| 0 <= k < b.len() && (#[trigger] b[k]).path == p
}

/// The entries of `a` whose path no entry of `b` has, in order.
pub open spec fn only_in(a: Seq<EntryView>, b: Seq<EntryView>) -> Seq<EntryView> {
    a.filter(|e: EntryView| !has_path(b, e.path))
}

/// `e` paired with each entry of `b` of the same path, in `b`'s order.
pub open spec fn same_path_in(e: EntryView, b: Seq<EntryView>) -> Seq<(EntryView, EntryView)> {
    b.filter(|f: EntryView| f.path == e.path).map_values(|f: EntryView| (e, f))
}

/// Every pair of an entry of `a` and an entry of `b` with the same path,
/// in `a`'s order and then `b`'s.
pub open spec fn pairs_of(a: Seq<EntryView>, b: Seq<EntryView>) -> Seq<(EntryView, EntryView)>
    decreases a.len(),
{
    if a.len() == 0 {
        Seq::empty()
    } else {
        pairs_of(a.drop_last(), b) + same_path_in(a.last(), b)
    }
}

pub open spec fn pairs_view(v: Seq<(TreeEntry, TreeEntry)>) -> Seq<(EntryView, EntryView)> {
    Seq::new(v.len(), |i: int| (v[i].0@, v[i].1@))
}

/// Whether some entry of `b` has path `p`.
pub fn find_path(b: &Vec<TreeEntry>, p: &str) -> (r: bool)
    ensures
        r == has_path(entries_view(b@), p@),
{
    let ghost bv = entries_view(b@);
    let mut j: usize = 0;
    while j < b.len()
        invariant
            j <= b@.len(),
            bv == entries_view(b@),
            forall|k: int| 0 <= k < j ==> bv[k].path != p@,
        decreases b@.len() - j,
    {
        if str_eq(b[j].path.as_str(), p) {
            assert(bv[j as int].path == p@);
            return true;
        }
        j = j + 1;
    }
    false
}

fn collect_matches(e: &TreeEntry, b: &Vec<TreeEntry>, pairs: &mut Vec<(TreeEntry, TreeEntry)>)
    ensures
        pairs_view(final(pairs)@) == pairs_view(old(pairs)@) + same_path_in(e@, entries_view(b@)),
{
    let ghost bv = entries_view(b@);
    let ghost start = pairs_view(pairs@);
    let mut j: usize = 0;
    assert(bv.subrange(0, 0).filter(|f: EntryView| f.path == e@.path) =~= Seq::<EntryView>::empty());
    assert(pairs_view(pairs@) =~= start + same_path_in(e@, bv.subrange(0, 0)));
    while j < b.len()
        invariant
            j <= b@.len(),
            bv == entries_view(b@),
            pairs_view(pairs@) == start + same_path_in(e@, bv.subrange(0, j as int)),
        decreases b@.len() - j,
    {
        let ghost cur = bv.subrange(0, j + 1);
        assert(cur.drop_last() =~= bv.subrange(0, j as int));
        assert(cur.last() == bv[j as int]);
        let ghost before = pairs_view(pairs@);
        if str_eq(b[j].path.as_str(), e.path.as_str()) {
            assert(cur.filter(|f: EntryView| f.path == e@.path) == bv.subrange(0, j as int).filter(
                |f: EntryView| f.path == e@.path,
            ).push(bv[j as int])) by {
                reveal_with_fuel(Seq::filter, 1);
            }
            pairs.push((e.duplicate(), b[j].duplicate()));
            assert(pairs_view(pairs@) =~= before.push((e@, bv[j as int])));
            assert(same_path_in(e@, cur) =~= same_path_in(e@, bv.subrange(0, j as int)).push((e@, bv[j as int])));
        } else {
            assert(cur.filter(|f: EntryView| f.path == e@.path) == bv.subrange(0, j as int).filter(
                |f: EntryView| f.path == e@.path,
            )) by {
                reveal_with_fuel(Seq::filter, 1);
            }
            assert(same_path_in(e@, cur) =~= same_path_in(e@, bv.subrange(0, j as int)));
        }
        j = j + 1;
        assert(pairs_view(pairs@) =~= start + same_path_in(e@, bv.subrange(0, j as int)));
    }
    assert(bv.subrange(0, b@.len() as int) =~= bv);
}

fn collect_only(a: &Vec<TreeEntry>, b: &Vec<TreeEntry>, out: &mut Vec<TreeEntry>)
    ensures
        entries_view(final(out)@) == entries_view(old(out)@) + only_in(entries_view(a@), entries_view(b@)),
{
    let ghost av = entries_view(a@);
    let ghost bv = entries_view(b@);
    let ghost start = entries_view(out@);
    let mut i: usize = 0;
    assert(av.subrange(0, 0).filter(|e: EntryView| !has_path(bv, e.path)) =~= Seq::<EntryView>::empty());
    assert(entries_view(out@) =~= start + only_in(av.subrange(0, 0), bv));
    while i < a.len()
        invariant
            i <= a@.len(),
            av == entries_view(a@),
            bv == entries_view(b@),
            entries_view(out@) == start + only_in(av.subrange(0, i as int), bv),
        decreases a@.len() - i,
    {
        let ghost cur = av.subrange(0, i + 1);
        assert(cur.drop_last() =~= av.subrange(0, i as int));
        assert(cur.last() == av[i as int]);
        let ghost before = entries_view(out@);
        if !find_path(b, a[i].path.as_str()) {
            assert(only_in(cur, bv) == only_in(av.subrange(0, i as int), bv).push(av[i as int])) by {
                reveal_with_fuel(Seq::filter, 1);
            }
            out.push(a[i].duplicate());
            assert(entries_view(out@) =~= before.push(av[i as int]));
        } else {
            assert(only_in(cur, bv) == only_in(av.subrange(0, i as int), bv)) by {
                reveal_with_fuel(Seq::filter, 1);
            }
        }
        i = i + 1;
        assert(entries_view(out@) =~= start + only_in(av.subrange(0, i as int), bv));
    }
    assert(av.subrange(0, a@.len() as int) =~= av);
}

/// Splits two trees' leaves by path: the entries whose path only one side
/// has (first those of `a`, then those of `b`), and every pair of entries,
/// one from each side, that share a path.
pub fn diff_array(a: &Vec<TreeEntry>, b: &Vec<TreeEntry>) -> (r: (Vec<TreeEntry>, Vec<(TreeEntry, TreeEntry)>))
    ensures
        entries_view(r.0@) == only_in(entries_view(a@), entries_view(b@)) + only_in(entries_view(b@), entries_view(a@)),
        pairs_view(r.1@) == pairs_of(entries_view(a@), entries_view(b@)),
{
    let mut diffence: Vec<TreeEntry> = Vec::new();
    assert(entries_view(diffence@) =~= Seq::<EntryView>::empty());
    collect_only(a, b, &mut diffence);
    collect_only(b, a, &mut diffence);
    let ghost av = entries_view(a@);
    let ghost bv = entries_view(b@);
    let mut same: Vec<(TreeEntry, TreeEntry)> = Vec::new();
    let mut i: usize = 0;
    assert(pairs_view(same@) =~= pairs_of(av.subrange(0, 0), bv));
    while i < a.len()
        invariant
            i <= a@.len(),
            av == entries_view(a@),
            bv == entries_view(b@),
            pairs_view(same@) == pairs_of(av.subrange(0, i as int), bv),
        decreases a@.len() - i,
    {
        collect_matches(&a[i], b, &mut same);
        assert(av.subrange(0, i + 1).drop_last() =~= av.subrange(0, i as int));
        assert(av.subrange(0, i + 1).last() == av[i as int]);
        i = i + 1;
    }
    assert(av.subrange(0, a@.len() as int) =~= av);
    (diffence, same)
}

/// What merging a branch into the current one amounts to.
#[derive(Debug, Clone, Copy, PartialEq, Eq, Structural)]
pub enum MergeAction {
    /// The other branch is already contained in the current one.
    UpToDate,
    /// The current branch is an ancestor of the other: move it forward.
    FastForward,
    /// The branches diverged: merge their trees.
    ThreeWay,
}

/// The kind of merge, from the merge base and the two branch tips.
pub open spec fn action_of(base: Seq<char>, ours: Seq<char>, theirs: Seq<char>) -> MergeAction {
    if base == theirs {
        MergeAction::UpToDate
    } else if base == ours {
        MergeAction::FastForward
    } else {
        MergeAction::ThreeWay
    }
}

/// Decides the kind of merge from the merge base and the two branch tips.
pub fn merge_action(base: &str, ours: &str, theirs: &str) -> (r: MergeAction)
    ensures
        r == action_of(base@, ours@, theirs@),
{
    if str_eq(base, theirs) {
        MergeAction::UpToDate
    } else if str_eq(base, ours) {
        MergeAction::FastForward
    } else {
        MergeAction::ThreeWay
    }
}

pub open spec fn first_parent_of(c: crate::commit::CommitView) -> Option<Seq<char>> {
    if c.parents.len() == 0 {
        None
    } else {
        Some(c.parents[0])
    }
}

pub open spec fn opt_view(o: Option<String>) -> Option<Seq<char>> {
    match o {
        None => None,
        Some(s) => Some(s@),
    }
}

/// One step of the first-parent walk: the first parent of the commit `obj`
/// read for id `hash`, or `None` at a root commit. Any other object breaks
/// the history.
pub fn first_parent(obj: Obj, hash: String) -> (r: Result<Option<String>, GitError>)
    ensures
        obj matches Obj::C(c) ==> r is Ok && opt_view(r->Ok_0) == first_parent_of(c@),
        !(obj is C) ==> r == Err::<Option<String>, GitError>(GitError::BrokenCommitHistory(hash)),
{
    match obj {
        Obj::C(c) => {
            if c.parent_hash.len() == 0 {
                Ok(None)
            } else {
                Ok(Some(c.parent_hash[0].clone()))
            }
        },
        _ => Err(GitError::broken_commit_history(hash)),
    }
}

/// The staged form of a tree entry.
pub open spec fn staged(e: EntryView) -> IndexEntryView {
    IndexEntryView { mode: mode_value(e.mode), hash: e.hash, name: e.path }
}

pub open spec fn staged_all(es: Seq<EntryView>) -> Seq<IndexEntryView> {
    Seq::new(es.len(), |i: int| staged(es[i]))
}

/// The index entry that stages a tree entry.
pub fn stage_of(e: &TreeEntry) -> (r: IndexEntry)
    ensures
        r@ == staged(e@),
{
    IndexEntry::new(e.mode.value(), e.hash.clone(), e.path.clone())
}

/// Stages entries that only one side has, as they are.
pub fn handle_dirrence_file(index: &mut Index, diffence: &Vec<TreeEntry>)
    ensures
        final(index)@ == old(index)@ + staged_all(entries_view(diffence@)),
{
    let ghost start = index@;
    let ghost dv = entries_view(diffence@);
    let mut i: usize = 0;
    assert(index@ =~= start + staged_all(dv.subrange(0, 0)));
    while i < diffence.len()
        invariant
            i <= diffence@.len(),
            dv == entries_view(diffence@),
            index@ == start + staged_all(dv.subrange(0, i as int)),
        decreases diffence@.len() - i,
    {
        index.add_entry(stage_of(&diffence[i]));
        i = i + 1;
        assert(index@ =~= start + staged_all(dv.subrange(0, i as int)));
    }
    assert(dv.subrange(0, diffence@.len() as int) =~= dv);
}

/// Whether two entries of the same path hold different objects, so that
/// their contents must be merged.
pub fn needs_text_merge(a: &TreeEntry, b: &TreeEntry) -> (r: bool)
    ensures
        r == (a@.hash != b@.hash),
{
    !str_eq(a.hash.as_str(), b.hash.as_str())
}

/// Merging two texts against an empty common ancestor: the merged text, or
/// the text with conflict markers when they cannot be reconciled.
pub uninterp spec fn text_merge(ours: Seq<u8>, theirs: Seq<u8>) -> Result<Seq<u8>, Seq<u8>>;

pub open spec fn outcome_view(r: Result<Vec<u8>, Vec<u8>>) -> Result<Seq<u8>, Seq<u8>> {
    match r {
        Ok(m) => Ok(m@),
        Err(c) => Err(c@),
    }
}

/// Relies on diffy's MergeOptions::merge_bytes, in the Merge conflict style,
/// with an empty ancestor.
#[verifier::external_body]
fn merge_texts(ours: &[u8], theirs: &[u8]) -> (r: Result<Vec<u8>, Vec<u8>>)
    ensures
        outcome_view(r) == text_merge(ours@, theirs@),
{
    let mut mo = diffy::MergeOptions::new();
    mo.set_conflict_style(diffy::ConflictStyle::Merge);
    mo.merge_bytes(b"", ours, theirs)
}

/// The outcome of merging one path that both sides changed.
pub struct PathMerge {
    /// Content of the new blob to store: the merged text, or the text with
    /// conflict markers.
    pub blob: Vec<u8>,
    /// Whether the two versions conflicted.
    pub conflict: bool,
}

/// Merges the contents of one path that both sides hold with different
/// objects. On success the merged text is staged as a new blob. On a
/// conflict both versions are staged, followed by a new blob holding the
/// conflict markers.
pub fn handle_different_file(index: &mut Index, a: &TreeEntry, b: &TreeEntry, a_blob: &[u8], b_blob: &[u8]) -> (r: PathMerge)
    ensures
        match text_merge(a_blob@, b_blob@) {
            Ok(m) => r.blob@ == m && !r.conflict && final(index)@ == old(index)@.push(
                IndexEntryView { mode: mode_value(a.mode), hash: object_id(ObjKind::Blob, m), name: a@.path },
            ),
            Err(c) => r.blob@ == c && r.conflict && final(index)@ == old(index)@.push(staged(a@)).push(
                staged(b@),
            ).push(IndexEntryView { mode: mode_value(a.mode), hash: object_id(ObjKind::Blob, c), name: a@.path }),
        },
{
    match merge_texts(a_blob, b_blob) {
        Ok(m) => {
            let id = hash_object(ObjKind::Blob, m.as_slice());
            index.add_entry(IndexEntry::new(a.mode.value(), id, a.path.clone()));
            PathMerge { blob: m, conflict: false }
        },
        Err(c) => {
            index.add_entry(stage_of(a));
            index.add_entry(stage_of(b));
            let id = hash_object(ObjKind::Blob, c.as_slice());
            index.add_entry(IndexEntry::new(a.mode.value(), id, a.path.clone()));
            PathMerge { blob: c, conflict: true }
        },
    }
}

/// The lines of a text: the pieces between newlines (a final newline
/// leaves an empty last line).
pub open spec fn split_lines(b: Seq<u8>) -> Seq<Seq<u8>>
    decreases b.len(),
{
    let nl = find_from(b, 0, 10);
    if nl < 0 || nl >= b.len() {
        seq![b]
    } else {
        seq![b.subrange(0, nl)] + split_lines(b.subrange(nl + 1, b.len() as int))
    }
}

pub open spec fn lines_view(v: Seq<Vec<u8>>) -> Seq<Seq<u8>> {
    Seq::new(v.len(), |i: int| v[i]@)
}

/// Splits a text into lines.
pub fn split_text(b: &[u8]) -> (r: Vec<Vec<u8>>)
    ensures
        lines_view(r@) == split_lines(b@),
{
    let mut acc: Vec<Vec<u8>> = Vec::new();
    let mut pos: usize = 0;
    assert(b@.subrange(0, b@.len() as int) =~= b@);
    assert(lines_view(acc@) + split_lines(b@) =~= split_lines(b@));
    loop
        invariant_except_break
            pos <= b@.len(),
            split_lines(b@) == lines_view(acc@) + split_lines(b@.subrange(pos as int, b@.len() as int)),
        ensures
            split_lines(b@) == lines_view(acc@),
        decreases b@.len() - pos,
    {
        let ghost rest = b@.subrange(pos as int, b@.len() as int);
        let nl = find_byte(b, pos, 10);
        proof {
            lemma_find_shift(b@, pos as int, 0, 10);
            lemma_find_bounds(b@, pos as int, 10);
        }
        let ghost before = lines_view(acc@);
        if nl >= b.len() {
            acc.push(copy_range(b, pos, b.len()));
            assert(lines_view(acc@) =~= before + seq![rest]);
            break;
        }
        acc.push(copy_range(b, pos, nl));
        assert(rest.subrange(0, nl - pos) =~= b@.subrange(pos as int, nl as int));
        assert(rest.subrange(nl - pos + 1, rest.len() as int) =~= b@.subrange(nl + 1, b@.len() as int));
        assert(lines_view(acc@) =~= before + seq![b@.subrange(pos as int, nl as int)]);
        assert(before + (seq![b@.subrange(pos as int, nl as int)] + split_lines(b@.subrange(nl + 1, b@.len() as int)))
            =~= lines_view(acc@) + split_lines(b@.subrange(nl + 1, b@.len() as int)));
        pos = nl + 1;
    }
    acc
}

/// The maximal runs of `true` in `d`, as 1-based first and last positions.
pub open spec fn runs(d: Seq<bool>) -> Seq<(int, int)>
    decreases d.len(),
{
    if d.len() == 0 {
        Seq::empty()
    } else {
        let r = runs(d.drop_last());
        let i = d.len() as int;
        if !d.last() {
            r
        } else if d.len() >= 2 && d[d.len() - 2] && r.len() > 0 {
            r.update(r.len() - 1, (r.last().0, i))
        } else {
            r.push((i, i))
        }
    }
}

/// The conflicting line ranges between two versions of a text: runs of
/// lines that differ, position by position, over the lines both have; then,
/// when one version has more lines, the range of those extra lines.
pub open spec fn conflict_ranges(a: Seq<u8>, b: Seq<u8>) -> Seq<(int, int)> {
    let la = split_lines(a);
    let lb = split_lines(b);
    let m = if la.len() < lb.len() { la.len() } else { lb.len() };
    let longest = if la.len() < lb.len() { lb.len() } else { la.len() };
    let d = Seq::new(m, |i: int| la[i] != lb[i]);
    runs(d) + if la.len() != lb.len() {
        seq![((m + 1) as int, longest as int)]
    } else {
        Seq::empty()
    }
}

pub open spec fn ranges_view(v: Seq<(usize, usize)>) -> Seq<(int, int)> {
    Seq::new(v.len(), |i: int| (v[i].0 as int, v[i].1 as int))
}

/// The line ranges, 1-based and inclusive, at which two versions of a text
/// conflict.
pub fn diff_text(ours: &[u8], theirs: &[u8]) -> (r: Vec<(usize, usize)>)
    ensures
        ranges_view(r@) == conflict_ranges(ours@, theirs@),
{
    let origin = split_text(ours);
    let modify = split_text(theirs);
    let ghost la = split_lines(ours@);
    let ghost lb = split_lines(theirs@);
    let minimal = if origin.len() < modify.len() { origin.len() } else { modify.len() };
    let longest = if origin.len() < modify.len() { modify.len() } else { origin.len() };
    let ghost d = Seq::new(minimal as nat, |i: int| la[i] != lb[i]);
    let mut ranges: Vec<(usize, usize)> = Vec::new();
    let mut prev = false;
    let mut i: usize = 0;
    assert(d.subrange(0, 0) =~= Seq::<bool>::empty());
    while i < minimal
        invariant
            i <= minimal,
            minimal <= origin@.len(),
            minimal <= modify@.len(),
            lines_view(origin@) == la,
            lines_view(modify@) == lb,
            d == Seq::new(minimal as nat, |k: int| la[k] != lb[k]),
            ranges_view(ranges@) == runs(d.subrange(0, i as int)),
            i > 0 ==> prev == d[i - 1],
            forall|k: int| 0 <= k < ranges@.len() ==> (#[trigger] ranges@[k]).1 <= i,
        decreases minimal - i,
    {
        let ghost cur = d.subrange(0, i + 1);
        assert(cur.drop_last() =~= d.subrange(0, i as int));
        assert(cur.last() == d[i as int]);
        let differ = !bytes_eq(origin[i].as_slice(), modify[i].as_slice());
        assert(differ == d[i as int]);
        let ghost before = ranges_view(ranges@);
        if differ {
            if prev && ranges.len() > 0 {
                let last = ranges.len() - 1;
                let first = ranges[last].0;
                ranges.set(last, (first, i + 1));
                assert(ranges_view(ranges@) =~= before.update(before.len() - 1, (before.last().0, i + 1)));
            } else {
                ranges.push((i + 1, i + 1));
                assert(ranges_view(ranges@) =~= before.push((i + 1, i + 1)));
            }
        }
        prev = differ;
        i = i + 1;
    }
    assert(d.subrange(0, minimal as int) =~= d);
    if origin.len() != modify.len() {
        let ghost before = ranges_view(ranges@);
        ranges.push((minimal + 1, longest));
        assert(ranges_view(ranges@) =~= before + seq![((minimal + 1) as int, longest as int)]);
    } else {
        assert(ranges_view(ranges@) =~= ranges_view(ranges@) + Seq::<(int, int)>::empty());
    }
    ranges
}

/// The index after merging one pair of entries that share a path.
pub open spec fn merge_pair_step(
    idx: Seq<IndexEntryView>,
    a: EntryView,
    b: EntryView,
    ta: Seq<u8>,
    tb: Seq<u8>,
) -> Seq<IndexEntryView> {
    if a.hash == b.hash {
        idx.push(staged(a))
    } else {
        match text_merge(ta, tb) {
            Ok(m) => idx.push(IndexEntryView { mode: mode_value(a.mode), hash: object_id(ObjKind::Blob, m), name: a.path }),
            Err(c) => idx.push(staged(a)).push(staged(b)).push(
                IndexEntryView { mode: mode_value(a.mode), hash: object_id(ObjKind::Blob, c), name: a.path },
            ),
        }
    }
}

/// The index after merging each pair in turn; `texts[k]` holds the two
/// contents of pair `k`.
pub open spec fn merge_pairs(
    idx: Seq<IndexEntryView>,
    pairs: Seq<(EntryView, EntryView)>,
    texts: Seq<(Seq<u8>, Seq<u8>)>,
) -> Seq<IndexEntryView>
    decreases pairs.len(),
{
    if pairs.len() == 0 {
        idx
    } else {
        merge_pair_step(
            merge_pairs(idx, pairs.drop_last(), texts.drop_last()),
            pairs.last().0,
            pairs.last().1,
            texts.last().0,
            texts.last().1,
        )
    }
}

/// The conflicts among the pairs: each path whose two contents could not
/// be merged, with its conflicting line ranges.
pub open spec fn pair_conflicts(
    pairs: Seq<(EntryView, EntryView)>,
    texts: Seq<(Seq<u8>, Seq<u8>)>,
) -> Seq<(Seq<char>, Seq<(int, int)>)>
    decreases pairs.len(),
{
    if pairs.len() == 0 {
        Seq::empty()
    } else {
        let rest = pair_conflicts(pairs.drop_last(), texts.drop_last());
        let (a, b) = pairs.last();
        let (ta, tb) = texts.last();
        if a.hash != b.hash && text_merge(ta, tb) is Err {
            rest.push((a.path, conflict_ranges(ta, tb)))
        } else {
            rest
        }
    }
}

/// The new blobs that merging the pairs stores: for each pair with two
/// different objects, the merged text or the text with conflict markers.
pub open spec fn pair_blobs(pairs: Seq<(EntryView, EntryView)>, texts: Seq<(Seq<u8>, Seq<u8>)>) -> Seq<Seq<u8>>
    decreases pairs.len(),
{
    if pairs.len() == 0 {
        Seq::empty()
    } else {
        let rest = pair_blobs(pairs.drop_last(), texts.drop_last());
        let (a, b) = pairs.last();
        let (ta, tb) = texts.last();
        if a.hash != b.hash {
            rest.push(
                match text_merge(ta, tb) {
                    Ok(m) => m,
                    Err(c) => c,
                },
            )
        } else {
            rest
        }
    }
}

pub open spec fn blobs_view(v: Seq<Vec<u8>>) -> Seq<Seq<u8>> {
    Seq::new(v.len(), |i: int| v[i]@)
}

pub open spec fn texts_view(v: Seq<(Vec<u8>, Vec<u8>)>) -> Seq<(Seq<u8>, Seq<u8>)> {
    Seq::new(v.len(), |i: int| (v[i].0@, v[i].1@))
}

pub open spec fn conflicts_view(v: Seq<(String, Vec<(usize, usize)>)>) -> Seq<(Seq<char>, Seq<(int, int)>)> {
    Seq::new(v.len(), |i: int| (v[i].0@, ranges_view(v[i].1@)))
}

/// What merging the paths that both sides hold produced.
pub struct SameFiles {
    /// Contents of new blobs to store: merged texts and conflict texts.
    pub blobs: Vec<Vec<u8>>,
    /// Each conflicting path with its conflicting line ranges.
    pub conflicts: Vec<(String, Vec<(usize, usize)>)>,
}

/// Stages the paths that both sides hold: an entry whose two sides hold the
/// same object is staged as it is; otherwise the contents `texts[k]` of the
/// pair are merged (see `handle_different_file`). Conflicts are gathered,
/// not stopped at.
pub fn handle_same_file(
    index: &mut Index,
    same: &Vec<(TreeEntry, TreeEntry)>,
    texts: &Vec<(Vec<u8>, Vec<u8>)>,
) -> (r: SameFiles)
    requires
        texts@.len() == same@.len(),
    ensures
        final(index)@ == merge_pairs(old(index)@, pairs_view(same@), texts_view(texts@)),
        conflicts_view(r.conflicts@) == pair_conflicts(pairs_view(same@), texts_view(texts@)),
        blobs_view(r.blobs@) == pair_blobs(pairs_view(same@), texts_view(texts@)),
{
    let ghost start = index@;
    let ghost pv = pairs_view(same@);
    let ghost tv = texts_view(texts@);
    let mut blobs: Vec<Vec<u8>> = Vec::new();
    let mut conflicts: Vec<(String, Vec<(usize, usize)>)> = Vec::new();
    let mut k: usize = 0;
    assert(pv.subrange(0, 0) =~= Seq::<(EntryView, EntryView)>::empty());
    assert(conflicts_view(conflicts@) =~= Seq::<(Seq<char>, Seq<(int, int)>)>::empty());
    assert(blobs_view(blobs@) =~= Seq::<Seq<u8>>::empty());
    while k < same.len()
        invariant
            k <= same@.len(),
            texts@.len() == same@.len(),
            pv == pairs_view(same@),
            tv == texts_view(texts@),
            index@ == merge_pairs(start, pv.subrange(0, k as int), tv.subrange(0, k as int)),
            conflicts_view(conflicts@) == pair_conflicts(pv.subrange(0, k as int), tv.subrange(0, k as int)),
            blobs_view(blobs@) == pair_blobs(pv.subrange(0, k as int), tv.subrange(0, k as int)),
        decreases same@.len() - k,
    {
        let a = &same[k].0;
        let b = &same[k].1;
        assert(pv.subrange(0, k + 1).drop_last() =~= pv.subrange(0, k as int));
        assert(tv.subrange(0, k + 1).drop_last() =~= tv.subrange(0, k as int));
        assert(pv.subrange(0, k + 1).last() == pv[k as int]);
        assert(tv.subrange(0, k + 1).last() == tv[k as int]);
        if !needs_text_merge(a, b) {
            index.add_entry(stage_of(a));
        } else {
            let ta = texts[k].0.as_slice();
            let tb = texts[k].1.as_slice();
            let out = handle_different_file(index, a, b, ta, tb);
            if out.conflict {
                let ghost before = conflicts_view(conflicts@);
                conflicts.push((a.path.clone(), diff_text(ta, tb)));
                assert(conflicts_view(conflicts@) =~= before.push((a@.path, conflict_ranges(ta@, tb@))));
            }
            let ghost bb = blobs_view(blobs@);
            blobs.push(out.blob);
            assert(blobs_view(blobs@) =~= bb.push(out.blob@));
        }
        k = k + 1;
    }
    assert(pv.subrange(0, same@.len() as int) =~= pv);
    assert(tv.subrange(0, same@.len() as int) =~= tv);
    SameFiles { blobs, conflicts }
}

/// One line of a conflict report.
pub open spec fn report_line(path: Seq<char>, range: (int, int)) -> Seq<char> {
    "Merge conflict in "@ + path + ": "@ + if range.0 == range.1 {
        decimal_chars(range.0 as nat)
    } else {
        "["@ + decimal_chars(range.0 as nat) + ", "@ + decimal_chars(range.1 as nat) + "]"@
    }
}

/// The report lines of one path's ranges.
pub open spec fn path_lines(path: Seq<char>, ranges: Seq<(int, int)>) -> Seq<Seq<char>>
    decreases ranges.len(),
{
    if ranges.len() == 0 {
        Seq::empty()
    } else {
        path_lines(path, ranges.drop_last()).push(report_line(path, ranges.last()))
    }
}

/// The report lines of every conflicting range of every path.
pub open spec fn report_lines(cs: Seq<(Seq<char>, Seq<(int, int)>)>) -> Seq<Seq<char>>
    decreases cs.len(),
{
    if cs.len() == 0 {
        Seq::empty()
    } else {
        report_lines(cs.drop_last()) + path_lines(cs.last().0, cs.last().1)
    }
}

/// Lines joined by newlines, with none after the last.
pub open spec fn join_lines(ls: Seq<Seq<char>>) -> Seq<char>
    decreases ls.len(),
{
    if ls.len() == 0 {
        Seq::empty()
    } else if ls.len() == 1 {
        ls[0]
    } else {
        join_lines(ls.drop_last()) + "\n"@ + ls.last()
    }
}

/// The whole report: a line per conflicting range of each path, joined by
/// newlines.
pub open spec fn report_text(cs: Seq<(Seq<char>, Seq<(int, int)>)>) -> Seq<char> {
    join_lines(report_lines(cs))
}

/// The merge failure that lists every conflicting path and line range.
pub fn conflict_error(conflicts: &Vec<(String, Vec<(usize, usize)>)>) -> (r: GitError)
    ensures
        r matches GitError::MergeConflict(m) && m@ == report_text(conflicts_view(conflicts@)),
{
    proof {
        reveal_strlit("Merge conflict in ");
        reveal_strlit(": ");
        reveal_strlit("[");
        reveal_strlit(", ");
        reveal_strlit("]");
        reveal_strlit("\n");
    }
    let ghost cv = conflicts_view(conflicts@);
    let mut text = String::new();
    let mut started = false;
    let mut k: usize = 0;
    assert(cv.subrange(0, 0) =~= Seq::<(Seq<char>, Seq<(int, int)>)>::empty());
    while k < conflicts.len()
        invariant
            k <= conflicts@.len(),
            cv == conflicts_view(conflicts@),
            text@ == join_lines(report_lines(cv.subrange(0, k as int))),
            started == (report_lines(cv.subrange(0, k as int)).len() > 0),
        decreases conflicts@.len() - k,
    {
        let path = conflicts[k].0.as_str();
        let ranges = &conflicts[k].1;
        let ghost rv = ranges_view(ranges@);
        let ghost head = report_lines(cv.subrange(0, k as int));
        let mut j: usize = 0;
        assert(rv.subrange(0, 0) =~= Seq::<(int, int)>::empty());
        assert(head + path_lines(path@, rv.subrange(0, 0)) =~= head);
        while j < ranges.len()
            invariant
                j <= ranges@.len(),
                rv == ranges_view(ranges@),
                text@ == join_lines(head + path_lines(path@, rv.subrange(0, j as int))),
                started == ((head + path_lines(path@, rv.subrange(0, j as int))).len() > 0),
            decreases ranges@.len() - j,
        {
            let (first, last) = ranges[j];
            let mut line = String::from_str("Merge conflict in ").concat(path).concat(": ");
            if first == last {
                line = line.concat(decimal_string(first as u64).as_str());
            } else {
                line = line.concat("[").concat(decimal_string(first as u64).as_str()).concat(", ").concat(
                    decimal_string(last as u64).as_str(),
                ).concat("]");
            }
            assert(line@ =~= report_line(path@, rv[j as int]));
            let ghost ls = head + path_lines(path@, rv.subrange(0, j as int));
            assert(rv.subrange(0, j + 1).drop_last() =~= rv.subrange(0, j as int));
            assert(rv.subrange(0, j + 1).last() == rv[j as int]);
            let ghost ls2 = head + path_lines(path@, rv.subrange(0, j + 1));
            assert(ls2 =~= ls.push(line@));
            assert(ls2.drop_last() =~= ls);
            if !started {
                text = line;
            } else {
                text = text.concat("\n").concat(line.as_str());
            }
            started = true;
            j = j + 1;
        }
        assert(rv.subrange(0, ranges@.len() as int) =~= rv);
        assert(cv.subrange(0, k + 1).drop_last() =~= cv.subrange(0, k as int));
        assert(cv.subrange(0, k + 1).last() == cv[k as int]);
        k = k + 1;
    }
    assert(cv.subrange(0, conflicts@.len() as int) =~= cv);
    GitError::merge_conflict(text)
}

proof fn lemma_agree_prefix(a: Seq<Seq<char>>, b: Seq<Seq<char>>, i: int)
    requires
        0 <= i <= a.len() <= b.len(),
        a == b.subrange(0, a.len() as int),
    ensures
        agree_from(a, b, i) == a.len(),
    decreases a.len() - i,
{
    if i < a.len() {
        assert(a[i] == b[i]);
        lemma_agree_prefix(a, b, i + 1);
    }
}

/// Fast-forward: when the current branch's first-parent history (oldest
/// first) is a prefix of the other branch's, the merge base is the current
/// tip, and a merge of a different tip moves the branch forward.
pub proof fn lemma_fast_forward(ours: Seq<Seq<char>>, theirs: Seq<Seq<char>>)
    requires
        1 <= ours.len() <= theirs.len(),
        ours == theirs.subrange(0, ours.len() as int),
        ours.last() != theirs.last(),
    ensures
        agree_from(ours, theirs, 0) == ours.len(),
        action_of(ours[agree_from(ours, theirs, 0) - 1], ours.last(), theirs.last()) == MergeAction::FastForward,
{
    lemma_agree_prefix(ours, theirs, 0);
}

/// The end of a three-way merge once every path is staged: with conflicts,
/// the merge fails with the report of all of them (the caller has stored the
/// partially merged index); without, the merge commit's parents are the
/// current tip and the merged one, in that order.
pub fn finish_merge(conflicts: &Vec<(String, Vec<(usize, usize)>)>, ours: String, theirs: String) -> (r: Result<
    Vec<String>,
    GitError,
>)
    ensures
        conflicts@.len() > 0 ==> (r matches Err(e) && e matches GitError::MergeConflict(m) && m@ == report_text(
            conflicts_view(conflicts@),
        )),
        conflicts@.len() == 0 ==> (r matches Ok(ps) && ps@.len() == 2 && ps@[0] == ours && ps@[1] == theirs),
{
    if conflicts.len() > 0 {
        Err(conflict_error(conflicts))
    } else {
        Ok(vec![ours, theirs])
    }
}

/// The commit that records a merge: the merged tree, the two parents, and
/// the message `merge {branch} into this`.
pub fn merge_commit(tree_hash: String, parents: Vec<String>, who: String, branch: &str) -> (r: crate::commit::Commit)
    ensures
        r.tree_hash == tree_hash,
        r.parent_hash == parents,
        r.author@ == who@,
        r.committer@ == who@,
        r.message@ == "merge "@ + branch@ + " into this\n"@,
{
    proof {
        reveal_strlit("merge ");
        reveal_strlit(" into this\n");
    }
    let message = String::from_str("merge ").concat(branch).concat(" into this\n");
    crate::commit::Commit { tree_hash, parent_hash: parents, author: who.clone(), committer: who, message }
}

/// Merging pairs only ever appends to the index.
pub proof fn lemma_merge_pairs_grows(
    idx: Seq<IndexEntryView>,
    pairs: Seq<(EntryView, EntryView)>,
    texts: Seq<(Seq<u8>, Seq<u8>)>,
)
    ensures
        idx.len() <= merge_pairs(idx, pairs, texts).len(),
        forall|i: int| 0 <= i < idx.len() ==> merge_pairs(idx, pairs, texts)[i] == idx[i],
    decreases pairs.len(),
{
    if pairs.len() > 0 {
        lemma_merge_pairs_grows(idx, pairs.drop_last(), texts.drop_last());
    }
}

/// Conflict detection: when both sides changed a path to contents that do
/// not merge, the index receives both competing entries and then an entry
/// for the conflict text, and the path is reported with its conflicting
/// line ranges; entries staged before are kept.
pub proof fn lemma_conflict_stages_both(
    idx: Seq<IndexEntryView>,
    pairs: Seq<(EntryView, EntryView)>,
    texts: Seq<(Seq<u8>, Seq<u8>)>,
)
    requires
        pairs.len() > 0,
        texts.len() == pairs.len(),
        pairs.last().0.hash != pairs.last().1.hash,
        text_merge(texts.last().0, texts.last().1) is Err,
    ensures
        ({
            let r = merge_pairs(idx, pairs, texts);
            let n = r.len();
            &&& n >= idx.len() + 3
            &&& r[n - 3] == staged(pairs.last().0)
            &&& r[n - 2] == staged(pairs.last().1)
            &&& r[n - 1].name == pairs.last().0.path
            &&& forall|i: int| 0 <= i < idx.len() ==> r[i] == idx[i]
        }),
        pair_conflicts(pairs, texts).last() == (pairs.last().0.path, conflict_ranges(texts.last().0, texts.last().1)),
{
    lemma_merge_pairs_grows(idx, pairs.drop_last(), texts.drop_last());
}

proof fn lemma_merge_pairs_prefix(
    idx: Seq<IndexEntryView>,
    pairs: Seq<(EntryView, EntryView)>,
    texts: Seq<(Seq<u8>, Seq<u8>)>,
    m: int,
)
    requires
        0 <= m <= pairs.len(),
        texts.len() == pairs.len(),
    ensures
        ({
            let p = merge_pairs(idx, pairs.subrange(0, m), texts.subrange(0, m));
            let r = merge_pairs(idx, pairs, texts);
            p.len() <= r.len() && forall|i: int| 0 <= i < p.len() ==> r[i] == p[i]
        }),
    decreases pairs.len(),
{
    if m == pairs.len() {
        assert(pairs.subrange(0, m) =~= pairs);
        assert(texts.subrange(0, m) =~= texts);
    } else {
        let pd = pairs.drop_last();
        let td = texts.drop_last();
        lemma_merge_pairs_prefix(idx, pd, td, m);
        assert(pd.subrange(0, m) =~= pairs.subrange(0, m));
        assert(td.subrange(0, m) =~= texts.subrange(0, m));
        let mid = merge_pairs(idx, pd, td);
        assert(merge_pairs(idx, pairs, texts) == merge_pair_step(mid, pairs.last().0, pairs.last().1, texts.last().0, texts.last().1));
    }
}

/// Conflict detection, for any pair: when both sides changed a path to
/// contents that do not merge, the index receives both competing entries in
/// a row, then an entry for the conflict text; entries staged before all
/// pairs are kept, and the path is among the reported conflicts.
pub proof fn lemma_conflict_stages_both_at(
    idx: Seq<IndexEntryView>,
    pairs: Seq<(EntryView, EntryView)>,
    texts: Seq<(Seq<u8>, Seq<u8>)>,
    k: int,
)
    requires
        0 <= k < pairs.len(),
        texts.len() == pairs.len(),
        pairs[k].0.hash != pairs[k].1.hash,
        text_merge(texts[k].0, texts[k].1) is Err,
    ensures
        ({
            let r = merge_pairs(idx, pairs, texts);
            &&& forall|i: int| 0 <= i < idx.len() ==> r[i] == idx[i]
            &&& exists|n: int|
                idx.len() + 3 <= n <= r.len() && #[trigger] r[n - 3] == staged(pairs[k].0) && r[n - 2] == staged(pairs[k].1)
                    && r[n - 1].name == pairs[k].0.path
        }),
{
    let ps = pairs.subrange(0, k + 1);
    let ts = texts.subrange(0, k + 1);
    assert(ps.last() == pairs[k]);
    assert(ts.last() == texts[k]);
    lemma_conflict_stages_both(idx, ps, ts);
    lemma_merge_pairs_prefix(idx, pairs, texts, k + 1);
    lemma_merge_pairs_grows(idx, pairs, texts);
    let p = merge_pairs(idx, ps, ts);
    let r = merge_pairs(idx, pairs, texts);
    let n = p.len() as int;
    assert(r[n - 3] == p[n - 3]);
    assert(r[n - 2] == p[n - 2]);
    assert(r[n - 1] == p[n - 1]);
}

} // verus!
