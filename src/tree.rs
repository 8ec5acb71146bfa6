use vstd::prelude::*;
use vstd::utf8::{decode_utf8, encode_utf8, valid_utf8};
use crate::bytes::{append_bytes, copy_range, find_byte, find_from, lemma_find_at, lemma_find_shift, utf8_string};
use crate::error::GitError;
use crate::hashing::{
    ascii_bytes, hex_decode, hex_decoded, hex_encode, hex_of, is_hex_id, lemma_id_bytes,
    lemma_hex_of_decode,
};

verus! {

/// The mode of a tree entry or staged path.
#[derive(Debug, Clone, Copy, PartialEq, Eq, Structural)]
pub enum FileMode {
    Exec,
    Blob,
    Tree,
    Commit,
    Symbolic,
}

/// The numeric (octal) value of a mode.
pub open spec fn mode_value(m: FileMode) -> u32 {
    match m {
        FileMode::Exec => 0o100755,
        FileMode::Blob => 0o100644,
        FileMode::Tree => 0o40000,
        FileMode::Commit => 0o160000,
        FileMode::Symbolic => 0o120000,
    }
}

/// Whether a number is one of the five recognised modes.
pub open spec fn is_mode_value(v: u32) -> bool {
    v == 0o100755 || v == 0o100644 || v == 0o40000 || v == 0o160000 || v == 0o120000
}

/// The mode with a given value.
pub open spec fn mode_of_value(v: u32) -> FileMode
    recommends
        is_mode_value(v),
{
    if v == 0o100755 {
        FileMode::Exec
    } else if v == 0o100644 {
        FileMode::Blob
    } else if v == 0o40000 {
        FileMode::Tree
    } else if v == 0o160000 {
        FileMode::Commit
    } else {
        FileMode::Symbolic
    }
}

/// The mode as written in a tree object: octal, no leading zero.
pub open spec fn mode_text(m: FileMode) -> Seq<u8> {
    match m {
        FileMode::Exec => seq![49u8, 48, 48, 55, 53, 53],
        FileMode::Blob => seq![49u8, 48, 48, 54, 52, 52],
        FileMode::Tree => seq![52u8, 48, 48, 48, 48],
        FileMode::Commit => seq![49u8, 54, 48, 48, 48, 48],
        FileMode::Symbolic => seq![49u8, 50, 48, 48, 48, 48],
    }
}

/// The mode that a tree-object mode token names, if any.
pub open spec fn mode_from_text(s: Seq<u8>) -> Option<FileMode> {
    if s == mode_text(FileMode::Exec) {
        Some(FileMode::Exec)
    } else if s == mode_text(FileMode::Blob) {
        Some(FileMode::Blob)
    } else if s == mode_text(FileMode::Tree) {
        Some(FileMode::Tree)
    } else if s == mode_text(FileMode::Commit) {
        Some(FileMode::Commit)
    } else if s == mode_text(FileMode::Symbolic) {
        Some(FileMode::Symbolic)
    } else {
        None
    }
}

pub proof fn lemma_mode_text(m: FileMode)
    ensures
        mode_from_text(mode_text(m)) == Some(m),
        forall|k: int| 0 <= k < mode_text(m).len() ==> mode_text(m)[k] != 32u8,
        mode_text(m).len() > 0,
{
    let e = mode_text(FileMode::Exec);
    let b = mode_text(FileMode::Blob);
    let t = mode_text(FileMode::Tree);
    let c = mode_text(FileMode::Commit);
    assert(e[3] != b[3] && e.len() != t.len() && e[1] != c[1] && e[1] != mode_text(FileMode::Symbolic)[1]);
    assert(b.len() != t.len() && b[1] != c[1] && b[1] != mode_text(FileMode::Symbolic)[1]);
    assert(t.len() != c.len() && t.len() != mode_text(FileMode::Symbolic).len());
    assert(c[1] != mode_text(FileMode::Symbolic)[1]);
}

impl FileMode {
    /// The numeric (octal) value of this mode.
    pub fn value(&self) -> (r: u32)
        ensures
            r == mode_value(*self),
    {
        match self {
            FileMode::Exec => 0o100755,
            FileMode::Blob => 0o100644,
            FileMode::Tree => 0o40000,
            FileMode::Commit => 0o160000,
            FileMode::Symbolic => 0o120000,
        }
    }

    /// The mode with a numeric value; any other number is an invalid mode.
    pub fn from_value(v: u32) -> (r: Result<FileMode, GitError>)
        ensures
            r matches Ok(m) ==> mode_value(m) == v && m == mode_of_value(v),
            r is Err <==> !is_mode_value(v),
    {
        if v == 0o100755 {
            Ok(FileMode::Exec)
        } else if v == 0o100644 {
            Ok(FileMode::Blob)
        } else if v == 0o40000 {
            Ok(FileMode::Tree)
        } else if v == 0o160000 {
            Ok(FileMode::Commit)
        } else if v == 0o120000 {
            Ok(FileMode::Symbolic)
        } else {
            Err(GitError::invalid_filemode("not a recognised file mode".to_owned()))
        }
    }

    /// The mode's token in a tree object.
    pub fn text(&self) -> (r: Vec<u8>)
        ensures
            r@ == mode_text(*self),
    {
        let r = match self {
            FileMode::Exec => vec![49u8, 48, 48, 55, 53, 53],
            FileMode::Blob => vec![49u8, 48, 48, 54, 52, 52],
            FileMode::Tree => vec![52u8, 48, 48, 48, 48],
            FileMode::Commit => vec![49u8, 54, 48, 48, 48, 48],
            FileMode::Symbolic => vec![49u8, 50, 48, 48, 48, 48],
        };
        assert(r@ =~= mode_text(*self));
        r
    }

    /// The mode that a tree-object token names.
    pub fn from_text(s: &[u8]) -> (r: Option<FileMode>)
        ensures
            r == mode_from_text(s@),
    {
        if same_bytes(s, &FileMode::Exec.text()) {
            Some(FileMode::Exec)
        } else if same_bytes(s, &FileMode::Blob.text()) {
            Some(FileMode::Blob)
        } else if same_bytes(s, &FileMode::Tree.text()) {
            Some(FileMode::Tree)
        } else if same_bytes(s, &FileMode::Commit.text()) {
            Some(FileMode::Commit)
        } else if same_bytes(s, &FileMode::Symbolic.text()) {
            Some(FileMode::Symbolic)
        } else {
            None
        }
    }
}

fn same_bytes(a: &[u8], b: &Vec<u8>) -> (r: bool)
    ensures
        r == (a@ == b@),
{
    if a.len() != b.len() {
        return false;
    }
    let mut i: usize = 0;
    while i < a.len()
        invariant
            a@.len() == b@.len(),
            i <= a@.len(),
            forall|j: int| 0 <= j < i ==> a@[j] == b@[j],
        decreases a@.len() - i,
    {
        if a[i] != b[i] {
            return false;
        }
        i = i + 1;
    }
    assert(a@ =~= b@);
    true
}

/// One child of a directory snapshot.
#[derive(Debug)]
pub struct TreeEntry {
    pub mode: FileMode,
    /// Id of the child object, 40 hex digits.
    pub hash: String,
    /// Path of the child, relative to the directory.
    pub path: String,
}

/// What a tree entry holds, as mathematical values.
pub struct EntryView {
    pub mode: FileMode,
    pub hash: Seq<char>,
    pub path: Seq<char>,
}

impl View for TreeEntry {
    type V = EntryView;

    open spec fn view(&self) -> EntryView {
        EntryView { mode: self.mode, hash: self.hash@, path: self.path@ }
    }
}

/// The entries of a sequence of tree entries, as values.
pub open spec fn entries_view(v: Seq<TreeEntry>) -> Seq<EntryView> {
    Seq::new(v.len(), |i: int| v[i]@)
}

/// An entry that can be written: its id is 40 hex digits and its path's
/// encoding holds no NUL byte.
pub open spec fn entry_wf(e: EntryView) -> bool {
    is_hex_id(e.hash) && !encode_utf8(e.path).contains(0u8)
}

/// The record of one entry in a tree object:
/// `"{mode} {path}\0"` followed by the 20 raw bytes of the id.
pub open spec fn entry_bytes(e: EntryView) -> Seq<u8> {
    mode_text(e.mode) + seq![32u8] + encode_utf8(e.path) + seq![0u8] + hex_decoded(ascii_bytes(e.hash))
}

/// The content of a tree object: its records, concatenated.
pub open spec fn tree_bytes(es: Seq<EntryView>) -> Seq<u8>
    decreases es.len(),
{
    if es.len() == 0 {
        Seq::empty()
    } else {
        entry_bytes(es[0]) + tree_bytes(es.drop_first())
    }
}

/// Reads one record off the front of `b`: the entry and the record's length.
pub open spec fn parse_entry(b: Seq<u8>) -> Option<(EntryView, int)> {
    let sp = find_from(b, 0, 32);
    let nul = find_from(b, sp + 1, 0);
    if sp >= b.len() {
        None
    } else if mode_from_text(b.subrange(0, sp)) is None {
        None
    } else if nul + 21 > b.len() {
        None
    } else if !valid_utf8(b.subrange(sp + 1, nul)) {
        None
    } else {
        Some(
            (
                EntryView {
                    mode: mode_from_text(b.subrange(0, sp)).unwrap(),
                    hash: hex_of(b.subrange(nul + 1, nul + 21)),
                    path: decode_utf8(b.subrange(sp + 1, nul)),
                },
                nul + 21,
            ),
        )
    }
}

/// The entries of a tree object's content, or `None` when it is not a
/// sequence of well-formed records.
pub open spec fn parse_entries(b: Seq<u8>) -> Option<Seq<EntryView>>
    decreases b.len(),
{
    if b.len() == 0 {
        Some(Seq::empty())
    } else {
        match parse_entry(b) {
            None => None,
            Some((e, k)) => {
                if 0 < k <= b.len() {
                    match parse_entries(b.subrange(k, b.len() as int)) {
                        None => None,
                        Some(rest) => Some(seq![e] + rest),
                    }
                } else {
                    None
                }
            },
        }
    }
}

/// `a` in front of the parsed rest, when there is one.
pub open spec fn prepend<T>(a: Seq<T>, o: Option<Seq<T>>) -> Option<Seq<T>> {
    match o {
        None => None,
        Some(r) => Some(a + r),
    }
}

impl TreeEntry {
    /// A copy of this entry.
    pub fn duplicate(&self) -> (r: TreeEntry)
        ensures
            r@ == self@,
    {
        TreeEntry { mode: self.mode, hash: self.hash.clone(), path: self.path.clone() }
    }

    /// Appends this entry's record to `out`.
    pub fn encode_into(&self, out: &mut Vec<u8>)
        requires
            entry_wf(self@),
        ensures
            final(out)@ == old(out)@ + entry_bytes(self@),
    {
        let ghost start = out@;
        append_bytes(out, self.mode.text().as_slice());
        out.push(32u8);
        append_bytes(out, self.path.as_str().as_bytes());
        out.push(0u8);
        proof {
            lemma_id_bytes(self.hash@);
            lemma_hex_of_decode(self.hash@);
        }
        let raw = hex_decode(self.hash.as_str().as_bytes());
        if let Some(raw) = raw {
            append_bytes(out, raw.as_slice());
        }
        assert(out@ =~= start + entry_bytes(self@));
    }
}

/// A directory snapshot: its entries in order.
#[derive(Debug)]
pub struct Tree(pub Vec<TreeEntry>);

impl View for Tree {
    type V = Seq<EntryView>;

    open spec fn view(&self) -> Seq<EntryView> {
        entries_view(self.0@)
    }
}

/// Every entry of a tree can be written.
pub open spec fn tree_wf(es: Seq<EntryView>) -> bool {
    forall|i: int| 0 <= i < es.len() ==> entry_wf(#[trigger] es[i])
}

pub proof fn lemma_tree_bytes_push(es: Seq<EntryView>, e: EntryView)
    ensures
        tree_bytes(es.push(e)) == tree_bytes(es) + entry_bytes(e),
    decreases es.len(),
{
    if es.len() == 0 {
        assert(es.push(e).drop_first() =~= Seq::<EntryView>::empty());
        assert(tree_bytes(es.push(e).drop_first()) =~= Seq::<u8>::empty());
        assert(tree_bytes(es) =~= Seq::<u8>::empty());
        assert(tree_bytes(es.push(e)) =~= entry_bytes(e));
    } else {
        assert(es.push(e).drop_first() =~= es.drop_first().push(e));
        lemma_tree_bytes_push(es.drop_first(), e);
        assert(tree_bytes(es.push(e)) =~= tree_bytes(es) + entry_bytes(e));
    }
}

impl Tree {
    /// The content of the tree object for this tree.
    pub fn encode(&self) -> (r: Vec<u8>)
        requires
            tree_wf(self@),
        ensures
            r@ == tree_bytes(self@),
    {
        let mut out: Vec<u8> = Vec::new();
        let mut i: usize = 0;
        while i < self.0.len()
            invariant
                i <= self.0@.len(),
                tree_wf(self@),
                out@ == tree_bytes(self@.subrange(0, i as int)),
            decreases self.0@.len() - i,
        {
            assert(entry_wf(self@[i as int]));
            self.0[i].encode_into(&mut out);
            proof {
                lemma_tree_bytes_push(self@.subrange(0, i as int), self@[i as int]);
                assert(self@.subrange(0, i as int).push(self@[i as int]) =~= self@.subrange(0, i + 1));
            }
            i = i + 1;
        }
        assert(self@.subrange(0, self.0@.len() as int) =~= self@);
        out
    }

    /// Parses the content of a tree object.
    pub fn parse(b: &[u8]) -> (r: Result<Tree, GitError>)
        ensures
            r matches Ok(t) ==> parse_entries(b@) == Some(t@),
            r is Err <==> parse_entries(b@) is None,
    {
        let mut acc: Vec<TreeEntry> = Vec::new();
        let mut pos: usize = 0;
        assert(b@.subrange(0, b@.len() as int) =~= b@);
        assert(entries_view(acc@) =~= Seq::<EntryView>::empty());
        proof {
            if let Some(r) = parse_entries(b@) {
                assert(Seq::<EntryView>::empty() + r =~= r);
            }
        }
        while pos < b.len()
            invariant
                pos <= b@.len(),
                parse_entries(b@) == prepend(entries_view(acc@), parse_entries(b@.subrange(pos as int, b@.len() as int))),
            decreases b@.len() - pos,
        {
            let ghost rest = b@.subrange(pos as int, b@.len() as int);
            let sp = find_byte(b, pos, 32);
            proof {
                lemma_find_shift(b@, pos as int, 0, 32);
                crate::bytes::lemma_find_bounds(b@, pos as int, 32);
            }
            if sp >= b.len() {
                return Err(GitError::invalid_entry("tree record without a mode".to_owned()));
            }
            let mode_bytes = copy_range(b, pos, sp);
            assert(mode_bytes@ =~= rest.subrange(0, sp - pos));
            let mode = match FileMode::from_text(mode_bytes.as_slice()) {
                Some(m) => m,
                None => {
                    return Err(GitError::invalid_filemode("unknown mode in tree record".to_owned()));
                },
            };
            let nul = find_byte(b, sp + 1, 0);
            proof {
                lemma_find_shift(b@, pos as int, sp + 1 - pos, 0);
                crate::bytes::lemma_find_bounds(b@, sp + 1, 0);
            }
            if nul >= b.len() || b.len() - nul < 21 {
                return Err(GitError::invalid_entry("truncated tree record".to_owned()));
            }
            let path_bytes = copy_range(b, sp + 1, nul);
            assert(path_bytes@ =~= rest.subrange(sp + 1 - pos, nul - pos));
            let path = match utf8_string(path_bytes) {
                Some(p) => p,
                None => {
                    return Err(GitError::invaild_path_encoding("tree record path"));
                },
            };
            let raw = copy_range(b, nul + 1, nul + 21);
            assert(raw@ =~= rest.subrange(nul + 1 - pos, nul + 21 - pos));
            let hash = hex_encode(raw.as_slice());
            let entry = TreeEntry { mode, hash, path };
            let ghost old_acc = entries_view(acc@);
            acc.push(entry);
            assert(entries_view(acc@) =~= old_acc + seq![entry@]);
            assert(b@.subrange(nul + 21, b@.len() as int) =~= rest.subrange(nul + 21 - pos, rest.len() as int));
            pos = nul + 21;
        }
        assert(b@.subrange(pos as int, b@.len() as int) =~= Seq::<u8>::empty());
        assert(entries_view(acc@) + Seq::<EntryView>::empty() =~= entries_view(acc@));
        Ok(Tree(acc))
    }
}

/// A well-formed record, followed by anything, parses back to its entry.
proof fn lemma_entry_parse(e: EntryView, tail: Seq<u8>)
    requires
        entry_wf(e),
    ensures
        parse_entry(entry_bytes(e) + tail) == Some((e, entry_bytes(e).len() as int)),
        entry_bytes(e).len() > 0,
{
    let mt = mode_text(e.mode);
    let p = encode_utf8(e.path);
    let raw = hex_decoded(ascii_bytes(e.hash));
    lemma_hex_of_decode(e.hash);
    lemma_mode_text(e.mode);
    let x = entry_bytes(e);
    let b = x + tail;
    let sp = mt.len() as int;
    let nul = sp + 1 + p.len();
    assert(x.len() == nul + 21);
    assert forall|k: int| 0 <= k < sp implies b[k] != 32u8 by {
        assert(b[k] == mt[k]);
    }
    assert(b[sp] == 32u8);
    lemma_find_at(b, 0, sp, 32u8);
    assert(b.subrange(0, sp) =~= mt);
    assert forall|k: int| sp + 1 <= k < nul implies b[k] != 0u8 by {
        assert(b[k] == p[k - sp - 1]);
        if b[k] == 0u8 {
            assert(p.contains(0u8));
        }
    }
    assert(b[nul] == 0u8);
    lemma_find_at(b, sp + 1, nul, 0u8);
    assert(b.subrange(sp + 1, nul) =~= p);
    vstd::utf8::encode_utf8_valid_utf8(e.path);
    vstd::utf8::encode_utf8_decode_utf8(e.path);
    assert(b.subrange(nul + 1, nul + 21) =~= raw);
}

/// Parsing the content of a tree whose entries are all well formed gives
/// back exactly those entries.
pub proof fn lemma_tree_round_trip(es: Seq<EntryView>)
    requires
        tree_wf(es),
    ensures
        parse_entries(tree_bytes(es)) == Some(es),
    decreases es.len(),
{
    if es.len() > 0 {
        let e = es[0];
        let x = entry_bytes(e);
        let tail = tree_bytes(es.drop_first());
        let b = x + tail;
        assert(entry_wf(es[0]));
        lemma_entry_parse(e, tail);
        assert(b.subrange(x.len() as int, b.len() as int) =~= tail);
        assert forall|i: int| 0 <= i < es.drop_first().len() implies entry_wf(#[trigger] es.drop_first()[i]) by {
            assert(es.drop_first()[i] == es[i + 1]);
        }
        lemma_tree_round_trip(es.drop_first());
        assert(seq![e] + es.drop_first() =~= es);
    }
}

/// Whatever parses as a tree content is well formed.
pub proof fn lemma_parsed_tree_wf(b: Seq<u8>)
    requires
        parse_entries(b) is Some,
    ensures
        tree_wf(parse_entries(b).unwrap()),
    decreases b.len(),
{
    if b.len() > 0 {
        let (e, k) = parse_entry(b).unwrap();
        let sp = find_from(b, 0, 32);
        let nul = find_from(b, sp + 1, 0);
        crate::bytes::lemma_find_bounds(b, sp + 1, 0);
        let p = b.subrange(sp + 1, nul);
        vstd::utf8::decode_utf8_encode_utf8(p);
        assert(!p.contains(0u8)) by {
            if p.contains(0u8) {
                let j = choose|j: int| 0 <= j < p.len() && p[j] == 0u8;
                assert(b[sp + 1 + j] == 0u8);
            }
        }
        crate::hashing::lemma_hex_of_is_id(b.subrange(nul + 1, nul + 21));
        assert(entry_wf(e));
        let rest = b.subrange(k, b.len() as int);
        lemma_parsed_tree_wf(rest);
        let es = parse_entries(b).unwrap();
        assert(es == seq![e] + parse_entries(rest).unwrap());
        assert forall|i: int| 0 <= i < es.len() implies entry_wf(#[trigger] es[i]) by {
            if i > 0 {
                assert(es[i] == parse_entries(rest).unwrap()[i - 1]);
            }
        }
    }
}

/// Encoding what a tree content decodes to gives that content back, byte for
/// byte.
pub proof fn lemma_tree_encode_decoded(b: Seq<u8>)
    requires
        parse_entries(b) is Some,
    ensures
        tree_bytes(parse_entries(b).unwrap()) == b,
    decreases b.len(),
{
    if b.len() > 0 {
        let (e, k) = parse_entry(b).unwrap();
        let sp = find_from(b, 0, 32);
        let nul = find_from(b, sp + 1, 0);
        crate::bytes::lemma_find_bounds(b, 0, 32);
        crate::bytes::lemma_find_bounds(b, sp + 1, 0);
        let p = b.subrange(sp + 1, nul);
        vstd::utf8::decode_utf8_encode_utf8(p);
        crate::hashing::lemma_decode_hex_of(b.subrange(nul + 1, nul + 21));
        assert(entry_bytes(e) =~= b.subrange(0, k));
        let rest = b.subrange(k, b.len() as int);
        lemma_tree_encode_decoded(rest);
        let es = parse_entries(b).unwrap();
        assert(es == seq![e] + parse_entries(rest).unwrap());
        assert(es.drop_first() =~= parse_entries(rest).unwrap());
        assert(es[0] == e);
        assert(b =~= b.subrange(0, k) + rest);
    }
}

/// Decoding, encoding and decoding again gives the first decoding: the
/// encoding of a tree is canonical.
pub proof fn lemma_tree_decode_encode_decode(b: Seq<u8>)
    requires
        parse_entries(b) is Some,
    ensures
        parse_entries(tree_bytes(parse_entries(b).unwrap())) == parse_entries(b),
{
    lemma_parsed_tree_wf(b);
    lemma_tree_round_trip(parse_entries(b).unwrap());
}

/// Entries in ascending byte order of their paths.
pub open spec fn sorted_by_path(es: Seq<EntryView>) -> bool {
    forall|a: int, b: int|
        0 <= a < b < es.len() ==> crate::bytes::bytes_le(encode_utf8(#[trigger] es[a].path), encode_utf8(#[trigger] es[b].path))
}

/// Puts tree entries in ascending byte order of their paths; the entries
/// themselves are unchanged.
pub fn sort_by_path(v: &mut Vec<TreeEntry>)
    ensures
        sorted_by_path(entries_view(final(v)@)),
        entries_view(final(v)@).to_multiset() == entries_view(old(v)@).to_multiset(),
{
    let ghost orig = entries_view(v@);
    let mut input: Vec<TreeEntry> = Vec::new();
    std::mem::swap(&mut input, v);
    let n = input.len();
    let mut out: Vec<TreeEntry> = Vec::new();
    let mut i: usize = 0;
    assert(entries_view(out@) =~= Seq::<EntryView>::empty());
    assert(orig.subrange(0, 0) =~= Seq::<EntryView>::empty());
    while i < input.len()
        invariant
            i <= input@.len(),
            orig == entries_view(input@),
            sorted_by_path(entries_view(out@)),
            entries_view(out@).to_multiset() == orig.subrange(0, i as int).to_multiset(),
        decreases input@.len() - i,
    {
        let x = input[i].duplicate();
        let xn = x.path.as_str().as_bytes();
        let ghost ov = entries_view(out@);
        let mut p: usize = 0;
        while p < out.len() && crate::bytes::le_bytes(out[p].path.as_str().as_bytes(), xn)
            invariant
                p <= out@.len(),
                ov == entries_view(out@),
                xn@ == encode_utf8(x@.path),
                forall|q: int| 0 <= q < p ==> crate::bytes::bytes_le(encode_utf8(#[trigger] ov[q].path), xn@),
            decreases out@.len() - p,
        {
            p = p + 1;
        }
        proof {
            if p < ov.len() {
                crate::bytes::lemma_bytes_le_total(encode_utf8(ov[p as int].path), xn@);
            }
        }
        let ghost xv = x@;
        out.insert(p, x);
        let ghost nv = entries_view(out@);
        assert(nv =~= ov.insert(p as int, xv));
        proof {
            assert forall|a: int, b: int| 0 <= a < b < nv.len() implies crate::bytes::bytes_le(
                encode_utf8(#[trigger] nv[a].path),
                encode_utf8(#[trigger] nv[b].path),
            ) by {
                if b < p {
                    assert(nv[a] == ov[a] && nv[b] == ov[b]);
                } else if b == p {
                    assert(nv[a] == ov[a]);
                } else if a == p {
                    assert(nv[b] == ov[b - 1]);
                    if b - 1 > p {
                        crate::bytes::lemma_bytes_le_trans(xn@, encode_utf8(ov[p as int].path), encode_utf8(ov[b - 1].path));
                    }
                } else if a < p {
                    assert(nv[a] == ov[a] && nv[b] == ov[b - 1]);
                } else {
                    assert(nv[a] == ov[a - 1] && nv[b] == ov[b - 1]);
                }
            }
            vstd::seq_lib::to_multiset_insert(ov, p as int, xv);
            vstd::seq_lib::to_multiset_build(orig.subrange(0, i as int), orig[i as int]);
            assert(orig.subrange(0, i + 1) =~= orig.subrange(0, i as int).push(orig[i as int]));
        }
        i = i + 1;
    }
    assert(orig.subrange(0, n as int) =~= orig);
    *v = out;
}

} // verus!
