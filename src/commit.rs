use vstd::prelude::*;
use vstd::utf8::{decode_utf8, encode_utf8, valid_utf8};
use crate::bytes::{append_bytes, bytes_at, copy_range, find_byte, find_from, lemma_find_at, utf8_string};
use crate::error::GitError;

verus! {

pub open spec fn tree_tag() -> Seq<u8> {
    seq![116u8, 114, 101, 101, 32]
}

pub open spec fn parent_tag() -> Seq<u8> {
    seq![112u8, 97, 114, 101, 110, 116, 32]
}

pub open spec fn author_tag() -> Seq<u8> {
    seq![97u8, 117, 116, 104, 111, 114, 32]
}

pub open spec fn committer_tag() -> Seq<u8> {
    seq![99u8, 111, 109, 109, 105, 116, 116, 101, 114, 32]
}

pub open spec fn extension_tag() -> Seq<u8> {
    seq![103u8, 112, 103, 115, 105, 103, 32]
}

/// A point in history.
#[derive(Debug)]
pub struct Commit {
    pub tree_hash: String,
    pub parent_hash: Vec<String>,
    pub author: String,
    pub committer: String,
    pub message: String,
}

/// What a commit holds, as mathematical values.
pub struct CommitView {
    pub tree: Seq<char>,
    pub parents: Seq<Seq<char>>,
    pub author: Seq<char>,
    pub committer: Seq<char>,
    pub message: Seq<char>,
}

pub open spec fn strings_view(v: Seq<String>) -> Seq<Seq<char>> {
    Seq::new(v.len(), |i: int| v[i]@)
}

impl View for Commit {
    type V = CommitView;

    open spec fn view(&self) -> CommitView {
        CommitView {
            tree: self.tree_hash@,
            parents: strings_view(self.parent_hash@),
            author: self.author@,
            committer: self.committer@,
            message: self.message@,
        }
    }
}

/// A header line: `tag`, the value, a newline.
pub open spec fn header_line(tag: Seq<u8>, v: Seq<char>) -> Seq<u8> {
    tag + encode_utf8(v) + seq![10u8]
}

pub open spec fn parent_lines(ps: Seq<Seq<char>>) -> Seq<u8>
    decreases ps.len(),
{
    if ps.len() == 0 {
        Seq::empty()
    } else {
        header_line(parent_tag(), ps[0]) + parent_lines(ps.drop_first())
    }
}

/// The message bytes as stored: a newline is added when they lack a final one.
pub open spec fn normalized_bytes(m: Seq<u8>) -> Seq<u8> {
    if m.len() > 0 && m.last() == 10u8 {
        m
    } else {
        m.push(10u8)
    }
}

/// The content of the commit object for `c`.
pub open spec fn commit_bytes(c: CommitView) -> Seq<u8> {
    header_line(tree_tag(), c.tree) + parent_lines(c.parents) + header_line(author_tag(), c.author)
        + header_line(committer_tag(), c.committer) + seq![10u8] + normalized_bytes(encode_utf8(c.message))
}

/// `c` with its message as it reads back after encoding.
pub open spec fn normalized(c: CommitView) -> CommitView {
    CommitView { message: decode_utf8(normalized_bytes(encode_utf8(c.message))), ..c }
}

pub open spec fn no_newline(v: Seq<char>) -> bool {
    !encode_utf8(v).contains(10u8)
}

/// A commit whose header values hold no newline, so that each stays on its line.
pub open spec fn commit_wf(c: CommitView) -> bool {
    &&& no_newline(c.tree)
    &&& forall|i: int| 0 <= i < c.parents.len() ==> no_newline(#[trigger] c.parents[i])
    &&& no_newline(c.author)
    &&& no_newline(c.committer)
}

/// Reads a line `tag value \n` off the front of `b`: the value and the rest.
pub open spec fn parse_line(b: Seq<u8>, tag: Seq<u8>) -> Option<(Seq<u8>, Seq<u8>)> {
    let nl = find_from(b, tag.len() as int, 10);
    if tag.len() <= b.len() && b.subrange(0, tag.len() as int) == tag && nl < b.len() {
        Some((b.subrange(tag.len() as int, nl), b.subrange(nl + 1, b.len() as int)))
    } else {
        None
    }
}

/// Reads the run of parent lines off the front of `b`.
pub open spec fn parse_parents(b: Seq<u8>) -> (Seq<Seq<u8>>, Seq<u8>)
    decreases b.len(),
{
    match parse_line(b, parent_tag()) {
        None => (Seq::empty(), b),
        Some((v, r)) => {
            if r.len() < b.len() {
                let (ps, r2) = parse_parents(r);
                (seq![v] + ps, r2)
            } else {
                (Seq::empty(), b)
            }
        },
    }
}

/// First index at or after `i` that starts a blank line (two newlines), or the length.
pub open spec fn find_blank(b: Seq<u8>, i: int) -> int
    decreases b.len() - i,
{
    if i < 0 || i + 1 >= b.len() {
        b.len() as int
    } else if b[i] == 10u8 && b[i + 1] == 10u8 {
        i
    } else {
        find_blank(b, i + 1)
    }
}

/// Where the message starts in what follows the committer line: an extension
/// block closed by a blank line is skipped, then one separating newline.
pub open spec fn message_start(b: Seq<u8>) -> int {
    let j = find_blank(b, extension_tag().len() as int);
    let off = if extension_tag().len() <= b.len() && b.subrange(0, extension_tag().len() as int)
        == extension_tag() && j < b.len() {
        j + 2
    } else {
        0
    };
    if off < b.len() && b[off] == 10u8 {
        off + 1
    } else {
        off
    }
}

pub open spec fn all_utf8(ps: Seq<Seq<u8>>) -> bool {
    forall|i: int| 0 <= i < ps.len() ==> valid_utf8(#[trigger] ps[i])
}

pub open spec fn decode_all(ps: Seq<Seq<u8>>) -> Seq<Seq<char>> {
    Seq::new(ps.len(), |i: int| decode_utf8(ps[i]))
}

/// The commit that a commit object's content holds, if it is well formed.
pub open spec fn parse_commit(b: Seq<u8>) -> Option<CommitView> {
    match parse_line(b, tree_tag()) {
        None => None,
        Some((t, r1)) => {
            let (ps, r2) = parse_parents(r1);
            match parse_line(r2, author_tag()) {
                None => None,
                Some((a, r3)) => match parse_line(r3, committer_tag()) {
                    None => None,
                    Some((c, r4)) => {
                        let m = r4.subrange(message_start(r4), r4.len() as int);
                        if valid_utf8(t) && all_utf8(ps) && valid_utf8(a) && valid_utf8(c) && valid_utf8(m) {
                            Some(
                                CommitView {
                                    tree: decode_utf8(t),
                                    parents: decode_all(ps),
                                    author: decode_utf8(a),
                                    committer: decode_utf8(c),
                                    message: decode_utf8(m),
                                },
                            )
                        } else {
                            None
                        }
                    },
                },
            }
        },
    }
}

/// Reads a line `tag value \n` off the front of `b`.
fn read_line(b: &[u8], tag: &[u8]) -> (r: Option<(Vec<u8>, Vec<u8>)>)
    ensures
        r matches Some((v, rest)) ==> parse_line(b@, tag@) == Some((v@, rest@)),
        r is None ==> parse_line(b@, tag@) is None,
{
    if !bytes_at(b, 0, tag) {
        return None;
    }
    assert(b@.subrange(0, tag@.len() as int) == tag@);
    let nl = find_byte(b, tag.len(), 10);
    if nl >= b.len() {
        return None;
    }
    proof { crate::bytes::lemma_find_bounds(b@, tag@.len() as int, 10); }
    Some((copy_range(b, tag.len(), nl), copy_range(b, nl + 1, b.len())))
}

fn line_value(v: Vec<u8>) -> (r: Result<String, GitError>)
    ensures
        r matches Ok(s) ==> valid_utf8(v@) && s@ == decode_utf8(v@),
        r is Err ==> !valid_utf8(v@),
{
    match utf8_string(v) {
        Some(s) => Ok(s),
        None => Err(GitError::invalid_commit("a header value is not UTF-8")),
    }
}

/// Finds the first blank line at or after `i`.
fn find_blank_line(b: &[u8], i: usize) -> (r: usize)
    ensures
        r as int == find_blank(b@, i as int),
{
    let mut j = i;
    while j < b.len() && j + 1 < b.len() && !(b[j] == 10 && b[j + 1] == 10)
        invariant
            i <= j,
            find_blank(b@, i as int) == find_blank(b@, j as int),
        decreases b@.len() - j,
    {
        j = j + 1;
    }
    if j >= b.len() || j + 1 >= b.len() {
        b.len()
    } else {
        j
    }
}

fn skip_to_message(b: &[u8]) -> (r: usize)
    ensures
        r as int == message_start(b@),
        r <= b@.len(),
{
    let ext: [u8; 7] = [103u8, 112, 103, 115, 105, 103, 32];
    assert(ext@ =~= extension_tag());
    let j = find_blank_line(b, 7);
    proof {
        lemma_find_blank_bound(b@, 7);
    }
    let off = if bytes_at(b, 0, ext.as_slice()) && j < b.len() {
        assert(b@.subrange(0, 7) == extension_tag());
        j + 2
    } else {
        0
    };
    if off < b.len() && b[off] == 10 {
        off + 1
    } else {
        off
    }
}

proof fn lemma_find_blank_bound(b: Seq<u8>, i: int)
    requires
        0 <= i,
    ensures
        find_blank(b, i) == b.len() || (find_blank(b, i) + 1 < b.len()),
    decreases b.len() - i,
{
    if i + 1 < b.len() && !(b[i] == 10u8 && b[i + 1] == 10u8) {
        lemma_find_blank_bound(b, i + 1);
    }
}

pub open spec fn bytes_view(v: Seq<Vec<u8>>) -> Seq<Seq<u8>> {
    Seq::new(v.len(), |i: int| v[i]@)
}

/// Reads the run of parent lines off the front of `b`.
fn read_parents(b: Vec<u8>) -> (r: (Vec<Vec<u8>>, Vec<u8>))
    ensures
        parse_parents(b@) == (bytes_view(r.0@), r.1@),
{
    let parent_t: [u8; 7] = [112u8, 97, 114, 101, 110, 116, 32];
    assert(parent_t@ =~= parent_tag());
    let mut raw_parents: Vec<Vec<u8>> = Vec::new();
    let mut rest = copy_range(b.as_slice(), 0, b.len());
    assert(rest@ =~= b@);
    assert(bytes_view(raw_parents@) + parse_parents(rest@).0 =~= parse_parents(rest@).0);
    loop
        invariant
            parent_t@ == parent_tag(),
            parse_parents(b@).0 == bytes_view(raw_parents@) + parse_parents(rest@).0,
            parse_parents(b@).1 == parse_parents(rest@).1,
        ensures
            parse_line(rest@, parent_tag()) is None,
            parse_parents(b@).0 == bytes_view(raw_parents@) + parse_parents(rest@).0,
            parse_parents(b@).1 == parse_parents(rest@).1,
        decreases rest@.len(),
    {
        match read_line(rest.as_slice(), parent_t.as_slice()) {
            None => {
                break;
            },
            Some((v, r)) => {
                proof { crate::bytes::lemma_find_bounds(rest@, 7, 10); }
                assert(r@.len() < rest@.len());
                let ghost before = bytes_view(raw_parents@);
                raw_parents.push(v);
                assert(bytes_view(raw_parents@) =~= before.push(v@));
                assert(parse_parents(rest@).0 == seq![v@] + parse_parents(r@).0);
                assert(parse_parents(rest@).1 == parse_parents(r@).1);
                assert(before + (seq![v@] + parse_parents(r@).0) =~= before.push(v@) + parse_parents(r@).0);
                rest = r;
            },
        }
    }
    assert(parse_parents(rest@) == (Seq::<Seq<u8>>::empty(), rest@));
    assert(bytes_view(raw_parents@) + Seq::<Seq<u8>>::empty() =~= bytes_view(raw_parents@));
    (raw_parents, rest)
}

/// Each line value as a string, or `None` when one is not UTF-8.
fn line_values(raw: &Vec<Vec<u8>>) -> (r: Option<Vec<String>>)
    ensures
        r is Some <==> all_utf8(bytes_view(raw@)),
        r matches Some(v) ==> strings_view(v@) == decode_all(bytes_view(raw@)),
{
    let ghost raw_ps = bytes_view(raw@);
    let mut out: Vec<String> = Vec::new();
    let mut i: usize = 0;
    while i < raw.len()
        invariant
            i <= raw@.len(),
            raw_ps == bytes_view(raw@),
            out@.len() == i,
            forall|j: int| 0 <= j < i ==> valid_utf8(#[trigger] raw_ps[j]),
            forall|j: int| 0 <= j < i ==> #[trigger] out@[j]@ == decode_utf8(raw_ps[j]),
        decreases raw@.len() - i,
    {
        let v = copy_range(raw[i].as_slice(), 0, raw[i].len());
        assert(v@ =~= raw_ps[i as int]);
        match utf8_string(v) {
            Some(s) => {
                out.push(s);
            },
            None => {
                assert(!valid_utf8(raw_ps[i as int]));
                return None;
            },
        }
        i = i + 1;
    }
    assert(strings_view(out@) =~= decode_all(raw_ps));
    Some(out)
}

impl Commit {
    /// Parses the content of a commit object.
    pub fn parse(b: &[u8]) -> (r: Result<Commit, GitError>)
        ensures
            r matches Ok(c) ==> parse_commit(b@) == Some(c@),
            r is Err <==> parse_commit(b@) is None,
    {
        let tree_t: [u8; 5] = [116u8, 114, 101, 101, 32];
        let author_t: [u8; 7] = [97u8, 117, 116, 104, 111, 114, 32];
        let committer_t: [u8; 10] = [99u8, 111, 109, 109, 105, 116, 116, 101, 114, 32];
        assert(tree_t@ =~= tree_tag());
        assert(author_t@ =~= author_tag());
        assert(committer_t@ =~= committer_tag());
        let (t, r1) = match read_line(b, tree_t.as_slice()) {
            Some(x) => x,
            None => {
                return Err(GitError::invalid_commit("missing tree line"));
            },
        };
        let (raw_parents, rest) = read_parents(r1);
        let (a, r3) = match read_line(rest.as_slice(), author_t.as_slice()) {
            Some(x) => x,
            None => {
                return Err(GitError::invalid_commit("missing author line"));
            },
        };
        let (c, r4) = match read_line(r3.as_slice(), committer_t.as_slice()) {
            Some(x) => x,
            None => {
                return Err(GitError::invalid_commit("missing committer line"));
            },
        };
        let start = skip_to_message(r4.as_slice());
        let m = copy_range(r4.as_slice(), start, r4.len());
        let tree_hash = line_value(t)?;
        let parent_hash = match line_values(&raw_parents) {
            Some(v) => v,
            None => {
                return Err(GitError::invalid_commit("a parent line is not UTF-8"));
            },
        };
        let author = line_value(a)?;
        let committer = line_value(c)?;
        let message = line_value(m)?;
        Ok(Commit { tree_hash, parent_hash, author, committer, message })
    }
}

fn push_line(out: &mut Vec<u8>, tag: &[u8], v: &String)
    ensures
        final(out)@ == old(out)@ + header_line(tag@, v@),
{
    let ghost start = out@;
    append_bytes(out, tag);
    append_bytes(out, v.as_str().as_bytes());
    out.push(10u8);
    assert(out@ =~= start + header_line(tag@, v@));
}

pub proof fn lemma_parent_lines_push(ps: Seq<Seq<char>>, p: Seq<char>)
    ensures
        parent_lines(ps.push(p)) == parent_lines(ps) + header_line(parent_tag(), p),
    decreases ps.len(),
{
    if ps.len() == 0 {
        assert(ps.push(p).drop_first() =~= Seq::<Seq<char>>::empty());
        assert(parent_lines(ps.push(p).drop_first()) =~= Seq::<u8>::empty());
        assert(parent_lines(ps) =~= Seq::<u8>::empty());
        assert(parent_lines(ps.push(p)) =~= header_line(parent_tag(), p));
    } else {
        assert(ps.push(p).drop_first() =~= ps.drop_first().push(p));
        lemma_parent_lines_push(ps.drop_first(), p);
        assert(parent_lines(ps.push(p)) =~= parent_lines(ps) + header_line(parent_tag(), p));
    }
}

impl Commit {
    /// The content of the commit object for this commit. A newline is added
    /// to the message when it lacks a final one.
    pub fn encode(&self) -> (r: Vec<u8>)
        ensures
            r@ == commit_bytes(self@),
    {
        let tree_t: [u8; 5] = [116u8, 114, 101, 101, 32];
        let parent_t: [u8; 7] = [112u8, 97, 114, 101, 110, 116, 32];
        let author_t: [u8; 7] = [97u8, 117, 116, 104, 111, 114, 32];
        let committer_t: [u8; 10] = [99u8, 111, 109, 109, 105, 116, 116, 101, 114, 32];
        assert(tree_t@ =~= tree_tag());
        assert(parent_t@ =~= parent_tag());
        assert(author_t@ =~= author_tag());
        assert(committer_t@ =~= committer_tag());
        let mut out: Vec<u8> = Vec::new();
        push_line(&mut out, tree_t.as_slice(), &self.tree_hash);
        let ghost head = out@;
        let ghost ps = self@.parents;
        let mut i: usize = 0;
        while i < self.parent_hash.len()
            invariant
                i <= self.parent_hash@.len(),
                ps == strings_view(self.parent_hash@),
                parent_t@ == parent_tag(),
                out@ == head + parent_lines(ps.subrange(0, i as int)),
            decreases self.parent_hash@.len() - i,
        {
            push_line(&mut out, parent_t.as_slice(), &self.parent_hash[i]);
            proof {
                lemma_parent_lines_push(ps.subrange(0, i as int), ps[i as int]);
                assert(ps.subrange(0, i as int).push(ps[i as int]) =~= ps.subrange(0, i + 1));
            }
            i = i + 1;
        }
        assert(ps.subrange(0, ps.len() as int) =~= ps);
        push_line(&mut out, author_t.as_slice(), &self.author);
        push_line(&mut out, committer_t.as_slice(), &self.committer);
        out.push(10u8);
        let m = self.message.as_str().as_bytes();
        let ghost before = out@;
        append_bytes(&mut out, m);
        if m.len() == 0 || m[m.len() - 1] != 10 {
            out.push(10u8);
        }
        assert(out@ =~= before + normalized_bytes(encode_utf8(self.message@)));
        assert(out@ =~= commit_bytes(self@));
        out
    }
}

/// A header line parses back to its value, whatever follows it.
proof fn lemma_line_round_trip(tag: Seq<u8>, v: Seq<char>, tail: Seq<u8>)
    requires
        no_newline(v),
    ensures
        parse_line(header_line(tag, v) + tail, tag) == Some((encode_utf8(v), tail)),
{
    let e = encode_utf8(v);
    let b = header_line(tag, v) + tail;
    let nl: int = (tag.len() + e.len()) as int;
    assert forall|k: int| tag.len() <= k < nl implies b[k] != 10u8 by {
        assert(b[k] == e[k - tag.len()]);
        if b[k] == 10u8 {
            assert(e.contains(10u8));
        }
    }
    lemma_find_at(b, tag.len() as int, nl, 10u8);
    assert(b.subrange(0, tag.len() as int) =~= tag);
    assert(b.subrange(tag.len() as int, nl) =~= e);
    assert(b.subrange(nl + 1, b.len() as int) =~= tail);
}

pub open spec fn encode_all(ps: Seq<Seq<char>>) -> Seq<Seq<u8>> {
    Seq::new(ps.len(), |i: int| encode_utf8(ps[i]))
}

proof fn lemma_parents_round_trip(ps: Seq<Seq<char>>, tail: Seq<u8>)
    requires
        forall|i: int| 0 <= i < ps.len() ==> no_newline(#[trigger] ps[i]),
        parse_line(tail, parent_tag()) is None,
    ensures
        parse_parents(parent_lines(ps) + tail) == (encode_all(ps), tail),
    decreases ps.len(),
{
    if ps.len() == 0 {
        assert(parent_lines(ps) + tail =~= tail);
        assert(encode_all(ps) =~= Seq::<Seq<u8>>::empty());
    } else {
        let rest = ps.drop_first();
        assert forall|i: int| 0 <= i < rest.len() implies no_newline(#[trigger] rest[i]) by {
            assert(rest[i] == ps[i + 1]);
        }
        assert(no_newline(ps[0]));
        lemma_parents_round_trip(rest, tail);
        let t2 = parent_lines(rest) + tail;
        lemma_line_round_trip(parent_tag(), ps[0], t2);
        assert(parent_lines(ps) + tail =~= header_line(parent_tag(), ps[0]) + t2);
        assert(encode_all(ps) =~= seq![encode_utf8(ps[0])] + encode_all(rest));
    }
}

/// Encoding a well-formed commit and parsing the result gives the commit
/// back, with the message normalised to end in a newline.
pub proof fn lemma_commit_round_trip(c: CommitView)
    requires
        commit_wf(c),
    ensures
        parse_commit(commit_bytes(c)) == Some(normalized(c)),
{
    broadcast use vstd::utf8::encode_utf8_valid_utf8, vstd::utf8::encode_utf8_decode_utf8;

    let m = normalized_bytes(encode_utf8(c.message));
    let la = header_line(author_tag(), c.author);
    let lc = header_line(committer_tag(), c.committer);
    let r4 = seq![10u8] + m;
    let r3 = lc + r4;
    let r2 = la + r3;
    let r1 = parent_lines(c.parents) + r2;
    let b = commit_bytes(c);
    assert(b =~= header_line(tree_tag(), c.tree) + r1);
    lemma_line_round_trip(tree_tag(), c.tree, r1);
    assert(r2[0] == 97u8);
    assert(parse_line(r2, parent_tag()) is None) by {
        if parse_line(r2, parent_tag()) is Some {
            assert(r2.subrange(0, 7)[0] == parent_tag()[0]);
        }
    }
    lemma_parents_round_trip(c.parents, r2);
    lemma_line_round_trip(author_tag(), c.author, r3);
    lemma_line_round_trip(committer_tag(), c.committer, r4);
    assert(r4[0] == 10u8);
    assert(message_start(r4) == 1) by {
        if extension_tag().len() <= r4.len() && r4.subrange(0, 7) == extension_tag() {
            assert(r4.subrange(0, 7)[0] == extension_tag()[0]);
        }
    }
    assert(r4.subrange(1, r4.len() as int) =~= m);
    vstd::utf8::is_ascii_chars_encode_utf8(seq!['\n']);
    assert(encode_utf8(seq!['\n']) =~= seq![10u8]);
    vstd::utf8::valid_utf8_concat(encode_utf8(c.message), seq![10u8]);
    assert(encode_utf8(c.message).push(10u8) =~= encode_utf8(c.message) + seq![10u8]);
    let ps = encode_all(c.parents);
    assert(all_utf8(ps));
    assert(decode_all(ps) =~= c.parents);
}

proof fn lemma_line_value_no_newline(b: Seq<u8>, tag: Seq<u8>)
    requires
        parse_line(b, tag) is Some,
    ensures
        !parse_line(b, tag).unwrap().0.contains(10u8),
{
    let v = parse_line(b, tag).unwrap().0;
    crate::bytes::lemma_find_bounds(b, tag.len() as int, 10);
    if v.contains(10u8) {
        let j = choose|j: int| 0 <= j < v.len() && v[j] == 10u8;
        assert(b[tag.len() + j] == 10u8);
    }
}

proof fn lemma_no_newline_decoded(v: Seq<u8>)
    requires
        valid_utf8(v),
        !v.contains(10u8),
    ensures
        no_newline(decode_utf8(v)),
{
    vstd::utf8::decode_utf8_encode_utf8(v);
}

proof fn lemma_parsed_parents_no_newline(b: Seq<u8>)
    ensures
        forall|i: int| 0 <= i < parse_parents(b).0.len() ==> !(#[trigger] parse_parents(b).0[i]).contains(10u8),
    decreases b.len(),
{
    if let Some((v, r)) = parse_line(b, parent_tag()) {
        if r.len() < b.len() {
            lemma_line_value_no_newline(b, parent_tag());
            lemma_parsed_parents_no_newline(r);
            let ps = parse_parents(b).0;
            assert forall|i: int| 0 <= i < ps.len() implies !(#[trigger] ps[i]).contains(10u8) by {
                if i > 0 {
                    assert(ps[i] == parse_parents(r).0[i - 1]);
                }
            }
        }
    }
}

/// Whatever parses as a commit content is well formed.
pub proof fn lemma_parsed_commit_wf(b: Seq<u8>)
    requires
        parse_commit(b) is Some,
    ensures
        commit_wf(parse_commit(b).unwrap()),
{
    let (t, r1) = parse_line(b, tree_tag()).unwrap();
    let (ps, r2) = parse_parents(r1);
    let (a, r3) = parse_line(r2, author_tag()).unwrap();
    let (c, r4) = parse_line(r3, committer_tag()).unwrap();
    lemma_line_value_no_newline(b, tree_tag());
    lemma_line_value_no_newline(r2, author_tag());
    lemma_line_value_no_newline(r3, committer_tag());
    lemma_parsed_parents_no_newline(r1);
    lemma_no_newline_decoded(t);
    lemma_no_newline_decoded(a);
    lemma_no_newline_decoded(c);
    let cv = parse_commit(b).unwrap();
    assert forall|i: int| 0 <= i < cv.parents.len() implies no_newline(#[trigger] cv.parents[i]) by {
        assert(valid_utf8(ps[i]));
        lemma_no_newline_decoded(ps[i]);
    }
}

/// Decoding, encoding and decoding again gives the first decoding, with the
/// message normalised to end in a newline.
pub proof fn lemma_commit_decode_encode_decode(b: Seq<u8>)
    requires
        parse_commit(b) is Some,
    ensures
        parse_commit(commit_bytes(parse_commit(b).unwrap())) == Some(normalized(parse_commit(b).unwrap())),
{
    lemma_parsed_commit_wf(b);
    lemma_commit_round_trip(parse_commit(b).unwrap());
}

} // verus!
