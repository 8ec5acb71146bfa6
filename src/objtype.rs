use vstd::prelude::*;
use crate::blob::Blob;
use crate::bytes::copy_range;
use crate::commit::{parse_commit, Commit};
use crate::error::GitError;
use crate::tree::{parse_entries, tree_wf, Tree};

verus! {

/// The three kinds of stored object.
#[derive(Debug, Clone, Copy, PartialEq, Eq, Structural)]
pub enum ObjKind {
    Blob,
    Tree,
    Commit,
}

/// The ASCII name of a kind as it appears in an object header.
pub open spec fn kind_tag(k: ObjKind) -> Seq<u8> {
    match k {
        ObjKind::Blob => seq![98u8, 108, 111, 98],
        ObjKind::Tree => seq![116u8, 114, 101, 101],
        ObjKind::Commit => seq![99u8, 111, 109, 109, 105, 116],
    }
}

/// Decimal digits of `n`, most significant first, without leading zeros.
pub open spec fn decimal(n: nat) -> Seq<u8>
    decreases n,
{
    if n < 10 {
        seq![(48 + n) as u8]
    } else {
        decimal(n / 10).push((48 + n % 10) as u8)
    }
}

/// The header that precedes an object's content: `"{kind} {len}\0"`.
pub open spec fn header(k: ObjKind, len: nat) -> Seq<u8> {
    kind_tag(k) + seq![32u8] + decimal(len) + seq![0u8]
}

impl ObjKind {
    /// The kind's name, as header bytes.
    pub fn tag(&self) -> (r: Vec<u8>)
        ensures
            r@ == kind_tag(*self),
    {
        let r = match self {
            ObjKind::Blob => vec![98u8, 108, 111, 98],
            ObjKind::Tree => vec![116u8, 114, 101, 101],
            ObjKind::Commit => vec![99u8, 111, 109, 109, 105, 116],
        };
        assert(r@ =~= kind_tag(*self));
        r
    }
}

/// Appends the decimal digits of `n` to `out`.
pub fn push_decimal(out: &mut Vec<u8>, n: u64)
    ensures
        final(out)@ == old(out)@ + decimal(n as nat),
    decreases n,
{
    if n < 10 {
        out.push((48 + n) as u8);
        assert(final(out)@ =~= old(out)@ + decimal(n as nat));
    } else {
        push_decimal(out, n / 10);
        out.push((48 + n % 10) as u8);
        assert(final(out)@ =~= old(out)@ + decimal(n as nat));
    }
}

/// Builds the header `"{kind} {len}\0"`.
pub fn make_header(kind: ObjKind, len: usize) -> (r: Vec<u8>)
    ensures
        r@ == header(kind, len as nat),
{
    let mut r = kind.tag();
    r.push(32u8);
    push_decimal(&mut r, len as u64);
    r.push(0u8);
    assert(r@ =~= header(kind, len as nat));
    r
}

} // verus!

verus! {

pub open spec fn is_digit(b: u8) -> bool {
    48 <= b <= 57
}

/// First index at or after `i` whose byte is not a decimal digit.
pub open spec fn digits_end(b: Seq<u8>, i: int) -> int
    decreases b.len() - i,
{
    if i < 0 || i >= b.len() || !is_digit(b[i]) {
        i
    } else {
        digits_end(b, i + 1)
    }
}

pub open spec fn starts_with(b: Seq<u8>, p: Seq<u8>) -> bool {
    p.len() <= b.len() && b.subrange(0, p.len() as int) == p
}

/// The kind whose name opens `b`, if any.
pub open spec fn leading_kind(b: Seq<u8>) -> Option<ObjKind> {
    if starts_with(b, kind_tag(ObjKind::Blob)) {
        Some(ObjKind::Blob)
    } else if starts_with(b, kind_tag(ObjKind::Tree)) {
        Some(ObjKind::Tree)
    } else if starts_with(b, kind_tag(ObjKind::Commit)) {
        Some(ObjKind::Commit)
    } else {
        None
    }
}

/// The header of a stored object: its kind and where its content starts.
/// A header is a kind name, one space, one or more decimal digits and a NUL.
pub open spec fn meta_of(b: Seq<u8>) -> Option<(ObjKind, int)> {
    match leading_kind(b) {
        None => None,
        Some(k) => {
            let t = kind_tag(k).len() as int;
            let d = digits_end(b, t + 1);
            if t < b.len() && b[t] == 32 && d > t + 1 && d < b.len() && b[d] == 0 {
                Some((k, d + 1))
            } else {
                None
            }
        },
    }
}

fn has_prefix(b: &[u8], p: &Vec<u8>) -> (r: bool)
    ensures
        r == starts_with(b@, p@),
{
    if p.len() > b.len() {
        return false;
    }
    let mut i: usize = 0;
    while i < p.len()
        invariant
            p@.len() <= b@.len(),
            i <= p@.len(),
            forall|j: int| 0 <= j < i ==> b@[j] == p@[j],
        decreases p@.len() - i,
    {
        if b[i] != p[i] {
            assert(b@.subrange(0, p@.len() as int)[i as int] != p@[i as int]);
            return false;
        }
        i = i + 1;
    }
    assert(b@.subrange(0, p@.len() as int) =~= p@);
    true
}

/// Reads an object header: the kind it names and the offset of the content.
pub fn parse_meta(bytes: &[u8]) -> (r: Option<(ObjKind, usize)>)
    ensures
        r matches Some((k, off)) ==> meta_of(bytes@) == Some((k, off as int)),
        r is None ==> meta_of(bytes@) is None,
{
    let kind = if has_prefix(bytes, &ObjKind::Blob.tag()) {
        ObjKind::Blob
    } else if has_prefix(bytes, &ObjKind::Tree.tag()) {
        ObjKind::Tree
    } else if has_prefix(bytes, &ObjKind::Commit.tag()) {
        ObjKind::Commit
    } else {
        return None;
    };
    assert(leading_kind(bytes@) == Some(kind));
    let t = kind.tag().len();
    if t >= bytes.len() || bytes[t] != 32 {
        return None;
    }
    let mut d = t + 1;
    while d < bytes.len() && 48 <= bytes[d] && bytes[d] <= 57
        invariant
            t + 1 <= d <= bytes@.len(),
            digits_end(bytes@, t + 1) == digits_end(bytes@, d as int),
        decreases bytes@.len() - d,
    {
        d = d + 1;
    }
    if d > t + 1 && d < bytes.len() && bytes[d] == 0 {
        Some((kind, d + 1))
    } else {
        None
    }
}

/// A stored object of any kind.
#[derive(Debug)]
pub enum Obj {
    B(Blob),
    T(Tree),
    C(Commit),
}

/// A type that is stored as one kind of object.
pub trait ObjType {
    spec fn spec_kind() -> ObjKind;

    /// The kind this type is stored as.
    fn kind_tag() -> (k: ObjKind)
        ensures
            k == Self::spec_kind(),
    ;
}

impl ObjType for Blob {
    open spec fn spec_kind() -> ObjKind {
        ObjKind::Blob
    }

    fn kind_tag() -> (k: ObjKind) {
        ObjKind::Blob
    }
}

impl ObjType for Tree {
    open spec fn spec_kind() -> ObjKind {
        ObjKind::Tree
    }

    fn kind_tag() -> (k: ObjKind) {
        ObjKind::Tree
    }
}

impl ObjType for Commit {
    open spec fn spec_kind() -> ObjKind {
        ObjKind::Commit
    }

    fn kind_tag() -> (k: ObjKind) {
        ObjKind::Commit
    }
}

/// The content of a stored object: what follows its header.
pub open spec fn content_of(b: Seq<u8>) -> Seq<u8>
    recommends
        meta_of(b) is Some,
{
    b.subrange(meta_of(b).unwrap().1, b.len() as int)
}

/// Whether a stored object, header included, decodes: its header is well
/// formed and its content parses as the kind the header names.
pub open spec fn decodes(b: Seq<u8>) -> bool {
    match meta_of(b) {
        None => false,
        Some((ObjKind::Blob, _)) => true,
        Some((ObjKind::Tree, _)) => parse_entries(content_of(b)) is Some,
        Some((ObjKind::Commit, _)) => parse_commit(content_of(b)) is Some,
    }
}

impl Obj {
    /// The kind of this object.
    pub fn get_type(&self) -> (r: ObjKind)
        ensures
            r == (match self {
                Obj::B(_) => ObjKind::Blob,
                Obj::T(_) => ObjKind::Tree,
                Obj::C(_) => ObjKind::Commit,
            }),
    {
        match self {
            Obj::B(_) => ObjKind::Blob,
            Obj::T(_) => ObjKind::Tree,
            Obj::C(_) => ObjKind::Commit,
        }
    }

    /// Decodes a stored object, header included, by the kind its header names.
    pub fn decode(bytes: &[u8]) -> (r: Result<Obj, GitError>)
        ensures
            r is Ok <==> decodes(bytes@),
            r matches Ok(Obj::B(b)) ==> meta_of(bytes@).unwrap().0 == ObjKind::Blob && b@ == content_of(bytes@),
            r matches Ok(Obj::T(t)) ==> meta_of(bytes@).unwrap().0 == ObjKind::Tree && parse_entries(content_of(bytes@)) == Some(t@),
            r matches Ok(Obj::C(c)) ==> meta_of(bytes@).unwrap().0 == ObjKind::Commit && parse_commit(content_of(bytes@)) == Some(c@),
    {
        match parse_meta(bytes) {
            None => Err(GitError::invalid_obj("malformed object header".to_owned())),
            Some((kind, off)) => {
                let content = copy_range(bytes, off, bytes.len());
                match kind {
                    ObjKind::Blob => Ok(Obj::B(Blob(content))),
                    ObjKind::Tree => match Tree::parse(content.as_slice()) {
                        Ok(t) => Ok(Obj::T(t)),
                        Err(e) => Err(e),
                    },
                    ObjKind::Commit => match Commit::parse(content.as_slice()) {
                        Ok(c) => Ok(Obj::C(c)),
                        Err(e) => Err(e),
                    },
                }
            },
        }
    }

    /// The content bytes of this object, without header.
    pub fn encode(&self) -> (r: Vec<u8>)
        requires
            self matches Obj::T(t) ==> tree_wf(t@),
        ensures
            self matches Obj::B(b) ==> r@ == b@,
            self matches Obj::T(t) ==> r@ == crate::tree::tree_bytes(t@),
            self matches Obj::C(c) ==> r@ == crate::commit::commit_bytes(c@),
    {
        match self {
            Obj::B(b) => b.encode(),
            Obj::T(t) => t.encode(),
            Obj::C(c) => c.encode(),
        }
    }
}

impl Blob {
    /// The blob inside an object; any other kind is a type mismatch.
    pub fn from_obj(obj: Obj) -> (r: Result<Blob, GitError>)
        ensures
            obj matches Obj::B(b) ==> r == Ok::<Blob, GitError>(b),
            r is Err <==> !(obj is B),
    {
        match obj {
            Obj::B(b) => Ok(b),
            _ => Err(GitError::not_a_bblob("object is not a blob")),
        }
    }
}

impl Tree {
    /// The tree inside an object; any other kind is a type mismatch.
    pub fn from_obj(obj: Obj) -> (r: Result<Tree, GitError>)
        ensures
            r is Err <==> !(obj is T),
            r matches Ok(t) ==> obj matches Obj::T(u) && t@ == u@,
    {
        match obj {
            Obj::T(t) => Ok(t),
            _ => Err(GitError::not_a_ttree("object is not a tree")),
        }
    }
}

impl Commit {
    /// The commit inside an object; any other kind is a type mismatch.
    pub fn from_obj(obj: Obj) -> (r: Result<Commit, GitError>)
        ensures
            r is Err <==> !(obj is C),
            r matches Ok(c) ==> obj matches Obj::C(u) && c@ == u@,
    {
        match obj {
            Obj::C(c) => Ok(c),
            _ => Err(GitError::not_a_ccommit("object is not a commit")),
        }
    }
}

pub proof fn lemma_decimal_digits(n: nat)
    ensures
        decimal(n).len() > 0,
        forall|i: int| 0 <= i < decimal(n).len() ==> 48 <= #[trigger] decimal(n)[i] <= 57,
    decreases n,
{
    if n >= 10 {
        lemma_decimal_digits(n / 10);
        assert forall|i: int| 0 <= i < decimal(n).len() implies 48 <= #[trigger] decimal(n)[i] <= 57 by {
            if i < decimal(n / 10).len() {
                assert(decimal(n)[i] == decimal(n / 10)[i]);
            }
        }
    }
}

proof fn lemma_digits_end(b: Seq<u8>, i: int, j: int)
    requires
        0 <= i <= j < b.len(),
        !is_digit(b[j]),
        forall|k: int| i <= k < j ==> is_digit(b[k]),
    ensures
        digits_end(b, i) == j,
    decreases j - i,
{
    if i < j {
        lemma_digits_end(b, i + 1, j);
    }
}

/// The header written in front of a content reads back as that kind, and
/// the content starts right after it.
pub proof fn lemma_meta_of_header(k: ObjKind, c: Seq<u8>)
    ensures
        meta_of(header(k, c.len()) + c) == Some((k, header(k, c.len()).len() as int)),
{
    let h = header(k, c.len());
    let b = h + c;
    let t = kind_tag(k).len() as int;
    let d = decimal(c.len());
    lemma_decimal_digits(c.len());
    assert(b.subrange(0, t) =~= kind_tag(k));
    assert(b[t] == 32u8);
    assert forall|m: int| t + 1 <= m < t + 1 + d.len() implies is_digit(b[m]) by {
        assert(b[m] == d[m - t - 1]);
    }
    assert(b[t + 1 + d.len()] == 0u8);
    lemma_digits_end(b, t + 1, t + 1 + d.len());
    let bl = kind_tag(ObjKind::Blob);
    let tr = kind_tag(ObjKind::Tree);
    let cm = kind_tag(ObjKind::Commit);
    match k {
        ObjKind::Blob => {},
        ObjKind::Tree => {
            assert(b.subrange(0, 4)[0] != bl[0]);
        },
        ObjKind::Commit => {
            assert(b.subrange(0, 4)[0] != bl[0]);
            assert(b.subrange(0, 4)[0] != tr[0]);
        },
    }
}

/// A stored object before compression: its header, then its content.
pub open spec fn object_bytes(k: ObjKind, c: Seq<u8>) -> Seq<u8> {
    header(k, c.len()) + c
}

/// Decoding a stored object, encoding what came out and decoding that
/// again gives what the first decoding gave: a blob's bytes, a tree's
/// entries, and a commit's fields, with the message normalised to end in a
/// newline.
pub proof fn lemma_object_decode_encode_decode(b: Seq<u8>)
    requires
        decodes(b),
    ensures
        ({
            let k = meta_of(b).unwrap().0;
            let c = content_of(b);
            let again = |x: Seq<u8>| content_of(object_bytes(k, x));
            &&& meta_of(object_bytes(k, c)) == Some((k, header(k, c.len()).len() as int))
            &&& k == ObjKind::Blob ==> again(c) == c
            &&& k == ObjKind::Tree ==> parse_entries(again(crate::tree::tree_bytes(parse_entries(c).unwrap())))
                == parse_entries(c)
            &&& k == ObjKind::Tree ==> crate::tree::tree_bytes(parse_entries(c).unwrap()) == c
            &&& k == ObjKind::Commit ==> parse_commit(again(crate::commit::commit_bytes(parse_commit(c).unwrap())))
                == Some(crate::commit::normalized(parse_commit(c).unwrap()))
        }),
{
    let k = meta_of(b).unwrap().0;
    let c = content_of(b);
    lemma_meta_of_header(k, c);
    assert(object_bytes(k, c).subrange(header(k, c.len()).len() as int, object_bytes(k, c).len() as int) =~= c);
    match k {
        ObjKind::Blob => {},
        ObjKind::Tree => {
            let x = crate::tree::tree_bytes(parse_entries(c).unwrap());
            lemma_meta_of_header(k, x);
            assert(object_bytes(k, x).subrange(header(k, x.len()).len() as int, object_bytes(k, x).len() as int) =~= x);
            crate::tree::lemma_tree_decode_encode_decode(c);
            crate::tree::lemma_tree_encode_decoded(c);
        },
        ObjKind::Commit => {
            let x = crate::commit::commit_bytes(parse_commit(c).unwrap());
            lemma_meta_of_header(k, x);
            assert(object_bytes(k, x).subrange(header(k, x.len()).len() as int, object_bytes(k, x).len() as int) =~= x);
            crate::commit::lemma_commit_decode_encode_decode(c);
        },
    }
}

} // verus!
