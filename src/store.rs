use vstd::prelude::*;
use crate::error::GitError;
use crate::hashing::{hash_object, is_hex_id, is_lower_hex_char, lemma_id_bytes, object_id};
use crate::objtype::{header, ObjKind};
use crate::zlib::{compress_object, zlib_deflated};

verus! {

/// "objects/"
pub open spec fn objects_dir() -> Seq<u8> {
    seq![111u8, 98, 106, 101, 99, 116, 115, 47]
}

/// Where an object is stored, relative to the repository directory:
/// `objects/` + the first two digits of its id + `/` + the other 38.
pub open spec fn object_path(id: Seq<char>) -> Seq<u8> {
    let b = vstd::utf8::encode_utf8(id);
    objects_dir() + b.subrange(0, 2) + seq![47u8] + b.subrange(2, b.len() as int)
}

/// The stored bytes of an object: its header and content, compressed.
pub open spec fn stored_bytes(k: ObjKind, content: Seq<u8>) -> Seq<u8> {
    zlib_deflated(header(k, content.len()) + content)
}

/// The object directory, as a map from path to file bytes, after writing an
/// object: an object already there is left as it is.
pub open spec fn store_write(files: Map<Seq<u8>, Seq<u8>>, k: ObjKind, content: Seq<u8>) -> Map<Seq<u8>, Seq<u8>> {
    let path = object_path(object_id(k, content));
    if files.contains_key(path) {
        files
    } else {
        files.insert(path, stored_bytes(k, content))
    }
}

/// Whether a string is an object id: 40 lower-case hex digits.
pub fn is_object_id(s: &str) -> (r: bool)
    ensures
        r == is_hex_id(s@),
{
    if !s.is_ascii() {
        proof {
            if is_hex_id(s@) {
                lemma_id_bytes(s@);
            }
        }
        return false;
    }
    let b = s.as_bytes();
    proof {
        vstd::utf8::is_ascii_chars_encode_utf8(s@);
    }
    if b.len() != 40 {
        return false;
    }
    let mut i: usize = 0;
    while i < 40
        invariant
            b@.len() == 40,
            s@.len() == 40,
            i <= 40,
            forall|j: int| 0 <= j < s@.len() ==> s@[j] as u8 == b@[j],
            vstd::utf8::is_ascii_chars(s@),
            forall|j: int| 0 <= j < i ==> is_lower_hex_char(#[trigger] s@[j]),
        decreases 40 - i,
    {
        let c = b[i];
        proof {
            assert(s@[i as int] as u32 <= 127);
            assert((s@[i as int] as u8) as u32 == s@[i as int] as u32);
        }
        if !((48 <= c && c <= 57) || (97 <= c && c <= 102)) {
            return false;
        }
        i = i + 1;
    }
    true
}

/// The path of an object, relative to the repository directory: the first
/// two bytes of the id name the directory, the other 38 the file. Fails
/// unless the id is 40 bytes long.
pub fn obj_to_pathbuf(id: &str) -> (r: Result<Vec<u8>, GitError>)
    ensures
        r matches Ok(p) ==> p@ == object_path(id@),
        r is Err <==> vstd::utf8::encode_utf8(id@).len() != 40,
        r matches Err(e) ==> e is InvalidHash,
{
    let b = id.as_bytes();
    if b.len() != 40 {
        return Err(GitError::invalid_hash(id));
    }
    let mut p: Vec<u8> = vec![111u8, 98, 106, 101, 99, 116, 115, 47];
    p.push(b[0]);
    p.push(b[1]);
    p.push(47u8);
    let mut i: usize = 2;
    while i < 40
        invariant
            2 <= i <= 40,
            b@.len() == 40,
            p@ == objects_dir() + b@.subrange(0, 2) + seq![47u8] + b@.subrange(2, i as int),
        decreases 40 - i,
    {
        p.push(b[i]);
        i = i + 1;
        assert(p@ =~= objects_dir() + b@.subrange(0, 2) + seq![47u8] + b@.subrange(2, i as int));
    }
    assert(p@ =~= object_path(id@));
    Ok(p)
}

/// What writing an object takes: its id, its path and its stored bytes.
pub struct ObjectWrite {
    pub id: String,
    pub path: Vec<u8>,
    pub data: Vec<u8>,
}

/// Prepares the write of an object of kind `kind` with content `content`.
/// The caller writes `data` at `path` unless a file is already there.
pub fn prepare_write(kind: ObjKind, content: &[u8]) -> (r: Result<ObjectWrite, GitError>)
    ensures
        r is Ok,
        r matches Ok(w) ==> w.id@ == object_id(kind, content@) && w.path@ == object_path(w.id@)
            && w.data@ == stored_bytes(kind, content@) && is_hex_id(w.id@)
            && crate::zlib::envelope_of(w.data@) == Some((kind, content@)),
{
    let id = hash_object(kind, content);
    proof {
        lemma_id_bytes(id@);
        vstd::utf8::is_ascii_chars_encode_utf8(id@);
    }
    let path = obj_to_pathbuf(id.as_str())?;
    let data = compress_object(kind, content)?;
    Ok(ObjectWrite { id, path, data })
}

/// Writing the same object twice leaves the object directory as writing it
/// once does, and both writes name the same id.
pub proof fn lemma_write_idempotent(files: Map<Seq<u8>, Seq<u8>>, k: ObjKind, c1: Seq<u8>, c2: Seq<u8>)
    requires
        c1 == c2,
    ensures
        store_write(store_write(files, k, c1), k, c2) == store_write(files, k, c1),
        object_id(k, c1) == object_id(k, c2),
{
}

/// Equal contents of the same kind have the same id.
pub proof fn lemma_content_addressing(k: ObjKind, c1: Seq<u8>, c2: Seq<u8>)
    requires
        c1 == c2,
    ensures
        object_id(k, c1) == object_id(k, c2),
        object_path(object_id(k, c1)) == object_path(object_id(k, c2)),
{
}

} // verus!
