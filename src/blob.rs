use vstd::prelude::*;
use crate::bytes::copy_range;
use crate::error::GitError;
use crate::objtype::{meta_of, parse_meta};

verus! {

/// File content; no structure is imposed on it.
#[derive(Debug)]
pub struct Blob(pub Vec<u8>);

impl View for Blob {
    type V = Seq<u8>;

    open spec fn view(&self) -> Seq<u8> {
        self.0@
    }
}

impl Blob {
    /// Reads a stored object, header included, as a blob: the bytes after
    /// the header. Fails when the header is malformed.
    pub fn parse_object(bytes: &[u8]) -> (r: Result<Blob, GitError>)
        ensures
            r matches Ok(b) ==> meta_of(bytes@) matches Some((k, off)) && b@ == bytes@.subrange(
                off,
                bytes@.len() as int,
            ),
            r is Err <==> meta_of(bytes@) is None,
    {
        match parse_meta(bytes) {
            None => Err(GitError::invalid_obj("malformed object header".to_owned())),
            Some((_, off)) => Ok(Blob(copy_range(bytes, off, bytes.len()))),
        }
    }

    /// The content of the blob object: the bytes themselves.
    pub fn encode(&self) -> (r: Vec<u8>)
        ensures
            r@ == self@,
    {
        copy_range(self.0.as_slice(), 0, self.0.len())
    }
}

} // verus!
