use vstd::prelude::*;
use std::io::Read;
use crate::error::GitError;
use crate::objtype::{ObjKind, header, make_header, meta_of, parse_meta};

verus! {

/// The zlib stream that the fast compression level makes of `data`.
pub uninterp spec fn zlib_deflated(data: Seq<u8>) -> Seq<u8>;

/// What a zlib stream decompresses to, or `None` for a damaged stream.
pub uninterp spec fn zlib_inflated(data: Seq<u8>) -> Option<Seq<u8>>;

/// Relies on flate2's bufread::ZlibEncoder at Compression::fast, read to the
/// end: over an in-memory slice it always reaches the end of the stream, and
/// the zlib stream it writes decompresses to the input.
#[verifier::external_body]
fn deflate(data: &[u8]) -> (r: Option<Vec<u8>>)
    ensures
        r is Some,
        r matches Some(v) ==> v@ == zlib_deflated(data@),
        r matches Some(v) ==> zlib_inflated(v@) == Some(data@),
{
    let mut z = flate2::bufread::ZlibEncoder::new(data, flate2::Compression::fast());
    let mut buffer = Vec::new();
    z.read_to_end(&mut buffer).ok().map(|_| buffer)
}

/// Relies on flate2's read::ZlibDecoder, read to the end.
#[verifier::external_body]
fn inflate(data: &[u8]) -> (r: Option<Vec<u8>>)
    ensures
        r matches Some(v) ==> zlib_inflated(data@) == Some(v@),
        r is None ==> zlib_inflated(data@) is None,
{
    let mut decoder = flate2::read::ZlibDecoder::new(data);
    let mut buffer = Vec::new();
    decoder.read_to_end(&mut buffer).ok().map(|_| buffer)
}

/// Compresses a byte string.
pub fn compress(data: &[u8]) -> (r: Result<Vec<u8>, GitError>)
    ensures
        r is Ok,
        r matches Ok(v) ==> v@ == zlib_deflated(data@) && zlib_inflated(v@) == Some(data@),
{
    match deflate(data) {
        Some(v) => Ok(v),
        None => Err(GitError::invalid_obj("compression failed".to_owned())),
    }
}

/// Decompresses a zlib stream; a damaged stream is an invalid object.
pub fn decompress(data: &[u8]) -> (r: Result<Vec<u8>, GitError>)
    ensures
        r matches Ok(v) ==> zlib_inflated(data@) == Some(v@),
        r is Err <==> zlib_inflated(data@) is None,
{
    match inflate(data) {
        Some(v) => Ok(v),
        None => Err(GitError::invalid_obj("damaged zlib stream".to_owned())),
    }
}

/// The stored form of an object: header and content, compressed.
pub fn compress_object(kind: ObjKind, content: &[u8]) -> (r: Result<Vec<u8>, GitError>)
    ensures
        r is Ok,
        r matches Ok(v) ==> v@ == zlib_deflated(header(kind, content@.len()) + content@)
            && zlib_inflated(v@) == Some(header(kind, content@.len()) + content@)
            && envelope_of(v@) == Some((kind, content@)),
{
    let mut data = make_header(kind, content.len());
    let mut i: usize = 0;
    while i < content.len()
        invariant
            i <= content@.len(),
            data@ == header(kind, content@.len()) + content@.subrange(0, i as int),
        decreases content@.len() - i,
    {
        data.push(content[i]);
        i = i + 1;
        assert(data@ =~= header(kind, content@.len()) + content@.subrange(0, i as int));
    }
    assert(content@.subrange(0, content@.len() as int) =~= content@);
    proof {
        crate::objtype::lemma_meta_of_header(kind, content@);
        let b = header(kind, content@.len()) + content@;
        assert(b.subrange(header(kind, content@.len()).len() as int, b.len() as int) =~= content@);
    }
    compress(data.as_slice())
}

/// Decompresses a stored object, header included.
pub fn decompress_object(compressed_data: &[u8]) -> (r: Result<Vec<u8>, GitError>)
    ensures
        r matches Ok(v) ==> zlib_inflated(compressed_data@) == Some(v@),
        r is Err <==> zlib_inflated(compressed_data@) is None,
{
    decompress(compressed_data)
}

/// Kind and content of a stored object, if it decompresses and its header
/// is well formed.
pub open spec fn envelope_of(data: Seq<u8>) -> Option<(ObjKind, Seq<u8>)> {
    match zlib_inflated(data) {
        None => None,
        Some(raw) => match meta_of(raw) {
            None => None,
            Some((k, off)) => Some((k, raw.subrange(off, raw.len() as int))),
        },
    }
}

/// Decompresses a stored object and splits it into kind and content. Fails
/// when the stream is damaged or the header is malformed.
pub fn decode_envelope(compressed_data: &[u8]) -> (r: Result<(ObjKind, Vec<u8>), GitError>)
    ensures
        r matches Ok((k, c)) ==> envelope_of(compressed_data@) == Some((k, c@)),
        r is Err <==> envelope_of(compressed_data@) is None,
{
    let raw = decompress(compressed_data)?;
    match parse_meta(raw.as_slice()) {
        None => Err(GitError::invalid_obj("malformed object header".to_owned())),
        Some((kind, off)) => {
            let mut c: Vec<u8> = Vec::new();
            let mut i: usize = off;
            while i < raw.len()
                invariant
                    off <= i <= raw@.len(),
                    c@ == raw@.subrange(off as int, i as int),
                decreases raw@.len() - i,
            {
                c.push(raw[i]);
                i = i + 1;
                assert(c@ =~= raw@.subrange(off as int, i as int));
            }
            Ok((kind, c))
        },
    }
}

} // verus!
