use vstd::prelude::*;
use sha1::Digest;
use crate::objtype::{ObjKind, header, make_header};

verus! {

/// The lower-case hex digit for a nibble, as its ASCII code.
pub open spec fn hex_code(n: int) -> u8 {
    if n < 10 { (48 + n) as u8 } else { (87 + n) as u8 }
}

/// Value of an ASCII hex digit (either case), or -1.
pub open spec fn hex_val(b: u8) -> int {
    if 48 <= b <= 57 {
        b - 48
    } else if 97 <= b <= 102 {
        b - 87
    } else if 65 <= b <= 70 {
        b - 55
    } else {
        -1
    }
}

/// Lower-case hex rendering of `raw`: two digits per byte, high nibble first.
pub open spec fn hex_of(raw: Seq<u8>) -> Seq<char> {
    Seq::new(
        2 * raw.len(),
        |i: int|
            (if i % 2 == 0 {
                hex_code((raw[i / 2] / 16) as int)
            } else {
                hex_code((raw[i / 2] % 16) as int)
            }) as char,
    )
}

/// A byte string that hex-decodes: even length, every byte a hex digit.
pub open spec fn is_hex_bytes(b: Seq<u8>) -> bool {
    b.len() % 2 == 0 && forall|i: int| 0 <= i < b.len() ==> hex_val(#[trigger] b[i]) >= 0
}

/// The bytes that a hex byte string stands for.
pub open spec fn hex_decoded(b: Seq<u8>) -> Seq<u8> {
    Seq::new(b.len() / 2, |i: int| (hex_val(b[2 * i]) * 16 + hex_val(b[2 * i + 1])) as u8)
}

pub open spec fn is_lower_hex_char(c: char) -> bool {
    (48 <= c as u32 <= 57) || (97 <= c as u32 <= 102)
}

/// A well-formed object id: 40 lower-case hex digits.
pub open spec fn is_hex_id(s: Seq<char>) -> bool {
    s.len() == 40 && forall|i: int| 0 <= i < s.len() ==> is_lower_hex_char(#[trigger] s[i])
}

/// The ASCII bytes of a string of ASCII characters.
pub open spec fn ascii_bytes(s: Seq<char>) -> Seq<u8> {
    Seq::new(s.len(), |i: int| s[i] as u8)
}

/// The SHA-1 digest of a byte string.
pub uninterp spec fn sha1_of(data: Seq<u8>) -> Seq<u8>;

/// The id of an object of kind `k` with content `content`: the hex digest of
/// the header followed by the content.
pub open spec fn object_id(k: ObjKind, content: Seq<u8>) -> Seq<char> {
    hex_of(sha1_of(header(k, content.len()) + content))
}

/// Relies on hex::encode: lower-case, two digits per byte, high nibble first.
#[verifier::external_body]
pub(crate) fn hex_encode(raw: &[u8]) -> (r: String)
    ensures
        r@ == hex_of(raw@),
{
    hex::encode(raw)
}

/// Relies on hex::decode: it fails on odd length or on a byte that is not a
/// hex digit of either case; otherwise each pair of digits gives one byte.
#[verifier::external_body]
pub(crate) fn hex_decode(s: &[u8]) -> (r: Option<Vec<u8>>)
    ensures
        r is Some <==> is_hex_bytes(s@),
        r matches Some(v) ==> v@ == hex_decoded(s@),
{
    hex::decode(s).ok()
}

/// Relies on sha1::Sha1 through Digest::digest: the 20-byte SHA-1 digest.
#[verifier::external_body]
pub(crate) fn sha1_digest(data: &[u8]) -> (r: Vec<u8>)
    ensures
        r@ == sha1_of(data@),
        r@.len() == 20,
{
    sha1::Sha1::digest(data).to_vec()
}

pub proof fn lemma_hex_of_is_id(raw: Seq<u8>)
    requires
        raw.len() == 20,
    ensures
        is_hex_id(hex_of(raw)),
        vstd::utf8::is_ascii_chars(hex_of(raw)),
{
    let h = hex_of(raw);
    assert forall|i: int| 0 <= i < h.len() implies is_lower_hex_char(#[trigger] h[i]) by {
        let n: int = if i % 2 == 0 { (raw[i / 2] / 16) as int } else { (raw[i / 2] % 16) as int };
        assert(0 <= n < 16);
    }
}

proof fn lemma_ascii_cast(c: char)
    requires
        (c as u32) < 128,
    ensures
        (c as u8) as int == (c as u32) as int,
{
}

proof fn lemma_char_eq(a: char, b: char)
    requires
        a as u32 == b as u32,
    ensures
        a == b,
{
}

/// Hex-decoding the rendering of `raw` gives `raw` back.
pub proof fn lemma_decode_hex_of(raw: Seq<u8>)
    ensures
        hex_decoded(ascii_bytes(hex_of(raw))) == raw,
{
    let b = ascii_bytes(hex_of(raw));
    let d = hex_decoded(b);
    assert forall|i: int| 0 <= i < raw.len() implies #[trigger] d[i] == raw[i] by {
        assert((2 * i) / 2 == i);
        assert((2 * i + 1) / 2 == i);
        assert((2 * i) % 2 == 0);
        assert((2 * i + 1) % 2 == 1);
        let v = raw[i] as int;
        assert(v == (v / 16) * 16 + v % 16);
    }
    assert(d =~= raw);
}

/// An id is the rendering of the bytes it decodes to.
pub proof fn lemma_hex_of_decode(s: Seq<char>)
    requires
        is_hex_id(s),
    ensures
        is_hex_bytes(ascii_bytes(s)),
        hex_of(hex_decoded(ascii_bytes(s))) == s,
        hex_decoded(ascii_bytes(s)).len() == 20,
{
    let b = ascii_bytes(s);
    assert forall|i: int| 0 <= i < b.len() implies hex_val(#[trigger] b[i]) >= 0 by {
        assert(is_lower_hex_char(s[i]));
        assert(b[i] == s[i] as u8);
        lemma_ascii_cast(s[i]);
    }
    let d = hex_decoded(b);
    let h = hex_of(d);
    assert forall|i: int| 0 <= i < s.len() implies #[trigger] h[i] == s[i] by {
        let j = i / 2;
        assert(is_lower_hex_char(s[2 * j]));
        assert(is_lower_hex_char(s[2 * j + 1]));
        let hi = hex_val(b[2 * j]);
        let lo = hex_val(b[2 * j + 1]);
        assert(0 <= hi < 16 && 0 <= lo < 16);
        assert(d[j] as int == hi * 16 + lo);
        assert((hi * 16 + lo) / 16 == hi);
        assert((hi * 16 + lo) % 16 == lo);
        assert(b[2 * j] == s[2 * j] as u8);
        assert(b[2 * j + 1] == s[2 * j + 1] as u8);
        lemma_ascii_cast(s[2 * j]);
        lemma_ascii_cast(s[2 * j + 1]);
        if i % 2 == 0 {
            assert(i == 2 * j);
            assert(hex_code(hi) as u32 == s[i] as u32);
            assert(h[i] as u32 == s[i] as u32);
            lemma_char_eq(h[i], s[i]);
        } else {
            assert(i == 2 * j + 1);
            assert(hex_code(lo) as u32 == s[i] as u32);
            assert(h[i] as u32 == s[i] as u32);
            lemma_char_eq(h[i], s[i]);
        }
    }
    assert(h =~= s);
}

/// The id of an object of the given kind and content: the lower-case hex
/// SHA-1 of header and content.
pub fn hash_object(kind: ObjKind, content: &[u8]) -> (r: String)
    ensures
        r@ == object_id(kind, content@),
        is_hex_id(r@),
{
    let mut data = make_header(kind, content.len());
    let mut i: usize = 0;
    while i < content.len()
        invariant
            i <= content@.len(),
            data@ == header(kind, content@.len()) + content@.subrange(0, i as int),
        decreases content@.len() - i,
    {
        data.push(content[i]);
        i = i + 1;
        assert(data@ =~= header(kind, content@.len()) + content@.subrange(0, i as int));
    }
    assert(content@.subrange(0, content@.len() as int) =~= content@);
    let digest = sha1_digest(data.as_slice());
    proof { lemma_hex_of_is_id(digest@); }
    hex_encode(digest.as_slice())
}

proof fn lemma_ascii_char(c: char)
    requires
        is_lower_hex_char(c),
    ensures
        '\0' <= c <= '\u{7f}',
{
    assert('\u{7f}' as u32 == 127);
}

/// The UTF-8 encoding of an id is its ASCII bytes.
pub proof fn lemma_id_bytes(s: Seq<char>)
    requires
        is_hex_id(s),
    ensures
        vstd::utf8::encode_utf8(s) == ascii_bytes(s),
        vstd::utf8::is_ascii_chars(s),
{
    assert forall|i: int| 0 <= i < s.len() implies '\0' <= #[trigger] s[i] <= '\u{7f}' by {
        assert(is_lower_hex_char(s[i]));
        lemma_ascii_char(s[i]);
    }
    vstd::utf8::is_ascii_chars_encode_utf8(s);
    assert(vstd::utf8::encode_utf8(s) =~= ascii_bytes(s));
}

} // verus!
