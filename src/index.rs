use vstd::prelude::*;
use vstd::utf8::{decode_utf8, encode_utf8, valid_utf8};
use crate::bytes::{
    le_bytes,
    append_bytes, copy_range, find_byte, find_from, lemma_find_at, lemma_find_bounds, lemma_find_shift,
    str_eq, utf8_string,
};
use crate::error::GitError;
use crate::hashing::{
    ascii_bytes, hex_decode, hex_decoded, hex_encode, hex_of, is_hex_id, lemma_hex_of_decode,
    lemma_id_bytes, sha1_digest, sha1_of,
};
use crate::tree::is_mode_value;

verus! {

/// One staged path.
#[derive(Debug)]
pub struct IndexEntry {
    pub mode: u32,
    pub hash: String,
    pub name: String,
}

/// What a staged entry holds, as mathematical values.
pub struct IndexEntryView {
    pub mode: u32,
    pub hash: Seq<char>,
    pub name: Seq<char>,
}

impl View for IndexEntry {
    type V = IndexEntryView;

    open spec fn view(&self) -> IndexEntryView {
        IndexEntryView { mode: self.mode, hash: self.hash@, name: self.name@ }
    }
}

pub open spec fn index_entries_view(v: Seq<IndexEntry>) -> Seq<IndexEntryView> {
    Seq::new(v.len(), |i: int| v[i]@)
}

/// The staging area: the entries of the next commit, in order.
#[derive(Debug)]
pub struct Index {
    pub entries: Vec<IndexEntry>,
}

impl View for Index {
    type V = Seq<IndexEntryView>;

    open spec fn view(&self) -> Seq<IndexEntryView> {
        index_entries_view(self.entries@)
    }
}

/// An entry that the index file can hold: a recognised mode, a 40-digit id,
/// and a name whose encoding holds no NUL byte.
pub open spec fn index_entry_wf(e: IndexEntryView) -> bool {
    is_mode_value(e.mode) && is_hex_id(e.hash) && !encode_utf8(e.name).contains(0u8)
}

pub open spec fn index_wf(es: Seq<IndexEntryView>) -> bool {
    es.len() <= u32::MAX && forall|i: int| 0 <= i < es.len() ==> index_entry_wf(#[trigger] es[i])
}

/// Big-endian bytes of a 32-bit number.
pub open spec fn be32(m: u32) -> Seq<u8> {
    seq![((m >> 24u32) & 0xffu32) as u8, ((m >> 16u32) & 0xffu32) as u8, ((m >> 8u32) & 0xffu32) as u8, (m & 0xffu32) as u8]
}

/// The number that four big-endian bytes hold.
pub open spec fn be32_val(s: Seq<u8>) -> u32 {
    ((s[0] as u32) << 24u32) | ((s[1] as u32) << 16u32) | ((s[2] as u32) << 8u32) | (s[3] as u32)
}

pub proof fn lemma_be32(m: u32)
    ensures
        be32_val(be32(m)) == m,
        be32(m).len() == 4,
{
    let b0 = ((m >> 24u32) & 0xffu32) as u8;
    let b1 = ((m >> 16u32) & 0xffu32) as u8;
    let b2 = ((m >> 8u32) & 0xffu32) as u8;
    let b3 = (m & 0xffu32) as u8;
    assert(((b0 as u32) << 24u32) | ((b1 as u32) << 16u32) | ((b2 as u32) << 8u32) | (b3 as u32) == m)
        by (bit_vector)
        requires
            b0 == ((m >> 24u32) & 0xffu32) as u8,
            b1 == ((m >> 16u32) & 0xffu32) as u8,
            b2 == ((m >> 8u32) & 0xffu32) as u8,
            b3 == (m & 0xffu32) as u8,
    ;
}

pub open spec fn zeros(n: int) -> Seq<u8> {
    Seq::new(n as nat, |i: int| 0u8)
}

/// Zero bytes that bring an entry of a name of `n` bytes to a multiple of
/// eight: the entry is 62 fixed bytes, the name and its NUL.
pub open spec fn pad_len(n: int) -> int {
    (8 - ((n % 8 + 7) % 8)) % 8
}

/// The flags field: stage 0 and the name length, cut to 12 bits.
pub open spec fn name_flags(n: int) -> Seq<u8> {
    seq![((n % 4096) / 256) as u8, (n % 256) as u8]
}

/// The record of one entry in the index file.
pub open spec fn entry_record(e: IndexEntryView) -> Seq<u8> {
    let name = encode_utf8(e.name);
    zeros(24) + be32(e.mode) + zeros(12) + hex_decoded(ascii_bytes(e.hash)) + name_flags(name.len() as int)
        + name + seq![0u8] + zeros(pad_len(name.len() as int))
}

pub open spec fn entry_records(es: Seq<IndexEntryView>) -> Seq<u8>
    decreases es.len(),
{
    if es.len() == 0 {
        Seq::empty()
    } else {
        entry_record(es[0]) + entry_records(es.drop_first())
    }
}

/// "DIRC"
pub open spec fn signature() -> Seq<u8> {
    seq![68u8, 73, 82, 67]
}

/// Everything that the index file holds before its checksum.
pub open spec fn index_body(es: Seq<IndexEntryView>) -> Seq<u8> {
    signature() + be32(2) + be32(es.len() as u32) + entry_records(es)
}

/// Reads one entry record off the front of `b`: the entry and the rest.
pub open spec fn parse_index_entry(b: Seq<u8>) -> Option<(IndexEntryView, Seq<u8>)> {
    let nul = find_from(b, 62, 0);
    let end = nul + 1 + pad_len(nul - 62);
    if b.len() < 62 || nul >= b.len() || end > b.len() {
        None
    } else if !valid_utf8(b.subrange(62, nul)) || !is_mode_value(be32_val(b.subrange(24, 28))) {
        None
    } else {
        Some(
            (
                IndexEntryView {
                    mode: be32_val(b.subrange(24, 28)),
                    hash: hex_of(b.subrange(40, 60)),
                    name: decode_utf8(b.subrange(62, nul)),
                },
                b.subrange(end, b.len() as int),
            ),
        )
    }
}

/// Reads `n` entry records off the front of `b`: the entries and the rest.
pub open spec fn parse_index_entries(b: Seq<u8>, n: nat) -> Option<(Seq<IndexEntryView>, Seq<u8>)>
    decreases n,
{
    if n == 0 {
        Some((Seq::empty(), b))
    } else {
        match parse_index_entry(b) {
            None => None,
            Some((e, r)) => match parse_index_entries(r, (n - 1) as nat) {
                None => None,
                Some((es, r2)) => Some((seq![e] + es, r2)),
            },
        }
    }
}

/// The entries that an index file holds, or `None` when it is not one: a
/// wrong signature or version, a damaged entry, or no room for the checksum.
/// The checksum itself is not checked.
pub open spec fn parse_index(b: Seq<u8>) -> Option<Seq<IndexEntryView>> {
    if b.len() < 12 || b.subrange(0, 4) != signature() || be32_val(b.subrange(4, 8)) != 2 {
        None
    } else {
        match parse_index_entries(b.subrange(12, b.len() as int), be32_val(b.subrange(8, 12)) as nat) {
            None => None,
            Some((es, r)) => if r.len() >= 20 {
                Some(es)
            } else {
                None
            },
        }
    }
}

fn push_be32(out: &mut Vec<u8>, m: u32)
    ensures
        final(out)@ == old(out)@ + be32(m),
{
    out.push(((m >> 24u32) & 0xffu32) as u8);
    out.push(((m >> 16u32) & 0xffu32) as u8);
    out.push(((m >> 8u32) & 0xffu32) as u8);
    out.push((m & 0xffu32) as u8);
    assert(final(out)@ =~= old(out)@ + be32(m));
}

fn push_zeros(out: &mut Vec<u8>, n: usize)
    ensures
        final(out)@ == old(out)@ + zeros(n as int),
{
    let mut i: usize = 0;
    while i < n
        invariant
            i <= n,
            out@ == old(out)@ + zeros(i as int),
        decreases n - i,
    {
        out.push(0u8);
        i = i + 1;
        assert(out@ =~= old(out)@ + zeros(i as int));
    }
}

fn read_be32(b: &[u8], at: usize) -> (r: u32)
    requires
        at + 4 <= b@.len(),
    ensures
        r == be32_val(b@.subrange(at as int, at + 4)),
{
    let ghost s = b@.subrange(at as int, at + 4);
    assert(s[0] == b@[at as int] && s[1] == b@[at + 1] && s[2] == b@[at + 2] && s[3] == b@[at + 3]);
    ((b[at] as u32) << 24u32) | ((b[at + 1] as u32) << 16u32) | ((b[at + 2] as u32) << 8u32) | (b[at + 3] as u32)
}

pub proof fn lemma_entry_records_push(es: Seq<IndexEntryView>, e: IndexEntryView)
    ensures
        entry_records(es.push(e)) == entry_records(es) + entry_record(e),
    decreases es.len(),
{
    if es.len() == 0 {
        assert(es.push(e).drop_first() =~= Seq::<IndexEntryView>::empty());
        assert(entry_records(es.push(e).drop_first()) =~= Seq::<u8>::empty());
        assert(entry_records(es) =~= Seq::<u8>::empty());
        assert(entry_records(es.push(e)) =~= entry_record(e));
    } else {
        assert(es.push(e).drop_first() =~= es.drop_first().push(e));
        lemma_entry_records_push(es.drop_first(), e);
        assert(entry_records(es.push(e)) =~= entry_records(es) + entry_record(e));
    }
}

/// The entries whose path is not `name`, in order.
pub open spec fn without_name(es: Seq<IndexEntryView>, name: Seq<char>) -> Seq<IndexEntryView> {
    es.filter(|e: IndexEntryView| e.name != name)
}

impl IndexEntry {
    /// A staged entry. The mode must be one of the five recognised modes.
    pub fn new(mode: u32, hash: String, name: String) -> (r: IndexEntry)
        requires
            is_mode_value(mode),
        ensures
            r@ == (IndexEntryView { mode, hash: hash@, name: name@ }),
    {
        IndexEntry { mode, hash, name }
    }

    /// A copy of this entry.
    pub fn duplicate(&self) -> (r: IndexEntry)
        ensures
            r@ == self@,
    {
        IndexEntry { mode: self.mode, hash: self.hash.clone(), name: self.name.clone() }
    }

    /// Appends this entry's record to `out`.
    fn encode_into(&self, out: &mut Vec<u8>)
        requires
            index_entry_wf(self@),
        ensures
            final(out)@ == old(out)@ + entry_record(self@),
    {
        let ghost start = out@;
        push_zeros(out, 24);
        push_be32(out, self.mode);
        push_zeros(out, 12);
        proof {
            lemma_id_bytes(self.hash@);
            lemma_hex_of_decode(self.hash@);
        }
        let raw = hex_decode(self.hash.as_str().as_bytes());
        if let Some(raw) = raw {
            append_bytes(out, raw.as_slice());
        }
        let name = self.name.as_str().as_bytes();
        let n = name.len();
        out.push(((n % 4096) / 256) as u8);
        out.push((n % 256) as u8);
        append_bytes(out, name);
        out.push(0u8);
        push_zeros(out, (8 - ((n % 8 + 7) % 8)) % 8);
        assert(out@ =~= start + entry_record(self@));
    }
}

impl Index {
    /// An empty staging area.
    pub fn new() -> (r: Index)
        ensures
            r@ == Seq::<IndexEntryView>::empty(),
    {
        let r = Index { entries: Vec::new() };
        assert(r@ =~= Seq::<IndexEntryView>::empty());
        r
    }

    /// Appends an entry; an entry of the same path is not replaced.
    pub fn add_entry(&mut self, entry: IndexEntry)
        ensures
            final(self)@ == old(self)@.push(entry@),
    {
        self.entries.push(entry);
        assert(final(self)@ =~= old(self)@.push(entry@));
    }

    /// Removes every entry of the given path; tells whether there was one.
    pub fn remove_entry(&mut self, name: &str) -> (r: bool)
        ensures
            final(self)@ == without_name(old(self)@, name@),
            r == (final(self)@.len() != old(self)@.len()),
    {
        let ghost orig = self@;
        let mut kept: Vec<IndexEntry> = Vec::new();
        let mut i: usize = 0;
        let n = self.entries.len();
        while i < n
            invariant
                n == self.entries@.len(),
                orig == self@,
                i <= n,
                index_entries_view(kept@) == without_name(orig.subrange(0, i as int), name@),
            decreases n - i,
        {
            let ghost before = index_entries_view(kept@);
            assert(orig.subrange(0, i + 1).drop_last() =~= orig.subrange(0, i as int));
            assert(orig.subrange(0, i + 1).last() == orig[i as int]);
            assert(without_name(orig.subrange(0, i + 1), name@) == if orig[i as int].name != name@ {
                without_name(orig.subrange(0, i as int), name@).push(orig[i as int])
            } else {
                without_name(orig.subrange(0, i as int), name@)
            }) by {
                reveal_with_fuel(Seq::filter, 1);
                let cur = orig.subrange(0, i + 1);
                assert(cur.len() > 0);
                assert(cur.filter(|e: IndexEntryView| e.name != name@) == if orig[i as int].name != name@ {
                    cur.drop_last().filter(|e: IndexEntryView| e.name != name@).push(cur.last())
                } else {
                    cur.drop_last().filter(|e: IndexEntryView| e.name != name@)
                });
            }
            if !str_eq(self.entries[i].name.as_str(), name) {
                kept.push(self.entries[i].duplicate());
                assert(index_entries_view(kept@) =~= before.push(orig[i as int]));
            } else {
                assert(index_entries_view(kept@) =~= before);
            }
            i = i + 1;
        }
        assert(orig.subrange(0, n as int) =~= orig);
        let removed = kept.len() != n;
        self.entries = kept;
        removed
    }

    /// The bytes of the index file for this staging area: header, entry
    /// records, and the SHA-1 of all that as checksum.
    pub fn encode(&self) -> (r: Vec<u8>)
        requires
            index_wf(self@),
        ensures
            r@ == index_body(self@) + sha1_of(index_body(self@)),
            r@.len() == index_body(self@).len() + 20,
    {
        let mut out: Vec<u8> = vec![68u8, 73, 82, 67];
        push_be32(&mut out, 2);
        push_be32(&mut out, self.entries.len() as u32);
        let ghost head = out@;
        let mut i: usize = 0;
        while i < self.entries.len()
            invariant
                i <= self.entries@.len(),
                index_wf(self@),
                out@ == head + entry_records(self@.subrange(0, i as int)),
            decreases self.entries@.len() - i,
        {
            assert(index_entry_wf(self@[i as int]));
            self.entries[i].encode_into(&mut out);
            proof {
                lemma_entry_records_push(self@.subrange(0, i as int), self@[i as int]);
                assert(self@.subrange(0, i as int).push(self@[i as int]) =~= self@.subrange(0, i + 1));
            }
            i = i + 1;
        }
        assert(self@.subrange(0, self@.len() as int) =~= self@);
        assert(out@ =~= index_body(self@));
        let sum = sha1_digest(out.as_slice());
        let ghost body = out@;
        append_bytes(&mut out, sum.as_slice());
        out
    }
}

/// `a` in front of the entries of a parse result, when there is one.
pub open spec fn prepend_entries(
    a: Seq<IndexEntryView>,
    o: Option<(Seq<IndexEntryView>, Seq<u8>)>,
) -> Option<(Seq<IndexEntryView>, Seq<u8>)> {
    match o {
        None => None,
        Some((es, r)) => Some((a + es, r)),
    }
}

fn bad_index(why: &str) -> (r: GitError) {
    GitError::failed_to_read_file(why)
}

impl Index {
    /// Reads the bytes of an index file. Fails on a wrong signature or
    /// version and on a damaged or truncated entry; the checksum is not
    /// verified.
    pub fn parse(b: &[u8]) -> (r: Result<Index, GitError>)
        ensures
            r matches Ok(ix) ==> parse_index(b@) == Some(ix@),
            r is Err <==> parse_index(b@) is None,
    {
        let sig: [u8; 4] = [68u8, 73, 82, 67];
        assert(sig@ =~= signature());
        if b.len() < 12 || !crate::bytes::bytes_at(b, 0, sig.as_slice()) || read_be32(b, 4) != 2 {
            return Err(bad_index("not an index file of version 2"));
        }
        let count = read_be32(b, 8);
        let mut acc: Vec<IndexEntry> = Vec::new();
        let mut pos: usize = 12;
        let mut i: u32 = 0;
        assert(index_entries_view(acc@) =~= Seq::<IndexEntryView>::empty());
        proof {
            if let Some((es, r)) = parse_index_entries(b@.subrange(12, b@.len() as int), count as nat) {
                assert(Seq::<IndexEntryView>::empty() + es =~= es);
            }
        }
        while i < count
            invariant
                12 <= pos <= b@.len(),
                i <= count,
                b@.subrange(0, 4) == signature(),
                be32_val(b@.subrange(4, 8)) == 2,
                count == be32_val(b@.subrange(8, 12)),
                parse_index_entries(b@.subrange(12, b@.len() as int), count as nat) == prepend_entries(
                    index_entries_view(acc@),
                    parse_index_entries(b@.subrange(pos as int, b@.len() as int), (count - i) as nat),
                ),
            decreases count - i,
        {
            let ghost rest = b@.subrange(pos as int, b@.len() as int);
            if b.len() - pos < 62 {
                return Err(bad_index("truncated index entry"));
            }
            let mode = read_be32(b, pos + 24);
            assert(b@.subrange(pos + 24, pos + 28) =~= rest.subrange(24, 28));
            let nul = find_byte(b, pos + 62, 0);
            proof {
                lemma_find_shift(b@, pos as int, 62, 0);
                lemma_find_bounds(b@, pos + 62, 0);
            }
            if nul >= b.len() {
                return Err(bad_index("index entry name without NUL"));
            }
            let n = nul - pos - 62;
            let pad = (8 - ((n % 8 + 7) % 8)) % 8;
            if b.len() - nul - 1 < pad {
                return Err(bad_index("truncated index entry padding"));
            }
            let end = nul + 1 + pad;
            let name_bytes = copy_range(b, pos + 62, nul);
            assert(name_bytes@ =~= rest.subrange(62, nul - pos));
            let name = match utf8_string(name_bytes) {
                Some(s) => s,
                None => {
                    return Err(bad_index("index entry name is not UTF-8"));
                },
            };
            if crate::tree::FileMode::from_value(mode).is_err() {
                return Err(bad_index("index entry with an unknown mode"));
            }
            let raw = copy_range(b, pos + 40, pos + 60);
            assert(raw@ =~= rest.subrange(40, 60));
            let hash = hex_encode(raw.as_slice());
            let entry = IndexEntry { mode, hash, name };
            let ghost old_acc = index_entries_view(acc@);
            acc.push(entry);
            assert(index_entries_view(acc@) =~= old_acc + seq![entry@]);
            assert(b@.subrange(end as int, b@.len() as int) =~= rest.subrange(end - pos, rest.len() as int));
            proof {
                let later = parse_index_entries(b@.subrange(end as int, b@.len() as int), (count - i - 1) as nat);
                if let Some((es, r)) = later {
                    assert(old_acc + (seq![entry@] + es) =~= (old_acc + seq![entry@]) + es);
                }
            }
            pos = end;
            i = i + 1;
        }
        proof {
            let last = parse_index_entries(b@.subrange(pos as int, b@.len() as int), 0);
            assert(last == Some((Seq::<IndexEntryView>::empty(), b@.subrange(pos as int, b@.len() as int))));
            assert(index_entries_view(acc@) + Seq::<IndexEntryView>::empty() =~= index_entries_view(acc@));
        }
        if b.len() - pos < 20 {
            return Err(bad_index("index file without checksum"));
        }
        Ok(Index { entries: acc })
    }
}

/// A well-formed entry record, followed by anything, reads back to its entry.
proof fn lemma_entry_record_parse(e: IndexEntryView, tail: Seq<u8>)
    requires
        index_entry_wf(e),
    ensures
        parse_index_entry(entry_record(e) + tail) == Some((e, tail)),
{
    let name = encode_utf8(e.name);
    let n = name.len() as int;
    let raw = hex_decoded(ascii_bytes(e.hash));
    lemma_hex_of_decode(e.hash);
    lemma_be32(e.mode);
    let x = entry_record(e);
    let b = x + tail;
    assert(x.len() == 62 + n + 1 + pad_len(n));
    assert(b.subrange(24, 28) =~= be32(e.mode));
    assert(b.subrange(40, 60) =~= raw);
    assert forall|k: int| 62 <= k < 62 + n implies b[k] != 0u8 by {
        assert(b[k] == name[k - 62]);
        if b[k] == 0u8 {
            assert(name.contains(0u8));
        }
    }
    assert(b[62 + n] == 0u8);
    lemma_find_at(b, 62, 62 + n, 0u8);
    assert(b.subrange(62, 62 + n) =~= name);
    vstd::utf8::encode_utf8_valid_utf8(e.name);
    vstd::utf8::encode_utf8_decode_utf8(e.name);
    assert(b.subrange(x.len() as int, b.len() as int) =~= tail);
}

proof fn lemma_entry_records_parse(es: Seq<IndexEntryView>, tail: Seq<u8>)
    requires
        forall|i: int| 0 <= i < es.len() ==> index_entry_wf(#[trigger] es[i]),
    ensures
        parse_index_entries(entry_records(es) + tail, es.len()) == Some((es, tail)),
    decreases es.len(),
{
    if es.len() == 0 {
        assert(entry_records(es) + tail =~= tail);
    } else {
        let rest = es.drop_first();
        assert forall|i: int| 0 <= i < rest.len() implies index_entry_wf(#[trigger] rest[i]) by {
            assert(rest[i] == es[i + 1]);
        }
        assert(index_entry_wf(es[0]));
        lemma_entry_records_parse(rest, tail);
        let t2 = entry_records(rest) + tail;
        lemma_entry_record_parse(es[0], t2);
        assert(entry_records(es) + tail =~= entry_record(es[0]) + t2);
        assert(seq![es[0]] + rest =~= es);
    }
}

/// Reading back the bytes written for a well-formed index, with any 20-byte
/// checksum after them, gives the same entries in the same order.
pub proof fn lemma_index_round_trip(es: Seq<IndexEntryView>, checksum: Seq<u8>)
    requires
        index_wf(es),
        checksum.len() == 20,
    ensures
        parse_index(index_body(es) + checksum) == Some(es),
{
    let b = index_body(es) + checksum;
    lemma_be32(2);
    lemma_be32(es.len() as u32);
    assert(b.subrange(0, 4) =~= signature());
    assert(b.subrange(4, 8) =~= be32(2));
    assert(b.subrange(8, 12) =~= be32(es.len() as u32));
    assert(b.subrange(12, b.len() as int) =~= entry_records(es) + checksum);
    lemma_entry_records_parse(es, checksum);
}

/// Entries in ascending byte order of their names.
pub open spec fn sorted_by_name(es: Seq<IndexEntryView>) -> bool {
    forall|a: int, b: int|
        0 <= a < b < es.len() ==> crate::bytes::bytes_le(encode_utf8(#[trigger] es[a].name), encode_utf8(#[trigger] es[b].name))
}

impl Index {
    /// Puts the entries in ascending byte order of their names, the order
    /// in which paths are staged; the entries themselves are unchanged.
    pub fn sort_by_name(&mut self)
        ensures
            sorted_by_name(final(self)@),
            final(self)@.to_multiset() == old(self)@.to_multiset(),
    {
        let ghost orig = self@;
        let n = self.entries.len();
        let mut input: Vec<IndexEntry> = Vec::new();
        std::mem::swap(&mut input, &mut self.entries);
        let mut out: Vec<IndexEntry> = Vec::new();
        let mut i: usize = 0;
        assert(index_entries_view(out@) =~= Seq::<IndexEntryView>::empty());
        assert(orig.subrange(0, 0) =~= Seq::<IndexEntryView>::empty());
        while i < input.len()
            invariant
                i <= input@.len(),
                orig == index_entries_view(input@),
                sorted_by_name(index_entries_view(out@)),
                index_entries_view(out@).to_multiset() == orig.subrange(0, i as int).to_multiset(),
            decreases input@.len() - i,
        {
            let x = input[i].duplicate();
            let xn = x.name.as_str().as_bytes();
            let ghost ov = index_entries_view(out@);
            let mut p: usize = 0;
            while p < out.len() && le_name(&out[p], xn)
                invariant
                    p <= out@.len(),
                    ov == index_entries_view(out@),
                    xn@ == encode_utf8(x@.name),
                    forall|q: int| 0 <= q < p ==> crate::bytes::bytes_le(encode_utf8(#[trigger] ov[q].name), xn@),
                decreases out@.len() - p,
            {
                p = p + 1;
            }
            proof {
                if p < ov.len() {
                    crate::bytes::lemma_bytes_le_total(encode_utf8(ov[p as int].name), xn@);
                }
            }
            let ghost xv = x@;
            out.insert(p, x);
            let ghost nv = index_entries_view(out@);
            assert(nv =~= ov.insert(p as int, xv));
            proof {
                assert forall|a: int, b: int| 0 <= a < b < nv.len() implies crate::bytes::bytes_le(
                    encode_utf8(#[trigger] nv[a].name),
                    encode_utf8(#[trigger] nv[b].name),
                ) by {
                    if b < p {
                        assert(nv[a] == ov[a] && nv[b] == ov[b]);
                    } else if b == p {
                        assert(nv[a] == ov[a]);
                    } else if a == p {
                        assert(nv[b] == ov[b - 1]);
                        if b - 1 > p {
                            crate::bytes::lemma_bytes_le_trans(xn@, encode_utf8(ov[p as int].name), encode_utf8(ov[b - 1].name));
                        }
                    } else if a < p {
                        assert(nv[a] == ov[a] && nv[b] == ov[b - 1]);
                    } else {
                        assert(nv[a] == ov[a - 1] && nv[b] == ov[b - 1]);
                    }
                }
                vstd::seq_lib::to_multiset_insert(ov, p as int, xv);
                vstd::seq_lib::to_multiset_build(orig.subrange(0, i as int), orig[i as int]);
                assert(orig.subrange(0, i + 1) =~= orig.subrange(0, i as int).push(orig[i as int]));
            }
            i = i + 1;
        }
        assert(orig.subrange(0, n as int) =~= orig);
        self.entries = out;
    }
}

fn le_name(e: &IndexEntry, name: &[u8]) -> (r: bool)
    ensures
        r == crate::bytes::bytes_le(encode_utf8(e@.name), name@),
{
    crate::bytes::le_bytes(e.name.as_str().as_bytes(), name)
}

} // verus!
