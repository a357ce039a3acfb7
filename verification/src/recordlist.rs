//! Record lists: storing and retrieving file offsets by key.
//!
//! A record list is a contiguous byte buffer holding a sequence of records,
//! each a file offset, a one-byte key length, and the key bytes themselves.
//! On disk the buffer is preceded by 4 bytes naming the bucket it belongs to;
//! the list itself does not care about them and skips them on construction.

use vstd::bytes::spec_u64_from_le_bytes;
use vstd::bytes::spec_u64_to_le_bytes;
use vstd::bytes::lemma_auto_spec_u64_to_from_le_bytes;
use vstd::bytes::u64_to_le_bytes;
use vstd::bytes::u64_from_le_bytes;
use vstd::prelude::*;
use vstd::slice::slice_subrange;

use crate::error::Error;

verus! {

/// In how many bytes the bucket prefix is stored.
pub const BUCKET_PREFIX_SIZE: usize = 4;

/// Byte size of the file offset.
pub const FILE_OFFSET_BYTES: usize = 8;

/// The key is preceded by a one-byte length.
pub const KEY_SIZE_BYTE: usize = 1;

/// The encoding of one record: 8 offset bytes little-endian, one key length
/// byte, then the key itself.
pub open spec fn encode_rec(key: Seq<u8>, off: u64) -> Seq<u8> {
    spec_u64_to_le_bytes(off) + seq![key.len() as u8] + key
}

/// The encoding of a whole sequence of records, in order.
pub open spec fn encode_recs(rl: Seq<(Seq<u8>, u64)>) -> Seq<u8>
    decreases rl.len(),
{
    if rl.len() == 0 {
        Seq::empty()
    } else {
        encode_rec(rl[0].0, rl[0].1) + encode_recs(rl.drop_first())
    }
}

/// Decode a buffer into its records, or `None` when the bytes do not consist
/// of whole records.
pub open spec fn parse_recs(data: Seq<u8>) -> Option<Seq<(Seq<u8>, u64)>>
    decreases data.len(),
{
    if data.len() == 0 {
        Some(Seq::empty())
    } else if data.len() < 9 {
        None
    } else {
        let klen = data[8] as int;
        if data.len() < 9 + klen {
            None
        } else {
            match parse_recs(data.subrange(9 + klen, data.len() as int)) {
                Some(rest) => Some(
                    seq![
                        (
                            data.subrange(9, 9 + klen),
                            spec_u64_from_le_bytes(data.subrange(0, 8)),
                        ),
                    ] + rest,
                ),
                None => None,
            }
        }
    }
}

/// The bytes parse as whole records.
pub open spec fn rl_wf(data: Seq<u8>) -> bool {
    parse_recs(data) is Some
}

/// The records a well-formed buffer holds.
pub open spec fn rl_records(data: Seq<u8>) -> Seq<(Seq<u8>, u64)> {
    parse_recs(data).unwrap()
}

/// Strict lexicographic order over byte strings.
pub open spec fn lex_lt(a: Seq<u8>, b: Seq<u8>) -> bool
    decreases a.len(),
{
    if b.len() == 0 {
        false
    } else if a.len() == 0 {
        true
    } else if a[0] < b[0] {
        true
    } else if a[0] > b[0] {
        false
    } else {
        lex_lt(a.drop_first(), b.drop_first())
    }
}

/// `p` is a prefix of `k`.
pub open spec fn is_key_prefix(p: Seq<u8>, k: Seq<u8>) -> bool {
    p.len() <= k.len() && p == k.subrange(0, p.len() as int)
}

/// Record keys are strictly ascending.
pub open spec fn rl_sorted(rl: Seq<(Seq<u8>, u64)>) -> bool {
    forall|i: int, j: int| 0 <= i < j < rl.len() ==> lex_lt(#[trigger] rl[i].0, #[trigger] rl[j].0)
}

/// The offset of the last record whose key is a prefix of `k`.
pub open spec fn rl_get_spec(rl: Seq<(Seq<u8>, u64)>, k: Seq<u8>) -> Option<u64>
    decreases rl.len(),
{
    if rl.len() == 0 {
        None
    } else if is_key_prefix(rl.last().0, k) {
        Some(rl.last().1)
    } else {
        rl_get_spec(rl.drop_last(), k)
    }
}

/// The index of the first record whose key is strictly greater than `k`,
/// or the record count when there is none: where `k` would be inserted.
pub open spec fn find_idx(rl: Seq<(Seq<u8>, u64)>, k: Seq<u8>) -> int
    decreases rl.len(),
{
    if rl.len() == 0 {
        0
    } else if lex_lt(k, rl[0].0) {
        0
    } else {
        1 + find_idx(rl.drop_first(), k)
    }
}

/// The byte position where record `i` starts inside the encoded buffer.
pub open spec fn byte_pos(rl: Seq<(Seq<u8>, u64)>, i: int) -> int {
    encode_recs(rl.take(i)).len() as int
}

pub proof fn lemma_encode_rec(key: Seq<u8>, off: u64)
    ensures
        encode_rec(key, off).len() == 9 + key.len(),
        encode_rec(key, off).subrange(0, 8) == spec_u64_to_le_bytes(off),
        encode_rec(key, off)[8] == key.len() as u8,
        encode_rec(key, off).subrange(9, 9 + key.len() as int) == key,
{
    lemma_auto_spec_u64_to_from_le_bytes();
    let e = encode_rec(key, off);
    assert(e.subrange(0, 8) =~= spec_u64_to_le_bytes(off));
    assert(e.subrange(9, 9 + key.len() as int) =~= key);
}

pub proof fn lemma_encode_recs_push(rl: Seq<(Seq<u8>, u64)>, key: Seq<u8>, off: u64)
    ensures
        encode_recs(rl.push((key, off))) == encode_recs(rl) + encode_rec(key, off),
    decreases rl.len(),
{
    if rl.len() == 0 {
        let p = rl.push((key, off));
        assert(p[0] == (key, off));
        assert(p.drop_first() =~= Seq::<(Seq<u8>, u64)>::empty());
        assert(encode_recs(p.drop_first()) == Seq::<u8>::empty());
        assert(encode_recs(p) =~= encode_recs(rl) + encode_rec(key, off));
    } else {
        let p = rl.push((key, off));
        assert(p.drop_first() =~= rl.drop_first().push((key, off)));
        lemma_encode_recs_push(rl.drop_first(), key, off);
        assert(encode_recs(p) =~= encode_recs(rl) + encode_rec(key, off));
    }
}

pub proof fn lemma_encode_recs_concat(a: Seq<(Seq<u8>, u64)>, b: Seq<(Seq<u8>, u64)>)
    ensures
        encode_recs(a + b) == encode_recs(a) + encode_recs(b),
    decreases a.len(),
{
    if a.len() == 0 {
        assert(a + b =~= b);
        assert(encode_recs(a + b) =~= encode_recs(a) + encode_recs(b));
    } else {
        assert((a + b).drop_first() =~= a.drop_first() + b);
        lemma_encode_recs_concat(a.drop_first(), b);
        assert(encode_recs(a + b) =~= encode_recs(a) + encode_recs(b));
    }
}

/// Encoding then parsing gives the records back, provided every key fits its
/// one-byte length.
pub proof fn lemma_parse_encode_recs(rl: Seq<(Seq<u8>, u64)>)
    requires
        forall|i: int| 0 <= i < rl.len() ==> (#[trigger] rl[i].0).len() <= 255,
    ensures
        parse_recs(encode_recs(rl)) == Some(rl),
    decreases rl.len(),
{
    lemma_auto_spec_u64_to_from_le_bytes();
    if rl.len() == 0 {
    } else {
        let key = rl[0].0;
        let off = rl[0].1;
        let data = encode_recs(rl);
        lemma_encode_rec(key, off);
        let e = encode_rec(key, off);
        let tail = encode_recs(rl.drop_first());
        assert(data == e + tail);
        assert(data.len() >= 9 + key.len());
        assert(data[8] == key.len() as u8);
        let klen = data[8] as int;
        assert(klen == key.len());
        assert(data.subrange(9 + klen, data.len() as int) =~= tail);
        lemma_parse_encode_recs(rl.drop_first());
        assert(data.subrange(0, 8) =~= e.subrange(0, 8));
        assert(data.subrange(9, 9 + klen) =~= e.subrange(9, 9 + klen));
        assert(spec_u64_from_le_bytes(data.subrange(0, 8)) == off);
        assert(parse_recs(data).unwrap() =~= rl);
    }
}

/// Parsing then encoding gives the bytes back; every parsed key fits its
/// one-byte length.
pub proof fn lemma_encode_parse_recs(data: Seq<u8>)
    requires
        rl_wf(data),
    ensures
        encode_recs(rl_records(data)) == data,
        forall|i: int|
            0 <= i < rl_records(data).len() ==> (#[trigger] rl_records(data)[i].0).len() <= 255,
    decreases data.len(),
{
    lemma_auto_spec_u64_to_from_le_bytes();
    if data.len() == 0 {
        assert(encode_recs(rl_records(data)) =~= data);
    } else {
        let klen = data[8] as int;
        let tail = data.subrange(9 + klen, data.len() as int);
        lemma_encode_parse_recs(tail);
        let rl = rl_records(data);
        let key = data.subrange(9, 9 + klen);
        let off = spec_u64_from_le_bytes(data.subrange(0, 8));
        lemma_encode_rec(key, off);
        assert(rl.drop_first() =~= rl_records(tail));
        assert(encode_rec(key, off) =~= data.subrange(0, 9 + klen)) by {
            assert(spec_u64_to_le_bytes(off) == data.subrange(0, 8));
        }
        assert(encode_recs(rl) =~= data);
    }
}

/// The suffix of a well-formed buffer from any record boundary is itself
/// well-formed and holds the remaining records.
pub proof fn lemma_parse_suffix(data: Seq<u8>, i: int)
    requires
        rl_wf(data),
        0 <= i <= rl_records(data).len(),
    ensures
        0 <= byte_pos(rl_records(data), i) <= data.len(),
        parse_recs(data.subrange(byte_pos(rl_records(data), i), data.len() as int)) == Some(
            rl_records(data).skip(i),
        ),
    decreases i,
{
    let rl = rl_records(data);
    if i == 0 {
        assert(rl.take(0) =~= Seq::empty());
        assert(data.subrange(0, data.len() as int) =~= data);
        assert(rl.skip(0) =~= rl);
    } else {
        lemma_parse_suffix(data, i - 1);
        let p = byte_pos(rl, i - 1);
        let suffix = data.subrange(p, data.len() as int);
        // suffix parses to rl.skip(i - 1), whose first record is rl[i - 1]
        let srl = rl.skip(i - 1);
        assert(srl.len() > 0);
        assert(srl[0] == rl[i - 1]);
        lemma_encode_parse_recs(suffix);
        let klen = suffix[8] as int;
        assert(parse_recs(suffix).unwrap() == srl);
        // from the parse definition, klen is the first record's key length
        assert(klen == srl[0].0.len());
        // byte_pos advances by the size of record i - 1
        assert(rl.take(i) =~= rl.take(i - 1).push(rl[i - 1]));
        lemma_encode_recs_push(rl.take(i - 1), rl[i - 1].0, rl[i - 1].1);
        lemma_encode_rec(rl[i - 1].0, rl[i - 1].1);
        assert(byte_pos(rl, i) == p + 9 + klen);
        assert(p + 9 + klen <= data.len());
        assert(data.subrange(byte_pos(rl, i), data.len() as int) =~= suffix.subrange(
            9 + klen,
            suffix.len() as int,
        ));
        assert(rl.skip(i) =~= srl.drop_first());
        assert(srl.drop_first() =~= parse_recs(suffix.subrange(9 + klen, suffix.len() as int)).unwrap());
    }
}

/// Everything the scanning loops need about the record that starts at
/// `byte_pos(rl, i)`.
pub proof fn lemma_record_at(data: Seq<u8>, i: int)
    requires
        rl_wf(data),
        0 <= i < rl_records(data).len(),
    ensures
        ({
            let rl = rl_records(data);
            let bp = byte_pos(rl, i);
            &&& 0 <= bp
            &&& bp + 9 + rl[i].0.len() == byte_pos(rl, i + 1)
            &&& byte_pos(rl, i + 1) <= data.len()
            &&& rl[i].0.len() <= 255
            &&& data[bp + 8] == rl[i].0.len() as u8
            &&& data.subrange(bp + 9, bp + 9 + rl[i].0.len() as int) == rl[i].0
            &&& spec_u64_from_le_bytes(data.subrange(bp, bp + 8)) == rl[i].1
        }),
{
    let rl = rl_records(data);
    let bp = byte_pos(rl, i);
    lemma_parse_suffix(data, i);
    lemma_parse_suffix(data, i + 1);
    let suffix = data.subrange(bp, data.len() as int);
    let srl = rl.skip(i);
    assert(srl[0] == rl[i]);
    lemma_encode_parse_recs(suffix);
    let klen = suffix[8] as int;
    assert(klen == rl[i].0.len());
    assert(rl.take(i + 1) =~= rl.take(i).push(rl[i]));
    lemma_encode_recs_push(rl.take(i), rl[i].0, rl[i].1);
    lemma_encode_rec(rl[i].0, rl[i].1);
    assert(byte_pos(rl, i + 1) == bp + 9 + klen);
    assert(data[bp + 8] == suffix[8]);
    assert(data.subrange(bp + 9, bp + 9 + klen) =~= suffix.subrange(9, 9 + klen));
    assert(suffix.subrange(9, 9 + klen) == rl[i].0);
    assert(data.subrange(bp, bp + 8) =~= suffix.subrange(0, 8));
    assert(spec_u64_from_le_bytes(suffix.subrange(0, 8)) == rl[i].1);
}

pub proof fn lemma_byte_pos_mono(data: Seq<u8>, i: int, j: int)
    requires
        rl_wf(data),
        0 <= i <= j <= rl_records(data).len(),
    ensures
        byte_pos(rl_records(data), i) <= byte_pos(rl_records(data), j) <= data.len(),
        i < j ==> byte_pos(rl_records(data), i) + 9 <= byte_pos(rl_records(data), j),
    decreases j - i,
{
    lemma_parse_suffix(data, j);
    if i < j {
        lemma_record_at(data, j - 1);
        lemma_byte_pos_mono(data, i, j - 1);
    }
}

/// The whole buffer is exactly its records, so the final byte position is the
/// buffer length.
pub proof fn lemma_byte_pos_full(data: Seq<u8>)
    requires
        rl_wf(data),
    ensures
        byte_pos(rl_records(data), rl_records(data).len() as int) == data.len(),
{
    let rl = rl_records(data);
    assert(rl.take(rl.len() as int) =~= rl);
    lemma_encode_parse_recs(data);
}

/// Where `find_idx` points: every record before it is at most `k`, and the
/// record at it (if any) is strictly greater.
pub proof fn lemma_find_idx(rl: Seq<(Seq<u8>, u64)>, k: Seq<u8>)
    ensures
        0 <= find_idx(rl, k) <= rl.len(),
        forall|j: int| 0 <= j < find_idx(rl, k) ==> !lex_lt(k, #[trigger] rl[j].0),
        find_idx(rl, k) < rl.len() ==> lex_lt(k, rl[find_idx(rl, k)].0),
    decreases rl.len(),
{
    if rl.len() == 0 {
    } else if lex_lt(k, rl[0].0) {
    } else {
        lemma_find_idx(rl.drop_first(), k);
        assert forall|j: int| 0 <= j < find_idx(rl, k) implies !lex_lt(k, #[trigger] rl[j].0) by {
            if j > 0 {
                assert(rl.drop_first()[j - 1] == rl[j]);
            }
        }
        if find_idx(rl, k) < rl.len() {
            assert(rl.drop_first()[find_idx(rl, k) - 1] == rl[find_idx(rl, k)]);
        }
    }
}

/// A prefix of `k` is never strictly greater than `k`.
pub proof fn lemma_prefix_not_gt(p: Seq<u8>, k: Seq<u8>)
    requires
        is_key_prefix(p, k),
    ensures
        !lex_lt(k, p),
    decreases p.len(),
{
    if p.len() == 0 {
    } else {
        assert(p[0] == k[0]);
        assert(is_key_prefix(p.drop_first(), k.drop_first())) by {
            assert(p.drop_first() =~= k.drop_first().subrange(0, p.len() - 1));
        }
        lemma_prefix_not_gt(p.drop_first(), k.drop_first());
    }
}

pub proof fn lemma_lex_lt_trans(a: Seq<u8>, b: Seq<u8>, c: Seq<u8>)
    requires
        lex_lt(a, b),
        lex_lt(b, c),
    ensures
        lex_lt(a, c),
    decreases a.len(),
{
    if b.len() == 0 {
    } else if a.len() == 0 {
    } else if c.len() == 0 {
    } else {
        if a[0] == b[0] && b[0] == c[0] {
            lemma_lex_lt_trans(a.drop_first(), b.drop_first(), c.drop_first());
        }
    }
}

/// Ignoring records that are not prefixes of `k` does not change the answer.
pub proof fn lemma_rl_get_frozen(rl: Seq<(Seq<u8>, u64)>, k: Seq<u8>, m: int)
    requires
        0 <= m <= rl.len(),
        forall|j: int| m <= j < rl.len() ==> !is_key_prefix(#[trigger] rl[j].0, k),
    ensures
        rl_get_spec(rl, k) == rl_get_spec(rl.take(m), k),
    decreases rl.len() - m,
{
    if m == rl.len() {
        assert(rl.take(m) =~= rl);
    } else {
        lemma_rl_get_frozen(rl, k, m + 1);
        let t = rl.take(m + 1);
        assert(t.last() == rl[m]);
        assert(!is_key_prefix(t.last().0, k));
        assert(t.drop_last() =~= rl.take(m));
    }
}

/// Extending the scanned region by one record updates the answer exactly when
/// the new record's key is a prefix of `k`.
pub proof fn lemma_rl_get_step(rl: Seq<(Seq<u8>, u64)>, k: Seq<u8>, i: int)
    requires
        0 <= i < rl.len(),
    ensures
        rl_get_spec(rl.take(i + 1), k) == if is_key_prefix(rl[i].0, k) {
            Some(rl[i].1)
        } else {
            rl_get_spec(rl.take(i), k)
        },
{
    let t = rl.take(i + 1);
    assert(t.last() == rl[i]);
    assert(t.drop_last() =~= rl.take(i));
}

/// A lookup misses exactly when no stored prefix is compatible with the
/// key: `rl_get_spec` answers `None` if and only if no record's key is a
/// prefix of the one asked for.
pub proof fn lemma_get_none_without_prefix(rl: Seq<(Seq<u8>, u64)>, k: Seq<u8>)
    ensures
        (rl_get_spec(rl, k) is None) <==> (forall|j: int|
            0 <= j < rl.len() ==> !is_key_prefix(#[trigger] rl[j].0, k)),
    decreases rl.len(),
{
    if rl.len() == 0 {
    } else if is_key_prefix(rl.last().0, k) {
    } else {
        lemma_get_none_without_prefix(rl.drop_last(), k);
        assert(forall|j: int| 0 <= j < rl.len() - 1 ==> rl[j] == #[trigger] rl.drop_last()[j]);
        if rl_get_spec(rl, k) is None {
            assert forall|j: int| 0 <= j < rl.len() implies !is_key_prefix(
                #[trigger] rl[j].0,
                k,
            ) by {
                if j < rl.len() - 1 {
                    assert(rl.drop_last()[j] == rl[j]);
                }
            }
        }
    }
}

/// A prefix of a prefix is a prefix.
pub proof fn lemma_prefix_trans(a: Seq<u8>, b: Seq<u8>, c: Seq<u8>)
    requires
        is_key_prefix(a, b),
        is_key_prefix(b, c),
    ensures
        is_key_prefix(a, c),
{
    assert(a =~= c.subrange(0, a.len() as int));
}

/// A single record, decoded out of a record list.
#[derive(Debug, PartialEq)]
pub struct Record {
    /// The byte position of the record inside the list.
    pub pos: usize,
    /// The stored key prefix.
    pub key: Vec<u8>,
    /// The file offset where the full key and its value actually live.
    pub file_offset: u64,
}

/// A byte buffer holding zero or more records.
pub struct RecordList {
    data: Vec<u8>,
}

impl View for RecordList {
    type V = Seq<u8>;

    closed spec fn view(&self) -> Seq<u8> {
        self.data@
    }
}

impl RecordList {
    /// The bytes parse as whole records.
    pub open spec fn wf(&self) -> bool {
        rl_wf(self@)
    }

    /// The records this list holds.
    pub open spec fn records(&self) -> Seq<(Seq<u8>, u64)> {
        rl_records(self@)
    }

    /// Wrap a buffer. The first 4 bytes are the bucket prefix, which the
    /// record list itself does not care about; they are skipped.
    pub fn new(data: &[u8]) -> (r: Self)
        requires
            data@.len() >= BUCKET_PREFIX_SIZE,
        ensures
            r@ == data@.subrange(BUCKET_PREFIX_SIZE as int, data@.len() as int),
    {
        let body = slice_subrange(data, BUCKET_PREFIX_SIZE, data.len());
        let mut own: Vec<u8> = Vec::new();
        let mut i: usize = 0;
        while i < body.len()
            invariant
                i <= body@.len(),
                own@ == body@.subrange(0, i as int),
            decreases body@.len() - i,
        {
            own.push(body[i]);
            proof {
                assert(own@ =~= body@.subrange(0, i + 1));
            }
            i = i + 1;
        }
        proof {
            assert(own@ =~= body@);
        }
        RecordList { data: own }
    }

    /// The length in bytes of the record list.
    pub fn len(&self) -> (r: usize)
        ensures
            r == self@.len(),
    {
        self.data.len()
    }

    /// Reads the record that starts at byte position `pos`.
    pub fn read_record(&self, pos: usize) -> (r: Record)
        requires
            pos + 9 <= self@.len(),
            pos + 9 + self@[pos + 8] <= self@.len(),
        ensures
            r.pos == pos,
            r.file_offset == spec_u64_from_le_bytes(self@.subrange(pos as int, pos + 8)),
            r.key@ == self@.subrange(pos + 9, pos + 9 + self@[pos + 8]),
    {
        let n = self.data.len();
        proof {
            assert(pos + 9 <= n);
        }
        let off_bytes = slice_subrange(self.data.as_slice(), pos, pos + 8);
        let file_offset = u64_from_le_bytes(off_bytes);
        let size = self.data[pos + 8] as usize;
        proof {
            assert(pos + 9 + size <= n);
        }
        let key_slice = slice_subrange(self.data.as_slice(), pos + 9, pos + 9 + size);
        let mut key: Vec<u8> = Vec::new();
        let mut i: usize = 0;
        while i < key_slice.len()
            invariant
                i <= key_slice@.len(),
                key@ == key_slice@.subrange(0, i as int),
            decreases key_slice@.len() - i,
        {
            key.push(key_slice[i]);
            proof {
                assert(key@ =~= key_slice@.subrange(0, i + 1));
            }
            i = i + 1;
        }
        proof {
            assert(key@ =~= key_slice@);
        }
        Record { pos, key, file_offset }
    }

    /// Finds the position where `key` would be inserted: the byte position of
    /// the first record whose key is strictly greater, together with the
    /// record just before that position, if any.
    pub fn find_key_position(&self, key: &[u8]) -> (r: (usize, Option<Record>))
        requires
            self.wf(),
        ensures
            ({
                let rl = self.records();
                let i = find_idx(rl, key@);
                &&& r.0 == byte_pos(rl, i)
                &&& i == 0 ==> r.1 is None
                &&& i > 0 ==> (r.1 matches Some(prev) && prev.pos == byte_pos(rl, i - 1)
                    && prev.key@ == rl[i - 1].0 && prev.file_offset == rl[i - 1].1)
            }),
    {
        let ghost rl = self.records();
        proof {
            lemma_find_idx(rl, key@);
            lemma_byte_pos_full(self@);
        }
        let mut pos: usize = 0;
        let ghost mut idx: int = 0;
        let mut prev_record: Option<Record> = None;
        loop
            invariant
                self.wf(),
                rl == self.records(),
                0 <= idx <= rl.len(),
                pos == byte_pos(rl, idx),
                idx <= find_idx(rl, key@),
                forall|j: int| 0 <= j < idx ==> !lex_lt(key@, #[trigger] rl[j].0),
                idx == 0 ==> prev_record is None,
                idx > 0 ==> (prev_record matches Some(prev) && prev.pos == byte_pos(rl, idx - 1)
                    && prev.key@ == rl[idx - 1].0 && prev.file_offset == rl[idx - 1].1),
            decreases self@.len() - pos,
        {
            proof {
                lemma_byte_pos_mono(self@, idx, rl.len() as int);
                lemma_byte_pos_full(self@);
            }
            if pos >= self.data.len() {
                proof {
                    // all records were scanned, so the insertion point is the end
                    if idx < rl.len() {
                        lemma_byte_pos_mono(self@, idx + 1, rl.len() as int);
                        lemma_record_at(self@, idx);
                        assert(false);
                    }
                    lemma_find_idx(rl, key@);
                    assert(find_idx(rl, key@) == idx);
                }
                return (pos, prev_record);
            }
            proof {
                if idx == rl.len() {
                    lemma_byte_pos_full(self@);
                    assert(false);
                }
                lemma_record_at(self@, idx);
            }
            let record = self.read_record(pos);
            if bytes_lt(key, record.key.as_slice()) {
                proof {
                    assert(lex_lt(key@, rl[idx].0));
                    assert(find_idx(rl, key@) <= idx) by {
                        lemma_find_idx(rl, key@);
                        if find_idx(rl, key@) > idx {
                            assert(!lex_lt(key@, rl[idx].0));
                        }
                    }
                    assert(find_idx(rl, key@) == idx);
                }
                return (pos, prev_record);
            }
            let ghost not_greater = !lex_lt(key@, rl[idx].0);
            let klen = record.key.len();
            prev_record = Some(record);
            pos = pos + 9 + klen;
            proof {
                assert(not_greater);
                idx = idx + 1;
                lemma_find_idx(rl, key@);
                if find_idx(rl, key@) < idx {
                    // the record before the new index is not greater than the
                    // key, so the insertion point cannot lie before it
                    assert(lex_lt(key@, rl[find_idx(rl, key@)].0));
                    assert(!lex_lt(key@, rl[find_idx(rl, key@)].0));
                }
            }
        }
    }

    /// Get the primary-storage file offset stored for `key`.
    ///
    /// The index stores only prefixes, so the offset of the last record whose
    /// key is a prefix of `key` is returned; the caller must confirm the full
    /// key against the primary storage.
    pub fn get(&self, key: &[u8]) -> (r: Option<u64>)
        requires
            self.wf(),
        ensures
            rl_sorted(self.records()) ==> r == rl_get_spec(self.records(), key@),
            r matches Some(off) ==> exists|j: int|
                0 <= j < self.records().len() && is_key_prefix(
                    #[trigger] self.records()[j].0,
                    key@,
                ) && off == self.records()[j].1,
    {
        let ghost rl = self.records();
        let mut pos: usize = 0;
        let ghost mut idx: int = 0;
        let mut might_match: Option<u64> = None;
        let ghost mut witness: int = 0;
        loop
            invariant
                self.wf(),
                rl == self.records(),
                0 <= idx <= rl.len(),
                pos == byte_pos(rl, idx),
                might_match == rl_get_spec(rl.take(idx), k_view(key)),
                might_match matches Some(off) ==> 0 <= witness < idx && is_key_prefix(
                    rl[witness].0,
                    k_view(key),
                ) && off == rl[witness].1,
            decreases self@.len() - pos,
        {
            proof {
                lemma_byte_pos_full(self@);
            }
            if pos >= self.data.len() {
                proof {
                    if idx < rl.len() {
                        lemma_byte_pos_mono(self@, idx + 1, rl.len() as int);
                        lemma_record_at(self@, idx);
                        assert(false);
                    }
                    assert(rl.take(idx) =~= rl);
                }
                return might_match;
            }
            proof {
                if idx == rl.len() {
                    assert(false);
                }
                lemma_record_at(self@, idx);
            }
            let record = self.read_record(pos);
            let is_pref = starts_with(key, record.key.as_slice());
            proof {
                lemma_rl_get_step(rl, k_view(key), idx);
            }
            if is_pref {
                might_match = Some(record.file_offset);
                proof {
                    witness = idx;
                }
            } else if bytes_lt(key, record.key.as_slice()) {
                proof {
                    // every further record is even larger, and a prefix of key
                    // can never be strictly greater than key
                    if rl_sorted(rl) {
                        assert forall|j: int| idx <= j < rl.len() implies !is_key_prefix(
                            #[trigger] rl[j].0,
                            k_view(key),
                        ) by {
                            if is_key_prefix(rl[j].0, k_view(key)) {
                                if j > idx {
                                    assert(lex_lt(rl[idx].0, rl[j].0));
                                    lemma_lex_lt_trans(k_view(key), rl[idx].0, rl[j].0);
                                }
                                lemma_prefix_not_gt(rl[j].0, k_view(key));
                            }
                        }
                        lemma_rl_get_frozen(rl, k_view(key), idx);
                    }
                }
                return might_match;
            }
            let klen = record.key.len();
            pos = pos + 9 + klen;
            proof {
                idx = idx + 1;
            }
        }
    }

    /// Replace the byte range `[start, end)` with the encoding of `keys` and
    /// return the new buffer.
    ///
    /// An empty range inserts; a non-empty one also overwrites existing
    /// records, which is how a too-short previous key is replaced when a new
    /// key fully contains it.
    pub fn put_keys(&self, keys: &Vec<(Vec<u8>, u64)>, start: usize, end: usize) -> (r: Vec<u8>)
        requires
            start <= end <= self@.len(),
            forall|i: int| 0 <= i < keys@.len() ==> (#[trigger] keys@[i]).0@.len() <= 255,
        ensures
            r@ == self@.subrange(0, start as int) + encode_recs(keys_view(keys@)) + self@.subrange(
                end as int,
                self@.len() as int,
            ),
    {
        let mut result: Vec<u8> = Vec::new();
        let mut i: usize = 0;
        while i < start
            invariant
                i <= start <= self@.len(),
                result@ == self@.subrange(0, i as int),
            decreases start - i,
        {
            result.push(self.data[i]);
            proof {
                assert(result@ =~= self@.subrange(0, i + 1));
            }
            i = i + 1;
        }
        let mut j: usize = 0;
        while j < keys.len()
            invariant
                j <= keys@.len(),
                forall|m: int| 0 <= m < keys@.len() ==> (#[trigger] keys@[m]).0@.len() <= 255,
                result@ == self@.subrange(0, start as int) + encode_recs(
                    keys_view(keys@.take(j as int)),
                ),
                start <= end <= self@.len(),
            decreases keys@.len() - j,
        {
            let pair = &keys[j];
            extend_with_offset_and_key(&mut result, pair.0.as_slice(), pair.1);
            proof {
                assert(keys_view(keys@.take(j + 1)) =~= keys_view(keys@.take(j as int)).push(
                    (keys@[j as int].0@, keys@[j as int].1),
                ));
                lemma_encode_recs_push(
                    keys_view(keys@.take(j as int)),
                    keys@[j as int].0@,
                    keys@[j as int].1,
                );
                assert(result@ =~= self@.subrange(0, start as int) + encode_recs(
                    keys_view(keys@.take(j + 1)),
                ));
            }
            j = j + 1;
        }
        proof {
            assert(keys@.take(keys@.len() as int) =~= keys@);
        }
        let mut m: usize = end;
        while m < self.data.len()
            invariant
                end <= m <= self@.len(),
                result@ == self@.subrange(0, start as int) + encode_recs(keys_view(keys@))
                    + self@.subrange(end as int, m as int),
                start <= end,
            decreases self@.len() - m,
        {
            result.push(self.data[m]);
            proof {
                assert(result@ =~= self@.subrange(0, start as int) + encode_recs(keys_view(keys@))
                    + self@.subrange(end as int, m + 1));
            }
            m = m + 1;
        }
        result
    }

    /// Iterate over the records in stored order.
    pub fn into_iter(&self) -> (r: RecordListIter)
        requires
            self.wf(),
        ensures
            r.data() == self@,
            r.index() == 0,
            r.wf(),
    {
        let mut own: Vec<u8> = Vec::new();
        let mut i: usize = 0;
        while i < self.data.len()
            invariant
                i <= self@.len(),
                own@ == self@.subrange(0, i as int),
            decreases self@.len() - i,
        {
            own.push(self.data[i]);
            proof {
                assert(own@ =~= self@.subrange(0, i + 1));
            }
            i = i + 1;
        }
        proof {
            assert(own@ =~= self@);
            assert(rl_records(own@).take(0) =~= Seq::<(Seq<u8>, u64)>::empty());
        }
        RecordListIter { data: own, pos: 0, idx: Ghost(0) }
    }
}

/// The spec-level contents of a key list handed to `put_keys`.
pub open spec fn keys_view(keys: Seq<(Vec<u8>, u64)>) -> Seq<(Seq<u8>, u64)> {
    keys.map_values(|p: (Vec<u8>, u64)| (p.0@, p.1))
}

/// The spec-level view of a key argument.
pub open spec fn k_view(key: &[u8]) -> Seq<u8> {
    key@
}

/// An iterator over the records of a record list.
pub struct RecordListIter {
    data: Vec<u8>,
    pos: usize,
    idx: Ghost<int>,
}

impl RecordListIter {
    /// The bytes being iterated over.
    pub closed spec fn data(&self) -> Seq<u8> {
        self.data@
    }

    /// How many records were already yielded.
    pub closed spec fn index(&self) -> int {
        self.idx@
    }

    /// The iterator points at a record boundary.
    pub closed spec fn wf(&self) -> bool {
        &&& rl_wf(self.data@)
        &&& 0 <= self.idx@ <= rl_records(self.data@).len()
        &&& self.pos == byte_pos(rl_records(self.data@), self.idx@)
    }

    /// The records of the underlying buffer.
    pub open spec fn records(&self) -> Seq<(Seq<u8>, u64)> {
        rl_records(self.data())
    }

    /// Yields the next record together with its byte position, or `None` once
    /// every record was returned.
    pub fn next(&mut self) -> (r: Option<Record>)
        requires
            old(self).wf(),
        ensures
            final(self).wf(),
            final(self).data() == old(self).data(),
            old(self).index() == old(self).records().len() ==> (r is None && final(self).index()
                == old(self).index()),
            old(self).index() < old(self).records().len() ==> (r matches Some(rec)
                && final(self).index() == old(self).index() + 1
                && rec.pos == byte_pos(old(self).records(), old(self).index())
                && rec.key@ == old(self).records()[old(self).index()].0
                && rec.file_offset == old(self).records()[old(self).index()].1),
    {
        let ghost rl = rl_records(self.data@);
        proof {
            lemma_byte_pos_full(self.data@);
            lemma_byte_pos_mono(self.data@, self.idx@, rl.len() as int);
        }
        if self.pos >= self.data.len() {
            proof {
                if self.idx@ < rl.len() {
                    lemma_byte_pos_mono(self.data@, self.idx@ + 1, rl.len() as int);
                    lemma_record_at(self.data@, self.idx@);
                    assert(false);
                }
            }
            return None;
        }
        proof {
            if self.idx@ == rl.len() {
                assert(false);
            }
            lemma_record_at(self.data@, self.idx@);
        }
        let pos = self.pos;
        let off_bytes = slice_subrange(self.data.as_slice(), pos, pos + 8);
        let file_offset = u64_from_le_bytes(off_bytes);
        let size = self.data[pos + 8] as usize;
        let key_slice = slice_subrange(self.data.as_slice(), pos + 9, pos + 9 + size);
        let mut key: Vec<u8> = Vec::new();
        let mut i: usize = 0;
        while i < key_slice.len()
            invariant
                i <= key_slice@.len(),
                key@ == key_slice@.subrange(0, i as int),
            decreases key_slice@.len() - i,
        {
            key.push(key_slice[i]);
            proof {
                assert(key@ =~= key_slice@.subrange(0, i + 1));
            }
            i = i + 1;
        }
        proof {
            assert(key@ =~= key_slice@);
        }
        let record = Record { pos, key, file_offset };
        self.pos = pos + 9 + size;
        proof {
            self.idx@ = self.idx@ + 1;
        }
        Some(record)
    }
}

/// Strict lexicographic comparison of byte strings.
pub fn bytes_lt(a: &[u8], b: &[u8]) -> (r: bool)
    ensures
        r == lex_lt(a@, b@),
{
    let mut i: usize = 0;
    let a_len = a.len();
    let b_len = b.len();
    proof {
        assert(a@.skip(0) =~= a@);
        assert(b@.skip(0) =~= b@);
    }
    loop
        invariant
            i <= a@.len(),
            i <= b@.len(),
            a_len == a@.len(),
            b_len == b@.len(),
            forall|j: int| 0 <= j < i ==> a@[j] == b@[j],
            lex_lt(a@, b@) == lex_lt(a@.skip(i as int), b@.skip(i as int)),
        decreases a@.len() - i,
    {
        if i >= a_len {
            proof {
                lemma_lex_tail_empty(a@, b@, i as int);
            }
            return a_len < b_len;
        }
        if i >= b_len {
            return false;
        }
        let x = a[i];
        let y = b[i];
        if x != y {
            proof {
                assert(a@.skip(i as int)[0] == x);
                assert(b@.skip(i as int)[0] == y);
            }
            return x < y;
        }
        proof {
            lemma_lex_lt_unfold(a@.skip(i as int), b@.skip(i as int));
            assert(a@.skip(i as int).drop_first() =~= a@.skip(i + 1));
            assert(b@.skip(i as int).drop_first() =~= b@.skip(i + 1));
        }
        i = i + 1;
    }
}

proof fn lemma_lex_lt_unfold(a: Seq<u8>, b: Seq<u8>)
    requires
        a.len() > 0,
        b.len() > 0,
        a[0] == b[0],
    ensures
        lex_lt(a, b) == lex_lt(a.drop_first(), b.drop_first()),
{
}

proof fn lemma_lex_tail_empty(a: Seq<u8>, b: Seq<u8>, i: int)
    requires
        0 <= i <= a.len(),
        i <= b.len(),
        a.len() <= i,
    ensures
        lex_lt(a.skip(i), b.skip(i)) == (a.len() < b.len() && i < b.len() || a.len() < b.len()
            && i >= b.len()),
{
    assert(a.skip(i).len() == 0);
    if b.skip(i).len() == 0 {
        assert(!lex_lt(a.skip(i), b.skip(i)));
        assert(b.len() == i);
    } else {
        assert(lex_lt(a.skip(i), b.skip(i)));
        assert(b.len() > i);
    }
}

/// Does `key` start with `prefix`?
pub fn starts_with(key: &[u8], prefix: &[u8]) -> (r: bool)
    ensures
        r == is_key_prefix(prefix@, key@),
{
    if prefix.len() > key.len() {
        return false;
    }
    let mut i: usize = 0;
    while i < prefix.len()
        invariant
            prefix@.len() <= key@.len(),
            i <= prefix@.len(),
            forall|j: int| 0 <= j < i ==> prefix@[j] == key@[j],
        decreases prefix@.len() - i,
    {
        if prefix[i] != key[i] {
            proof {
                assert(!is_key_prefix(prefix@, key@)) by {
                    if prefix@ == key@.subrange(0, prefix@.len() as int) {
                        assert(prefix@[i as int] == key@[i as int]);
                    }
                }
            }
            return false;
        }
        i = i + 1;
    }
    proof {
        assert(prefix@ =~= key@.subrange(0, prefix@.len() as int));
    }
    true
}

/// Appends the encoding of one record to `vec`.
pub fn extend_with_offset_and_key(vec: &mut Vec<u8>, key: &[u8], offset: u64)
    requires
        key@.len() <= 255,
    ensures
        final(vec)@ == old(vec)@ + encode_rec(key@, offset),
{
    let off_bytes = u64_to_le_bytes(offset);
    let ghost before = vec@;
    let mut i: usize = 0;
    while i < off_bytes.len()
        invariant
            i <= off_bytes@.len(),
            vec@ == before + off_bytes@.subrange(0, i as int),
            off_bytes@ == spec_u64_to_le_bytes(offset),
        decreases off_bytes@.len() - i,
    {
        vec.push(off_bytes[i]);
        proof {
            assert(vec@ =~= before + off_bytes@.subrange(0, i + 1));
        }
        i = i + 1;
    }
    proof {
        assert(off_bytes@.subrange(0, off_bytes@.len() as int) =~= off_bytes@);
    }
    vec.push(key.len() as u8);
    let ghost mid = vec@;
    let mut j: usize = 0;
    while j < key.len()
        invariant
            j <= key@.len(),
            vec@ == mid + key@.subrange(0, j as int),
        decreases key@.len() - j,
    {
        vec.push(key[j]);
        proof {
            assert(vec@ =~= mid + key@.subrange(0, j + 1));
        }
        j = j + 1;
    }
    proof {
        lemma_auto_spec_u64_to_from_le_bytes();
        assert(vec@ =~= old(vec)@ + encode_rec(key@, offset));
    }
}

/// Encodes a key and an offset into a single record.
pub fn encode_offset_and_key(key: &[u8], offset: u64) -> (r: Vec<u8>)
    requires
        key@.len() <= 255,
    ensures
        r@ == encode_rec(key@, offset),
{
    let mut encoded: Vec<u8> = Vec::new();
    extend_with_offset_and_key(&mut encoded, key, offset);
    proof {
        assert(encoded@ =~= encode_rec(key@, offset));
    }
    encoded
}

/// Reads the 4-byte little-endian bucket prefix of a block body.
pub fn read_bucket_prefix(data: &[u8]) -> (r: Result<u32, Error>)
    ensures
        data@.len() >= BUCKET_PREFIX_SIZE ==> (r matches Ok(v) && v
            == vstd::bytes::spec_u32_from_le_bytes(data@.subrange(0, BUCKET_PREFIX_SIZE as int))),
        data@.len() < BUCKET_PREFIX_SIZE ==> (r matches Err(e) && e matches Error::Io),
{
    if data.len() < BUCKET_PREFIX_SIZE {
        return Err(Error::Io);
    }
    let prefix = slice_subrange(data, 0, BUCKET_PREFIX_SIZE);
    Ok(vstd::bytes::u32_from_le_bytes(prefix))
}

} // verus!
