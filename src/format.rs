//! The on-disk record format.
//!
//! A record is written as its key length and its value length, each as eight
//! little-endian bytes, then the key, then the value. A deleted key (a
//! tombstone) has value length zero and no value bytes. A run of records is
//! the plain concatenation of their encodings.
use crate::bytes::{lemma_lex_irreflexive, lex_lt};
use crate::error::StoreError;
use vstd::prelude::*;
use vstd::slice::slice_to_vec;

verus! {

/// What a record is: a key, and its value or `None` for a tombstone.
pub ghost struct Record {
    pub key: Seq<u8>,
    pub value: Option<Seq<u8>>,
}

/// The eight little-endian bytes of `n`.
pub open spec fn le_bytes(n: u64) -> Seq<u8> {
    seq![
        (n & 0xff) as u8,
        ((n >> 8u64) & 0xff) as u8,
        ((n >> 16u64) & 0xff) as u8,
        ((n >> 24u64) & 0xff) as u8,
        ((n >> 32u64) & 0xff) as u8,
        ((n >> 40u64) & 0xff) as u8,
        ((n >> 48u64) & 0xff) as u8,
        ((n >> 56u64) & 0xff) as u8,
    ]
}

/// The number whose little-endian bytes are the first eight of `b`.
pub open spec fn le_value(b: Seq<u8>) -> u64
    recommends
        b.len() >= 8,
{
    le_value8(b[0], b[1], b[2], b[3], b[4], b[5], b[6], b[7])
}

pub open spec fn le_value8(b0: u8, b1: u8, b2: u8, b3: u8, b4: u8, b5: u8, b6: u8, b7: u8) -> u64 {
    (b0 as u64) | ((b1 as u64) << 8u64) | ((b2 as u64) << 16u64) | ((b3 as u64) << 24u64)
        | ((b4 as u64) << 32u64) | ((b5 as u64) << 40u64) | ((b6 as u64) << 48u64) | ((b7
        as u64) << 56u64)
}

pub proof fn lemma_le_value_of_bytes(n: u64)
    ensures
        le_value(le_bytes(n)) == n,
{
    let b = le_bytes(n);
    assert(le_value8(
        (n & 0xff) as u8,
        ((n >> 8u64) & 0xff) as u8,
        ((n >> 16u64) & 0xff) as u8,
        ((n >> 24u64) & 0xff) as u8,
        ((n >> 32u64) & 0xff) as u8,
        ((n >> 40u64) & 0xff) as u8,
        ((n >> 48u64) & 0xff) as u8,
        ((n >> 56u64) & 0xff) as u8,
    ) == n) by (bit_vector);
}


pub proof fn lemma_le_bytes_of_value(b: Seq<u8>)
    requires
        b.len() == 8,
    ensures
        le_bytes(le_value(b)) == b,
{
    let (b0, b1, b2, b3, b4, b5, b6, b7) = (b[0], b[1], b[2], b[3], b[4], b[5], b[6], b[7]);
    let v = le_value8(b0, b1, b2, b3, b4, b5, b6, b7);
    assert((v & 0xff) as u8 == b0 && ((v >> 8u64) & 0xff) as u8 == b1 && ((v >> 16u64) & 0xff) as u8
        == b2 && ((v >> 24u64) & 0xff) as u8 == b3) by (bit_vector)
        requires
            v == le_value8(b0, b1, b2, b3, b4, b5, b6, b7),
    ;
    assert(((v >> 32u64) & 0xff) as u8 == b4 && ((v >> 40u64) & 0xff) as u8 == b5 && ((v >> 48u64)
        & 0xff) as u8 == b6 && ((v >> 56u64) & 0xff) as u8 == b7) by (bit_vector)
        requires
            v == le_value8(b0, b1, b2, b3, b4, b5, b6, b7),
    ;
    assert(le_bytes(v) =~= b);
}

#[verifier::external_type_specification]
#[verifier::external_body]
pub struct ExBincodeErrorKind(bincode::ErrorKind);

/// Relies on `bincode::serialize`: under bincode's default options an integer
/// is written with fixed width, as its eight little-endian bytes, and writing
/// a `u64` into a fresh vector does not fail.
#[verifier::external_body]
fn length_to_bytes(n: u64) -> (r: Result<Vec<u8>, bincode::Error>)
    ensures
        r is Ok,
        r->Ok_0@ == le_bytes(n),
{
    bincode::serialize(&n)
}

/// Relies on `bincode::deserialize`: under bincode's default options a `u64`
/// is read from the first eight bytes, little-endian; it fails only when
/// fewer than eight bytes are given.
#[verifier::external_body]
fn length_from_bytes(b: &[u8]) -> (r: Result<u64, bincode::Error>)
    requires
        b@.len() == 8,
    ensures
        r is Ok,
        r->Ok_0 == le_value(b@),
{
    bincode::deserialize(b)
}


/// The number of value bytes a record carries: none for a tombstone.
pub open spec fn value_len(r: Record) -> nat {
    match r.value {
        Some(v) => v.len(),
        None => 0,
    }
}

pub open spec fn value_bytes(r: Record) -> Seq<u8> {
    match r.value {
        Some(v) => v,
        None => Seq::empty(),
    }
}

/// The encoding of one record.
pub open spec fn encode_record(r: Record) -> Seq<u8> {
    le_bytes(r.key.len() as u64) + le_bytes(value_len(r) as u64) + r.key + value_bytes(r)
}

/// The encoding of a run of records: their encodings one after another.
pub open spec fn encode_records(rs: Seq<Record>) -> Seq<u8>
    decreases rs.len(),
{
    if rs.len() == 0 {
        Seq::empty()
    } else {
        encode_records(rs.drop_last()) + encode_record(rs.last())
    }
}

/// A record that survives encoding: its lengths fit the length fields, and a
/// present value is not empty (an empty value is read back as a tombstone).
pub open spec fn record_ok(r: Record) -> bool {
    &&& r.key.len() <= u64::MAX
    &&& match r.value {
        Some(v) => 0 < v.len() <= u64::MAX,
        None => true,
    }
}

/// The first record encoded at the front of `b`, with the number of bytes it
/// takes; `None` when a length field reads past the end of `b`.
pub open spec fn decode_first(b: Seq<u8>) -> Option<(Record, nat)> {
    if b.len() < 16 {
        None
    } else {
        let kl = le_value(b.subrange(0, 8)) as int;
        let vl = le_value(b.subrange(8, 16)) as int;
        if 16 + kl + vl > b.len() {
            None
        } else {
            let key = b.subrange(16, 16 + kl);
            let value = if vl == 0 {
                None
            } else {
                Some(b.subrange(16 + kl, 16 + kl + vl))
            };
            Some((Record { key, value }, (16 + kl + vl) as nat))
        }
    }
}

/// The records encoded in `b`, read until `b` is used up; `None` when some
/// length field reads past the end.
pub open spec fn decode_records(b: Seq<u8>) -> Option<Seq<Record>>
    decreases b.len(),
{
    if b.len() == 0 {
        Some(Seq::empty())
    } else if b.len() < 16 {
        None
    } else {
        let kl = le_value(b.subrange(0, 8)) as int;
        let vl = le_value(b.subrange(8, 16)) as int;
        if 16 + kl + vl > b.len() {
            None
        } else {
            let key = b.subrange(16, 16 + kl);
            let value = if vl == 0 {
                None
            } else {
                Some(b.subrange(16 + kl, 16 + kl + vl))
            };
            match decode_records(b.subrange(16 + kl + vl, b.len() as int)) {
                Some(rest) => Some(seq![Record { key, value }] + rest),
                None => None,
            }
        }
    }
}

/// Encoding a concatenation concatenates the encodings.
pub proof fn lemma_encode_records_append(a: Seq<Record>, b: Seq<Record>)
    ensures
        encode_records(a + b) == encode_records(a) + encode_records(b),
    decreases b.len(),
{
    if b.len() == 0 {
        assert(a + b =~= a);
        assert(encode_records(a) + encode_records(b) =~= encode_records(a));
    } else {
        lemma_encode_records_append(a, b.drop_last());
        assert((a + b).drop_last() =~= a + b.drop_last());
        assert((a + b).last() == b.last());
        assert(encode_records(a) + encode_records(b) =~= encode_records(a) + encode_records(
            b.drop_last(),
        ) + encode_record(b.last()));
    }
}

/// Reading a record back from the front of its encoding, whatever follows.
proof fn lemma_decode_front(r: Record, rest: Seq<u8>)
    requires
        record_ok(r),
    ensures
        decode_first(encode_record(r) + rest) == Some((r, encode_record(r).len())),
        decode_records(encode_record(r) + rest) == match decode_records(rest) {
            Some(tail) => Some(seq![r] + tail),
            None => None,
        },
{
    let e = encode_record(r) + rest;
    let kl = r.key.len() as u64;
    let vl = value_len(r) as u64;
    lemma_le_value_of_bytes(kl);
    lemma_le_value_of_bytes(vl);
    assert(e.subrange(0, 8) =~= le_bytes(kl));
    assert(e.subrange(8, 16) =~= le_bytes(vl));
    let n = 16 + kl + vl;
    assert(e.subrange(16, 16 + kl) =~= r.key);
    if vl > 0 {
        assert(e.subrange(16 + kl, n) =~= value_bytes(r));
    }
    assert(e.subrange(n, e.len() as int) =~= rest);
    assert(encode_record(r).len() == n);
}

/// Decoding an encoded record gives the record back.
pub proof fn lemma_decode_encode_record(r: Record)
    requires
        record_ok(r),
    ensures
        decode_first(encode_record(r)) == Some((r, encode_record(r).len())),
        decode_records(encode_record(r)) == Some(seq![r]),
{
    lemma_decode_front(r, Seq::empty());
    assert(encode_record(r) + Seq::<u8>::empty() =~= encode_record(r));
    assert(seq![r] + Seq::<Record>::empty() =~= seq![r]);
}

/// Decoding the concatenated encodings of a list of records gives the list
/// back.
pub proof fn lemma_decode_encode_records(rs: Seq<Record>)
    requires
        forall|i: int| 0 <= i < rs.len() ==> record_ok(#[trigger] rs[i]),
    ensures
        decode_records(encode_records(rs)) == Some(rs),
    decreases rs.len(),
{
    if rs.len() == 0 {
    } else {
        let tail = rs.drop_first();
        lemma_decode_encode_records(tail);
        lemma_encode_records_append(seq![rs[0]], tail);
        assert(seq![rs[0]] + tail =~= rs);
        let one = seq![rs[0]];
        assert(one.drop_last() =~= Seq::<Record>::empty());
        assert(encode_records(one) == encode_records(one.drop_last()) + encode_record(rs[0]));
        assert(Seq::<u8>::empty() + encode_record(rs[0]) =~= encode_record(rs[0]));
        lemma_decode_front(rs[0], encode_records(tail));
    }
}

/// Keys in strictly ascending order, so each key stands at most once.
pub open spec fn sorted_keys(rs: Seq<Record>) -> bool {
    forall|i: int, j: int| 0 <= i < j < rs.len() ==> lex_lt(rs[i].key, rs[j].key)
}

/// `key` stands in `rs`.
pub open spec fn has_key(rs: Seq<Record>, key: Seq<u8>) -> bool {
    exists|i: int| 0 <= i < rs.len() && (#[trigger] rs[i]).key == key
}

/// The record of `key` in `rs`, if any (the only one when keys are sorted).
pub open spec fn lookup(rs: Seq<Record>, key: Seq<u8>) -> Option<Record> {
    if has_key(rs, key) {
        Some(rs[choose|i: int| 0 <= i < rs.len() && (#[trigger] rs[i]).key == key])
    } else {
        None
    }
}

/// With sorted keys, the record at `i` is the one `lookup` finds for its key.
pub proof fn lemma_lookup_at(rs: Seq<Record>, i: int)
    requires
        sorted_keys(rs),
        0 <= i < rs.len(),
    ensures
        lookup(rs, rs[i].key) == Some(rs[i]),
{
    let key = rs[i].key;
    assert(has_key(rs, key));
    let j = choose|j: int| 0 <= j < rs.len() && (#[trigger] rs[j]).key == key;
    if j != i {
        if j < i {
            assert(lex_lt(rs[j].key, rs[i].key));
        } else {
            assert(lex_lt(rs[i].key, rs[j].key));
        }
        lemma_lex_irreflexive(key);
    }
}

/// Every record survives encoding.
pub open spec fn all_ok(rs: Seq<Record>) -> bool {
    forall|i: int| 0 <= i < rs.len() ==> record_ok(#[trigger] rs[i])
}

/// The data size of a run: key lengths plus value lengths, a tombstone
/// counting its key alone.
pub open spec fn content_size(rs: Seq<Record>) -> nat
    decreases rs.len(),
{
    if rs.len() == 0 {
        0
    } else {
        content_size(rs.drop_last()) + rs.last().key.len() + value_len(rs.last())
    }
}

/// Whether the keys of `pairs` stand in strictly ascending order.
pub fn keys_ascending(pairs: &[InternalPair]) -> (r: bool)
    ensures
        r == sorted_keys(records_of(pairs@)),
{
    let ghost rs = records_of(pairs@);
    let n = pairs.len();
    if n == 0 {
        return true;
    }
    let mut i: usize = 1;
    while i < n
        invariant
            1 <= i <= n,
            n == rs.len(),
            rs == records_of(pairs@),
            forall|a: int, b: int| 0 <= a < b < i ==> lex_lt(rs[a].key, rs[b].key),
        decreases n - i,
    {
        let order = crate::bytes::compare_bytes(pairs[i - 1].key.as_slice(), pairs[i].key.as_slice());
        match order {
            core::cmp::Ordering::Less => {},
            _ => {
                proof {
                    let (ka, kb) = (rs[i - 1].key, rs[i as int].key);
                    if ka == kb {
                        lemma_lex_irreflexive(ka);
                    } else {
                        crate::bytes::lemma_lex_asymmetric(ka, kb);
                    }
                    assert(!lex_lt(rs[i - 1].key, rs[i as int].key));
                }
                return false;
            },
        }
        proof {
            assert forall|a: int, b: int| 0 <= a < b < i + 1 implies lex_lt(
                rs[a].key,
                rs[b].key,
            ) by {
                if b == i && a < i - 1 {
                    crate::bytes::lemma_lex_transitive(rs[a].key, rs[i - 1].key, rs[b].key);
                }
            }
        }
        i = i + 1;
    }
    true
}

/// Whether every pair survives encoding: no present value is empty.
pub fn values_present(pairs: &[InternalPair]) -> (r: bool)
    ensures
        r == all_ok(records_of(pairs@)),
{
    let ghost rs = records_of(pairs@);
    let mut i: usize = 0;
    while i < pairs.len()
        invariant
            i <= pairs@.len(),
            rs == records_of(pairs@),
            forall|a: int| 0 <= a < i ==> record_ok(#[trigger] rs[a]),
        decreases pairs@.len() - i,
    {
        assert(rs[i as int] == pairs@[i as int]@);
        let key_length = pairs[i].key.len();
        assert(key_length <= u64::MAX);
        if let Some(v) = &pairs[i].value {
            if v.len() == 0 {
                return false;
            }
        }
        i = i + 1;
    }
    true
}

/// The length of the encodings of `pairs`, or `None` when it does not fit in
/// a `usize`.
pub fn encoded_len(pairs: &[InternalPair]) -> (r: Option<usize>)
    ensures
        match r {
            Some(n) => n == encode_records(records_of(pairs@)).len(),
            None => encode_records(records_of(pairs@)).len() > usize::MAX,
        },
{
    let mut total: usize = 0;
    let mut i: usize = 0;
    while i < pairs.len()
        invariant
            i <= pairs@.len(),
            total == encode_records(records_of(pairs@.subrange(0, i as int))).len(),
        decreases pairs@.len() - i,
    {
        proof {
            let longer = records_of(pairs@.subrange(0, i + 1));
            assert(longer.drop_last() =~= records_of(pairs@.subrange(0, i as int)));
            assert(longer =~= records_of(pairs@).subrange(0, i + 1));
            assert(longer.last() == pairs@[i as int]@);
            lemma_encode_len_grows(records_of(pairs@), i + 1);
        }
        let pair = &pairs[i];
        let value_length = match &pair.value {
            Some(v) => v.len(),
            None => 0,
        };
        let one = match 16usize.checked_add(pair.key.len()) {
            Some(x) => x.checked_add(value_length),
            None => None,
        };
        let next = match one {
            Some(x) => total.checked_add(x),
            None => None,
        };
        match next {
            Some(t) => {
                total = t;
            },
            None => {
                return None;
            },
        }
        i = i + 1;
    }
    proof {
        assert(pairs@.subrange(0, pairs@.len() as int) =~= pairs@);
    }
    Some(total)
}

/// The encoding of a run is at least as long as that of any prefix.
proof fn lemma_encode_len_grows(rs: Seq<Record>, i: int)
    requires
        0 <= i <= rs.len(),
    ensures
        encode_records(rs.subrange(0, i)).len() <= encode_records(rs).len(),
{
    lemma_encode_records_append(rs.subrange(0, i), rs.subrange(i, rs.len() as int));
    assert(rs.subrange(0, i) + rs.subrange(i, rs.len() as int) =~= rs);
}

/// The data size of `pairs` (see `content_size`), or `None` when the sum
/// does not fit in a `usize`.
pub fn data_size(pairs: &[InternalPair]) -> (r: Option<usize>)
    ensures
        match r {
            Some(n) => n == content_size(records_of(pairs@)),
            None => content_size(records_of(pairs@)) > usize::MAX,
        },
{
    let mut total: usize = 0;
    let mut i: usize = 0;
    while i < pairs.len()
        invariant
            i <= pairs@.len(),
            total == content_size(records_of(pairs@.subrange(0, i as int))),
        decreases pairs@.len() - i,
    {
        proof {
            let longer = records_of(pairs@.subrange(0, i + 1));
            assert(longer.drop_last() =~= records_of(pairs@.subrange(0, i as int)));
            assert(longer =~= records_of(pairs@).subrange(0, i + 1));
            assert(longer.last() == pairs@[i as int]@);
            lemma_content_size_grows(records_of(pairs@), i + 1);
        }
        let pair = &pairs[i];
        let value_length = match &pair.value {
            Some(v) => v.len(),
            None => 0,
        };
        let next = match total.checked_add(pair.key.len()) {
            Some(x) => x.checked_add(value_length),
            None => None,
        };
        match next {
            Some(t) => {
                total = t;
            },
            None => {
                return None;
            },
        }
        i = i + 1;
    }
    proof {
        assert(pairs@.subrange(0, pairs@.len() as int) =~= pairs@);
    }
    Some(total)
}

proof fn lemma_content_size_grows(rs: Seq<Record>, i: int)
    requires
        0 <= i <= rs.len(),
    ensures
        content_size(rs.subrange(0, i)) <= content_size(rs),
    decreases rs.len() - i,
{
    if i < rs.len() {
        lemma_content_size_grows(rs, i + 1);
        assert(rs.subrange(0, i + 1).drop_last() =~= rs.subrange(0, i));
    } else {
        assert(rs.subrange(0, i) =~= rs);
    }
}

/// Bytes that decode are the encoding of what they decode to.
pub proof fn lemma_decoded_reencodes(b: Seq<u8>)
    requires
        decode_records(b) is Some,
    ensures
        encode_records(decode_records(b)->Some_0) == b,
        all_ok(decode_records(b)->Some_0),
    decreases b.len(),
{
    if b.len() > 0 {
        let kl = le_value(b.subrange(0, 8));
        let vl = le_value(b.subrange(8, 16));
        let n = 16 + kl + vl;
        let rest = b.subrange(n as int, b.len() as int);
        lemma_decoded_reencodes(rest);
        let tail = decode_records(rest)->Some_0;
        let key = b.subrange(16, 16 + kl);
        let value = if vl == 0 {
            None
        } else {
            Some(b.subrange(16 + kl, n as int))
        };
        let r = Record { key, value };
        let rs = decode_records(b)->Some_0;
        assert(rs == seq![r] + tail);
        lemma_le_bytes_of_value(b.subrange(0, 8));
        lemma_le_bytes_of_value(b.subrange(8, 16));
        assert(encode_record(r) =~= b.subrange(0, n as int));
        lemma_encode_records_append(seq![r], tail);
        let one = seq![r];
        assert(one.drop_last() =~= Seq::<Record>::empty());
        assert(encode_records(one) == encode_records(one.drop_last()) + encode_record(r));
        assert(Seq::<u8>::empty() + encode_record(r) =~= encode_record(r));
        assert(b.subrange(0, n as int) + rest =~= b);
        assert forall|i: int| 0 <= i < rs.len() implies record_ok(#[trigger] rs[i]) by {
            if i > 0 {
                assert(rs[i] == tail[i - 1]);
            }
        }
    }
}

/// The data size of a run never exceeds the length of its encoding.
pub proof fn lemma_content_size_bounded(rs: Seq<Record>)
    ensures
        content_size(rs) <= encode_records(rs).len(),
    decreases rs.len(),
{
    if rs.len() > 0 {
        lemma_content_size_bounded(rs.drop_last());
    }
}

/// A key with its value, or with `None` when the key is deleted.
#[derive(Clone, Debug, PartialEq, Eq, PartialOrd, Ord)]
pub struct InternalPair {
    pub key: Vec<u8>,
    /// `None` marks a deleted key.
    pub value: Option<Vec<u8>>,
}

impl View for InternalPair {
    type V = Record;

    open spec fn view(&self) -> Record {
        Record {
            key: self.key@,
            value: match self.value {
                Some(v) => Some(v@),
                None => None,
            },
        }
    }
}

/// The records that a sequence of pairs stands for.
pub open spec fn records_of(ps: Seq<InternalPair>) -> Seq<Record> {
    ps.map_values(|p: InternalPair| p@)
}

impl InternalPair {
    /// A pair of `key` and `value`; `None` makes a tombstone.
    pub fn new(key: &[u8], value: Option<&[u8]>) -> (r: Self)
        ensures
            r@ == (Record {
                key: key@,
                value: match value {
                    Some(v) => Some(v@),
                    None => None,
                },
            }),
    {
        let value = match value {
            Some(v) => Some(slice_to_vec(v)),
            None => None,
        };
        InternalPair { key: slice_to_vec(key), value }
    }

    /// A copy of this pair.
    pub fn duplicate(&self) -> (r: Self)
        ensures
            r@ == self@,
    {
        let value = match &self.value {
            Some(v) => Some(slice_to_vec(v.as_slice())),
            None => None,
        };
        InternalPair { key: slice_to_vec(self.key.as_slice()), value }
    }

    /// The encoding of this pair.
    pub fn serialize(&self) -> (r: Vec<u8>)
        ensures
            r@ == encode_record(self@),
    {
        let mut buffer = header_bytes(self.key.len() as u64);
        let value_length: u64 = match &self.value {
            Some(v) => v.len() as u64,
            None => 0,
        };
        let mut value_header = header_bytes(value_length);
        buffer.append(&mut value_header);
        let mut key = slice_to_vec(self.key.as_slice());
        buffer.append(&mut key);
        if let Some(v) = &self.value {
            let mut value = slice_to_vec(v.as_slice());
            buffer.append(&mut value);
        }
        buffer
    }

    /// The record encoded at the front of `bytes`; what follows it is left
    /// alone.
    pub fn deserialize(bytes: &[u8]) -> (r: Result<Self, StoreError>)
        ensures
            match decode_first(bytes@) {
                Some((rec, _)) => r is Ok && r->Ok_0@ == rec,
                None => r == Err::<Self, StoreError>(StoreError::MalformedRecord),
            },
    {
        proof {
            assert(bytes@.subrange(0, bytes@.len() as int) =~= bytes@);
        }
        match decode_at(bytes, 0) {
            Ok((pair, _)) => Ok(pair),
            Err(e) => Err(e),
        }
    }

    /// All records encoded in `bytes`, read until the bytes are used up.
    pub fn deserialize_from_bytes(bytes: &[u8]) -> (r: Result<Vec<Self>, StoreError>)
        ensures
            match decode_records(bytes@) {
                Some(rs) => r is Ok && records_of(r->Ok_0@) == rs,
                None => r == Err::<Vec<Self>, StoreError>(StoreError::MalformedRecord),
            },
    {
        let mut pairs: Vec<InternalPair> = Vec::new();
        let mut pos: usize = 0;
        proof {
            assert(bytes@.subrange(0, bytes@.len() as int) =~= bytes@);
            assert(records_of(pairs@) =~= Seq::<Record>::empty());
        }
        while pos < bytes.len()
            invariant
                pos <= bytes@.len(),
                decode_records(bytes@) == match decode_records(
                    bytes@.subrange(pos as int, bytes@.len() as int),
                ) {
                    Some(rest) => Some(records_of(pairs@) + rest),
                    None => None,
                },
            decreases bytes@.len() - pos,
        {
            let ghost sub = bytes@.subrange(pos as int, bytes@.len() as int);
            let (pair, next) = match decode_at(bytes, pos) {
                Ok(found) => found,
                Err(e) => {
                    return Err(e);
                },
            };
            proof {
                let n = next - pos;
                assert(sub.subrange(n, sub.len() as int) =~= bytes@.subrange(
                    next as int,
                    bytes@.len() as int,
                ));
                let old_rs = records_of(pairs@);
                let new_rs = records_of(pairs@.push(pair));
                assert(new_rs =~= old_rs.push(pair@));
                match decode_records(bytes@.subrange(next as int, bytes@.len() as int)) {
                    Some(rest) => {
                        assert(old_rs + (seq![pair@] + rest) =~= new_rs + rest);
                    },
                    None => {},
                }
            }
            pairs.push(pair);
            pos = next;
        }
        Ok(pairs)
    }

    /// The encodings of `pairs`, one after another.
    pub fn serialize_flatten(pairs: &[InternalPair]) -> (r: Vec<u8>)
        ensures
            r@ == encode_records(records_of(pairs@)),
    {
        let mut out: Vec<u8> = Vec::new();
        let mut i: usize = 0;
        while i < pairs.len()
            invariant
                i <= pairs@.len(),
                out@ == encode_records(records_of(pairs@.subrange(0, i as int))),
            decreases pairs@.len() - i,
        {
            let mut one = pairs[i].serialize();
            proof {
                let before = records_of(pairs@.subrange(0, i as int));
                let after = records_of(pairs@.subrange(0, i + 1));
                assert(after.drop_last() =~= before);
                assert(after.last() == pairs@[i as int]@);
            }
            out.append(&mut one);
            i = i + 1;
        }
        proof {
            assert(pairs@.subrange(0, pairs@.len() as int) =~= pairs@);
        }
        out
    }
}

/// The record encoded at `pos` in `bytes`, with the position just after it.
fn decode_at(bytes: &[u8], pos: usize) -> (r: Result<(InternalPair, usize), StoreError>)
    requires
        pos <= bytes@.len(),
    ensures
        match decode_first(bytes@.subrange(pos as int, bytes@.len() as int)) {
            Some((rec, n)) => r is Ok && r->Ok_0.0@ == rec && r->Ok_0.1 == pos + n,
            None => r == Err::<(InternalPair, usize), StoreError>(StoreError::MalformedRecord),
        },
{
    let ghost sub = bytes@.subrange(pos as int, bytes@.len() as int);
    let len = bytes.len();
    if len - pos < 16 {
        return Err(StoreError::MalformedRecord);
    }
    let key_length = read_length(bytes, pos);
    let value_length = read_length(bytes, pos + 8);
    proof {
        assert(sub.subrange(0, 8) =~= bytes@.subrange(pos as int, pos + 8));
        assert(sub.subrange(8, 16) =~= bytes@.subrange(pos + 8, pos + 16));
    }
    let room = (len - pos - 16) as u64;
    if key_length > room || value_length > room - key_length {
        return Err(StoreError::MalformedRecord);
    }
    let key_start = pos + 16;
    let key_end = key_start + key_length as usize;
    let end = key_end + value_length as usize;
    let key = slice_to_vec(vstd::slice::slice_subrange(bytes, key_start, key_end));
    let value = if value_length > 0 {
        Some(slice_to_vec(vstd::slice::slice_subrange(bytes, key_end, end)))
    } else {
        None
    };
    proof {
        assert(key@ =~= sub.subrange(16, 16 + key_length as int));
        if value_length > 0 {
            assert(value.unwrap()@ =~= sub.subrange(
                16 + key_length as int,
                16 + key_length as int + value_length as int,
            ));
        }
    }
    Ok((InternalPair { key, value }, end))
}

/// The length field stored in the eight bytes at `pos`.
fn read_length(bytes: &[u8], pos: usize) -> (r: u64)
    requires
        pos + 8 <= bytes@.len(),
    ensures
        r == le_value(bytes@.subrange(pos as int, pos + 8)),
{
    let len = bytes.len();
    assert(pos + 8 <= len);
    let field = vstd::slice::slice_subrange(bytes, pos, pos + 8);
    match length_from_bytes(field) {
        Ok(v) => v,
        Err(_) => vstd::pervasive::unreached(),
    }
}

impl Default for InternalPair {
    /// A tombstone for the empty key.
    fn default() -> (r: Self)
        ensures
            r@ == (Record { key: Seq::empty(), value: None }),
    {
        let r = InternalPair { key: Vec::new(), value: None };
        assert(r@.key =~= Seq::<u8>::empty());
        r
    }
}

/// The eight bytes of a length field.
fn header_bytes(n: u64) -> (r: Vec<u8>)
    ensures
        r@ == le_bytes(n),
{
    match length_to_bytes(n) {
        Ok(v) => v,
        Err(_) => vstd::pervasive::unreached(),
    }
}

} // verus!
