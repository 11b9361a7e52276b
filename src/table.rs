//! An SSTable: an immutable sorted run of records kept in a file, with its
//! sparse index.
//!
//! The table holds the index and the size; the file's bytes stay with the
//! caller, who reads the extents the table names and hands them back.
use crate::error::StoreError;
use crate::format::{
    all_ok, content_size, decode_records, encode_records, encoded_len, has_key, keys_ascending,
    data_size, lookup, records_of, sorted_keys, values_present, InternalPair, Record,
};
use crate::index::{
    block_end, block_start, floor_extent, is_floor, lemma_floor_holds_key, spans_of, Index,
};
use vstd::prelude::*;

verus! {

/// The record that a found pair stands for, if any.
pub open spec fn found(p: Option<InternalPair>) -> Option<Record> {
    match p {
        Some(p) => Some(p@),
        None => None,
    }
}

/// An immutable sorted run of records with its sparse index.
pub struct SSTable {
    size: usize,
    block_stride: usize,
    index: Index,
    contents: Ghost<Seq<Record>>,
}

impl SSTable {
    /// The records the table's file holds, in order.
    pub closed spec fn contents(&self) -> Seq<Record> {
        self.contents@
    }

    /// The size the table counts for in the compaction rule.
    pub closed spec fn size_spec(&self) -> nat {
        self.size as nat
    }

    /// The extent of the block in which `key` would stand, if any.
    pub closed spec fn block_for(&self, key: Seq<u8>) -> Option<(int, int)> {
        floor_extent(self.index@, key)
    }

    /// The bytes of the table's file.
    pub open spec fn file_bytes(&self) -> Seq<u8> {
        encode_records(self.contents())
    }

    pub closed spec fn wf(&self) -> bool {
        &&& self.index.wf()
        &&& spans_of(self.index@, self.contents@, self.block_stride as nat)
        &&& sorted_keys(self.contents@)
        &&& all_ok(self.contents@)
        &&& encode_records(self.contents@).len() <= usize::MAX
    }

    /// A well-formed table holds its records sorted by key, one per key.
    pub proof fn lemma_sorted(&self)
        requires
            self.wf(),
        ensures
            sorted_keys(self.contents()),
            crate::format::all_ok(self.contents()),
    {
    }

    /// A table of `pairs`, whose encodings the caller has written to the
    /// table's file. Fails when the keys are not strictly ascending, when a
    /// present value is empty, or when the encoding is too long to address.
    pub fn new(pairs: Vec<InternalPair>, size: usize, block_stride: usize) -> (r: Result<
        Self,
        StoreError,
    >)
        requires
            block_stride >= 1,
        ensures
            r is Ok <==> (sorted_keys(records_of(pairs@)) && all_ok(records_of(pairs@))
                && encode_records(records_of(pairs@)).len() <= usize::MAX),
            !sorted_keys(records_of(pairs@)) ==> r == Err::<Self, StoreError>(
                StoreError::UnsortedRecords,
            ),
            sorted_keys(records_of(pairs@)) && !all_ok(records_of(pairs@)) ==> r == Err::<
                Self,
                StoreError,
            >(StoreError::EmptyValue),
            sorted_keys(records_of(pairs@)) && all_ok(records_of(pairs@)) && encode_records(
                records_of(pairs@),
            ).len() > usize::MAX ==> r == Err::<Self, StoreError>(StoreError::SizeOverflow),
            r matches Ok(t) ==> t.wf() && t.contents() == records_of(pairs@) && t.size_spec()
                == size,
    {
        if !keys_ascending(pairs.as_slice()) {
            return Err(StoreError::UnsortedRecords);
        }
        if !values_present(pairs.as_slice()) {
            return Err(StoreError::EmptyValue);
        }
        match encoded_len(pairs.as_slice()) {
            None => Err(StoreError::SizeOverflow),
            Some(_) => {
                let ghost contents = records_of(pairs@);
                let index = Index::new(pairs, block_stride);
                Ok(SSTable { size, block_stride, index, contents: Ghost(contents) })
            },
        }
    }

    /// The table whose file holds `bytes`; its size is the sum of the key
    /// and value lengths of its records.
    pub fn open(bytes: &[u8], block_stride: usize) -> (r: Result<Self, StoreError>)
        requires
            block_stride >= 1,
        ensures
            decode_records(bytes@) is None ==> r == Err::<Self, StoreError>(
                StoreError::MalformedRecord,
            ),
            decode_records(bytes@) matches Some(rs) ==> (r is Ok <==> sorted_keys(rs)),
            decode_records(bytes@) matches Some(rs) && !sorted_keys(rs) ==> r == Err::<
                Self,
                StoreError,
            >(StoreError::UnsortedRecords),
            r matches Ok(t) ==> t.wf() && Some(t.contents()) == decode_records(bytes@)
                && t.size_spec() == content_size(t.contents()),
    {
        let pairs = InternalPair::deserialize_from_bytes(bytes)?;
        let ghost rs = records_of(pairs@);
        let length = bytes.len();
        proof {
            crate::format::lemma_decoded_reencodes(bytes@);
            assert(encode_records(rs).len() == length);
        }
        let size = match data_size(pairs.as_slice()) {
            Some(n) => n,
            None => {
                proof {
                    crate::format::lemma_content_size_bounded(rs);
                }
                return Err(StoreError::SizeOverflow);
            },
        };
        SSTable::new(pairs, size, block_stride)
    }

    /// The size of the table's data, as counted by the compaction rule.
    pub fn get_size(&self) -> (r: usize)
        ensures
            r == self.size_spec(),
    {
        self.size
    }

    /// The extent `(position, length)` in the file of the block that holds
    /// `key` if the table holds it; `None` when no block can.
    pub fn locate(&self, key: &[u8]) -> (r: Option<(usize, usize)>)
        requires
            self.wf(),
        ensures
            r is None <==> self.block_for(key@) is None,
            r matches Some((p, l)) ==> self.block_for(key@) == Some((p as int, l as int)) && p + l
                <= self.file_bytes().len(),
            r is None ==> lookup(self.contents(), key@) is None,
    {
        let r = self.index.get(key);
        proof {
            let rs = self.contents@;
            let spans = self.index@;
            if has_key(rs, key@) {
                let i = choose|i: int| 0 <= i < rs.len() && (#[trigger] rs[i]).key == key@;
                self.lemma_key_has_floor(i);
            }
            if let Some((p, l)) = r {
                let b = choose|b: int| is_floor(spans, key@, b);
                self.lemma_block_bytes(b);
            }
        }
        r
    }

    /// The record of `key`, looked for in `block`, the bytes the caller read
    /// at the extent that `locate` gave. `MalformedRecord` when the bytes do
    /// not decode. Given the right bytes, the answer is the table's record of
    /// `key` (a tombstone included), or `None`.
    pub fn get(&self, key: &[u8], block: &[u8]) -> (r: Result<Option<InternalPair>, StoreError>)
        requires
            self.wf(),
        ensures
            decode_records(block@) is None ==> r == Err::<Option<InternalPair>, StoreError>(
                StoreError::MalformedRecord,
            ),
            decode_records(block@) matches Some(rs) ==> r is Ok && match r->Ok_0 {
                Some(p) => p@.key == key@ && rs.contains(p@),
                None => !has_key(rs, key@),
            },
            (self.block_for(key@) matches Some((p, l)) && block@ == self.file_bytes().subrange(
                p,
                p + l,
            )) ==> r is Ok && found(r->Ok_0) == lookup(self.contents(), key@),
    {
        proof {
            self.lemma_right_block_decodes(key@, block@);
        }
        let pairs = InternalPair::deserialize_from_bytes(block)?;
        let ghost rs = records_of(pairs@);
        let mut i: usize = 0;
        while i < pairs.len()
            invariant
                self.wf(),
                decode_records(block@) == Some(rs),
                i <= pairs@.len(),
                rs == records_of(pairs@),
                forall|j: int| 0 <= j < i ==> (#[trigger] rs[j]).key != key@,
            decreases pairs@.len() - i,
        {
            assert(rs[i as int] == pairs@[i as int]@);
            if let core::cmp::Ordering::Equal = crate::bytes::compare_bytes(pairs[i].key.as_slice(), key) {
                let p = pairs[i].duplicate();
                proof {
                    assert(rs[i as int] == p@);
                    self.lemma_right_block(key@, block@, rs, i as int);
                }
                return Ok(Some(p));
            }
            i = i + 1;
        }
        proof {
            self.lemma_right_block_absent(key@, block@, rs);
        }
        Ok(None)
    }

    /// All records of the table, decoded from `bytes`, the whole file.
    pub fn get_all(&self, bytes: &[u8]) -> (r: Result<Vec<InternalPair>, StoreError>)
        requires
            self.wf(),
        ensures
            decode_records(bytes@) is None ==> r == Err::<Vec<InternalPair>, StoreError>(
                StoreError::MalformedRecord,
            ),
            decode_records(bytes@) matches Some(rs) ==> r is Ok && records_of(r->Ok_0@) == rs,
            bytes@ == self.file_bytes() ==> r is Ok && records_of(r->Ok_0@) == self.contents(),
    {
        proof {
            crate::format::lemma_decode_encode_records(self.contents@);
        }
        InternalPair::deserialize_from_bytes(bytes)
    }

    /// A stored key has a floor block.
    proof fn lemma_key_has_floor(&self, i: int)
        requires
            self.wf(),
            0 <= i < self.contents@.len(),
        ensures
            self.block_for(self.contents@[i].key) is Some,
    {
        let rs = self.contents@;
        let stride = self.block_stride as nat;
        let spans = self.index@;
        let b = i / stride as int;
        assert(b * stride <= i < (b + 1) * stride) by (nonlinear_arith)
            requires
                b == i / stride as int,
                stride >= 1,
                i >= 0,
        ;
        assert(b < spans.len()) by (nonlinear_arith)
            requires
                b * stride <= i,
                i < rs.len(),
                spans.len() * stride >= rs.len(),
                stride >= 1,
                b >= 0,
        ;
        crate::index::lemma_block_is_floor(spans, rs, stride, b, i);
    }

    /// The extent of block `b` is inside the file, and its bytes are the
    /// encoding of the block's records.
    proof fn lemma_block_bytes(&self, b: int)
        requires
            self.wf(),
            0 <= b < self.index@.len(),
        ensures
            ({
                let stride = self.block_stride as nat;
                let n = self.contents@.len();
                let s = block_start(b, stride);
                let e = block_end(b, stride, n);
                let span = self.index@[b];
                &&& 0 <= s < e <= n
                &&& span.position + span.length <= self.file_bytes().len()
                &&& self.file_bytes().subrange(span.position, span.position + span.length)
                    == encode_records(self.contents@.subrange(s, e))
            }),
    {
        let rs = self.contents@;
        let stride = self.block_stride as nat;
        let n = rs.len();
        let s = block_start(b, stride);
        let e = block_end(b, stride, n);
        crate::index::lemma_block_in_range(self.index@, rs, stride, b);
        let a = encode_records(rs.subrange(0, s));
        let m = encode_records(rs.subrange(s, e));
        let z = encode_records(rs.subrange(e, n as int));
        crate::format::lemma_encode_records_append(rs.subrange(0, s), rs.subrange(s, e));
        assert(rs.subrange(0, s) + rs.subrange(s, e) =~= rs.subrange(0, e));
        crate::format::lemma_encode_records_append(rs.subrange(0, e), rs.subrange(e, n as int));
        assert(rs.subrange(0, e) + rs.subrange(e, n as int) =~= rs);
        assert(self.index@[b] == crate::index::span_of(rs, stride, b));
        assert((a + m + z).subrange(a.len() as int, (a.len() + m.len()) as int) =~= m);
    }

    /// The right bytes of a block decode.
    proof fn lemma_right_block_decodes(&self, key: Seq<u8>, block: Seq<u8>)
        requires
            self.wf(),
        ensures
            (self.block_for(key) matches Some((p, l)) && block == self.file_bytes().subrange(
                p,
                p + l,
            )) ==> decode_records(block) is Some,
    {
        if let Some((p, l)) = self.block_for(key) {
            if block == self.file_bytes().subrange(p, p + l) {
                let spans = self.index@;
                let b = choose|b: int| is_floor(spans, key, b);
                self.lemma_block_bytes(b);
                let stride = self.block_stride as nat;
                let s = block_start(b, stride);
                let e = block_end(b, stride, self.contents@.len());
                crate::format::lemma_decode_encode_records(self.contents@.subrange(s, e));
            }
        }
    }

    /// Given the right bytes, a found record is the table's record of `key`.
    proof fn lemma_right_block(&self, key: Seq<u8>, block: Seq<u8>, rs: Seq<Record>, i: int)
        requires
            self.wf(),
            decode_records(block) == Some(rs),
            0 <= i < rs.len(),
            rs[i].key == key,
        ensures
            (self.block_for(key) matches Some((p, l)) && block == self.file_bytes().subrange(
                p,
                p + l,
            )) ==> lookup(self.contents(), key) == Some(rs[i]),
    {
        if let Some((p, l)) = self.block_for(key) {
            if block == self.file_bytes().subrange(p, p + l) {
                let spans = self.index@;
                let b = choose|b: int| is_floor(spans, key, b);
                self.lemma_block_bytes(b);
                let stride = self.block_stride as nat;
                let s = block_start(b, stride);
                let e = block_end(b, stride, self.contents@.len());
                let chunk = self.contents@.subrange(s, e);
                crate::format::lemma_decode_encode_records(chunk);
                assert(rs == chunk);
                assert(self.contents@[s + i] == rs[i]);
                crate::format::lemma_lookup_at(self.contents@, s + i);
            }
        }
    }

    /// Given the right bytes, a key missing from the block is missing from
    /// the table.
    proof fn lemma_right_block_absent(&self, key: Seq<u8>, block: Seq<u8>, rs: Seq<Record>)
        requires
            self.wf(),
            decode_records(block) == Some(rs),
            !has_key(rs, key),
        ensures
            (self.block_for(key) matches Some((p, l)) && block == self.file_bytes().subrange(
                p,
                p + l,
            )) ==> lookup(self.contents(), key) is None,
    {
        if let Some((p, l)) = self.block_for(key) {
            if block == self.file_bytes().subrange(p, p + l) {
                let all = self.contents@;
                let spans = self.index@;
                let b = choose|b: int| is_floor(spans, key, b);
                self.lemma_block_bytes(b);
                let stride = self.block_stride as nat;
                let s = block_start(b, stride);
                let e = block_end(b, stride, all.len());
                let chunk = all.subrange(s, e);
                crate::format::lemma_decode_encode_records(chunk);
                if has_key(all, key) {
                    let i = choose|i: int| 0 <= i < all.len() && (#[trigger] all[i]).key == key;
                    lemma_floor_holds_key(spans, all, stride, i, b);
                    assert(rs[i - s] == all[i]);
                }
            }
        }
    }
}

} // verus!
