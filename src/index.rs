//! The sparse block index of a table.
//!
//! A sorted run of records is cut into blocks of `block_stride` records (the
//! last one may be shorter). For each block the index keeps its first key and
//! the byte extent of its encoding, so that a point lookup reads one block.
use crate::bytes::{compare_bytes, lemma_lex_transitive, lex_le, lex_lt};
use crate::format::{encode_records, records_of, sorted_keys, InternalPair, Record};
use vstd::prelude::*;
use vstd::slice::slice_to_vec;

verus! {

/// What a block is: its first key and the byte extent of its encoding.
pub ghost struct BlockSpan {
    pub key: Seq<u8>,
    pub position: int,
    pub length: int,
}

/// A group of consecutive records of a table: its first key, and where its
/// encoding starts and how long it is.
#[derive(Debug, PartialEq, Eq)]
pub struct Block {
    key: Vec<u8>,
    position: usize,
    length: usize,
}

impl View for Block {
    type V = BlockSpan;

    closed spec fn view(&self) -> BlockSpan {
        BlockSpan { key: self.key@, position: self.position as int, length: self.length as int }
    }
}

impl Block {
    pub fn new(key: &[u8], position: usize, length: usize) -> (r: Self)
        ensures
            r@ == (BlockSpan { key: key@, position: position as int, length: length as int }),
    {
        Block { key: slice_to_vec(key), position, length }
    }

    pub fn set_length(&mut self, length: usize)
        ensures
            final(self)@ == (BlockSpan { length: length as int, ..old(self)@ }),
    {
        self.length = length;
    }
}

/// The index at which block `b` starts.
pub open spec fn block_start(b: int, stride: nat) -> int {
    b * stride
}

/// The index just past the end of block `b` of a run of `n` records.
pub open spec fn block_end(b: int, stride: nat, n: nat) -> int {
    if (b + 1) * stride < n {
        (b + 1) * stride
    } else {
        n as int
    }
}

/// Block `b` of the records `rs` cut every `stride` records.
pub open spec fn span_of(rs: Seq<Record>, stride: nat, b: int) -> BlockSpan {
    let start = block_start(b, stride);
    let end = block_end(b, stride, rs.len());
    BlockSpan {
        key: rs[start].key,
        position: encode_records(rs.subrange(0, start)).len() as int,
        length: encode_records(rs.subrange(start, end)).len() as int,
    }
}

/// `count` blocks of `stride` records cover `n` records, none of them empty.
pub open spec fn block_count_ok(count: nat, stride: nat, n: nat) -> bool {
    &&& count * stride >= n
    &&& count == 0 || (count - 1) * stride < n
}

/// The blocks `spans` are those of `rs` cut every `stride` records.
pub open spec fn spans_of(spans: Seq<BlockSpan>, rs: Seq<Record>, stride: nat) -> bool {
    &&& stride >= 1
    &&& block_count_ok(spans.len(), stride, rs.len())
    &&& forall|b: int| 0 <= b < spans.len() ==> #[trigger] spans[b] == span_of(rs, stride, b)
}

/// `b` is the block whose first key is the greatest one at or below `key`.
pub open spec fn is_floor(spans: Seq<BlockSpan>, key: Seq<u8>, b: int) -> bool {
    &&& 0 <= b < spans.len()
    &&& lex_le(spans[b].key, key)
    &&& b + 1 == spans.len() || lex_lt(key, spans[b + 1].key)
}

/// The extent of the floor block of `key`, if there is one.
pub open spec fn floor_extent(spans: Seq<BlockSpan>, key: Seq<u8>) -> Option<(int, int)> {
    if exists|b: int| is_floor(spans, key, b) {
        let b = choose|b: int| is_floor(spans, key, b);
        Some((spans[b].position, spans[b].length))
    } else {
        None
    }
}

/// First keys in strictly ascending order.
pub open spec fn ascending(spans: Seq<BlockSpan>) -> bool {
    forall|i: int, j: int| 0 <= i < j < spans.len() ==> lex_lt(spans[i].key, spans[j].key)
}

/// With ascending first keys a key has at most one floor block.
pub proof fn lemma_floor_unique(spans: Seq<BlockSpan>, key: Seq<u8>, b1: int, b2: int)
    requires
        ascending(spans),
        is_floor(spans, key, b1),
        is_floor(spans, key, b2),
    ensures
        b1 == b2,
{
    if b1 < b2 {
        lemma_floor_order(spans, key, b1, b2);
    } else if b2 < b1 {
        lemma_floor_order(spans, key, b2, b1);
    }
}

proof fn lemma_floor_order(spans: Seq<BlockSpan>, key: Seq<u8>, b1: int, b2: int)
    requires
        ascending(spans),
        is_floor(spans, key, b1),
        0 <= b2 < spans.len(),
        b1 < b2,
    ensures
        !is_floor(spans, key, b2),
{
    if is_floor(spans, key, b2) {
        let k1 = spans[b1 + 1].key;
        let k2 = spans[b2].key;
        if b1 + 1 < b2 {
            assert(lex_lt(k1, k2));
            if k2 == key {
                crate::bytes::lemma_lex_asymmetric(key, k1);
            } else {
                lemma_lex_transitive(key, k1, k2);
                lemma_lex_transitive(key, k2, key);
                crate::bytes::lemma_lex_irreflexive(key);
            }
        } else {
            if k2 == key {
                crate::bytes::lemma_lex_irreflexive(key);
            } else {
                crate::bytes::lemma_lex_asymmetric(key, k2);
            }
        }
    }
}

/// The floor block of a stored key is the block that holds it.
pub proof fn lemma_floor_holds_key(
    spans: Seq<BlockSpan>,
    rs: Seq<Record>,
    stride: nat,
    i: int,
    b: int,
)
    requires
        spans_of(spans, rs, stride),
        sorted_keys(rs),
        0 <= i < rs.len(),
        is_floor(spans, rs[i].key, b),
    ensures
        block_start(b, stride) <= i < block_end(b, stride, rs.len()),
{
    let n = rs.len();
    let start = block_start(b, stride);
    lemma_start_below(b, spans.len() as int, stride, n);
    assert(spans[b] == span_of(rs, stride, b));
    if i < start {
        assert(lex_lt(rs[i].key, rs[start].key));
        if rs[start].key == rs[i].key {
            crate::bytes::lemma_lex_irreflexive(rs[i].key);
        } else {
            crate::bytes::lemma_lex_asymmetric(rs[i].key, rs[start].key);
        }
    }
    if i >= block_end(b, stride, n) {
        if b + 1 < spans.len() {
            lemma_start_below(b + 1, spans.len() as int, stride, n);
            assert(spans[b + 1] == span_of(rs, stride, b + 1));
            let next = block_start(b + 1, stride);
            assert(next <= i);
            if next < i {
                assert(lex_lt(rs[next].key, rs[i].key));
                crate::bytes::lemma_lex_asymmetric(rs[i].key, rs[next].key);
            } else {
                crate::bytes::lemma_lex_irreflexive(rs[i].key);
            }
        } else {
            assert((b + 1) * stride >= n);
        }
    }
}

/// Every key of a block finds that block: its first key is the greatest
/// first key at or below the key.
pub proof fn lemma_block_is_floor(
    spans: Seq<BlockSpan>,
    rs: Seq<Record>,
    stride: nat,
    b: int,
    i: int,
)
    requires
        spans_of(spans, rs, stride),
        sorted_keys(rs),
        0 <= b < spans.len(),
        block_start(b, stride) <= i < block_end(b, stride, rs.len()),
    ensures
        is_floor(spans, rs[i].key, b),
{
    let n = rs.len();
    lemma_start_below(b, spans.len() as int, stride, n);
    assert(spans[b] == span_of(rs, stride, b));
    if b + 1 < spans.len() {
        lemma_start_below(b + 1, spans.len() as int, stride, n);
        assert(spans[b + 1] == span_of(rs, stride, b + 1));
        assert(block_start(b + 1, stride) == (b + 1) * stride);
    }
}

/// Every block holds at least one record.
pub proof fn lemma_block_in_range(spans: Seq<BlockSpan>, rs: Seq<Record>, stride: nat, b: int)
    requires
        spans_of(spans, rs, stride),
        0 <= b < spans.len(),
    ensures
        0 <= block_start(b, stride) < block_end(b, stride, rs.len()) <= rs.len(),
{
    lemma_start_below(b, spans.len() as int, stride, rs.len());
    assert(0 <= b * stride) by (nonlinear_arith)
        requires
            b >= 0,
    ;
    assert((b + 1) * stride == b * stride + stride) by (nonlinear_arith);
}

/// A key below the first key of the first block has no block.
pub proof fn lemma_below_first_has_no_floor(spans: Seq<BlockSpan>, key: Seq<u8>)
    requires
        ascending(spans),
        spans.len() > 0,
        lex_lt(key, spans[0].key),
    ensures
        floor_extent(spans, key) is None,
{
    if exists|b: int| is_floor(spans, key, b) {
        let b = choose|b: int| is_floor(spans, key, b);
        let kb = spans[b].key;
        if b > 0 {
            assert(lex_lt(spans[0].key, kb));
            lemma_lex_transitive(key, spans[0].key, kb);
        }
        if kb == key {
            crate::bytes::lemma_lex_irreflexive(key);
        } else {
            crate::bytes::lemma_lex_asymmetric(key, kb);
        }
    }
}

/// The entries of a table's index: one `Block` per `block_stride` records.
#[derive(Debug)]
pub struct Index {
    items: Vec<Block>,
}

impl View for Index {
    type V = Seq<BlockSpan>;

    closed spec fn view(&self) -> Seq<BlockSpan> {
        self.items@.map_values(|b: Block| b@)
    }
}

impl Index {
    /// First keys in strictly ascending order.
    pub open spec fn wf(&self) -> bool {
        ascending(self@)
    }

    /// The index of `pairs`, cut every `block_stride` records.
    pub fn new(pairs: Vec<InternalPair>, block_stride: usize) -> (r: Self)
        requires
            block_stride >= 1,
            sorted_keys(records_of(pairs@)),
            encode_records(records_of(pairs@)).len() <= usize::MAX,
        ensures
            r.wf(),
            spans_of(r@, records_of(pairs@), block_stride as nat),
    {
        let ghost rs = records_of(pairs@);
        let ghost stride = block_stride as nat;
        let n = pairs.len();
        let mut items: Vec<Block> = Vec::new();
        let mut start: usize = 0;
        let mut position: usize = 0;
        let mut b: usize = 0;
        while start < n
            invariant
                n == rs.len(),
                rs == records_of(pairs@),
                stride == block_stride,
                stride >= 1,
                sorted_keys(rs),
                encode_records(rs).len() <= usize::MAX,
                b == items@.len(),
                b <= start,
                start <= n,
                start < n ==> start == b * stride,
                start == n ==> b * stride >= n,
                b == 0 || (b - 1) * stride < n,
                position == encode_records(rs.subrange(0, start as int)).len(),
                forall|k: int| 0 <= k < b ==> #[trigger] items@[k]@ == span_of(rs, stride, k),
            decreases n - start,
        {
            let end = if n - start > block_stride {
                start + block_stride
            } else {
                n
            };
            proof {
                assert((b + 1) * stride == b * stride + stride) by (nonlinear_arith);
                assert(b <= b * stride) by (nonlinear_arith)
                    requires
                        stride >= 1,
                ;
                assert(end == block_end(b as int, stride, n as nat));
                crate::format::lemma_encode_records_append(
                    rs.subrange(0, start as int),
                    rs.subrange(start as int, end as int),
                );
                assert(rs.subrange(0, start as int) + rs.subrange(start as int, end as int)
                    =~= rs.subrange(0, end as int));
                crate::format::lemma_encode_records_append(
                    rs.subrange(0, end as int),
                    rs.subrange(end as int, n as int),
                );
                assert(rs.subrange(0, end as int) + rs.subrange(end as int, n as int) =~= rs);
                assert(records_of(pairs@.subrange(start as int, end as int)) =~= rs.subrange(
                    start as int,
                    end as int,
                ));
                assert(start == block_start(b as int, stride));
                assert(rs[start as int] == pairs@[start as int]@);
            }
            let length = encoded_run_len(&pairs, start, end);
            let mut block = Block::new(pairs[start].key.as_slice(), position, 0);
            block.set_length(length);
            assert(block@ == span_of(rs, stride, b as int));
            items.push(block);
            position = position + length;
            b = b + 1;
            start = end;
        }
        let r = Index { items };
        proof {
            assert forall|k: int| 0 <= k < r@.len() implies #[trigger] r@[k] == span_of(
                rs,
                stride,
                k,
            ) by {}
            assert forall|i: int, j: int| 0 <= i < j < r@.len() implies lex_lt(
                r@[i].key,
                r@[j].key,
            ) by {
                lemma_start_below(j, b as int, stride, n as nat);
                assert(i * stride < j * stride) by (nonlinear_arith)
                    requires
                        i < j,
                        stride >= 1,
                ;
                assert(r@[i] == span_of(rs, stride, i));
                assert(r@[j] == span_of(rs, stride, j));
            }
        }
        r
    }

    /// The blocks, in order.
    pub fn blocks(&self) -> (r: &[Block])
        ensures
            r@.map_values(|b: Block| b@) == self@,
    {
        self.items.as_slice()
    }

    /// The extent `(position, length)` of the block that holds `key` if any
    /// block does: the block whose first key is the greatest at or below
    /// `key`. `None` when `key` sorts before every block.
    pub fn get(&self, key: &[u8]) -> (r: Option<(usize, usize)>)
        requires
            self.wf(),
        ensures
            r is None <==> (self@.len() == 0 || lex_lt(key@, self@[0].key)),
            r is None <==> floor_extent(self@, key@) is None,
            r matches Some((p, l)) ==> floor_extent(self@, key@) == Some((p as int, l as int)),
    {
        let ghost spans = self@;
        let mut lo: usize = 0;
        let mut hi: usize = self.items.len();
        while lo < hi
            invariant
                spans == self@,
                self.wf(),
                lo <= hi <= spans.len(),
                spans.len() == self.items@.len(),
                forall|b: int| 0 <= b < lo ==> lex_le(#[trigger] spans[b].key, key@),
                forall|b: int| hi <= b < spans.len() ==> lex_lt(key@, #[trigger] spans[b].key),
            decreases hi - lo,
        {
            let mid = lo + (hi - lo) / 2;
            assert(spans[mid as int] == self.items@[mid as int]@);
            match compare_bytes(self.items[mid].key.as_slice(), key) {
                core::cmp::Ordering::Greater => {
                    proof {
                        assert forall|b: int| mid <= b < spans.len() implies lex_lt(
                            key@,
                            #[trigger] spans[b].key,
                        ) by {
                            if b > mid {
                                lemma_lex_transitive(key@, spans[mid as int].key, spans[b].key);
                            }
                        }
                    }
                    hi = mid;
                },
                _ => {
                    proof {
                        assert forall|b: int| 0 <= b < mid + 1 implies lex_le(
                            #[trigger] spans[b].key,
                            key@,
                        ) by {
                            if b < mid && spans[mid as int].key != key@ {
                                lemma_lex_transitive(spans[b].key, spans[mid as int].key, key@);
                            }
                        }
                    }
                    lo = mid + 1;
                },
            }
        }
        if lo == 0 {
            proof {
                if spans.len() > 0 {
                    assert(lex_lt(key@, spans[0].key));
                    lemma_below_first_has_no_floor(spans, key@);
                }
            }
            None
        } else {
            let block = &self.items[lo - 1];
            proof {
                assert(spans[lo - 1] == block@);
                assert(is_floor(spans, key@, lo - 1));
                let c = choose|c: int| is_floor(spans, key@, c);
                lemma_floor_unique(spans, key@, c, lo - 1);
                if spans.len() > 0 && lex_lt(key@, spans[0].key) {
                    let k0 = spans[0].key;
                    if k0 != key@ {
                        crate::bytes::lemma_lex_asymmetric(key@, k0);
                    } else {
                        crate::bytes::lemma_lex_irreflexive(key@);
                    }
                }
            }
            Some((block.position, block.length))
        }
    }
}

/// Every block but the last starts inside the run.
proof fn lemma_start_below(b: int, count: int, stride: nat, n: nat)
    requires
        0 <= b < count,
        count == 0 || (count - 1) * stride < n,
    ensures
        b * stride < n,
{
    assert(b * stride <= (count - 1) * stride) by (nonlinear_arith)
        requires
            b <= count - 1,
    ;
}

/// The length of the encodings of `pairs[start..end]`.
fn encoded_run_len(pairs: &Vec<InternalPair>, start: usize, end: usize) -> (r: usize)
    requires
        start <= end <= pairs@.len(),
        encode_records(records_of(pairs@.subrange(start as int, end as int))).len() <= usize::MAX,
    ensures
        r == encode_records(records_of(pairs@.subrange(start as int, end as int))).len(),
{
    let mut total: usize = 0;
    let mut i: usize = start;
    while i < end
        invariant
            start <= i <= end <= pairs@.len(),
            total == encode_records(records_of(pairs@.subrange(start as int, i as int))).len(),
            encode_records(records_of(pairs@.subrange(start as int, end as int))).len() <= usize::MAX,
        decreases end - i,
    {
        proof {
            let run = records_of(pairs@.subrange(start as int, i as int));
            let longer = records_of(pairs@.subrange(start as int, i + 1));
            assert(longer.drop_last() =~= run);
            crate::format::lemma_encode_records_append(
                longer,
                records_of(pairs@.subrange(i + 1, end as int)),
            );
            assert(longer + records_of(pairs@.subrange(i + 1, end as int)) =~= records_of(
                pairs@.subrange(start as int, end as int),
            ));
        }
        let pair = &pairs[i];
        let value_length = match &pair.value {
            Some(v) => v.len(),
            None => 0,
        };
        total = total + 16 + pair.key.len() + value_length;
        i = i + 1;
    }
    total
}

} // verus!
