//! The SSTable manager: the ordered list of tables (oldest first), reads that
//! go from the newest table to the oldest, the compaction rule, and the
//! k-way merge that compaction performs.
//!
//! The manager decides; the caller does the file work. A read is a short
//! conversation: `get` names the first block to read, `resume` takes its
//! bytes and either answers or names the next block.
use crate::bytes::{compare_bytes, lemma_lex_irreflexive, lemma_lex_transitive, lex_le, lex_lt};
use crate::error::StoreError;
use crate::format::{has_key, lookup, records_of, sorted_keys, InternalPair, Record};
use crate::table::{found, SSTable};
use vstd::prelude::*;

verus! {

/// `i` is the newest of the first `upto` tables that holds `key`.
pub open spec fn holds_last(ts: Seq<Seq<Record>>, key: Seq<u8>, upto: int, i: int) -> bool {
    &&& 0 <= i < upto
    &&& has_key(ts[i], key)
    &&& forall|j: int| i < j < upto ==> !has_key(#[trigger] ts[j], key)
}

/// The record of `key` in the newest of the first `upto` tables that holds
/// it: what a read answers.
pub open spec fn newest(ts: Seq<Seq<Record>>, key: Seq<u8>, upto: int) -> Option<Record> {
    if exists|i: int| holds_last(ts, key, upto, i) {
        lookup(ts[choose|i: int| holds_last(ts, key, upto, i)], key)
    } else {
        None
    }
}

proof fn lemma_holds_last_unique(ts: Seq<Seq<Record>>, key: Seq<u8>, upto: int, i: int, j: int)
    requires
        holds_last(ts, key, upto, i),
        holds_last(ts, key, upto, j),
    ensures
        i == j,
{
    if i < j {
        assert(!has_key(ts[j], key));
    } else if j < i {
        assert(!has_key(ts[i], key));
    }
}

/// Tables that lack `key` change nothing about a read of it.
pub proof fn lemma_newest_skip(ts: Seq<Seq<Record>>, key: Seq<u8>, lo: int, hi: int)
    requires
        0 <= lo <= hi,
        forall|j: int| lo <= j < hi ==> !has_key(#[trigger] ts[j], key),
    ensures
        newest(ts, key, hi) == newest(ts, key, lo),
{
    if exists|i: int| holds_last(ts, key, hi, i) {
        let i = choose|i: int| holds_last(ts, key, hi, i);
        assert(holds_last(ts, key, lo, i));
        let k = choose|k: int| holds_last(ts, key, lo, k);
        lemma_holds_last_unique(ts, key, lo, i, k);
    } else if exists|i: int| holds_last(ts, key, lo, i) {
        let i = choose|i: int| holds_last(ts, key, lo, i);
        assert(holds_last(ts, key, hi, i));
    }
}

/// A table that holds `key` answers for every older one.
pub proof fn lemma_newest_top(ts: Seq<Seq<Record>>, key: Seq<u8>, t: int)
    requires
        0 <= t,
        has_key(ts[t], key),
    ensures
        newest(ts, key, t + 1) == lookup(ts[t], key),
{
    let upto = t + 1;
    assert(holds_last(ts, key, upto, t));
    let k = choose|k: int| holds_last(ts, key, upto, k);
    lemma_holds_last_unique(ts, key, upto, t, k);
}

/// Read precedence: when a key was written into an older table and again
/// into a newer one, a read answers with the record of the newer.
pub proof fn lemma_read_precedence(older: Seq<Record>, newer: Seq<Record>, key: Seq<u8>)
    requires
        has_key(older, key),
        has_key(newer, key),
    ensures
        newest(seq![older, newer], key, 2) == lookup(newer, key),
{
    lemma_newest_top(seq![older, newer], key, 1);
}

/// `i` is the first of the runs `ls` (newest first) that holds `key`.
pub open spec fn first_holder(ls: Seq<Seq<Record>>, key: Seq<u8>, i: int) -> bool {
    &&& 0 <= i < ls.len()
    &&& has_key(ls[i], key)
    &&& forall|j: int| 0 <= j < i ==> !has_key(#[trigger] ls[j], key)
}

/// The record of `key` in the first run (the newest) that holds it.
pub open spec fn first_found(ls: Seq<Seq<Record>>, key: Seq<u8>) -> Option<Record> {
    if exists|i: int| first_holder(ls, key, i) {
        lookup(ls[choose|i: int| first_holder(ls, key, i)], key)
    } else {
        None
    }
}

/// The records of each of `lists`.
pub open spec fn runs_of(lists: Seq<Vec<InternalPair>>) -> Seq<Seq<Record>> {
    lists.map_values(|v: Vec<InternalPair>| records_of(v@))
}

proof fn lemma_first_holder_unique(ls: Seq<Seq<Record>>, key: Seq<u8>, i: int, j: int)
    requires
        first_holder(ls, key, i),
        first_holder(ls, key, j),
    ensures
        i == j,
{
    if i < j {
        assert(!has_key(ls[i], key));
    } else if j < i {
        assert(!has_key(ls[j], key));
    }
}

/// The records left in the runs past the cursors `pos`, over the first `k`
/// runs.
pub open spec fn left(ls: Seq<Seq<Record>>, pos: Seq<usize>, k: int) -> int
    decreases k,
{
    if k <= 0 {
        0
    } else {
        left(ls, pos, k - 1) + (ls[k - 1].len() - pos[k - 1])
    }
}

proof fn lemma_left_decreases(ls: Seq<Seq<Record>>, p: Seq<usize>, q: Seq<usize>, k: int, b: int)
    requires
        0 <= k <= ls.len(),
        p.len() == ls.len(),
        q.len() == ls.len(),
        forall|i: int| 0 <= i < k ==> p[i] <= #[trigger] q[i] <= ls[i].len(),
    ensures
        left(ls, q, k) <= left(ls, p, k),
        0 <= b < k && p[b] < q[b] ==> left(ls, q, k) < left(ls, p, k),
        left(ls, q, k) >= 0,
    decreases k,
{
    if k > 0 {
        lemma_left_decreases(ls, p, q, k - 1, b);
    }
}

/// Compaction keeps every read: when the runs `ls` are the tables `ts`
/// newest first, the merged run answers for each key what a read of the
/// tables answers.
pub proof fn lemma_compaction_keeps_reads(ts: Seq<Seq<Record>>, merged: Seq<Record>)
    requires
        forall|key: Seq<u8>| #[trigger] lookup(merged, key) == first_found(ts.reverse(), key),
    ensures
        forall|key: Seq<u8>| #[trigger] lookup(merged, key) == newest(ts, key, ts.len() as int),
{
    let ls = ts.reverse();
    let n = ts.len() as int;
    assert forall|key: Seq<u8>| #[trigger] lookup(merged, key) == newest(ts, key, n) by {
        if exists|i: int| first_holder(ls, key, i) {
            let i = choose|i: int| first_holder(ls, key, i);
            assert(ls[i] == ts[n - 1 - i]);
            assert forall|j: int| n - 1 - i < j < n implies !has_key(#[trigger] ts[j], key) by {
                assert(ls[n - 1 - j] == ts[j]);
            }
            assert(holds_last(ts, key, n, n - 1 - i));
            let t = choose|t: int| holds_last(ts, key, n, t);
            lemma_holds_last_unique(ts, key, n, n - 1 - i, t);
        } else if exists|t: int| holds_last(ts, key, n, t) {
            let t = choose|t: int| holds_last(ts, key, n, t);
            assert(ls[n - 1 - t] == ts[t]);
            assert forall|j: int| 0 <= j < n - 1 - t implies !has_key(#[trigger] ls[j], key) by {
                assert(ls[j] == ts[n - 1 - j]);
            }
            assert(first_holder(ls, key, n - 1 - t));
        }
    }
}

/// The next step of a read: a block to read, or the answer.
pub enum Probe {
    /// Read `length` bytes at `position` in the file of table `table`, and
    /// hand them to `resume`.
    Read { table: usize, position: usize, length: usize },
    /// The answer: the newest record of the key, a tombstone included, or
    /// `None` when no table holds the key.
    Done(Option<InternalPair>),
}

/// The sum of the sizes of `ts`.
pub open spec fn total_size(ts: Seq<SSTable>) -> nat
    decreases ts.len(),
{
    if ts.len() == 0 {
        0
    } else {
        total_size(ts.drop_last()) + ts.last().size_spec()
    }
}

/// How adding a table of the records `rs` ends, when the sizes of all tables
/// would then add up to `total`.
pub open spec fn table_outcome(rs: Seq<Record>, total: int) -> Result<(), StoreError> {
    if !sorted_keys(rs) {
        Err(StoreError::UnsortedRecords)
    } else if !crate::format::all_ok(rs) {
        Err(StoreError::EmptyValue)
    } else if crate::format::encode_records(rs).len() > usize::MAX || total > usize::MAX {
        Err(StoreError::SizeOverflow)
    } else {
        Ok(())
    }
}

/// `after` is `before` with one more table, the newest, that holds `rs` and
/// counts `size` for compaction.
pub open spec fn appended(before: Seq<SSTable>, after: Seq<SSTable>, rs: Seq<Record>, size: nat) -> bool {
    &&& after.len() == before.len() + 1
    &&& after.drop_last() == before
    &&& after.last().wf()
    &&& after.last().contents() == rs
    &&& after.last().size_spec() == size
}

/// Owns the tables of the store, oldest first.
pub struct SSTableManager {
    block_stride: usize,
    /// The compaction threshold, in percent.
    compaction_trigger_ratio: u64,
    tables: Vec<SSTable>,
}

impl SSTableManager {
    /// The records of each table, oldest first.
    pub open spec fn contents(&self) -> Seq<Seq<Record>> {
        self.tables_spec().map_values(|t: SSTable| t.contents())
    }

    /// The tables, oldest first.
    pub closed spec fn tables_spec(&self) -> Seq<SSTable> {
        self.tables@
    }

    pub closed spec fn ratio(&self) -> u64 {
        self.compaction_trigger_ratio
    }

    pub closed spec fn stride(&self) -> usize {
        self.block_stride
    }

    pub closed spec fn wf(&self) -> bool {
        &&& self.block_stride >= 1
        &&& forall|i: int| 0 <= i < self.tables@.len() ==> (#[trigger] self.tables@[i]).wf()
        &&& total_size(self.tables@) <= usize::MAX
    }

    /// A manager with no tables yet; tables already on disk are added with
    /// `open_table`, oldest first.
    pub fn new(block_stride: usize, compaction_trigger_ratio: u64) -> (r: Self)
        requires
            block_stride >= 1,
        ensures
            r.wf(),
            r.tables_spec() == Seq::<SSTable>::empty(),
            r.contents() == Seq::<Seq<Record>>::empty(),
            r.ratio() == compaction_trigger_ratio,
            r.stride() == block_stride,
    {
        let r = SSTableManager { block_stride, compaction_trigger_ratio, tables: Vec::new() };
        proof {
            assert(r.tables_spec() =~= Seq::<SSTable>::empty());
            assert(r.contents() =~= Seq::<Seq<Record>>::empty());
        }
        r
    }

    /// What a well-formed manager keeps: each table well formed, and the
    /// sizes adding up in a `usize`.
    pub proof fn lemma_tables(&self)
        requires
            self.wf(),
        ensures
            forall|i: int| 0 <= i < self.tables_spec().len() ==> (#[trigger] self.tables_spec()[i]).wf(),
            total_size(self.tables_spec()) <= usize::MAX,
    {
    }

    /// The number of tables.
    pub fn table_count(&self) -> (r: usize)
        ensures
            r == self.tables_spec().len(),
            r == self.contents().len(),
    {
        self.tables.len()
    }

    /// Table `i`, counted from the oldest.
    pub fn table(&self, i: usize) -> (r: &SSTable)
        requires
            self.wf(),
            i < self.contents().len(),
        ensures
            r.wf(),
            r.contents() == self.contents()[i as int],
    {
        &self.tables[i]
    }

    /// Appends `table` as the newest; fails when the sizes would no longer
    /// add up in a `usize`.
    fn push_table(&mut self, table: SSTable) -> (r: Result<(), StoreError>)
        requires
            old(self).wf(),
            table.wf(),
        ensures
            final(self).wf(),
            final(self).ratio() == old(self).ratio(),
            final(self).stride() == old(self).stride(),
            total_size(old(self).tables_spec()) + table.size_spec() <= usize::MAX ==> r == Ok::<
                (),
                StoreError,
            >(()) && final(self).tables_spec() == old(self).tables_spec().push(table),
            total_size(old(self).tables_spec()) + table.size_spec() > usize::MAX ==> r == Err::<
                (),
                StoreError,
            >(StoreError::SizeOverflow) && final(self).tables_spec() == old(self).tables_spec(),
    {
        let total = self.total();
        if table.get_size() > usize::MAX - total {
            return Err(StoreError::SizeOverflow);
        }
        let ghost before = self.tables@;
        self.tables.push(table);
        proof {
            assert(self.tables@.drop_last() =~= before);
        }
        Ok(())
    }

    /// Adds the table whose file holds `bytes` as the newest.
    pub fn open_table(&mut self, bytes: &[u8]) -> (r: Result<(), StoreError>)
        requires
            old(self).wf(),
        ensures
            final(self).wf(),
            final(self).ratio() == old(self).ratio(),
            final(self).stride() == old(self).stride(),
            crate::format::decode_records(bytes@) is None ==> r == Err::<(), StoreError>(
                StoreError::MalformedRecord,
            ),
            crate::format::decode_records(bytes@) matches Some(rs) ==> (r is Ok <==> (sorted_keys(rs)
                && total_size(old(self).tables_spec()) + crate::format::content_size(rs)
                <= usize::MAX)),
            crate::format::decode_records(bytes@) matches Some(rs) && !sorted_keys(rs) ==> r
                == Err::<(), StoreError>(StoreError::UnsortedRecords),
            crate::format::decode_records(bytes@) matches Some(rs) && sorted_keys(rs) && total_size(
                old(self).tables_spec(),
            ) + crate::format::content_size(rs) > usize::MAX ==> r == Err::<(), StoreError>(
                StoreError::SizeOverflow,
            ),
            r is Ok ==> (crate::format::decode_records(bytes@) matches Some(rs) && appended(
                old(self).tables_spec(),
                final(self).tables_spec(),
                rs,
                crate::format::content_size(rs),
            )),
            r is Err ==> final(self).tables_spec() == old(self).tables_spec(),
    {
        let table = SSTable::open(bytes, self.block_stride)?;
        let ghost before = self.tables_spec();
        let r = self.push_table(table);
        proof {
            if r is Ok {
                assert(self.tables_spec().drop_last() =~= before);
            }
        }
        r
    }

    /// Adds a table of `pairs` (whose encodings the caller has written to the
    /// new table's file) as the newest, counting `size` for compaction.
    pub fn create(&mut self, pairs: Vec<InternalPair>, size: usize) -> (r: Result<(), StoreError>)
        requires
            old(self).wf(),
        ensures
            final(self).wf(),
            final(self).ratio() == old(self).ratio(),
            final(self).stride() == old(self).stride(),
            r is Ok ==> appended(
                old(self).tables_spec(),
                final(self).tables_spec(),
                records_of(pairs@),
                size as nat,
            ),
            r is Err ==> final(self).tables_spec() == old(self).tables_spec(),
            r == table_outcome(records_of(pairs@), total_size(old(self).tables_spec()) + size),
    {
        let table = SSTable::new(pairs, size, self.block_stride)?;
        let ghost before = self.tables_spec();
        let r = self.push_table(table);
        proof {
            if r is Ok {
                assert(self.tables_spec().drop_last() =~= before);
            }
        }
        r
    }

    /// The sum of the table sizes.
    fn total(&self) -> (r: usize)
        requires
            self.wf(),
        ensures
            r == total_size(self.tables_spec()),
    {
        let mut sum: usize = 0;
        let mut i: usize = 0;
        while i < self.tables.len()
            invariant
                self.wf(),
                i <= self.tables@.len(),
                sum == total_size(self.tables@.subrange(0, i as int)),
            decreases self.tables@.len() - i,
        {
            proof {
                assert(self.tables@.subrange(0, i + 1).drop_last() =~= self.tables@.subrange(
                    0,
                    i as int,
                ));
                lemma_total_size_prefix(self.tables@, i + 1);
            }
            sum = sum + self.tables[i].get_size();
            i = i + 1;
        }
        proof {
            assert(self.tables@.subrange(0, i as int) =~= self.tables@);
        }
        sum
    }

    /// The size of the table that compaction would write, when the sizes of
    /// the newer tables over the size of the oldest exceed the threshold
    /// (`100 * newer > ratio * oldest`); `None` otherwise, and always with
    /// fewer than two tables.
    pub fn should_compact(&self) -> (r: Option<usize>)
        requires
            self.wf(),
        ensures
            self.tables_spec().len() < 2 ==> r is None,
            r == (if self.tables_spec().len() == 0 {
                None
            } else {
                let total = total_size(self.tables_spec());
                let oldest = self.tables_spec()[0].size_spec();
                if 100 * (total - oldest) > self.ratio() * oldest {
                    Some(total as usize)
                } else {
                    None
                }
            }),
    {
        if self.tables.len() == 0 {
            return None;
        }
        let total = self.total();
        let oldest = self.tables[0].get_size();
        proof {
            lemma_total_size_prefix(self.tables@, 1);
            assert(self.tables@.subrange(0, 1).drop_last() =~= Seq::<SSTable>::empty());
        }
        proof {
            if self.tables@.len() == 1 {
                assert(self.tables@.drop_last() =~= Seq::<SSTable>::empty());
                assert(total_size(self.tables@) == total_size(self.tables@.drop_last())
                    + self.tables@.last().size_spec());
                assert(total == oldest);
            }
        }
        let newer = total - oldest;
        let ratio = self.compaction_trigger_ratio as u128;
        let base = oldest as u128;
        assert(ratio * base <= u128::MAX) by (nonlinear_arith)
            requires
                ratio <= u64::MAX,
                base <= u64::MAX,
        ;
        if (newer as u128) * 100 > ratio * base {
            Some(total)
        } else {
            None
        }
    }

    /// Replaces every table by one table of `pairs`, the result of a
    /// compaction, counting `size`. The caller has deleted the old files and
    /// written the new one.
    pub fn replace_all(&mut self, pairs: Vec<InternalPair>, size: usize) -> (r: Result<(), StoreError>)
        requires
            old(self).wf(),
        ensures
            final(self).wf(),
            final(self).ratio() == old(self).ratio(),
            final(self).stride() == old(self).stride(),
            r is Ok ==> appended(
                Seq::empty(),
                final(self).tables_spec(),
                records_of(pairs@),
                size as nat,
            ),
            r is Err ==> final(self).tables_spec() == old(self).tables_spec(),
            r == table_outcome(records_of(pairs@), size as int),
    {
        let table = SSTable::new(pairs, size, self.block_stride)?;
        let ghost t = table;
        self.tables = Vec::new();
        self.tables.push(table);
        proof {
            assert(self.tables@ =~= seq![t]);
            assert(seq![t].drop_last() =~= Seq::<SSTable>::empty());
            assert(total_size(seq![t]) == total_size(Seq::<SSTable>::empty()) + t.size_spec());
        }
        Ok(())
    }

    /// The first step of a read of `key`: the newest table whose index can
    /// hold the key, or the answer `None` when no index can.
    pub fn get(&self, key: &[u8]) -> (r: Probe)
        requires
            self.wf(),
        ensures
            self.probes(key@, r, self.contents().len() as int),
    {
        self.probe_below(key, self.tables.len())
    }

    /// The next step of a read of `key`, given the bytes of the block that
    /// the step `Read { table, .. }` named. With the right bytes the answer,
    /// once given, is the record of the newest table that holds the key.
    pub fn resume(&self, key: &[u8], table: usize, block: &[u8]) -> (r: Result<Probe, StoreError>)
        requires
            self.wf(),
            table < self.contents().len(),
        ensures
            crate::format::decode_records(block@) is None ==> r == Err::<Probe, StoreError>(
                StoreError::MalformedRecord,
            ),
            r matches Ok(Probe::Done(Some(p))) ==> p@.key == key@,
            r matches Ok(Probe::Read { table: t, .. }) ==> t < table,
            (self.tables_spec()[table as int].block_for(key@) matches Some((p, l)) && block@
                == self.tables_spec()[table as int].file_bytes().subrange(p, p + l)) ==> r is Ok
                && self.probes(key@, r->Ok_0, table + 1),
    {
        let answer = self.tables[table].get(key, block)?;
        match answer {
            Some(pair) => {
                proof {
                    let ts = self.contents();
                    let t = self.tables@[table as int];
                    if let Some((p, l)) = t.block_for(key@) {
                        if block@ == t.file_bytes().subrange(p, p + l) {
                            assert(ts[table as int] == t.contents());
                            lemma_newest_top(ts, key@, table as int);
                        }
                    }
                }
                Ok(Probe::Done(Some(pair)))
            },
            None => {
                let next = self.probe_below(key, table);
                proof {
                    let ts = self.contents();
                    let t = self.tables@[table as int];
                    if let Some((p, l)) = t.block_for(key@) {
                        if block@ == t.file_bytes().subrange(p, p + l) {
                            assert(ts[table as int] == t.contents());
                            assert(!has_key(ts[table as int], key@));
                            lemma_newest_skip(ts, key@, table as int, table + 1);
                        }
                    }
                }
                Ok(next)
            },
        }
    }

    /// Merges the runs `lists`, ordered newest first, each sorted by key,
    /// into one sorted run. Each key of any run appears once, with the record
    /// of the newest run that holds it; tombstones are kept.
    pub fn compact_inner(lists: Vec<Vec<InternalPair>>) -> (r: Vec<InternalPair>)
        requires
            forall|i: int| 0 <= i < lists@.len() ==> sorted_keys(#[trigger] runs_of(lists@)[i]),
        ensures
            sorted_keys(records_of(r@)),
            forall|key: Seq<u8>| #[trigger]
                lookup(records_of(r@), key) == first_found(runs_of(lists@), key),
    {
        let ghost ls = runs_of(lists@);
        let n = lists.len();
        let mut pos: Vec<usize> = Vec::new();
        let mut k: usize = 0;
        while k < n
            invariant
                k <= n,
                pos@.len() == k,
                forall|i: int| 0 <= i < k ==> pos@[i] == 0,
            decreases n - k,
        {
            pos.push(0);
            k = k + 1;
        }
        let mut out: Vec<InternalPair> = Vec::new();
        loop
            invariant
                ls == runs_of(lists@),
                n == ls.len(),
                pos@.len() == n,
                forall|i: int| 0 <= i < n ==> sorted_keys(#[trigger] ls[i]),
                forall|i: int| 0 <= i < n ==> #[trigger] pos@[i] <= ls[i].len(),
                sorted_keys(records_of(out@)),
                forall|x: int, i: int, j: int|
                    0 <= x < out@.len() && 0 <= i < n && pos@[i] <= j < ls[i].len() ==> lex_lt(
                        #[trigger] records_of(out@)[x].key,
                        #[trigger] ls[i][j].key,
                    ),
                forall|i: int, j: int|
                    0 <= i < n && 0 <= j < pos@[i] ==> has_key(
                        records_of(out@),
                        #[trigger] ls[i][j].key,
                    ),
                forall|x: int|
                    0 <= x < out@.len() ==> first_found(ls, #[trigger] records_of(out@)[x].key)
                        == Some(records_of(out@)[x]),
            ensures
                forall|i: int| 0 <= i < n ==> #[trigger] pos@[i] == ls[i].len(),
                sorted_keys(records_of(out@)),
                forall|i: int, j: int|
                    0 <= i < n && 0 <= j < pos@[i] ==> has_key(
                        records_of(out@),
                        #[trigger] ls[i][j].key,
                    ),
                forall|x: int|
                    0 <= x < out@.len() ==> first_found(ls, #[trigger] records_of(out@)[x].key)
                        == Some(records_of(out@)[x]),
            decreases left(ls, pos@, n as int),
        {
            // The first run whose next record has the smallest key.
            let mut best: usize = n;
            let mut i: usize = 0;
            while i < n
                invariant
                    ls == runs_of(lists@),
                    n == ls.len(),
                    pos@.len() == n,
                    forall|a: int| 0 <= a < n ==> #[trigger] pos@[a] <= ls[a].len(),
                    i <= n,
                    best <= n,
                    best == n ==> forall|a: int| 0 <= a < i ==> #[trigger] pos@[a] == ls[a].len(),
                    best < n ==> best < i && pos@[best as int] < ls[best as int].len(),
                    best < n ==> forall|a: int|
                        0 <= a < i && #[trigger] pos@[a] < ls[a].len() ==> lex_le(
                            ls[best as int][pos@[best as int] as int].key,
                            ls[a][pos@[a] as int].key,
                        ),
                    best < n ==> forall|a: int|
                        0 <= a < best && #[trigger] pos@[a] < ls[a].len() ==> lex_lt(
                            ls[best as int][pos@[best as int] as int].key,
                            ls[a][pos@[a] as int].key,
                        ),
                decreases n - i,
            {
                assert(ls[i as int] == records_of(lists@[i as int]@));
                if pos[i] < lists[i].len() {
                    assert(ls[i as int][pos@[i as int] as int] == lists@[i as int]@[pos@[i as int] as int]@);
                    if best == n {
                        best = i;
                    } else {
                        assert(ls[best as int] == records_of(lists@[best as int]@));
                        assert(ls[best as int][pos@[best as int] as int] == lists@[best as int]@[pos@[best as int] as int]@);
                        let order = compare_bytes(
                            lists[i][pos[i]].key.as_slice(),
                            lists[best][pos[best]].key.as_slice(),
                        );
                        if let core::cmp::Ordering::Less = order {
                            proof {
                                let ki = ls[i as int][pos@[i as int] as int].key;
                                let kb = ls[best as int][pos@[best as int] as int].key;
                                assert forall|a: int|
                                    0 <= a < i && #[trigger] pos@[a] < ls[a].len() implies lex_lt(
                                    ki,
                                    ls[a][pos@[a] as int].key,
                                ) by {
                                    let ka = ls[a][pos@[a] as int].key;
                                    if kb == ka {
                                    } else {
                                        lemma_lex_transitive(ki, kb, ka);
                                    }
                                }
                            }
                            best = i;
                        } else {
                            proof {
                                let ki = ls[i as int][pos@[i as int] as int].key;
                                let kb = ls[best as int][pos@[best as int] as int].key;
                                if ki != kb {
                                    assert(lex_lt(kb, ki));
                                }
                            }
                        }
                    }
                }
                i = i + 1;
            }
            if best == n {
                break;
            }
            assert(ls[best as int] == records_of(lists@[best as int]@));
            let ghost old_pos = pos@;
            let ghost old_out = records_of(out@);
            let ghost b = best as int;
            let ghost m = ls[b][old_pos[b] as int].key;
            let ghost winner = ls[b][old_pos[b] as int];
            assert(winner == lists@[b]@[old_pos[b] as int]@);
            proof {
                // No newer run holds the smallest key.
                assert forall|a: int| 0 <= a < b implies !has_key(#[trigger] ls[a], m) by {
                    if has_key(ls[a], m) {
                        let j = choose|j: int| 0 <= j < ls[a].len() && (#[trigger] ls[a][j]).key == m;
                        if j < old_pos[a] {
                            assert(has_key(old_out, ls[a][j].key));
                            let x = choose|x: int| 0 <= x < old_out.len() && (#[trigger] old_out[x]).key == m;
                            assert(lex_lt(old_out[x].key, ls[b][old_pos[b] as int].key));
                            lemma_lex_irreflexive(m);
                        } else {
                            let c = ls[a][old_pos[a] as int].key;
                            assert(lex_lt(m, c));
                            if j > old_pos[a] {
                                assert(lex_lt(c, ls[a][j].key));
                                lemma_lex_transitive(m, c, m);
                            }
                            lemma_lex_irreflexive(m);
                        }
                    }
                }
                assert(has_key(ls[b], m));
                assert(first_holder(ls, m, b));
                let h = choose|h: int| first_holder(ls, m, h);
                lemma_first_holder_unique(ls, m, b, h);
                crate::format::lemma_lookup_at(ls[b], old_pos[b] as int);
            }
            let pair = lists[best][pos[best]].duplicate();
            out.push(pair);
            proof {
                assert(records_of(out@) =~= old_out.push(winner));
                let o = records_of(out@);
                assert forall|x: int, y: int| 0 <= x < y < o.len() implies lex_lt(o[x].key, o[y].key) by {
                    if y == o.len() - 1 {
                        assert(lex_lt(old_out[x].key, ls[b][old_pos[b] as int].key));
                    }
                }
            }
            // Move every run whose next record has the smallest key past it.
            let min_key = lists[best][pos[best]].key.as_slice();
            let mut i: usize = 0;
            while i < n
                invariant
                    ls == runs_of(lists@),
                    n == ls.len(),
                    pos@.len() == n,
                    old_pos.len() == n,
                    0 <= b < n,
                    min_key@ == m,
                    i <= n,
                    forall|a: int| 0 <= a < i ==> #[trigger] pos@[a] == (if old_pos[a] < ls[a].len()
                        && ls[a][old_pos[a] as int].key == m {
                        old_pos[a] + 1
                    } else {
                        old_pos[a] as int
                    }),
                    forall|a: int| i <= a < n ==> #[trigger] pos@[a] == old_pos[a],
                    forall|a: int| 0 <= a < n ==> #[trigger] old_pos[a] <= ls[a].len(),
                decreases n - i,
            {
                assert(ls[i as int] == records_of(lists@[i as int]@));
                if pos[i] < lists[i].len() {
                    assert(ls[i as int][pos@[i as int] as int] == lists@[i as int]@[pos@[i as int] as int]@);
                    if let core::cmp::Ordering::Equal = compare_bytes(
                        lists[i][pos[i]].key.as_slice(),
                        min_key,
                    ) {
                        let next = pos[i] + 1;
                        pos[i] = next;
                    }
                }
                i = i + 1;
            }
            proof {
                let o = records_of(out@);
                let np = pos@;
                assert forall|a: int| 0 <= a < n implies #[trigger] np[a] <= ls[a].len() by {}
                // Everything left sorts after everything written.
                assert forall|x: int, a: int, j: int|
                    0 <= x < o.len() && 0 <= a < n && np[a] <= j < ls[a].len() implies lex_lt(
                    #[trigger] o[x].key,
                    #[trigger] ls[a][j].key,
                ) by {
                    assert(old_pos[a] <= np[a]);
                    if x < old_out.len() {
                        assert(o[x] == old_out[x]);
                    } else {
                        let c = ls[a][old_pos[a] as int].key;
                        if c == m {
                            assert(j > old_pos[a]);
                            assert(lex_lt(c, ls[a][j].key));
                        } else {
                            assert(lex_le(m, c));
                            assert(lex_lt(m, c));
                            if j > old_pos[a] {
                                assert(lex_lt(c, ls[a][j].key));
                                lemma_lex_transitive(m, c, ls[a][j].key);
                            }
                        }
                    }
                }
                assert forall|a: int, j: int| 0 <= a < n && 0 <= j < np[a] implies has_key(
                    o,
                    #[trigger] ls[a][j].key,
                ) by {
                    if j < old_pos[a] {
                        assert(has_key(old_out, ls[a][j].key));
                        let x = choose|x: int| 0 <= x < old_out.len() && (#[trigger] old_out[x]).key == ls[a][j].key;
                        assert(o[x] == old_out[x]);
                    } else {
                        assert(o[o.len() - 1].key == m);
                    }
                }
                assert forall|x: int| 0 <= x < o.len() implies first_found(ls, #[trigger] o[x].key)
                    == Some(o[x]) by {
                    if x < old_out.len() {
                        assert(o[x] == old_out[x]);
                    }
                }
                lemma_left_decreases(ls, old_pos, np, n as int, b);
            }
        }
        proof {
            let o = records_of(out@);
            assert forall|key: Seq<u8>| #[trigger] lookup(o, key) == first_found(ls, key) by {
                if has_key(o, key) {
                    let x = choose|x: int| 0 <= x < o.len() && (#[trigger] o[x]).key == key;
                    crate::format::lemma_lookup_at(o, x);
                } else if exists|i: int| first_holder(ls, key, i) {
                    let i = choose|i: int| first_holder(ls, key, i);
                    let j = choose|j: int| 0 <= j < ls[i].len() && (#[trigger] ls[i][j]).key == key;
                    assert(has_key(o, ls[i][j].key));
                }
            }
        }
        out
    }

    /// `files` holds, oldest first, the bytes of every table's file.
    pub open spec fn files_match(&self, files: Seq<Vec<u8>>) -> bool {
        &&& files.len() == self.tables_spec().len()
        &&& forall|i: int| 0 <= i < files.len() ==> (#[trigger] files[i])@
            == self.tables_spec()[i].file_bytes()
    }

    /// The merge that compaction writes: the records of every table, read
    /// from `files` (the tables' files, oldest first), merged newest first by
    /// `compact_inner`. With the right files, each key has the record a read
    /// of the tables answers. `MalformedRecord` or `UnsortedRecords` when a
    /// file does not decode to a sorted run.
    pub fn merge_tables(&self, files: &Vec<Vec<u8>>) -> (r: Result<Vec<InternalPair>, StoreError>)
        requires
            self.wf(),
            files@.len() == self.tables_spec().len(),
        ensures
            r matches Ok(m) ==> sorted_keys(records_of(m@)),
            r is Err ==> r == Err::<Vec<InternalPair>, StoreError>(StoreError::MalformedRecord)
                || r == Err::<Vec<InternalPair>, StoreError>(StoreError::UnsortedRecords),
            self.files_match(files@) ==> r is Ok && forall|key: Seq<u8>| #[trigger]
                lookup(records_of(r->Ok_0@), key) == newest(
                    self.contents(),
                    key,
                    self.contents().len() as int,
                ),
    {
        let n = self.tables.len();
        let ghost ts = self.contents();
        let mut runs: Vec<Vec<InternalPair>> = Vec::new();
        let mut i: usize = n;
        while i > 0
            invariant
                self.wf(),
                ts == self.contents(),
                n == ts.len(),
                files@.len() == n,
                i <= n,
                runs@.len() == n - i,
                forall|j: int| 0 <= j < runs@.len() ==> sorted_keys(#[trigger] runs_of(runs@)[j]),
                self.files_match(files@) ==> forall|j: int|
                    0 <= j < runs@.len() ==> #[trigger] runs_of(runs@)[j] == ts[n - 1 - j],
            decreases i,
        {
            i = i - 1;
            let table = &self.tables[i];
            let run = table.get_all(files[i].as_slice())?;
            proof {
                if self.files_match(files@) {
                    assert(files@[i as int]@ == self.tables@[i as int].file_bytes());
                    table.lemma_sorted();
                }
            }
            if !crate::format::keys_ascending(run.as_slice()) {
                return Err(StoreError::UnsortedRecords);
            }
            proof {
                if self.files_match(files@) {
                    assert(files@[i as int]@ == self.tables@[i as int].file_bytes());
                    assert(ts[i as int] == self.tables@[i as int].contents());
                }
            }
            let ghost before = runs@;
            runs.push(run);
            proof {
                assert(runs@.drop_last() == before);
                assert forall|j: int| 0 <= j < runs@.len() implies sorted_keys(
                    #[trigger] runs_of(runs@)[j],
                ) by {
                    if j < before.len() {
                        assert(runs_of(runs@)[j] == runs_of(before)[j]);
                    }
                }
                if self.files_match(files@) {
                    assert forall|j: int| 0 <= j < runs@.len() implies #[trigger] runs_of(runs@)[j]
                        == ts[n - 1 - j] by {
                        if j < before.len() {
                            assert(runs_of(runs@)[j] == runs_of(before)[j]);
                        }
                    }
                }
            }
        }
        let ghost lists = runs_of(runs@);
        let merged = Self::compact_inner(runs);
        proof {
            if self.files_match(files@) {
                assert(lists =~= ts.reverse());
                lemma_compaction_keeps_reads(ts, records_of(merged@));
            }
        }
        Ok(merged)
    }

    /// `r` is a right step of a read of `key` among the first `upto` tables.
    pub open spec fn probes(&self, key: Seq<u8>, r: Probe, upto: int) -> bool {
        match r {
            Probe::Read { table, position, length } => {
                &&& table < upto
                &&& self.tables_spec()[table as int].block_for(key) == Some(
                    (position as int, length as int),
                )
                &&& newest(self.contents(), key, upto) == newest(
                    self.contents(),
                    key,
                    table + 1,
                )
            },
            Probe::Done(x) => found(x) == newest(self.contents(), key, upto),
        }
    }

    /// The newest of the first `upto` tables whose index can hold `key`.
    fn probe_below(&self, key: &[u8], upto: usize) -> (r: Probe)
        requires
            self.wf(),
            upto <= self.contents().len(),
        ensures
            self.probes(key@, r, upto as int),
            r is Done ==> r == Probe::Done(None),
    {
        let ghost ts = self.contents();
        let mut t: usize = upto;
        while t > 0
            invariant
                self.wf(),
                ts == self.contents(),
                t <= upto <= ts.len(),
                forall|j: int| t <= j < upto ==> !has_key(#[trigger] ts[j], key@),
            decreases t,
        {
            let i = t - 1;
            assert(ts[i as int] == self.tables@[i as int].contents());
            match self.tables[i].locate(key) {
                Some((position, length)) => {
                    proof {
                        lemma_newest_skip(ts, key@, t as int, upto as int);
                    }
                    return Probe::Read { table: i, position, length };
                },
                None => {
                    proof {
                        assert(!has_key(ts[i as int], key@));
                    }
                },
            }
            t = i;
        }
        proof {
            lemma_newest_skip(ts, key@, 0, upto as int);
        }
        Probe::Done(None)
    }
}

proof fn lemma_total_size_prefix(ts: Seq<SSTable>, i: int)
    requires
        0 <= i <= ts.len(),
    ensures
        total_size(ts.subrange(0, i)) <= total_size(ts),
    decreases ts.len() - i,
{
    if i < ts.len() {
        lemma_total_size_prefix(ts, i + 1);
        assert(ts.subrange(0, i + 1).drop_last() =~= ts.subrange(0, i));
    } else {
        assert(ts.subrange(0, i) =~= ts);
    }
}

} // verus!
