//! The in-memory table: an ordered map from keys to values or tombstones,
//! with a counter of its live bytes and the flush trigger.
use crate::bytes::{compare_bytes, lemma_lex_asymmetric, lemma_lex_irreflexive, lemma_lex_transitive, lex_le, lex_lt};
use crate::command::Command;
use crate::format::{all_ok, has_key, lemma_lookup_at, lookup, record_ok, records_of, sorted_keys, InternalPair, Record};
use vstd::prelude::*;
use vstd::slice::slice_to_vec;

verus! {

/// What the in-memory table holds for a key: a value, or a tombstone.
#[derive(Clone, Debug, PartialEq, Eq)]
pub enum Entry {
    Value(Vec<u8>),
    Deleted,
}

impl View for Entry {
    type V = Option<Seq<u8>>;

    open spec fn view(&self) -> Option<Seq<u8>> {
        match self {
            Entry::Value(v) => Some(v@),
            Entry::Deleted => None,
        }
    }
}

/// The map from keys to values (`None` for a tombstone) that a sorted run
/// stands for.
pub open spec fn map_of(rs: Seq<Record>) -> Map<Seq<u8>, Option<Seq<u8>>> {
    Map::new(|k: Seq<u8>| has_key(rs, k), |k: Seq<u8>| lookup(rs, k)->Some_0.value)
}

/// The live bytes a record counts for: key and value, nothing for a
/// tombstone.
pub open spec fn contribution(r: Record) -> nat {
    match r.value {
        Some(v) => r.key.len() + v.len(),
        None => 0,
    }
}

/// The live bytes of a run: the sum over its live records of key length plus
/// value length.
pub open spec fn accounted(rs: Seq<Record>) -> nat
    decreases rs.len(),
{
    if rs.len() == 0 {
        0
    } else {
        accounted(rs.drop_last()) + contribution(rs.last())
    }
}

proof fn lemma_accounted_append(a: Seq<Record>, b: Seq<Record>)
    ensures
        accounted(a + b) == accounted(a) + accounted(b),
    decreases b.len(),
{
    if b.len() == 0 {
        assert(a + b =~= a);
    } else {
        lemma_accounted_append(a, b.drop_last());
        assert((a + b).drop_last() =~= a + b.drop_last());
    }
}

proof fn lemma_accounted_one(r: Record)
    ensures
        accounted(seq![r]) == contribution(r),
{
    let one = seq![r];
    assert(one.drop_last() =~= Seq::<Record>::empty());
    assert(accounted(one) == accounted(one.drop_last()) + contribution(one.last()));
}

/// Inserting a record at the place its key sorts to.
proof fn lemma_insert_sorted(rs: Seq<Record>, i: int, r: Record)
    requires
        sorted_keys(rs),
        0 <= i <= rs.len(),
        forall|j: int| 0 <= j < i ==> lex_lt(#[trigger] rs[j].key, r.key),
        forall|j: int| i <= j < rs.len() ==> lex_lt(r.key, #[trigger] rs[j].key),
    ensures
        sorted_keys(rs.insert(i, r)),
        all_ok(rs) && record_ok(r) ==> all_ok(rs.insert(i, r)),
        map_of(rs.insert(i, r)) == map_of(rs).insert(r.key, r.value),
        accounted(rs.insert(i, r)) == accounted(rs) + contribution(r),
{
    let n = rs.insert(i, r);
    assert forall|a: int, b: int| 0 <= a < b < n.len() implies lex_lt(n[a].key, n[b].key) by {
        if a < i && b > i {
            lemma_lex_transitive(rs[a].key, r.key, rs[b - 1].key);
        }
    }
    let left = rs.subrange(0, i);
    let right = rs.subrange(i, rs.len() as int);
    assert(n =~= left + seq![r] + right);
    assert(rs =~= left + right);
    lemma_accounted_append(left + seq![r], right);
    lemma_accounted_append(left, seq![r]);
    lemma_accounted_append(left, right);
    lemma_accounted_one(r);
    lemma_map_after(
        rs,
        n,
        r,
        i,
        |j: int| if j < i { j } else { j + 1 },
        |j: int| if j < i { j } else { j - 1 },
    );
}

/// Replacing the record at `i` by one with the same key.
proof fn lemma_replace_sorted(rs: Seq<Record>, i: int, r: Record)
    requires
        sorted_keys(rs),
        0 <= i < rs.len(),
        rs[i].key == r.key,
    ensures
        sorted_keys(rs.update(i, r)),
        all_ok(rs) && record_ok(r) ==> all_ok(rs.update(i, r)),
        map_of(rs.update(i, r)) == map_of(rs).insert(r.key, r.value),
        accounted(rs.update(i, r)) + contribution(rs[i]) == accounted(rs) + contribution(r),
{
    let n = rs.update(i, r);
    let left = rs.subrange(0, i);
    let right = rs.subrange(i + 1, rs.len() as int);
    assert(n =~= left + seq![r] + right);
    assert(rs =~= left + seq![rs[i]] + right);
    lemma_accounted_append(left + seq![r], right);
    lemma_accounted_append(left, seq![r]);
    lemma_accounted_append(left + seq![rs[i]], right);
    lemma_accounted_append(left, seq![rs[i]]);
    lemma_accounted_one(r);
    lemma_accounted_one(rs[i]);
    lemma_map_after(rs, n, r, i, |j: int| j, |j: int| j);
}

/// `n` holds `r` at `i` and the other records of `rs`, record `j` of `rs`
/// moved to `at(j)`; the map of `n` is that of `rs` with `r` put in.
proof fn lemma_map_after(
    rs: Seq<Record>,
    n: Seq<Record>,
    r: Record,
    i: int,
    at: spec_fn(int) -> int,
    back: spec_fn(int) -> int,
)
    requires
        sorted_keys(rs),
        sorted_keys(n),
        0 <= i < n.len(),
        n[i] == r,
        forall|j: int| 0 <= j < rs.len() && rs[j].key != r.key ==> 0 <= #[trigger] at(j) < n.len() && n[at(j)] == rs[j],
        forall|j: int| 0 <= j < n.len() && j != i ==> 0 <= #[trigger] back(j) < rs.len() && rs[back(j)] == n[j],
    ensures
        all_ok(rs) && record_ok(r) ==> all_ok(n),
        map_of(n) == map_of(rs).insert(r.key, r.value),
{
    assert forall|k: Seq<u8>| #[trigger] has_key(n, k) == (has_key(rs, k) || k == r.key) by {
        if has_key(rs, k) && k != r.key {
            let j = choose|j: int| 0 <= j < rs.len() && (#[trigger] rs[j]).key == k;
            assert(n[at(j)].key == k);
        }
        if k == r.key {
            assert(n[i].key == k);
        }
        if has_key(n, k) && k != r.key {
            let j = choose|j: int| 0 <= j < n.len() && (#[trigger] n[j]).key == k;
            assert(rs[back(j)].key == k);
        }
    }
    assert forall|k: Seq<u8>| has_key(n, k) implies #[trigger] lookup(n, k)->Some_0.value == (if k == r.key {
        r.value
    } else {
        lookup(rs, k)->Some_0.value
    }) by {
        if k == r.key {
            lemma_lookup_at(n, i);
        } else {
            let j = choose|j: int| 0 <= j < rs.len() && (#[trigger] rs[j]).key == k;
            lemma_lookup_at(rs, j);
            lemma_lookup_at(n, at(j));
        }
    }
    assert(map_of(n) =~= map_of(rs).insert(r.key, r.value));
    if all_ok(rs) && record_ok(r) {
        assert forall|j: int| 0 <= j < n.len() implies record_ok(#[trigger] n[j]) by {
            if j != i {
                assert(rs[back(j)] == n[j]);
            }
        }
    }
}

/// `r` is the live value the table held for `key` before a write: `None`
/// for a tombstone or an unknown key.
pub open spec fn prior_value(t: MemTable, key: Seq<u8>, r: Option<Vec<u8>>) -> bool {
    &&& r matches Some(v) ==> t@.contains_key(key) && t@[key] == Some(v@)
    &&& r is None ==> !t@.contains_key(key) || t@[key] is None
}

/// The live bytes that `key` counts for in `t`.
pub open spec fn counted(t: MemTable, key: Seq<u8>) -> nat {
    if t@.contains_key(key) && t@[key] is Some {
        key.len() + t@[key]->Some_0.len()
    } else {
        0
    }
}

/// `after` is `before` once `value` was put for `key`: the counter moves by
/// the live bytes replaced and added, and when it then exceeds the limit the
/// entries leave for a pending flush that holds them, with that count as its
/// size, and the table is empty with a zero counter.
pub open spec fn put_done(before: MemTable, after: MemTable, key: Seq<u8>, value: Seq<u8>) -> bool {
    let updated = before@.insert(key, Some(value));
    let count = before.counter() - counted(before, key) + key.len() + value.len();
    &&& after.wf()
    &&& after.limit() == before.limit()
    &&& if count > before.limit() {
        &&& after@ == Map::<Seq<u8>, Option<Seq<u8>>>::empty()
        &&& after.counter() == 0
        &&& after.pending() matches Some((ps, size))
        &&& map_of(ps) == updated
        &&& sorted_keys(ps)
        &&& all_ok(ps)
        &&& size == count
    } else {
        &&& after@ == updated
        &&& after.counter() == count
        &&& after.pending() is None
    }
}

/// `after` is `before` once `key` was deleted: a tombstone stands for it and
/// the counter drops by the live bytes it counted for.
pub open spec fn delete_done(before: MemTable, after: MemTable, key: Seq<u8>) -> bool {
    &&& after.wf()
    &&& after.limit() == before.limit()
    &&& after@ == before@.insert(key, None)
    &&& after.counter() == before.counter() - counted(before, key)
    &&& after.pending() == before.pending()
}

/// Read-your-writes: after a put that does not flush, the table holds the
/// value put for the key.
pub proof fn lemma_put_then_get(before: MemTable, after: MemTable, key: Seq<u8>, value: Seq<u8>)
    requires
        put_done(before, after, key, value),
        before.counter() - counted(before, key) + key.len() + value.len() <= before.limit(),
    ensures
        after@.contains_key(key),
        after@[key] == Some(value),
{
}

/// After a delete the table holds a tombstone for the key, whatever it held
/// before.
pub proof fn lemma_delete_then_get(before: MemTable, after: MemTable, key: Seq<u8>)
    requires
        delete_done(before, after, key),
    ensures
        after@.contains_key(key),
        after@[key] is None,
{
}

/// The flush trigger: a put flushes exactly when the counter it leaves
/// exceeds the limit. After a flush the table knows no key, and the flush
/// holds exactly the entries the table held with the new one.
pub proof fn lemma_flush_trigger(before: MemTable, after: MemTable, key: Seq<u8>, value: Seq<u8>)
    requires
        before.pending() is None,
        put_done(before, after, key, value),
    ensures
        (after.pending() is Some) == (before.counter() - counted(before, key) + key.len()
            + value.len() > before.limit()),
        after.pending() is Some ==> {
            &&& forall|k: Seq<u8>| !(#[trigger] after@.contains_key(k))
            &&& after.pending() matches Some((ps, _)) && map_of(ps) == before@.insert(
                key,
                Some(value),
            )
        },
{
}

/// The in-memory table.
pub struct MemTable {
    /// Sorted by key, one entry per key; `None` values are tombstones.
    entries: Vec<InternalPair>,
    /// The counter above which a put flushes the table.
    size_limit: usize,
    /// The live bytes of `entries`.
    actual_size: usize,
    /// A flush that a put started and that the caller has yet to carry to
    /// the manager.
    pending: Option<Command>,
}

impl View for MemTable {
    type V = Map<Seq<u8>, Option<Seq<u8>>>;

    closed spec fn view(&self) -> Map<Seq<u8>, Option<Seq<u8>>> {
        map_of(records_of(self.entries@))
    }
}

impl MemTable {
    /// The entries in key order.
    pub closed spec fn entries(&self) -> Seq<Record> {
        records_of(self.entries@)
    }

    /// The live-bytes counter.
    pub closed spec fn counter(&self) -> nat {
        self.actual_size as nat
    }

    pub closed spec fn limit(&self) -> nat {
        self.size_limit as nat
    }

    /// The records and size of the flush waiting to be carried out, if any.
    pub closed spec fn pending(&self) -> Option<(Seq<Record>, nat)> {
        match self.pending {
            Some(Command::Flush { pairs, size }) => Some((records_of(pairs@), size as nat)),
            _ => None,
        }
    }

    pub closed spec fn wf(&self) -> bool {
        &&& sorted_keys(records_of(self.entries@))
        &&& all_ok(records_of(self.entries@))
        &&& self.actual_size == accounted(records_of(self.entries@))
        &&& self.actual_size <= self.size_limit
        &&& (self.pending is Some ==> self.pending matches Some(Command::Flush { .. }))
    }

    /// Accounting: the counter always equals the sum, over the live entries,
    /// of key length plus value length; it never exceeds the limit between
    /// commands; the entries are sorted by key, one per key.
    pub proof fn lemma_counter_is_live_bytes(&self)
        requires
            self.wf(),
        ensures
            self.counter() == accounted(self.entries()),
            self.counter() <= self.limit(),
            sorted_keys(self.entries()),
            all_ok(self.entries()),
            self@ == map_of(self.entries()),
    {
    }

    /// An empty table that flushes once its counter exceeds `size_limit`.
    pub fn new(size_limit: usize) -> (r: Self)
        ensures
            r.wf(),
            r@ == Map::<Seq<u8>, Option<Seq<u8>>>::empty(),
            r.counter() == 0,
            r.limit() == size_limit,
            r.pending() is None,
    {
        let r = MemTable { entries: Vec::new(), size_limit, actual_size: 0, pending: None };
        proof {
            assert(records_of(r.entries@) =~= Seq::<Record>::empty());
            assert(r@ =~= Map::<Seq<u8>, Option<Seq<u8>>>::empty());
        }
        r
    }

    /// The counter above which a put flushes the table.
    pub fn size_limit(&self) -> (r: usize)
        ensures
            r == self.limit(),
    {
        self.size_limit
    }

    /// The live-bytes counter.
    pub fn actual_size(&self) -> (r: usize)
        ensures
            r == self.counter(),
    {
        self.actual_size
    }

    /// The place of `key`: the number of entries with smaller keys, and
    /// whether the entry there has `key`.
    fn find(&self, key: &[u8]) -> (r: (usize, bool))
        requires
            sorted_keys(records_of(self.entries@)),
        ensures
            r.0 <= self.entries@.len(),
            forall|j: int| 0 <= j < r.0 ==> lex_lt(#[trigger] records_of(self.entries@)[j].key, key@),
            forall|j: int| r.0 <= j < self.entries@.len() ==> lex_le(key@, #[trigger] records_of(self.entries@)[j].key),
            r.1 == (r.0 < self.entries@.len() && records_of(self.entries@)[r.0 as int].key == key@),
    {
        let ghost rs = records_of(self.entries@);
        let mut lo: usize = 0;
        let mut hi: usize = self.entries.len();
        while lo < hi
            invariant
                rs == records_of(self.entries@),
                sorted_keys(rs),
                lo <= hi <= rs.len(),
                forall|j: int| 0 <= j < lo ==> lex_lt(#[trigger] rs[j].key, key@),
                forall|j: int| hi <= j < rs.len() ==> lex_le(key@, #[trigger] rs[j].key),
            decreases hi - lo,
        {
            let mid = lo + (hi - lo) / 2;
            assert(rs[mid as int] == self.entries@[mid as int]@);
            match compare_bytes(self.entries[mid].key.as_slice(), key) {
                core::cmp::Ordering::Less => {
                    proof {
                        assert forall|j: int| 0 <= j < mid + 1 implies lex_lt(#[trigger] rs[j].key, key@) by {
                            if j < mid {
                                lemma_lex_transitive(rs[j].key, rs[mid as int].key, key@);
                            }
                        }
                    }
                    lo = mid + 1;
                },
                _ => {
                    proof {
                        assert forall|j: int| mid <= j < rs.len() implies lex_le(key@, #[trigger] rs[j].key) by {
                            if j > mid && rs[mid as int].key != key@ {
                                lemma_lex_transitive(key@, rs[mid as int].key, rs[j].key);
                            }
                        }
                    }
                    hi = mid;
                },
            }
        }
        if lo < self.entries.len() {
            assert(rs[lo as int] == self.entries@[lo as int]@);
            let same = match compare_bytes(self.entries[lo].key.as_slice(), key) {
                core::cmp::Ordering::Equal => true,
                _ => false,
            };
            (lo, same)
        } else {
            (lo, false)
        }
    }

    /// With `find`'s answer, the facts of where `key` stands.
    proof fn lemma_found(&self, key: Seq<u8>, at: int, same: bool)
        requires
            sorted_keys(records_of(self.entries@)),
            0 <= at <= self.entries@.len(),
            forall|j: int| 0 <= j < at ==> lex_lt(#[trigger] records_of(self.entries@)[j].key, key),
            forall|j: int| at <= j < self.entries@.len() ==> lex_le(key, #[trigger] records_of(self.entries@)[j].key),
            same == (at < self.entries@.len() && records_of(self.entries@)[at].key == key),
        ensures
            same ==> lookup(records_of(self.entries@), key) == Some(records_of(self.entries@)[at]),
            !same ==> !has_key(records_of(self.entries@), key),
            !same ==> forall|j: int| at <= j < self.entries@.len() ==> lex_lt(key, #[trigger] records_of(self.entries@)[j].key),
    {
        let rs = records_of(self.entries@);
        if same {
            lemma_lookup_at(rs, at);
        } else {
            assert forall|j: int| at <= j < rs.len() implies lex_lt(key, #[trigger] rs[j].key) by {
                if rs[j].key == key {
                    if j > at {
                        assert(lex_lt(rs[at].key, rs[j].key));
                        if rs[at].key != key {
                            lemma_lex_asymmetric(key, rs[at].key);
                        }
                    }
                }
            }
            if has_key(rs, key) {
                let j = choose|j: int| 0 <= j < rs.len() && (#[trigger] rs[j]).key == key;
                lemma_lex_irreflexive(key);
            }
        }
    }

    /// What the table holds for `key`: its value, a tombstone, or `None`
    /// when the table knows nothing of the key.
    pub fn get(&self, key: &[u8]) -> (r: Option<Entry>)
        requires
            self.wf(),
        ensures
            r is None <==> !self@.contains_key(key@),
            r matches Some(e) ==> e@ == self@[key@],
    {
        let (at, same) = self.find(key);
        proof {
            self.lemma_found(key@, at as int, same);
        }
        if same {
            assert(records_of(self.entries@)[at as int] == self.entries@[at as int]@);
            match &self.entries[at].value {
                Some(v) => Some(Entry::Value(slice_to_vec(v.as_slice()))),
                None => Some(Entry::Deleted),
            }
        } else {
            None
        }
    }

    /// Stores `value` for `key` and returns the value it replaces (`None`
    /// for a tombstone or a new key). The counter grows by the live bytes
    /// added. When it then exceeds the limit, the table flushes: its entries
    /// leave for the flush that `take_flush` hands out, and it starts empty
    /// with a zero counter.
    pub fn put(&mut self, key: Vec<u8>, value: Vec<u8>) -> (r: Option<Vec<u8>>)
        requires
            old(self).wf(),
            old(self).pending() is None,
            value@.len() > 0,
            old(self).limit() + key@.len() + value@.len() <= usize::MAX,
        ensures
            final(self).wf(),
            final(self).limit() == old(self).limit(),
            prior_value(*old(self), key@, r),
            put_done(*old(self), *final(self), key@, value@),
    {
        let (at, same) = self.find(key.as_slice());
        let ghost rs = records_of(self.entries@);
        proof {
            self.lemma_found(key@, at as int, same);
        }
        let key_length = key.len();
        let value_length = value.len();
        let mut pair = InternalPair { key, value: Some(value) };
        let ghost r = pair@;
        let prior: Option<Vec<u8>>;
        if same {
            let ghost before = rs[at as int];
            assert(before == self.entries@[at as int]@);
            core::mem::swap(&mut self.entries[at], &mut pair);
            proof {
                assert(records_of(self.entries@) =~= rs.update(at as int, r));
                lemma_replace_sorted(rs, at as int, r);
                lemma_accounted_bound(rs, at as int);
            }
            let removed = match &pair.value {
                Some(v) => key_length + v.len(),
                None => 0,
            };
            self.actual_size = self.actual_size - removed + key_length + value_length;
            prior = pair.value;
        } else {
            self.entries.insert(at, pair);
            proof {
                assert(records_of(self.entries@) =~= rs.insert(at as int, r));
                lemma_insert_sorted(rs, at as int, r);
            }
            self.actual_size = self.actual_size + key_length + value_length;
            prior = None;
        }
        if self.actual_size > self.size_limit {
            let mut pairs: Vec<InternalPair> = Vec::new();
            core::mem::swap(&mut self.entries, &mut pairs);
            self.pending = Some(Command::Flush { pairs, size: self.actual_size });
            self.actual_size = 0;
            proof {
                assert(records_of(self.entries@) =~= Seq::<Record>::empty());
                assert(self@ =~= Map::<Seq<u8>, Option<Seq<u8>>>::empty());
            }
        }
        prior
    }
}

impl MemTable {
    /// Puts a tombstone for `key` and returns the live value it replaces, if
    /// any. A tombstone is recorded for an unknown key too, so that it hides
    /// the key's records in older tables.
    pub fn delete(&mut self, key: &[u8]) -> (r: Option<Vec<u8>>)
        requires
            old(self).wf(),
        ensures
            prior_value(*old(self), key@, r),
            delete_done(*old(self), *final(self), key@),
    {
        let (at, same) = self.find(key);
        let ghost rs = records_of(self.entries@);
        proof {
            self.lemma_found(key@, at as int, same);
        }
        let key_length = key.len();
        let mut pair = InternalPair { key: slice_to_vec(key), value: None };
        let ghost r = pair@;
        let prior: Option<Vec<u8>>;
        if same {
            let ghost before = rs[at as int];
            assert(before == self.entries@[at as int]@);
            core::mem::swap(&mut self.entries[at], &mut pair);
            proof {
                assert(records_of(self.entries@) =~= rs.update(at as int, r));
                lemma_replace_sorted(rs, at as int, r);
                lemma_accounted_bound(rs, at as int);
            }
            let removed = match &pair.value {
                Some(v) => key_length + v.len(),
                None => 0,
            };
            self.actual_size = self.actual_size - removed;
            prior = pair.value;
        } else {
            self.entries.insert(at, pair);
            proof {
                assert(records_of(self.entries@) =~= rs.insert(at as int, r));
                lemma_insert_sorted(rs, at as int, r);
            }
            prior = None;
        }
        prior
    }

    /// The flush that a put started, to be carried to the manager: the
    /// records the table held, in key order, and their live bytes.
    pub fn take_flush(&mut self) -> (r: Option<Command>)
        requires
            old(self).wf(),
        ensures
            final(self).wf(),
            final(self)@ == old(self)@,
            final(self).counter() == old(self).counter(),
            final(self).limit() == old(self).limit(),
            final(self).pending() is None,
            old(self).pending() is None ==> r is None,
            old(self).pending() matches Some((ps, size)) ==> r matches Some(Command::Flush { pairs, size: s })
                && records_of(pairs@) == ps && s == size,
    {
        let mut taken: Option<Command> = None;
        core::mem::swap(&mut self.pending, &mut taken);
        taken
    }

    /// Carries out `command` and returns the reply: for `Get` what the table
    /// holds for the key, for `Put` and `Delete` the live value replaced.
    pub fn apply(&mut self, command: Command) -> (r: Option<Entry>)
        requires
            old(self).wf(),
            old(self).pending() is None,
            !(command is Flush),
            command matches Command::Put { key, value } ==> value@.len() > 0 && old(self).limit()
                + key@.len() + value@.len() <= usize::MAX,
        ensures
            command matches Command::Get { key } ==> {
                &&& *final(self) == *old(self)
                &&& r is None <==> !old(self)@.contains_key(key@)
                &&& r matches Some(e) ==> e@ == old(self)@[key@]
            },
            command matches Command::Put { key, value } ==> {
                &&& put_done(*old(self), *final(self), key@, value@)
                &&& r is None ==> !old(self)@.contains_key(key@) || old(self)@[key@] is None
                &&& r matches Some(e) ==> e matches Entry::Value(v) && old(self)@.contains_key(key@)
                    && old(self)@[key@] == Some(v@)
            },
            command matches Command::Delete { key } ==> {
                &&& delete_done(*old(self), *final(self), key@)
                &&& r is None ==> !old(self)@.contains_key(key@) || old(self)@[key@] is None
                &&& r matches Some(e) ==> e matches Entry::Value(v) && old(self)@.contains_key(key@)
                    && old(self)@[key@] == Some(v@)
            },
    {
        match command {
            Command::Get { key } => self.get(key.as_slice()),
            Command::Put { key, value } => match self.put(key, value) {
                Some(v) => Some(Entry::Value(v)),
                None => None,
            },
            Command::Delete { key } => match self.delete(key.as_slice()) {
                Some(v) => Some(Entry::Value(v)),
                None => None,
            },
            Command::Flush { .. } => vstd::pervasive::unreached(),
        }
    }
}

/// A record's live bytes never exceed those of its run.
proof fn lemma_accounted_bound(rs: Seq<Record>, i: int)
    requires
        0 <= i < rs.len(),
    ensures
        contribution(rs[i]) <= accounted(rs),
{
    let left = rs.subrange(0, i);
    let right = rs.subrange(i + 1, rs.len() as int);
    assert(rs =~= left + seq![rs[i]] + right);
    lemma_accounted_append(left + seq![rs[i]], right);
    lemma_accounted_append(left, seq![rs[i]]);
    lemma_accounted_one(rs[i]);
}

} // verus!
