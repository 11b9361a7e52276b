//! Names of table files: `table_<n>`, where `n` grows with each new table,
//! so that ordering the files by `n` gives the tables oldest first.
use vstd::multiset::Multiset;
use vstd::prelude::*;
use vstd::string::StrSliceExecFns;

verus! {

/// The characters every table file name starts with.
pub open spec fn table_prefix() -> Seq<char> {
    seq!['t', 'a', 'b', 'l', 'e', '_']
}

pub open spec fn is_digit(c: char) -> bool {
    '0' <= c <= '9'
}

/// The number written in the decimal digits `s`.
pub open spec fn decimal_value(s: Seq<char>) -> int
    decreases s.len(),
{
    if s.len() == 0 {
        0
    } else {
        decimal_value(s.drop_last()) * 10 + (s.last() as int - '0' as int)
    }
}

/// The number of a table file name: `table_` followed by one or more
/// decimal digits whose value fits in a `u64`; `None` for any other name.
pub open spec fn table_number(name: Seq<char>) -> Option<u64> {
    let digits = name.subrange(6, name.len() as int);
    if name.len() > 6 && name.subrange(0, 6) == table_prefix() && (forall|i: int|
        0 <= i < digits.len() ==> is_digit(#[trigger] digits[i])) && decimal_value(digits)
        <= u64::MAX {
        Some(decimal_value(digits) as u64)
    } else {
        None
    }
}

proof fn lemma_decimal_nonneg(s: Seq<char>)
    requires
        forall|i: int| 0 <= i < s.len() ==> is_digit(#[trigger] s[i]),
    ensures
        decimal_value(s) >= 0,
    decreases s.len(),
{
    if s.len() > 0 {
        lemma_decimal_nonneg(s.drop_last());
    }
}

/// A longer run of digits is worth at least as much as its prefix.
proof fn lemma_decimal_grows(s: Seq<char>, i: int)
    requires
        0 <= i <= s.len(),
        forall|k: int| 0 <= k < s.len() ==> is_digit(#[trigger] s[k]),
    ensures
        decimal_value(s.subrange(0, i)) <= decimal_value(s),
    decreases s.len() - i,
{
    if i < s.len() {
        lemma_decimal_grows(s, i + 1);
        let p = s.subrange(0, i + 1);
        assert(p.drop_last() =~= s.subrange(0, i));
        assert forall|k: int| 0 <= k < i implies is_digit(#[trigger] s.subrange(0, i)[k]) by {
            assert(s.subrange(0, i)[k] == s[k]);
        }
        lemma_decimal_nonneg(s.subrange(0, i));
    } else {
        assert(s.subrange(0, i) =~= s);
    }
}

/// The number of the table file named `name`, or `None` when `name` is no
/// table file name.
pub fn table_id(name: &str) -> (r: Option<u64>)
    ensures
        r == table_number(name@),
{
    let n = name.unicode_len();
    if n <= 6 {
        return None;
    }
    let prefix = ['t', 'a', 'b', 'l', 'e', '_'];
    let mut i: usize = 0;
    while i < 6
        invariant
            n == name@.len(),
            n > 6,
            i <= 6,
            prefix@ == table_prefix(),
            forall|k: int| 0 <= k < i ==> name@[k] == table_prefix()[k],
        decreases 6 - i,
    {
        if name.get_char(i) != prefix[i] {
            proof {
                assert(name@.subrange(0, 6)[i as int] != table_prefix()[i as int]);
            }
            return None;
        }
        i = i + 1;
    }
    assert(name@.subrange(0, 6) =~= table_prefix());
    let ghost digits = name@.subrange(6, n as int);
    let mut value: u64 = 0;
    let mut j: usize = 6;
    while j < n
        invariant
            n == name@.len(),
            n > 6,
            6 <= j <= n,
            digits == name@.subrange(6, n as int),
            forall|k: int| 0 <= k < j - 6 ==> is_digit(#[trigger] digits[k]),
            value == decimal_value(digits.subrange(0, j - 6)),
        decreases n - j,
    {
        let c = name.get_char(j);
        if !('0' <= c && c <= '9') {
            proof {
                assert(!is_digit(digits[j - 6]));
            }
            return None;
        }
        let d = (c as u32 - '0' as u32) as u64;
        proof {
            let p = digits.subrange(0, j - 5);
            assert(p.drop_last() =~= digits.subrange(0, j - 6));
            assert(p.last() == c);
        }
        let next = match value.checked_mul(10) {
            Some(v) => v.checked_add(d),
            None => None,
        };
        match next {
            Some(v) => {
                value = v;
            },
            None => {
                proof {
                    assert forall|k: int| 0 <= k < j - 5 implies is_digit(
                        #[trigger] digits.subrange(0, j - 5)[k],
                    ) by {
                        assert(digits.subrange(0, j - 5)[k] == digits[k]);
                    }
                    if forall|k: int| 0 <= k < digits.len() ==> is_digit(#[trigger] digits[k]) {
                        lemma_decimal_grows(digits, j - 5);
                    }
                }
                return None;
            },
        }
        j = j + 1;
    }
    assert(digits.subrange(0, n - 6) =~= digits);
    Some(value)
}

/// `entries` in ascending order of their numbers.
pub open spec fn ascending_ids<T>(entries: Seq<(u64, T)>) -> bool {
    forall|i: int, j: int| 0 <= i < j < entries.len() ==> entries[i].0 <= entries[j].0
}

/// `entries` ordered by their numbers, smallest first: the order in which
/// table files are opened.
pub fn order_by_id<T>(entries: Vec<(u64, T)>) -> (r: Vec<(u64, T)>)
    ensures
        ascending_ids(r@),
        r@.to_multiset() == entries@.to_multiset(),
{
    broadcast use vstd::seq_lib::group_to_multiset_ensures;

    let mut rest = entries;
    let mut out: Vec<(u64, T)> = Vec::new();
    while rest.len() > 0
        invariant
            ascending_ids(out@),
            out@.to_multiset().add(rest@.to_multiset()) == entries@.to_multiset(),
        decreases rest@.len(),
    {
        let ghost before_rest = rest@;
        let ghost before_out = out@;
        let e = rest.pop().unwrap();
        proof {
            assert(before_rest =~= rest@.push(e));
            vstd::seq_lib::to_multiset_build(rest@, e);
        }
        let mut at: usize = 0;
        while at < out.len() && out[at].0 <= e.0
            invariant
                at <= out@.len(),
                out@ == before_out,
                forall|k: int| 0 <= k < at ==> out@[k].0 <= e.0,
            decreases out@.len() - at,
        {
            at = at + 1;
        }
        out.insert(at, e);
        proof {
            vstd::seq_lib::to_multiset_insert(before_out, at as int, e);
            assert(out@ =~= before_out.insert(at as int, e));
            assert forall|a: int, b: int| 0 <= a < b < out@.len() implies out@[a].0 <= out@[b].0 by {
                if b == at as int && a < at {
                } else if a == at as int && b > at {
                    assert(out@[b] == before_out[b - 1]);
                    if at < before_out.len() {
                        assert(before_out[at as int].0 > e.0);
                    }
                }
            }
            assert(out@.to_multiset() == before_out.to_multiset().insert(e));
            assert(out@.to_multiset().add(rest@.to_multiset()) =~= before_out.to_multiset().add(
                before_rest.to_multiset(),
            ));
        }
    }
    proof {
        assert(rest@.to_multiset() =~= Multiset::empty());
        assert(out@.to_multiset().add(Multiset::empty()) =~= out@.to_multiset());
    }
    out
}

} // verus!
