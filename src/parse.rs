//! The query of a request target.
use crate::command::{query_pairs, query_pairs_of};
use vstd::prelude::*;
use vstd::string::{is_ascii, StrSliceExecFns};

verus! {

/// The byte of `?`.
const QUESTION_MARK: u8 = 63;

/// The position of the first `?` in `s`, if any.
pub open spec fn question_mark(s: Seq<char>) -> Option<int> {
    if exists|i: int| 0 <= i < s.len() && s[i] == '?' {
        Some(choose|i: int| 0 <= i < s.len() && s[i] == '?' && forall|j: int| 0 <= j < i ==> s[j] != '?')
    } else {
        None
    }
}

/// The `(name, value)` pairs of the query of the request target `url`, in
/// order: nothing when `url` has no `?`.
pub fn parse_request(url: &str) -> (r: Vec<(String, String)>)
    requires
        is_ascii(url),
    ensures
        r@.map_values(|p: (String, String)| (p.0@, p.1@)) == match question_mark(url@) {
            Some(i) => query_pairs_of(url@.subrange(i, url@.len() as int)),
            None => Seq::empty(),
        },
{
    let n = url.unicode_len();
    let mut i: usize = 0;
    while i < n
        invariant
            n == url@.len(),
            is_ascii(url),
            i <= n,
            forall|j: int| 0 <= j < i ==> url@[j] != '?',
        decreases n - i,
    {
        if url.get_ascii(i) == QUESTION_MARK {
            proof {
                assert(url@[i as int] == '?');
                let s = url@;
                let c = choose|k: int|
                    0 <= k < s.len() && s[k] == '?' && forall|j: int| 0 <= j < k ==> s[j] != '?';
                assert(0 <= i < s.len() && s[i as int] == '?');
                assert(c == i);
            }
            let query = url.substring_ascii(i, n);
            let pairs = query_pairs(query);
            proof {
                assert(pairs@.map_values(|p: (String, String)| (p.0@, p.1@)) =~= query_pairs_of(query@));
            }
            return pairs;
        }
        i = i + 1;
    }
    let r: Vec<(String, String)> = Vec::new();
    proof {
        assert(r@.map_values(|p: (String, String)| (p.0@, p.1@)) =~= Seq::<(Seq<char>, Seq<char>)>::empty());
    }
    r
}

} // verus!
