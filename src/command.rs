//! Commands to the store, and their parsing from a request's method and
//! query string.
use crate::error::Error;
use crate::format::InternalPair;
use vstd::prelude::*;
use vstd::slice::slice_to_vec;
use vstd::string::is_ascii;

verus! {

/// The request methods the store serves; every other method is `Other`.
#[derive(Clone, Copy, Debug, PartialEq, Eq, Structural)]
pub enum Method {
    Get,
    Put,
    Delete,
    Post,
    Other,
}

/// An action on the store, with the data it needs.
#[derive(Clone, Debug, PartialEq, Eq)]
pub enum Command {
    Get { key: Vec<u8> },
    Put { key: Vec<u8>, value: Vec<u8> },
    Delete { key: Vec<u8> },
    /// Sent by the in-memory table to the manager: the records to write as a
    /// new table, and the size they count for.
    Flush { pairs: Vec<InternalPair>, size: usize },
}

/// The `(name, value)` pairs of a query string, in order, as qstring reads
/// them (a leading `?` skipped, names and values percent-decoded).
pub uninterp spec fn query_pairs_of(query: Seq<char>) -> Seq<(Seq<char>, Seq<char>)>;

/// Relies on `qstring::QString::from` and `QString::into_pairs`: the pairs
/// depend on the query string alone, and parsing an ASCII string does not
/// panic (qstring slices the string only at the positions of ASCII
/// characters).
#[verifier::external_body]
pub(crate) fn query_pairs(query: &str) -> (r: Vec<(String, String)>)
    requires
        is_ascii(query),
    ensures
        r@.len() == query_pairs_of(query@).len(),
        forall|i: int|
            0 <= i < r@.len() ==> (#[trigger] r@[i].0@, r@[i].1@) == query_pairs_of(query@)[i],
{
    qstring::QString::from(query).into_pairs()
}

/// The UTF-8 bytes of the value of the first pair named `name`, if any: what
/// qstring's `get` answers.
pub open spec fn first_value(pairs: Seq<(Seq<char>, Seq<char>)>, name: Seq<char>) -> Option<Seq<u8>>
    decreases pairs.len(),
{
    if pairs.len() == 0 {
        None
    } else if pairs[0].0 == name {
        Some(vstd::utf8::encode_utf8(pairs[0].1))
    } else {
        first_value(pairs.drop_first(), name)
    }
}

/// The `(name, value)` pairs of `pairs` as character sequences.
pub open spec fn pairs_view(pairs: Seq<(String, String)>) -> Seq<(Seq<char>, Seq<char>)> {
    pairs.map_values(|p: (String, String)| (p.0@, p.1@))
}

/// The UTF-8 bytes of the value of the first of `pairs` named `name`, if any.
pub fn find_value(pairs: &Vec<(String, String)>, name: &str) -> (r: Option<Vec<u8>>)
    ensures
        r matches Some(v) ==> first_value(pairs_view(pairs@), name@) == Some(v@),
        r is None ==> first_value(pairs_view(pairs@), name@) is None,
{
    let ghost view = pairs_view(pairs@);
    let wanted = name.to_owned();
    let mut i: usize = 0;
    assert(view.subrange(0, view.len() as int) =~= view);
    while i < pairs.len()
        invariant
            i <= pairs@.len(),
            view == pairs_view(pairs@),
            wanted@ == name@,
            first_value(view, name@) == first_value(view.subrange(i as int, view.len() as int), name@),
        decreases pairs@.len() - i,
    {
        let ghost rest = view.subrange(i as int, view.len() as int);
        assert(rest[0] == view[i as int]);
        if pairs[i].0 == wanted {
            let bytes = slice_to_vec(pairs[i].1.as_str().as_bytes());
            return Some(bytes);
        }
        assert(rest.drop_first() =~= view.subrange(i + 1, view.len() as int));
        i = i + 1;
    }
    None
}

/// The key named by the query pairs `pairs`: `LacksKey` when none is.
pub fn key_from_pairs(pairs: &Vec<(String, String)>) -> (r: Result<Vec<u8>, Error>)
    ensures
        r matches Ok(k) ==> first_value(pairs_view(pairs@), "key"@) == Some(k@),
        r is Err ==> first_value(pairs_view(pairs@), "key"@) is None && r == Err::<Vec<u8>, Error>(
            Error::LacksKey,
        ),
{
    match find_value(pairs, "key") {
        Some(key) => Ok(key),
        None => Err(Error::LacksKey),
    }
}

/// The key and the value named by the query pairs `pairs`. Pairs that name
/// a key but no value, or an empty value, lack a value; pairs that name a
/// value but no key lack a key; pairs that name neither make an empty query.
pub fn key_value_from_pairs(pairs: &Vec<(String, String)>) -> (r: Result<(Vec<u8>, Vec<u8>), Error>)
    ensures
        match (
            first_value(pairs_view(pairs@), "key"@),
            first_value(pairs_view(pairs@), "value"@),
        ) {
            (Some(k), Some(v)) => if v.len() > 0 {
                r is Ok && r->Ok_0.0@ == k && r->Ok_0.1@ == v
            } else {
                r == Err::<(Vec<u8>, Vec<u8>), Error>(Error::LacksValue)
            },
            (None, Some(_)) => r == Err::<(Vec<u8>, Vec<u8>), Error>(Error::LacksKey),
            (Some(_), None) => r == Err::<(Vec<u8>, Vec<u8>), Error>(Error::LacksValue),
            (None, None) => r == Err::<(Vec<u8>, Vec<u8>), Error>(Error::EmptyQuery),
        },
{
    let key = find_value(pairs, "key");
    let value = find_value(pairs, "value");
    match (key, value) {
        (Some(key), Some(value)) => {
            if value.len() == 0 {
                Err(Error::LacksValue)
            } else {
                Ok((key, value))
            }
        },
        (None, Some(_)) => Err(Error::LacksKey),
        (Some(_), None) => Err(Error::LacksValue),
        (None, None) => Err(Error::EmptyQuery),
    }
}

/// The key of a query: `EmptyQuery` without a query, `LacksKey` when it
/// names no `key`.
pub fn get_key(query: Option<&str>) -> (r: Result<Vec<u8>, Error>)
    requires
        query matches Some(q) ==> is_ascii(q),
    ensures
        query is None ==> r == Err::<Vec<u8>, Error>(Error::EmptyQuery),
        query matches Some(q) ==> match first_value(query_pairs_of(q@), "key"@) {
            Some(k) => r is Ok && r->Ok_0@ == k,
            None => r == Err::<Vec<u8>, Error>(Error::LacksKey),
        },
{
    let query = match query {
        Some(q) => q,
        None => {
            return Err(Error::EmptyQuery);
        },
    };
    let pairs = query_pairs(query);
    proof {
        assert(pairs_view(pairs@) =~= query_pairs_of(query@));
    }
    key_from_pairs(&pairs)
}

/// The key and the value of a query, as `key_value_from_pairs` reads them
/// from its pairs; `EmptyQuery` without a query.
pub fn get_key_value(query: Option<&str>) -> (r: Result<(Vec<u8>, Vec<u8>), Error>)
    requires
        query matches Some(q) ==> is_ascii(q),
    ensures
        query is None ==> r == Err::<(Vec<u8>, Vec<u8>), Error>(Error::EmptyQuery),
        query matches Some(q) ==> match (
            first_value(query_pairs_of(q@), "key"@),
            first_value(query_pairs_of(q@), "value"@),
        ) {
            (Some(k), Some(v)) => if v.len() > 0 {
                r is Ok && r->Ok_0.0@ == k && r->Ok_0.1@ == v
            } else {
                r == Err::<(Vec<u8>, Vec<u8>), Error>(Error::LacksValue)
            },
            (None, Some(_)) => r == Err::<(Vec<u8>, Vec<u8>), Error>(Error::LacksKey),
            (Some(_), None) => r == Err::<(Vec<u8>, Vec<u8>), Error>(Error::LacksValue),
            (None, None) => r == Err::<(Vec<u8>, Vec<u8>), Error>(Error::EmptyQuery),
        },
{
    let query = match query {
        Some(q) => q,
        None => {
            return Err(Error::EmptyQuery);
        },
    };
    let pairs = query_pairs(query);
    proof {
        assert(pairs_view(pairs@) =~= query_pairs_of(query@));
    }
    key_value_from_pairs(&pairs)
}

impl Command {
    /// The command that a request with `method` and `query` asks for.
    pub fn new(method: &Method, query: Option<&str>) -> (r: Result<Command, Error>)
        requires
            query matches Some(q) ==> is_ascii(q),
        ensures
            *method == Method::Get ==> match get_key_result(query) {
                Ok(k) => r matches Ok(Command::Get { key }) && key@ == k,
                Err(e) => r == Err::<Command, Error>(e),
            },
            *method == Method::Delete ==> match get_key_result(query) {
                Ok(k) => r matches Ok(Command::Delete { key }) && key@ == k,
                Err(e) => r == Err::<Command, Error>(e),
            },
            *method == Method::Put ==> match get_key_value_result(query) {
                Ok((k, v)) => r matches Ok(Command::Put { key, value }) && key@ == k && value@ == v,
                Err(e) => r == Err::<Command, Error>(e),
            },
            (*method == Method::Post || *method == Method::Other) ==> r == Err::<Command, Error>(
                Error::InvalidMethod,
            ),
    {
        match method {
            Method::Get => {
                let key = get_key(query)?;
                Ok(Command::Get { key })
            },
            Method::Put => {
                let (key, value) = get_key_value(query)?;
                Ok(Command::Put { key, value })
            },
            Method::Delete => {
                let key = get_key(query)?;
                Ok(Command::Delete { key })
            },
            _ => Err(Error::InvalidMethod),
        }
    }
}

/// What `get_key` answers for `query`.
pub open spec fn get_key_result(query: Option<&str>) -> Result<Seq<u8>, Error> {
    match query {
        None => Err(Error::EmptyQuery),
        Some(q) => match first_value(query_pairs_of(q@), "key"@) {
            Some(k) => Ok(k),
            None => Err(Error::LacksKey),
        },
    }
}

/// What `get_key_value` answers for `query`.
pub open spec fn get_key_value_result(query: Option<&str>) -> Result<(Seq<u8>, Seq<u8>), Error> {
    match query {
        None => Err(Error::EmptyQuery),
        Some(q) => match (
            first_value(query_pairs_of(q@), "key"@),
            first_value(query_pairs_of(q@), "value"@),
        ) {
            (Some(k), Some(v)) => if v.len() > 0 {
                Ok((k, v))
            } else {
                Err(Error::LacksValue)
            },
            (None, Some(_)) => Err(Error::LacksKey),
            (Some(_), None) => Err(Error::LacksValue),
            (None, None) => Err(Error::EmptyQuery),
        },
    }
}

} // verus!
