//! Errors reported by the library.
use vstd::prelude::*;

verus! {

/// Why a request could not be turned into a command.
#[derive(Clone, Copy, Debug, PartialEq, Eq, Structural)]
pub enum Error {
    /// The request carries no query string.
    EmptyQuery,
    /// The query names no `key`.
    LacksKey,
    /// The query names no `value`.
    LacksValue,
    /// The request method is none of GET, PUT and DELETE.
    InvalidMethod,
}

impl Error {
    /// The message shown to a client for this error.
    pub fn message(&self) -> (r: &'static str) {
        match self {
            Error::EmptyQuery => "Key and value not specified",
            Error::LacksKey => "Key not specified",
            Error::LacksValue => "Value not specified",
            Error::InvalidMethod => "Invalid HTTP method",
        }
    }
}

/// Why stored data could not be read or a table could not be built.
#[derive(Clone, Copy, Debug, PartialEq, Eq, Structural)]
pub enum StoreError {
    /// A length field reads past the end of the bytes.
    MalformedRecord,
    /// The records of a table are not in strictly ascending key order.
    UnsortedRecords,
    /// A record holds a present but empty value, which reads back as a
    /// tombstone.
    EmptyValue,
    /// A size or an offset does not fit in a machine word.
    SizeOverflow,
}

} // verus!
