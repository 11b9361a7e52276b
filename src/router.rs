//! The command router's decisions: a reply from the in-memory table is
//! final, and a read it cannot answer goes on to the table manager.
use crate::command::Command;
use crate::format::InternalPair;
use crate::memtable::Entry;
use vstd::prelude::*;

verus! {

/// What the router does once the in-memory table has replied.
pub enum Route {
    /// Answer the client with this reply.
    Reply(Option<Entry>),
    /// Ask the manager; its answer is the reply.
    AskManager,
}

/// The router's decision after the in-memory table replied `reply` to
/// `command`: a value or a tombstone is the answer; a read the table could
/// not answer goes to the manager; any other command is answered `None`.
pub fn after_memtable(command: &Command, reply: Option<Entry>) -> (r: Route)
    ensures
        reply matches Some(e) ==> r matches Route::Reply(Some(x)) && x@ == e@,
        reply is None && command is Get ==> r is AskManager,
        reply is None && !(command is Get) ==> r matches Route::Reply(None),
{
    match reply {
        Some(e) => Route::Reply(Some(e)),
        None => match command {
            Command::Get { .. } => Route::AskManager,
            _ => Route::Reply(None),
        },
    }
}

/// The reply for a record the manager found: its value, or a tombstone.
pub fn entry_of(found: Option<InternalPair>) -> (r: Option<Entry>)
    ensures
        found is None ==> r is None,
        found matches Some(p) ==> r matches Some(e) && e@ == p@.value,
{
    match found {
        Some(pair) => match pair.value {
            Some(v) => Some(Entry::Value(v)),
            None => Some(Entry::Deleted),
        },
        None => None,
    }
}

} // verus!
