//! The three operations on keys, as the network surface serves them.
//!
//! Reads are served from the cache alone. A mutation is logged first and
//! applied to the cache once the record is on the queue to the background
//! writer; where it cannot be logged, the cache stays as it is.

use std::sync::Arc;
use vstd::prelude::*;
use crate::cache::Cache;
use crate::config::Config;
use crate::error::KVStoreError;
use crate::wal::WAL;

verus! {

/// What every request handler works on.
pub struct AppState {
    pub cache: Cache,
    pub wal: Arc<WAL>,
    pub config: Config,
}

/// The answer to a request.
#[derive(Debug, PartialEq, Eq)]
pub enum Reply {
    /// The key has this value.
    Found { value: String },
    /// The mutation is logged and applied.
    Done,
    /// The key has no value.
    NotFound,
    /// The mutation could not be logged.
    Failed { error: KVStoreError },
}

impl Reply {
    /// The HTTP status of the answer.
    pub open spec fn code(self) -> u16 {
        match self {
            Reply::Found { .. } => 200,
            Reply::Done => 200,
            Reply::NotFound => 404,
            Reply::Failed { .. } => 500,
        }
    }

    /// The HTTP status of the answer.
    pub fn status(&self) -> (code: u16)
        ensures
            code == self.code(),
    {
        match self {
            Reply::Found { .. } => 200,
            Reply::Done => 200,
            Reply::NotFound => 404,
            Reply::Failed { .. } => 500,
        }
    }
}

/// The answer to `GET`: the value that the cache holds for the key.
pub fn get_key(state: &AppState, key: &str) -> (reply: Reply)
    ensures
        match reply {
            Reply::Found { value } => state.cache@.contains_key(key@) && state.cache@[key@]
                == value@,
            Reply::NotFound => !state.cache@.contains_key(key@),
            _ => false,
        },
{
    match state.cache.get(key) {
        Some(value) => Reply::Found { value },
        None => Reply::NotFound,
    }
}

/// Finishes a `SET` once its record has been handed to the log: the cache
/// takes the value where the record was logged, and stays as it is where it
/// was not.
pub fn finish_set(
    cache: &mut Cache,
    logged: Result<(), KVStoreError>,
    key: String,
    value: String,
) -> (reply: Reply)
    ensures
        match logged {
            Ok(_) => reply is Done && final(cache)@ == old(cache)@.insert(key@, value@),
            Err(error) => reply == (Reply::Failed { error }) && final(cache)@ == old(cache)@,
        },
{
    match logged {
        Ok(_) => {
            cache.insert(key, value);
            Reply::Done
        },
        Err(error) => Reply::Failed { error },
    }
}

/// Finishes a `DELETE` of a key that has a value, once its record has been
/// handed to the log.
pub fn finish_delete(cache: &mut Cache, logged: Result<(), KVStoreError>, key: &str) -> (reply:
    Reply)
    ensures
        match logged {
            Ok(_) => reply is Done && final(cache)@ == old(cache)@.remove(key@),
            Err(error) => reply == (Reply::Failed { error }) && final(cache)@ == old(cache)@,
        },
{
    match logged {
        Ok(_) => {
            let _ = cache.remove(key);
            Reply::Done
        },
        Err(error) => Reply::Failed { error },
    }
}

/// The answer to `SET`: logs the mutation, then gives the key the value.
/// Whether the record can be logged is for the queue to say.
pub fn set_key(state: &mut AppState, key: String, value: String) -> (reply: Reply)
    ensures
        reply is Done || reply is Failed,
        reply is Done ==> final(state).cache@ == old(state).cache@.insert(key@, value@),
        reply is Failed ==> final(state).cache@ == old(state).cache@,
{
    let logged = state.wal.set(key.as_str(), value.as_str());
    finish_set(&mut state.cache, logged, key, value)
}

/// The answer to `DELETE`: a key without a value is not found, and nothing
/// is logged for it; otherwise the mutation is logged and the value taken
/// away.
pub fn delete_key(state: &mut AppState, key: &str) -> (reply: Reply)
    ensures
        !old(state).cache@.contains_key(key@) ==> reply is NotFound && final(state).cache@
            == old(state).cache@,
        old(state).cache@.contains_key(key@) ==> reply is Done || reply is Failed,
        reply is Done ==> final(state).cache@ == old(state).cache@.remove(key@),
        reply is Failed ==> final(state).cache@ == old(state).cache@,
{
    if !state.cache.contains_key(key) {
        return Reply::NotFound;
    }
    let logged = state.wal.delete(key);
    finish_delete(&mut state.cache, logged, key)
}

/// A mutation that a client has been told is done.
pub enum Mutation {
    Put { key: Seq<char>, value: Seq<char> },
    Remove { key: Seq<char> },
}

impl Mutation {
    /// The key that the mutation is about.
    pub open spec fn key(self) -> Seq<char> {
        match self {
            Mutation::Put { key, .. } => key,
            Mutation::Remove { key } => key,
        }
    }
}

/// The cache after the mutations, in order.
pub open spec fn mutated(cache: Map<Seq<char>, Seq<char>>, mutations: Seq<Mutation>) -> Map<
    Seq<char>,
    Seq<char>,
>
    decreases mutations.len(),
{
    if mutations.len() == 0 {
        cache
    } else {
        let before = mutated(cache, mutations.drop_last());
        match mutations.last() {
            Mutation::Put { key, value } => before.insert(key, value),
            Mutation::Remove { key } => before.remove(key),
        }
    }
}

/// A write is read back: once a key has been given a value, the cache holds
/// that value for it for as long as no later mutation is about that key,
/// whatever is done to other keys in the meantime.
pub proof fn lemma_read_your_writes(
    cache: Map<Seq<char>, Seq<char>>,
    key: Seq<char>,
    value: Seq<char>,
    later: Seq<Mutation>,
)
    requires
        forall|i: int| 0 <= i < later.len() ==> (#[trigger] later[i]).key() != key,
    ensures
        mutated(cache.insert(key, value), later).contains_key(key),
        mutated(cache.insert(key, value), later)[key] == value,
    decreases later.len(),
{
    if later.len() > 0 {
        let front = later.drop_last();
        assert forall|i: int| 0 <= i < front.len() implies (#[trigger] front[i]).key() != key by {
            assert(front[i] == later[i]);
        }
        lemma_read_your_writes(cache, key, value, front);
        assert(later.last() == later[later.len() - 1]);
    }
}

/// A deleted key stays gone for as long as no later mutation is about it.
pub proof fn lemma_deleted_stays_gone(
    cache: Map<Seq<char>, Seq<char>>,
    key: Seq<char>,
    later: Seq<Mutation>,
)
    requires
        forall|i: int| 0 <= i < later.len() ==> (#[trigger] later[i]).key() != key,
    ensures
        !mutated(cache.remove(key), later).contains_key(key),
    decreases later.len(),
{
    if later.len() > 0 {
        let front = later.drop_last();
        assert forall|i: int| 0 <= i < front.len() implies (#[trigger] front[i]).key() != key by {
            assert(front[i] == later[i]);
        }
        lemma_deleted_stays_gone(cache, key, front);
        assert(later.last() == later[later.len() - 1]);
    }
}

} // verus!
