//! The in-memory map that serves reads.
//!
//! The map is a sharded concurrent map. The library owns it and changes it
//! only through exclusive references, so that what it holds is a value that
//! contracts can speak of.

use dashmap::DashMap;
use vstd::prelude::*;
use crate::tables::table_of;

verus! {

/// `dashmap::DashMap`, a map sharded over locks. Nothing inside it is seen.
#[verifier::external_type_specification]
#[verifier::external_body]
#[verifier::reject_recursive_types(K)]
#[verifier::reject_recursive_types(V)]
#[verifier::reject_recursive_types(S)]
pub struct ExDashMap<K, V, S>(DashMap<K, V, S>);

/// The entries of a map: the value of each key that has one.
pub uninterp spec fn entries(map: DashMap<String, String>) -> Map<Seq<char>, Seq<char>>;

/// Calls `DashMap::new`, which creates a map without entries.
#[verifier::external_body]
fn map_new() -> (fresh: DashMap<String, String>)
    ensures
        forall|key: Seq<char>| !entries(fresh).contains_key(key),
{
    DashMap::new()
}

/// Calls `DashMap::get` and clones the value found. The map hands out a
/// reference to the entry of the key, if there is one.
#[verifier::external_body]
fn map_get(map: &DashMap<String, String>, key: &str) -> (value: Option<String>)
    ensures
        match value {
            Some(text) => entries(*map).contains_key(key@) && entries(*map)[key@] == text@,
            None => !entries(*map).contains_key(key@),
        },
{
    map.get(key).map(|entry| entry.value().clone())
}

/// Calls `DashMap::contains_key`, which says whether the key has an entry.
#[verifier::external_body]
fn map_contains_key(map: &DashMap<String, String>, key: &str) -> (yes: bool)
    ensures
        yes == entries(*map).contains_key(key@),
{
    map.contains_key(key)
}

/// Calls `DashMap::insert`, which gives the key the value and returns the
/// value that the key had before, if any.
#[verifier::external_body]
fn map_insert(map: &mut DashMap<String, String>, key: String, value: String) -> (before: Option<
    String,
>)
    ensures
        entries(*final(map)) == entries(*old(map)).insert(key@, value@),
        match before {
            Some(text) => entries(*old(map)).contains_key(key@) && entries(*old(map))[key@]
                == text@,
            None => !entries(*old(map)).contains_key(key@),
        },
{
    map.insert(key, value)
}

/// Calls `DashMap::remove`, which removes the entry of the key and returns
/// it, if there was one.
#[verifier::external_body]
fn map_remove(map: &mut DashMap<String, String>, key: &str) -> (before: Option<(String, String)>)
    ensures
        entries(*final(map)) == entries(*old(map)).remove(key@),
        match before {
            Some(entry) => entries(*old(map)).contains_key(key@) && entry.0@ == key@
                && entries(*old(map))[key@] == entry.1@,
            None => !entries(*old(map)).contains_key(key@),
        },
{
    map.remove(key)
}

/// The cache: the value of each key that has one.
pub struct Cache {
    map: DashMap<String, String>,
}

impl View for Cache {
    type V = Map<Seq<char>, Seq<char>>;

    closed spec fn view(&self) -> Map<Seq<char>, Seq<char>> {
        entries(self.map)
    }
}

impl Cache {
    /// An empty cache.
    pub fn new() -> (cache: Self)
        ensures
            cache@ == Map::<Seq<char>, Seq<char>>::empty(),
    {
        let cache = Cache { map: map_new() };
        assert(cache@ =~= Map::<Seq<char>, Seq<char>>::empty());
        cache
    }

    /// The value of `key`, if it has one.
    pub fn get(&self, key: &str) -> (value: Option<String>)
        ensures
            match value {
                Some(text) => self@.contains_key(key@) && self@[key@] == text@,
                None => !self@.contains_key(key@),
            },
    {
        map_get(&self.map, key)
    }

    /// Whether `key` has a value.
    pub fn contains_key(&self, key: &str) -> (yes: bool)
        ensures
            yes == self@.contains_key(key@),
    {
        map_contains_key(&self.map, key)
    }

    /// Gives `key` the value `value`.
    pub fn insert(&mut self, key: String, value: String)
        ensures
            final(self)@ == old(self)@.insert(key@, value@),
    {
        let _ = map_insert(&mut self.map, key, value);
    }

    /// Takes the value of `key` away. Returns whether it had one.
    pub fn remove(&mut self, key: &str) -> (had: bool)
        ensures
            final(self)@ == old(self)@.remove(key@),
            had == old(self)@.contains_key(key@),
    {
        map_remove(&mut self.map, key).is_some()
    }

    /// Fills the cache with the rows read from the canonical table, later
    /// rows replacing earlier ones.
    pub fn load(&mut self, rows: Vec<(String, String)>)
        ensures
            final(self)@ == old(self)@.union_prefer_right(table_of(rows@)),
    {
        let ghost start = self@;
        let mut rows = rows;
        let ghost all = rows@;
        let mut i: usize = 0;
        let n = rows.len();
        assert(start.union_prefer_right(table_of(all.subrange(0, 0))) =~= start);
        while i < n
            invariant
                i <= n,
                n == all.len(),
                rows@.len() == n,
                forall|j: int| i <= j < n ==> rows@[j] == all[j],
                self@ == start.union_prefer_right(table_of(all.subrange(0, i as int))),
            decreases n - i,
        {
            let mut row = (String::new(), String::new());
            let ghost held = rows@;
            core::mem::swap(&mut rows[i], &mut row);
            proof {
                let grown = all.subrange(0, i + 1);
                assert(grown.drop_last() =~= all.subrange(0, i as int));
                assert(grown.last() == all[i as int]);
                assert(start.union_prefer_right(table_of(grown)) =~= start.union_prefer_right(
                    table_of(all.subrange(0, i as int)),
                ).insert(row.0@, row.1@));
            }
            self.insert(row.0, row.1);
            i += 1;
        }
        assert(all.subrange(0, n as int) =~= all);
    }
}

} // verus!
