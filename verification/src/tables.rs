//! The two tables held in memory.
//!
//! [`MemoryStore`] does to maps what the persistent store does to its
//! tables: batches of rows are written to the staging table under the rule
//! that the newer row wins, and reconciliation applies the staged rows to
//! the canonical table and empties the staging table.

use vstd::prelude::*;
use vstd::hash_map::StringHashMap;
use crate::codec::Record;
use crate::replay::{delete_rows, set_rows, DeleteRow, SetRow};
use crate::staging::{
    newer_than_staged, reconciled, upserted_all, Canonical, Staged, Staging,
};

verus! {

/// A row of the staging table.
pub struct StagedRow {
    pub time: u128,
    /// The value of a SET; `None` for a DELETE.
    pub value: Option<String>,
}

impl View for StagedRow {
    type V = Staged;

    open spec fn view(&self) -> Staged {
        Staged {
            time: self.time,
            value: match self.value {
                Some(text) => Some(text@),
                None => None,
            },
        }
    }
}

/// The staging table that a map of rows stands for.
pub open spec fn staging_of(rows: Map<Seq<char>, StagedRow>) -> Staging {
    rows.map_values(|row: StagedRow| row@)
}

/// The canonical table that a map of texts stands for.
pub open spec fn canonical_of(rows: Map<Seq<char>, String>) -> Canonical {
    rows.map_values(|text: String| text@)
}

/// Whether `keys` names every key of `rows`.
pub open spec fn covers<V>(keys: Seq<String>, rows: Map<Seq<char>, V>) -> bool {
    forall|k: Seq<char>| #[trigger]
        rows.contains_key(k) ==> exists|i: int| 0 <= i < keys.len() && (#[trigger] keys[i])@ == k
}

/// The table that a list of rows fills, later rows replacing earlier ones.
pub open spec fn table_of(rows: Seq<(String, String)>) -> Canonical
    decreases rows.len(),
{
    if rows.len() == 0 {
        Map::empty()
    } else {
        table_of(rows.drop_last()).insert(rows.last().0@, rows.last().1@)
    }
}

/// The staging table and the canonical table, in memory.
pub struct MemoryStore {
    staging: StringHashMap<StagedRow>,
    staged_keys: Vec<String>,
    canonical: StringHashMap<String>,
    canonical_keys: Vec<String>,
}

impl MemoryStore {
    #[verifier::type_invariant]
    spec fn keys_are_listed(&self) -> bool {
        covers(self.staged_keys@, self.staging@) && covers(self.canonical_keys@, self.canonical@)
    }

    /// The staging table.
    pub closed spec fn staging(&self) -> Staging {
        staging_of(self.staging@)
    }

    /// The canonical table.
    pub closed spec fn canonical(&self) -> Canonical {
        canonical_of(self.canonical@)
    }

    /// A store with two empty tables.
    pub fn new() -> (store: Self)
        ensures
            store.staging() == Map::<Seq<char>, Staged>::empty(),
            store.canonical() == Map::<Seq<char>, Seq<char>>::empty(),
    {
        let store = MemoryStore {
            staging: StringHashMap::new(),
            staged_keys: Vec::new(),
            canonical: StringHashMap::new(),
            canonical_keys: Vec::new(),
        };
        assert(staging_of(store.staging@) =~= Map::<Seq<char>, Staged>::empty());
        assert(canonical_of(store.canonical@) =~= Map::<Seq<char>, Seq<char>>::empty());
        store
    }

    /// Takes the store apart, leaving an empty one behind.
    fn take(&mut self) -> (parts: (
        StringHashMap<StagedRow>,
        Vec<String>,
        StringHashMap<String>,
        Vec<String>,
    ))
        ensures
            parts.0 == old(self).staging,
            parts.1 == old(self).staged_keys,
            parts.2 == old(self).canonical,
            parts.3 == old(self).canonical_keys,
            covers(parts.1@, parts.0@),
            covers(parts.3@, parts.2@),
    {
        proof {
            use_type_invariant(&*self);
        }
        let mut taken = MemoryStore::new();
        core::mem::swap(self, &mut taken);
        (taken.staging, taken.staged_keys, taken.canonical, taken.canonical_keys)
    }

    /// Writes the rows of a batch of SETs to the staging table, in order, and
    /// empties the batch.
    pub fn execute_set_batch(&mut self, batch: &mut Vec<SetRow>)
        ensures
            final(self).staging() == upserted_all(old(self).staging(), set_rows(old(batch)@)),
            final(self).canonical() == old(self).canonical(),
            final(batch)@.len() == 0,
    {
        let (mut staging, mut staged_keys, canonical, canonical_keys) = self.take();
        let ghost start = staging_of(staging@);
        let ghost records = set_rows(batch@);
        let mut i: usize = 0;
        assert(records.subrange(0, 0) =~= Seq::<Record>::empty());
        while i < batch.len()
            invariant
                i <= batch@.len(),
                records == set_rows(batch@),
                covers(staged_keys@, staging@),
                staging_of(staging@) == upserted_all(start, records.subrange(0, i as int)),
            decreases batch@.len() - i,
        {
            let key = batch[i].key.clone();
            let value = batch[i].value.clone();
            let time = batch[i].timestamp;
            proof {
                let grown = records.subrange(0, i + 1);
                assert(grown.drop_last() =~= records.subrange(0, i as int));
                assert(grown.last() == batch@[i as int]@);
            }
            stage(&mut staging, &mut staged_keys, key, StagedRow { time, value: Some(value) });
            i += 1;
        }
        assert(records.subrange(0, i as int) =~= records);
        batch.clear();
        *self = MemoryStore { staging, staged_keys, canonical, canonical_keys };
    }

    /// Writes the rows of a batch of DELETEs to the staging table, in order,
    /// and empties the batch.
    pub fn execute_delete_batch(&mut self, batch: &mut Vec<DeleteRow>)
        ensures
            final(self).staging() == upserted_all(old(self).staging(), delete_rows(old(batch)@)),
            final(self).canonical() == old(self).canonical(),
            final(batch)@.len() == 0,
    {
        let (mut staging, mut staged_keys, canonical, canonical_keys) = self.take();
        let ghost start = staging_of(staging@);
        let ghost records = delete_rows(batch@);
        let mut i: usize = 0;
        assert(records.subrange(0, 0) =~= Seq::<Record>::empty());
        while i < batch.len()
            invariant
                i <= batch@.len(),
                records == delete_rows(batch@),
                covers(staged_keys@, staging@),
                staging_of(staging@) == upserted_all(start, records.subrange(0, i as int)),
            decreases batch@.len() - i,
        {
            let key = batch[i].key.clone();
            let time = batch[i].timestamp;
            proof {
                let grown = records.subrange(0, i + 1);
                assert(grown.drop_last() =~= records.subrange(0, i as int));
                assert(grown.last() == batch@[i as int]@);
            }
            stage(&mut staging, &mut staged_keys, key, StagedRow { time, value: None });
            i += 1;
        }
        assert(records.subrange(0, i as int) =~= records);
        batch.clear();
        *self = MemoryStore { staging, staged_keys, canonical, canonical_keys };
    }

    /// Reconciles the tables: applies every staged row to the canonical table
    /// and empties the staging table.
    pub fn sync_db_tables(&mut self)
        ensures
            final(self).canonical() == reconciled(old(self).canonical(), old(self).staging()),
            final(self).staging() == Map::<Seq<char>, Staged>::empty(),
    {
        let (mut staging, mut staged_keys, mut canonical, mut canonical_keys) = self.take();
        let ghost before = canonical_of(canonical@);
        let ghost staged = staging_of(staging@);
        let mut i: usize = 0;
        assert(canonical_of(canonical@) =~= applied(before, staged, staged_keys@, 0));
        while i < staged_keys.len()
            invariant
                i <= staged_keys@.len(),
                staged == staging_of(staging@),
                covers(staged_keys@, staging@),
                covers(canonical_keys@, canonical@),
                canonical_of(canonical@) == applied(before, staged, staged_keys@, i as int),
            decreases staged_keys@.len() - i,
        {
            let ghost table = canonical_of(canonical@);
            let key = staged_keys[i].clone();
            proof {
                assert forall|k: Seq<char>|
                    settled(staged_keys@, i + 1, k) <==> settled(staged_keys@, i as int, k)
                        || key@ == k by {
                    lemma_settled_step(staged_keys@, i as int, k);
                }
            }
            match staging.get(key.as_str()) {
                Some(row) => match &row.value {
                    Some(text) => {
                        put(&mut canonical, &mut canonical_keys, key, text.clone());
                    },
                    None => {
                        canonical.remove(key.as_str());
                        assert(canonical_of(canonical@) =~= table.remove(key@));
                    },
                },
                None => {},
            }
            assert(canonical_of(canonical@) =~= applied(before, staged, staged_keys@, i + 1));
            i += 1;
        }
        assert(canonical_of(canonical@) =~= reconciled(before, staged)) by {
            assert forall|k: Seq<char>| staged.contains_key(k) implies settled(
                staged_keys@,
                i as int,
                k,
            ) by {
                assert(staging@.contains_key(k));
            }
        }
        staging.clear();
        staged_keys.clear();
        assert(staging_of(staging@) =~= Map::<Seq<char>, Staged>::empty());
        *self = MemoryStore { staging, staged_keys, canonical, canonical_keys };
    }

    /// The value that the canonical table holds for `key`.
    pub fn get(&self, key: &str) -> (value: Option<String>)
        ensures
            match value {
                Some(text) => self.canonical().contains_key(key@) && self.canonical()[key@]
                    == text@,
                None => !self.canonical().contains_key(key@),
            },
    {
        match self.canonical.get(key) {
            Some(text) => Some(text.clone()),
            None => None,
        }
    }

    /// The rows of the canonical table, as they would be read to fill the
    /// cache. A key may come more than once, with the same value each time.
    pub fn rows(&self) -> (rows: Vec<(String, String)>)
        ensures
            table_of(rows@) == self.canonical(),
    {
        proof {
            use_type_invariant(self);
        }
        let mut rows: Vec<(String, String)> = Vec::new();
        let mut i: usize = 0;
        let ghost table = canonical_of(self.canonical@);
        while i < self.canonical_keys.len()
            invariant
                i <= self.canonical_keys@.len(),
                table == canonical_of(self.canonical@),
                forall|k: Seq<char>| #[trigger]
                    table_of(rows@).contains_key(k) ==> table.contains_key(k) && table_of(
                        rows@,
                    )[k] == table[k],
                forall|j: int|
                    0 <= j < i && table.contains_key((#[trigger] self.canonical_keys@[j])@)
                        ==> table_of(rows@).contains_key(self.canonical_keys@[j]@),
            decreases self.canonical_keys@.len() - i,
        {
            let key = self.canonical_keys[i].clone();
            match self.canonical.get(key.as_str()) {
                Some(text) => {
                    let ghost filled = rows@;
                    let ghost name = key@;
                    let value = text.clone();
                    rows.push((key, value));
                    assert(rows@.drop_last() =~= filled);
                    assert(table_of(rows@) == table_of(filled).insert(name, value@));
                    assert(self.canonical@.contains_key(name));
                    assert(table.contains_key(name) && table[name] == value@);
                },
                None => {},
            }
            i += 1;
        }
        assert(table_of(rows@) =~= table) by {
            assert forall|k: Seq<char>| table.contains_key(k) implies table_of(
                rows@,
            ).contains_key(k) by {
                assert(self.canonical@.contains_key(k));
                let j = choose|j: int|
                    0 <= j < self.canonical_keys@.len() && (#[trigger] self.canonical_keys@[j])@
                        == k;
                assert(table.contains_key(self.canonical_keys@[j]@));
            }
        }
        rows
    }
}

/// Whether `k` is among the first `n` of `keys`.
pub open spec fn settled(keys: Seq<String>, n: int, k: Seq<char>) -> bool {
    exists|j: int| 0 <= j < n && (#[trigger] keys[j])@ == k
}

/// The canonical table when the staged rows of the first `n` of `keys` have
/// been applied to it.
pub open spec fn applied(before: Canonical, staged: Staging, keys: Seq<String>, n: int)
    -> Canonical {
    Map::new(
        |k: Seq<char>|
            if settled(keys, n, k) && staged.contains_key(k) {
                staged[k].value is Some
            } else {
                before.contains_key(k)
            },
        |k: Seq<char>|
            if settled(keys, n, k) && staged.contains_key(k) {
                staged[k].value->0
            } else {
                before[k]
            },
    )
}

/// One more key is settled when the next key has been dealt with.
proof fn lemma_settled_step(keys: Seq<String>, n: int, k: Seq<char>)
    requires
        0 <= n < keys.len(),
    ensures
        settled(keys, n + 1, k) <==> settled(keys, n, k) || keys[n]@ == k,
{
    if settled(keys, n + 1, k) {
        let j = choose|j: int| 0 <= j < n + 1 && (#[trigger] keys[j])@ == k;
        if j < n {
            assert(settled(keys, n, k));
        }
    }
    if settled(keys, n, k) {
        let j = choose|j: int| 0 <= j < n && (#[trigger] keys[j])@ == k;
        assert(0 <= j < n + 1 && keys[j]@ == k);
    }
    if keys[n]@ == k {
        assert(0 <= n < n + 1 && keys[n]@ == k);
    }
}

/// Gives `key` the value `value` in the canonical table, and lists the key.
fn put(
    canonical: &mut StringHashMap<String>,
    canonical_keys: &mut Vec<String>,
    key: String,
    value: String,
)
    requires
        covers(old(canonical_keys)@, old(canonical)@),
    ensures
        covers(final(canonical_keys)@, final(canonical)@),
        canonical_of(final(canonical)@) == canonical_of(old(canonical)@).insert(key@, value@),
{
    let ghost before = canonical@;
    let ghost listed = canonical_keys@;
    if !canonical.contains_key(key.as_str()) {
        canonical_keys.push(key.clone());
        assert(canonical_keys@[canonical_keys@.len() - 1]@ == key@);
    }
    let ghost grown = canonical_keys@;
    canonical.insert(key, value);
    assert(canonical_of(canonical@) =~= canonical_of(before).insert(key@, value@));
    assert forall|k: Seq<char>| #[trigger] canonical@.contains_key(k) implies exists|i: int|
        0 <= i < grown.len() && (#[trigger] grown[i])@ == k by {
        if k != key@ {
            assert(before.contains_key(k));
            let i = choose|i: int| 0 <= i < listed.len() && (#[trigger] listed[i])@ == k;
            assert(grown[i] == listed[i]);
        } else if before.contains_key(k) {
            let i = choose|i: int| 0 <= i < listed.len() && (#[trigger] listed[i])@ == k;
            assert(grown[i] == listed[i]);
        }
    }
}

/// Writes one row to the staging table under the rule that the newer row
/// wins, and lists its key.
fn stage(
    staging: &mut StringHashMap<StagedRow>,
    staged_keys: &mut Vec<String>,
    key: String,
    row: StagedRow,
)
    requires
        covers(old(staged_keys)@, old(staging)@),
    ensures
        covers(final(staged_keys)@, final(staging)@),
        staging_of(final(staging)@) == (if newer_than_staged(
            staging_of(old(staging)@),
            key@,
            row.time,
        ) {
            staging_of(old(staging)@).insert(key@, row@)
        } else {
            staging_of(old(staging)@)
        }),
{
    let ghost before = staging@;
    let ghost listed = staged_keys@;
    let newer = match staging.get(key.as_str()) {
        Some(held) => held.time < row.time,
        None => true,
    };
    if newer {
        if !staging.contains_key(key.as_str()) {
            staged_keys.push(key.clone());
            assert(staged_keys@[staged_keys@.len() - 1]@ == key@);
        }
        let ghost grown = staged_keys@;
        staging.insert(key, row);
        assert(staging_of(staging@) =~= staging_of(before).insert(key@, row@));
        assert forall|k: Seq<char>| #[trigger] staging@.contains_key(k) implies exists|i: int|
            0 <= i < grown.len() && (#[trigger] grown[i])@ == k by {
            if k != key@ {
                assert(before.contains_key(k));
                let i = choose|i: int| 0 <= i < listed.len() && (#[trigger] listed[i])@ == k;
                assert(grown[i] == listed[i]);
            } else if before.contains_key(k) {
                let i = choose|i: int| 0 <= i < listed.len() && (#[trigger] listed[i])@ == k;
                assert(grown[i] == listed[i]);
            }
        }
    }
}

} // verus!
