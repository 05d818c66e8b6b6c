//! The rules of the two tables: the staging table, which keeps for each key
//! the newest record seen, and the canonical table, which the staged records
//! are applied to.
//!
//! A record replaces what is staged for its key only where its timestamp is
//! the greater. So the staged state does not depend on the order in which
//! records arrive, and replaying a segment a second time changes nothing.

use vstd::prelude::*;
use crate::codec::Record;

verus! {

/// What the staging table holds for a key: the time of the newest record
/// and its value, or no value where that record is a DELETE.
pub struct Staged {
    pub time: u128,
    pub value: Option<Seq<char>>,
}

/// The staging table: at most one row for each key.
pub type Staging = Map<Seq<char>, Staged>;

/// The canonical table: the value of each key that has one.
pub type Canonical = Map<Seq<char>, Seq<char>>;

/// What a record would be staged as.
pub open spec fn staged_of(r: Record) -> Staged {
    match r {
        Record::Put { timestamp, value, .. } => Staged { time: timestamp, value: Some(value) },
        Record::Delete { timestamp, .. } => Staged { time: timestamp, value: None },
    }
}

/// Whether a row of time `time` replaces what is staged for `key`: there is
/// nothing, or something older.
pub open spec fn newer_than_staged(staging: Staging, key: Seq<char>, time: u128) -> bool {
    !staging.contains_key(key) || staging[key].time < time
}

/// Whether `r` replaces what is staged for its key.
pub open spec fn supersedes(staging: Staging, r: Record) -> bool {
    newer_than_staged(staging, r.key(), r.timestamp())
}

/// The staging table after `r` has been written to it.
pub open spec fn upserted(staging: Staging, r: Record) -> Staging {
    if supersedes(staging, r) {
        staging.insert(r.key(), staged_of(r))
    } else {
        staging
    }
}

/// The staging table after `records` have been written to it, in order.
pub open spec fn upserted_all(staging: Staging, records: Seq<Record>) -> Staging
    decreases records.len(),
{
    if records.len() == 0 {
        staging
    } else {
        upserted(upserted_all(staging, records.drop_last()), records.last())
    }
}

/// The canonical table after the staged rows have been applied: a staged
/// SET gives its key the staged value, a staged DELETE removes its key, and
/// a key that nothing is staged for stays as it is.
pub open spec fn reconciled(canonical: Canonical, staging: Staging) -> Canonical {
    Map::new(
        |k: Seq<char>|
            if staging.contains_key(k) {
                staging[k].value is Some
            } else {
                canonical.contains_key(k)
            },
        |k: Seq<char>|
            if staging.contains_key(k) {
                staging[k].value->0
            } else {
                canonical[k]
            },
    )
}

/// Whether no two of the records are about the same key at the same time.
pub open spec fn distinct_times(records: Seq<Record>) -> bool {
    forall|i: int, j: int|
        0 <= i < records.len() && 0 <= j < records.len() && i != j && records[i].key()
            == records[j].key() ==> records[i].timestamp() != records[j].timestamp()
}

/// What writing records does to the row of one key: the row is there if it
/// was there or a record is about the key; it is as new as every record
/// about the key; and it is the old row or one of those records.
pub proof fn lemma_upserted_row(staging: Staging, records: Seq<Record>, k: Seq<char>)
    ensures
        ({
            let after = upserted_all(staging, records);
            &&& after.contains_key(k) <==> staging.contains_key(k) || exists|i: int|
                0 <= i < records.len() && (#[trigger] records[i]).key() == k
            &&& forall|i: int|
                0 <= i < records.len() && (#[trigger] records[i]).key() == k
                    ==> records[i].timestamp() <= after[k].time
            &&& after.contains_key(k) ==> (staging.contains_key(k) && after[k] == staging[k]
                && !(exists|i: int|
                0 <= i < records.len() && (#[trigger] records[i]).key() == k
                    && staging[k].time < records[i].timestamp())) || exists|i: int|
                0 <= i < records.len() && (#[trigger] records[i]).key() == k && after[k]
                    == staged_of(records[i])
            &&& staging.contains_key(k) ==> staging[k].time <= after[k].time
        }),
    decreases records.len(),
{
    if records.len() > 0 {
        let front = records.drop_last();
        let last = records.last();
        lemma_upserted_row(staging, front, k);
        let before = upserted_all(staging, front);
        let after = upserted_all(staging, records);
        assert forall|i: int| 0 <= i < front.len() implies front[i] == records[i] by {}
        if last.key() == k {
            assert(records[records.len() - 1].key() == k);
            if supersedes(before, last) {
                assert(after[k] == staged_of(records[records.len() - 1]));
            } else {
                if exists|i: int|
                    0 <= i < front.len() && (#[trigger] front[i]).key() == k && before[k]
                        == staged_of(front[i]) {
                    let i = choose|i: int|
                        0 <= i < front.len() && (#[trigger] front[i]).key() == k && before[k]
                            == staged_of(front[i]);
                    assert(records[i].key() == k && after[k] == staged_of(records[i]));
                }
            }
        } else {
            assert(after.contains_key(k) == before.contains_key(k));
            if before.contains_key(k) {
                assert(after[k] == before[k]);
            }
            if exists|i: int|
                0 <= i < front.len() && (#[trigger] front[i]).key() == k && before[k]
                    == staged_of(front[i]) {
                let i = choose|i: int|
                    0 <= i < front.len() && (#[trigger] front[i]).key() == k && before[k]
                        == staged_of(front[i]);
                assert(records[i].key() == k && after[k] == staged_of(records[i]));
            }
        }
        if exists|i: int| 0 <= i < front.len() && (#[trigger] front[i]).key() == k {
            let i = choose|i: int| 0 <= i < front.len() && (#[trigger] front[i]).key() == k;
            assert(records[i].key() == k);
        }
        assert forall|i: int|
            0 <= i < records.len() && (#[trigger] records[i]).key() == k implies records[i].timestamp()
            <= after[k].time by {
            if i < front.len() {
                assert(front[i].key() == k);
            }
        }
    }
}

/// The newest record of a key wins: where one record about `k` is newer
/// than every other record about `k`, it is what the staging table holds for
/// `k` once all records are written, wherever in the sequence it stands; and
/// after reconciliation the canonical table holds its value for `k`, or
/// nothing where it is a DELETE.
pub proof fn lemma_last_write_wins(
    canonical: Canonical,
    records: Seq<Record>,
    k: Seq<char>,
    w: int,
)
    requires
        0 <= w < records.len(),
        records[w].key() == k,
        forall|i: int|
            0 <= i < records.len() && i != w && (#[trigger] records[i]).key() == k
                ==> records[i].timestamp() < records[w].timestamp(),
    ensures
        ({
            let staging = upserted_all(Map::empty(), records);
            let after = reconciled(canonical, staging);
            &&& staging.contains_key(k) && staging[k] == staged_of(records[w])
            &&& match records[w] {
                Record::Put { value, .. } => after.contains_key(k) && after[k] == value,
                Record::Delete { .. } => !after.contains_key(k),
            }
        }),
{
    lemma_upserted_row(Map::empty(), records, k);
    let staging = upserted_all(Map::empty(), records);
    assert(records[w].key() == k);
    let i = choose|i: int|
        0 <= i < records.len() && (#[trigger] records[i]).key() == k && staging[k] == staged_of(
            records[i],
        );
    assert(records[w].timestamp() <= staging[k].time);
    assert(staged_of(records[i]).time == records[i].timestamp());
}

/// The order of the records is irrelevant: two sequences that hold the same
/// records, no two of them about one key at one time, leave the same staging
/// table behind.
pub proof fn lemma_order_is_irrelevant(a: Seq<Record>, b: Seq<Record>)
    requires
        a.to_multiset() == b.to_multiset(),
        distinct_times(a),
    ensures
        upserted_all(Map::empty(), a) == upserted_all(Map::empty(), b),
{
    let sa = upserted_all(Map::empty(), a);
    let sb = upserted_all(Map::empty(), b);
    assert forall|x: Record| a.contains(x) <==> b.contains(x) by {
        vstd::seq_lib::to_multiset_contains(a, x);
        vstd::seq_lib::to_multiset_contains(b, x);
    }
    assert forall|k: Seq<char>| sa.contains_key(k) == sb.contains_key(k) by {
        lemma_upserted_row(Map::empty(), a, k);
        lemma_upserted_row(Map::empty(), b, k);
        if sa.contains_key(k) {
            let i = choose|i: int| 0 <= i < a.len() && (#[trigger] a[i]).key() == k;
            assert(a.contains(a[i]));
            let j = choose|j: int| 0 <= j < b.len() && b[j] == a[i];
            assert(b[j].key() == k);
        }
        if sb.contains_key(k) {
            let j = choose|j: int| 0 <= j < b.len() && (#[trigger] b[j]).key() == k;
            assert(b.contains(b[j]));
            let i = choose|i: int| 0 <= i < a.len() && a[i] == b[j];
            assert(a[i].key() == k);
        }
    }
    assert forall|k: Seq<char>| sa.contains_key(k) implies sa[k] == sb[k] by {
        lemma_upserted_row(Map::empty(), a, k);
        lemma_upserted_row(Map::empty(), b, k);
        let i = choose|i: int|
            0 <= i < a.len() && (#[trigger] a[i]).key() == k && sa[k] == staged_of(a[i]);
        let j = choose|j: int|
            0 <= j < b.len() && (#[trigger] b[j]).key() == k && sb[k] == staged_of(b[j]);
        // The winner of each sequence stands in the other one too.
        assert(a.contains(a[i]));
        let jj = choose|jj: int| 0 <= jj < b.len() && b[jj] == a[i];
        assert(b[jj].key() == k);
        assert(b.contains(b[j]));
        let ii = choose|ii: int| 0 <= ii < a.len() && a[ii] == b[j];
        assert(a[ii].key() == k);
        assert(a[ii].timestamp() <= sa[k].time);
        assert(b[jj].timestamp() <= sb[k].time);
        assert(staged_of(a[i]).time == a[i].timestamp());
        assert(staged_of(b[j]).time == b[j].timestamp());
        assert(ii == i);
    }
    assert(sa =~= sb);
}

/// Records that have been written once change nothing when they are written
/// again: a segment that is replayed a second time, because the process
/// died between the commit and the deletion of the segment, leaves the
/// staging table as the first replay left it.
pub proof fn lemma_replay_is_idempotent(staging: Staging, records: Seq<Record>)
    ensures
        upserted_all(upserted_all(staging, records), records) == upserted_all(staging, records),
{
    let once = upserted_all(staging, records);
    assert forall|i: int| 0 <= i < records.len() implies !supersedes(
        once,
        #[trigger] records[i],
    ) by {
        lemma_upserted_row(staging, records, records[i].key());
    }
    lemma_superseded_records_change_nothing(once, records);
}

/// Records of which none replaces what is staged leave the table as it is.
pub proof fn lemma_superseded_records_change_nothing(staging: Staging, records: Seq<Record>)
    requires
        forall|i: int| 0 <= i < records.len() ==> !supersedes(staging, #[trigger] records[i]),
    ensures
        upserted_all(staging, records) == staging,
    decreases records.len(),
{
    if records.len() > 0 {
        let front = records.drop_last();
        assert forall|i: int| 0 <= i < front.len() implies !supersedes(
            staging,
            #[trigger] front[i],
        ) by {
            assert(front[i] == records[i]);
        }
        lemma_superseded_records_change_nothing(staging, front);
        assert(records.last() == records[records.len() - 1]);
    }
}

/// Recovery that runs twice over the same segments ends where one run ends:
/// the second run stages the same rows, and applying them to the table that
/// the first run left changes nothing.
pub proof fn lemma_recovery_is_idempotent(canonical: Canonical, records: Seq<Record>)
    ensures
        ({
            let staging = upserted_all(Map::empty(), records);
            let once = reconciled(canonical, staging);
            let twice = reconciled(once, staging);
            let crashed = reconciled(canonical, upserted_all(staging, records));
            twice == once && crashed == once
        }),
{
    let staging = upserted_all(Map::empty(), records);
    let once = reconciled(canonical, staging);
    assert(reconciled(once, staging) =~= once);
    lemma_replay_is_idempotent(Map::empty(), records);
}

} // verus!
