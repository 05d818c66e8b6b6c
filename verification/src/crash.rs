//! What a crash in the middle of a write leaves behind.
//!
//! Two SETs of one key are written one after the other, and the process
//! dies: the segment holds some prefix of their bytes, cut anywhere. After
//! recovery the key has the second value where both records are whole, the
//! first where only the first is, and none where not even that is; it never
//! has a value that was not written.

use vstd::prelude::*;
use crate::codec::{encode_record, text_fits, Record};
use crate::decoder::{fed, leading_newlines, pulled, DecoderState, Pulled};
use crate::roundtrip::{
    lemma_cut_short_then_completed, lemma_decode_encode, lemma_line_feed_is_optional,
};
use crate::staging::{
    distinct_times, lemma_last_write_wins, reconciled, upserted_all, Canonical,
};
use crate::stream::{drained, joined};
use crate::whole_segment::{handed_over, lemma_recovery_stages_the_segment, records_of};

verus! {

/// The bytes of two SETs of `key`, the first made at `t1` with the value
/// `first`, the second at `t2` with the value `second`.
pub open spec fn two_sets(
    key: Seq<char>,
    first: Seq<char>,
    t1: u128,
    second: Seq<char>,
    t2: u128,
) -> Seq<u8> {
    encode_record(Record::Put { timestamp: t1, key, value: first }) + encode_record(
        Record::Put { timestamp: t2, key, value: second },
    )
}

/// The records that are whole in the first `cut` bytes of the two SETs. A
/// record is whole without its closing line feed.
pub open spec fn whole_records(
    key: Seq<char>,
    first: Seq<char>,
    t1: u128,
    second: Seq<char>,
    t2: u128,
    cut: int,
) -> Seq<Record> {
    whole_of_two(
        Record::Put { timestamp: t1, key, value: first },
        Record::Put { timestamp: t2, key, value: second },
        cut,
    )
}

/// The records that are whole in the first `cut` bytes of two records
/// written one after the other.
pub open spec fn whole_of_two(r1: Record, r2: Record, cut: int) -> Seq<Record> {
    if cut >= encode_record(r1).len() + encode_record(r2).len() - 1 {
        seq![r1, r2]
    } else if cut >= encode_record(r1).len() - 1 {
        seq![r1]
    } else {
        Seq::empty()
    }
}

/// The records that a decoder yields from the bytes `bytes`.
pub open spec fn decoded(bytes: Seq<u8>) -> Seq<Record> {
    records_of(drained(DecoderState { pending: bytes, failed: false }).0)
}

/// A decoder that holds nothing whole yields no record.
proof fn lemma_nothing_whole(bytes: Seq<u8>)
    requires
        pulled(DecoderState { pending: bytes, failed: false }).0 is Nothing,
    ensures
        decoded(bytes) == Seq::<Record>::empty(),
{
    let st = DecoderState { pending: bytes, failed: false };
    assert(drained(st).0 == Seq::<Pulled>::empty());
}

/// A decoder that holds nothing at all yields no record.
proof fn lemma_nothing_held()
    ensures
        decoded(Seq::<u8>::empty()) == Seq::<Record>::empty(),
{
    let s = Seq::<u8>::empty();
    assert(leading_newlines(s) == 0);
    assert(s.skip(0) =~= s);
    lemma_nothing_whole(s);
}

/// A decoder that yields a record first yields it before what the rest
/// gives.
proof fn lemma_one_then_the_rest(bytes: Seq<u8>, r: Record, rest: Seq<u8>)
    requires
        pulled(DecoderState { pending: bytes, failed: false }) == (
            Pulled::Record(r),
            DecoderState { pending: rest, failed: false },
        ),
    ensures
        decoded(bytes) == seq![r] + decoded(rest),
{
    let st = DecoderState { pending: bytes, failed: false };
    let after = DecoderState { pending: rest, failed: false };
    let got = drained(st).0;
    assert(got == seq![Pulled::Record(r)] + drained(after).0);
    assert(got.drop_first() =~= drained(after).0);
    assert(got.first() == Pulled::Record(r));
}

/// What a decoder yields from a record with the first `j` bytes of another
/// behind it, short of that other record: the record alone.
proof fn lemma_one_and_a_part(r1: Record, r2: Record, j: int)
    requires
        r1.representable(),
        r2.representable(),
        0 <= j < encode_record(r2).len() - 1,
    ensures
        decoded(encode_record(r1) + encode_record(r2).subrange(0, j)) == seq![r1],
{
    let part = encode_record(r2).subrange(0, j);
    lemma_decode_encode(r1, part);
    lemma_one_then_the_rest(encode_record(r1) + part, r1, part);
    lemma_cut_short_then_completed(r2, j);
    lemma_nothing_whole(part);
    assert(seq![r1] + Seq::<Record>::empty() =~= seq![r1]);
}

/// What a decoder yields from a record without its closing line feed: the
/// record.
proof fn lemma_one_without_line_feed(r: Record)
    requires
        r.representable(),
    ensures
        decoded(encode_record(r).drop_last()) == seq![r],
{
    lemma_line_feed_is_optional(r);
    lemma_one_then_the_rest(encode_record(r).drop_last(), r, Seq::<u8>::empty());
    lemma_nothing_held();
    assert(seq![r] + Seq::<Record>::empty() =~= seq![r]);
}

/// What a decoder yields from a whole record: the record.
proof fn lemma_one_whole(r: Record)
    requires
        r.representable(),
    ensures
        decoded(encode_record(r)) == seq![r],
{
    lemma_decode_encode(r, Seq::<u8>::empty());
    assert(encode_record(r) + Seq::<u8>::empty() =~= encode_record(r));
    lemma_one_then_the_rest(encode_record(r), r, Seq::<u8>::empty());
    lemma_nothing_held();
    assert(seq![r] + Seq::<Record>::empty() =~= seq![r]);
}

/// What a decoder yields from two records of which the second may lack its
/// closing line feed: both.
proof fn lemma_two_whole(r1: Record, r2: Record, with_line_feed: bool)
    requires
        r1.representable(),
        r2.representable(),
    ensures
        decoded(
            encode_record(r1) + (if with_line_feed {
                encode_record(r2)
            } else {
                encode_record(r2).drop_last()
            }),
        ) == seq![r1, r2],
{
    let rest = if with_line_feed {
        encode_record(r2)
    } else {
        encode_record(r2).drop_last()
    };
    lemma_decode_encode(r1, rest);
    lemma_one_then_the_rest(encode_record(r1) + rest, r1, rest);
    if with_line_feed {
        lemma_one_whole(r2);
    } else {
        lemma_one_without_line_feed(r2);
    }
    assert(seq![r1] + seq![r2] =~= seq![r1, r2]);
}

/// A decoder yields from a prefix of two records the records that are
/// whole in it, and no other.
pub proof fn lemma_prefix_yields_the_whole_records(r1: Record, r2: Record, cut: int)
    requires
        r1.representable(),
        r2.representable(),
        0 <= cut <= encode_record(r1).len() + encode_record(r2).len(),
    ensures
        decoded((encode_record(r1) + encode_record(r2)).subrange(0, cut)) == whole_of_two(
            r1,
            r2,
            cut,
        ),
{
    let e1 = encode_record(r1);
    let e2 = encode_record(r2);
    let prefix = (e1 + e2).subrange(0, cut);
    crate::roundtrip::lemma_parse_encoded(r1, Seq::<u8>::empty());
    crate::roundtrip::lemma_parse_encoded(r2, Seq::<u8>::empty());
    if cut < e1.len() - 1 {
        lemma_cut_short_then_completed(r1, cut);
        assert(prefix =~= e1.subrange(0, cut));
        lemma_nothing_whole(prefix);
    } else if cut == e1.len() - 1 {
        lemma_one_without_line_feed(r1);
        assert(prefix =~= e1.drop_last());
    } else if cut < e1.len() + e2.len() - 1 {
        lemma_one_and_a_part(r1, r2, cut - e1.len());
        assert(prefix =~= e1 + e2.subrange(0, cut - e1.len()));
    } else if cut == e1.len() + e2.len() - 1 {
        lemma_two_whole(r1, r2, false);
        assert(prefix =~= e1 + e2.drop_last());
    } else {
        lemma_two_whole(r1, r2, true);
        assert(prefix =~= e1 + e2);
    }
}

/// After a crash between two SETs of one key, recovery gives the key the
/// newest value that is whole on disk.
///
/// The segment holds the first `cut` bytes of the two records. It is read
/// in whatever chunks, its rows are written to an empty staging table in
/// batches of whatever size and in whatever order, and the staged rows are
/// applied to a canonical table that has no row for the key. Then the key
/// has the second value where both records are whole, the first value
/// where only the first record is, and no value where none is. A cache
/// that is filled from the canonical table answers the same.
pub proof fn lemma_crash_between_two_sets(
    canonical: Canonical,
    key: Seq<char>,
    first: Seq<char>,
    t1: u128,
    second: Seq<char>,
    t2: u128,
    chunks: Seq<Seq<u8>>,
    limit: nat,
    written: Seq<Record>,
)
    requires
        t1 < t2,
        text_fits(key),
        text_fits(first),
        text_fits(second),
        !canonical.contains_key(key),
        joined(chunks).len() <= two_sets(key, first, t1, second, t2).len(),
        joined(chunks) == two_sets(key, first, t1, second, t2).subrange(
            0,
            joined(chunks).len() as int,
        ),
        written.to_multiset() == (handed_over(chunks, limit).0 + handed_over(
            chunks,
            limit,
        ).1).to_multiset(),
    ensures
        ({
            let after = reconciled(canonical, upserted_all(Map::empty(), written));
            let whole = whole_records(key, first, t1, second, t2, joined(chunks).len() as int);
            let cache = Map::<Seq<char>, Seq<char>>::empty().union_prefer_right(after);
            &&& whole.len() == 2 ==> after.contains_key(key) && after[key] == second
            &&& whole.len() == 1 ==> after.contains_key(key) && after[key] == first
            &&& whole.len() == 0 ==> !after.contains_key(key)
            &&& cache == after
        }),
{
    let cut = joined(chunks).len() as int;
    let r1 = Record::Put { timestamp: t1, key, value: first };
    let r2 = Record::Put { timestamp: t2, key, value: second };
    let start = DecoderState { pending: Seq::<u8>::empty(), failed: false };
    let whole = whole_records(key, first, t1, second, t2, cut);
    lemma_prefix_yields_the_whole_records(r1, r2, cut);
    assert(fed(start, joined(chunks)).pending =~= joined(chunks));
    let held = drained(fed(start, joined(chunks))).0;
    assert(records_of(held) == whole);
    assert(distinct_times(whole));
    lemma_recovery_stages_the_segment(chunks, limit, written);
    let staging = upserted_all(Map::empty(), whole);
    let after = reconciled(canonical, staging);
    if whole.len() == 2 {
        assert(whole[1] == r2 && whole[0] == r1);
        lemma_last_write_wins(canonical, whole, key, 1);
    } else if whole.len() == 1 {
        assert(whole[0] == r1);
        lemma_last_write_wins(canonical, whole, key, 0);
    } else {
        assert(staging =~= Map::empty());
    }
    assert(Map::<Seq<char>, Seq<char>>::empty().union_prefer_right(after) =~= after);
}

} // verus!
