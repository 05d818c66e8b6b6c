//! Batches spread over the segments of the pool.
//!
//! Every batch that the background writer hands out holds whole records,
//! and each batch is appended whole to one segment. So each segment decodes
//! to the records of its batches, and the segments together hold the
//! records that were written: each once, none torn, none missing.

use vstd::multiset::Multiset;
use vstd::prelude::*;
use crate::codec::{encode_record, Record};
use crate::crash::decoded;
use crate::decoder::Pulled;
use crate::roundtrip::{encode_log, lemma_log_replays};
use crate::whole_segment::records_of;
use crate::writer::{handled, WriterEvent, FLUSH_THRESHOLD};

verus! {

/// Whether the layout can hold each of the records.
pub open spec fn all_representable(records: Seq<Record>) -> bool {
    forall|i: int| 0 <= i < records.len() ==> (#[trigger] records[i]).representable()
}

/// The bytes of each batch of records.
pub open spec fn encoded(batches: Seq<Seq<Record>>) -> Seq<Seq<u8>> {
    batches.map_values(|batch: Seq<Record>| encode_log(batch))
}

/// What segment `s` holds when the batches have been appended in order,
/// batch `i` to the segment `slots[i]`.
pub open spec fn bytes_on_segment(batches: Seq<Seq<u8>>, slots: Seq<nat>, s: nat) -> Seq<u8>
    decreases batches.len(),
{
    if batches.len() == 0 {
        Seq::empty()
    } else {
        let before = bytes_on_segment(batches.drop_last(), slots.drop_last(), s);
        if slots.last() == s {
            before + batches.last()
        } else {
            before
        }
    }
}

/// The records of the batches that went to segment `s`, in order.
pub open spec fn records_on_segment(batches: Seq<Seq<Record>>, slots: Seq<nat>, s: nat) -> Seq<
    Record,
>
    decreases batches.len(),
{
    if batches.len() == 0 {
        Seq::empty()
    } else {
        let before = records_on_segment(batches.drop_last(), slots.drop_last(), s);
        if slots.last() == s {
            before + batches.last()
        } else {
            before
        }
    }
}

/// The records of all batches, in order.
pub open spec fn all_records(batches: Seq<Seq<Record>>) -> Seq<Record>
    decreases batches.len(),
{
    if batches.len() == 0 {
        Seq::empty()
    } else {
        all_records(batches.drop_last()) + batches.last()
    }
}

/// The records on the first `p` segments, segment after segment.
pub open spec fn records_across(batches: Seq<Seq<Record>>, slots: Seq<nat>, p: nat) -> Seq<Record>
    decreases p,
{
    if p == 0 {
        Seq::empty()
    } else {
        records_across(batches, slots, (p - 1) as nat) + records_on_segment(
            batches,
            slots,
            (p - 1) as nat,
        )
    }
}

/// The bytes of records, one run after the other, are the bytes of the
/// first run followed by those of the second.
pub proof fn lemma_log_of_concatenation(a: Seq<Record>, b: Seq<Record>)
    ensures
        encode_log(a + b) == encode_log(a) + encode_log(b),
    decreases a.len(),
{
    if a.len() == 0 {
        assert(a + b =~= b);
        assert(encode_log(a) + encode_log(b) =~= encode_log(b));
    } else {
        lemma_log_of_concatenation(a.drop_first(), b);
        assert((a + b).drop_first() =~= a.drop_first() + b);
        assert((a + b).first() == a.first());
        assert(encode_record(a.first()) + (encode_log(a.drop_first()) + encode_log(b))
            =~= (encode_record(a.first()) + encode_log(a.drop_first())) + encode_log(b));
    }
}

/// No record is torn by the writer: where the buffer holds whole records
/// and a whole record arrives, what is handed out, if anything, is the
/// bytes of the records held with the one that arrived, and what stays
/// behind is whole records too.
pub proof fn lemma_data_keeps_records_whole(held: Seq<Record>, r: Record)
    ensures
        ({
            let step = handled(encode_log(held), WriterEvent::Data(encode_record(r)));
            let now = held.push(r);
            match step.0 {
                Some(batch) => batch == encode_log(now) && step.1 == encode_log(
                    Seq::<Record>::empty(),
                ) && batch.len() >= FLUSH_THRESHOLD,
                None => step.1 == encode_log(now) && step.1.len() < FLUSH_THRESHOLD,
            }
        }),
{
    let one = seq![r];
    lemma_log_of_concatenation(held, one);
    assert(held.push(r) =~= held + one);
    assert(one.drop_first() =~= Seq::<Record>::empty());
    assert(one.first() == r);
    assert(encode_log(Seq::<Record>::empty()) =~= Seq::<u8>::empty());
    assert(encode_log(one) =~= encode_record(r));
}

/// A tick or the close of the queue hands out the records held, whole.
pub proof fn lemma_flush_keeps_records_whole(held: Seq<Record>, event: WriterEvent)
    requires
        !(event is Data),
    ensures
        ({
            let step = handled(encode_log(held), event);
            match step.0 {
                Some(batch) => batch == encode_log(held) && step.1 == encode_log(
                    Seq::<Record>::empty(),
                ),
                None => step.1 == encode_log(held),
            }
        }),
{
}

/// The records among those that a decoder yields from the bytes of
/// records are those records.
proof fn lemma_records_of_yields(records: Seq<Record>)
    ensures
        records_of(records.map_values(|r: Record| Pulled::Record(r))) == records,
    decreases records.len(),
{
    let wrap = |r: Record| Pulled::Record(r);
    let items = records.map_values(wrap);
    if records.len() > 0 {
        lemma_records_of_yields(records.drop_first());
        assert(items.drop_first() =~= records.drop_first().map_values(wrap));
        assert(items.first() == Pulled::Record(records.first()));
        assert(seq![records.first()] + records.drop_first() =~= records);
    } else {
        assert(records_of(items) =~= records);
    }
}

/// The records on a segment are records of the batches.
proof fn lemma_segment_is_representable(batches: Seq<Seq<Record>>, slots: Seq<nat>, s: nat)
    requires
        batches.len() == slots.len(),
        forall|i: int| 0 <= i < batches.len() ==> all_representable(#[trigger] batches[i]),
    ensures
        all_representable(records_on_segment(batches, slots, s)),
    decreases batches.len(),
{
    if batches.len() > 0 {
        let front = batches.drop_last();
        assert forall|i: int| 0 <= i < front.len() implies all_representable(
            #[trigger] front[i],
        ) by {
            assert(front[i] == batches[i]);
        }
        lemma_segment_is_representable(front, slots.drop_last(), s);
        assert(all_representable(batches[batches.len() - 1]));
    }
}

/// Every segment decodes to the records of its batches: the bytes that a
/// segment holds are the bytes of the records of the batches that went to
/// it, in the order in which they went, and a decoder yields those records
/// from them.
pub proof fn lemma_segment_holds_its_batches(batches: Seq<Seq<Record>>, slots: Seq<nat>, s: nat)
    requires
        batches.len() == slots.len(),
        forall|i: int| 0 <= i < batches.len() ==> all_representable(#[trigger] batches[i]),
    ensures
        bytes_on_segment(encoded(batches), slots, s) == encode_log(
            records_on_segment(batches, slots, s),
        ),
        decoded(bytes_on_segment(encoded(batches), slots, s)) == records_on_segment(
            batches,
            slots,
            s,
        ),
{
    lemma_segment_bytes(batches, slots, s);
    lemma_segment_is_representable(batches, slots, s);
    let records = records_on_segment(batches, slots, s);
    lemma_log_replays(records);
    lemma_records_of_yields(records);
}

/// The bytes on a segment are the bytes of its records.
proof fn lemma_segment_bytes(batches: Seq<Seq<Record>>, slots: Seq<nat>, s: nat)
    requires
        batches.len() == slots.len(),
    ensures
        bytes_on_segment(encoded(batches), slots, s) == encode_log(
            records_on_segment(batches, slots, s),
        ),
    decreases batches.len(),
{
    if batches.len() > 0 {
        let front = batches.drop_last();
        lemma_segment_bytes(front, slots.drop_last(), s);
        assert(encoded(batches).drop_last() =~= encoded(front));
        assert(encoded(batches).last() == encode_log(batches.last()));
        lemma_log_of_concatenation(
            records_on_segment(front, slots.drop_last(), s),
            batches.last(),
        );
    }
}

/// One more batch adds its records to the segments, once, if it went to
/// one of them.
proof fn lemma_one_more_batch(batches: Seq<Seq<Record>>, slots: Seq<nat>, p: nat)
    requires
        batches.len() == slots.len(),
        batches.len() > 0,
    ensures
        records_across(batches, slots, p).to_multiset() == records_across(
            batches.drop_last(),
            slots.drop_last(),
            p,
        ).to_multiset().add(
            if slots.last() < p {
                batches.last().to_multiset()
            } else {
                Multiset::empty()
            },
        ),
    decreases p,
{
    broadcast use vstd::multiset::group_multiset_axioms;

    let front = batches.drop_last();
    let early = slots.drop_last();
    if p == 0 {
        assert(records_across(batches, slots, p).to_multiset() =~= records_across(
            front,
            early,
            p,
        ).to_multiset().add(Multiset::empty()));
    } else {
        let q = (p - 1) as nat;
        lemma_one_more_batch(batches, slots, q);
        let a = records_across(batches, slots, q);
        let b = records_on_segment(batches, slots, q);
        let a0 = records_across(front, early, q);
        let b0 = records_on_segment(front, early, q);
        vstd::seq_lib::lemma_multiset_commutative(a, b);
        vstd::seq_lib::lemma_multiset_commutative(a0, b0);
        if slots.last() == q {
            vstd::seq_lib::lemma_multiset_commutative(b0, batches.last());
        }
        assert(records_across(batches, slots, p).to_multiset() =~= records_across(
            front,
            early,
            p,
        ).to_multiset().add(
            if slots.last() < p {
                batches.last().to_multiset()
            } else {
                Multiset::empty()
            },
        ));
    }
}

/// The segments together hold the records that were written: where every
/// batch went to one of the `p` segments, the records on all segments are
/// the records of all batches, each as often as it was written.
pub proof fn lemma_segments_hold_every_record_once(
    batches: Seq<Seq<Record>>,
    slots: Seq<nat>,
    p: nat,
)
    requires
        batches.len() == slots.len(),
        forall|i: int| 0 <= i < slots.len() ==> #[trigger] slots[i] < p,
    ensures
        records_across(batches, slots, p).to_multiset() == all_records(batches).to_multiset(),
    decreases batches.len(),
{
    broadcast use vstd::multiset::group_multiset_axioms;

    if batches.len() == 0 {
        lemma_no_batches(slots, p);
        assert(batches =~= Seq::<Seq<Record>>::empty());
    } else {
        let front = batches.drop_last();
        let early = slots.drop_last();
        assert forall|i: int| 0 <= i < early.len() implies #[trigger] early[i] < p by {
            assert(early[i] == slots[i]);
        }
        lemma_segments_hold_every_record_once(front, early, p);
        lemma_one_more_batch(batches, slots, p);
        assert(slots.last() == slots[slots.len() - 1]);
        vstd::seq_lib::lemma_multiset_commutative(all_records(front), batches.last());
        assert(slots.last() < p);
        assert(all_records(batches) == all_records(front) + batches.last());
        assert(records_across(batches, slots, p).to_multiset() =~= all_records(
            batches,
        ).to_multiset());
    }
}

/// Without batches the segments hold nothing.
proof fn lemma_no_batches(slots: Seq<nat>, p: nat)
    ensures
        records_across(Seq::<Seq<Record>>::empty(), slots, p) == Seq::<Record>::empty(),
    decreases p,
{
    if p > 0 {
        lemma_no_batches(slots, (p - 1) as nat);
        assert(Seq::<Record>::empty() + Seq::<Record>::empty() =~= Seq::<Record>::empty());
    }
}

} // verus!
