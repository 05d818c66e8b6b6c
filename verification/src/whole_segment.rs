//! What the replay of a whole segment hands over: exactly the records that
//! the segment holds, however the file is cut into chunks and wherever the
//! batches happen to fill up.

use vstd::prelude::*;
use crate::codec::Record;
use crate::decoder::{fed, leading_newlines, pulled, DecoderState, Pulled};
use crate::replay::{advanced, batch_full, gathered, Halt, ReplayState};
use crate::staging::{distinct_times, lemma_order_is_irrelevant, upserted_all};
use crate::stream::{
    budget, drained, joined, lemma_chunking_is_invisible, lemma_leading_newlines_bound,
    lemma_pull_shrinks, streamed,
};

verus! {

/// The SET records among what a decoder yielded, in order.
pub open spec fn puts(items: Seq<Pulled>) -> Seq<Record>
    decreases items.len(),
{
    if items.len() == 0 {
        Seq::empty()
    } else {
        let rest = puts(items.drop_first());
        match items.first() {
            Pulled::Record(r) => if r is Put {
                seq![r] + rest
            } else {
                rest
            },
            _ => rest,
        }
    }
}

/// The DELETE records among what a decoder yielded, in order.
pub open spec fn removes(items: Seq<Pulled>) -> Seq<Record>
    decreases items.len(),
{
    if items.len() == 0 {
        Seq::empty()
    } else {
        let rest = removes(items.drop_first());
        match items.first() {
            Pulled::Record(r) => if r is Delete {
                seq![r] + rest
            } else {
                rest
            },
            _ => rest,
        }
    }
}

/// A replay with the decoder `decoder` and two empty batches.
pub open spec fn emptied(decoder: DecoderState) -> ReplayState {
    ReplayState { decoder, sets: Seq::empty(), deletes: Seq::empty() }
}

/// A replay advanced until it is starved: the rows of all batches handed
/// over on the way, SETs and DELETEs, and the state at the end.
pub open spec fn exhausted(st: ReplayState, limit: nat) -> (Seq<Record>, Seq<Record>, ReplayState)
    decreases budget(st.decoder),
{
    let step = advanced(st, limit);
    match step.0 {
        Halt::Starved => (Seq::empty(), Seq::empty(), step.1),
        Halt::Rejected => {
            proof {
                lemma_advance_conserves(st, limit);
            }
            exhausted(step.1, limit)
        },
        Halt::Full => {
            proof {
                lemma_advance_conserves(st, limit);
            }
            let rest = exhausted(emptied(step.1.decoder), limit);
            (step.1.sets + rest.0, step.1.deletes + rest.1, rest.2)
        },
    }
}

/// The replay of a file read in `chunks`: each chunk is fed in and the
/// replay advanced until it is starved.
pub open spec fn replayed(st: ReplayState, chunks: Seq<Seq<u8>>, limit: nat) -> (
    Seq<Record>,
    Seq<Record>,
    ReplayState,
)
    decreases chunks.len(),
{
    if chunks.len() == 0 {
        exhausted(st, limit)
    } else {
        let before = replayed(st, chunks.drop_last(), limit);
        let next = ReplayState {
            decoder: fed(before.2.decoder, chunks.last()),
            sets: before.2.sets,
            deletes: before.2.deletes,
        };
        let after = exhausted(next, limit);
        (before.0 + after.0, before.1 + after.1, after.2)
    }
}

/// All rows that the replay of a file hands over, SETs and DELETEs: those of
/// the full batches and those left at the end of the file.
pub open spec fn handed_over(chunks: Seq<Seq<u8>>, limit: nat) -> (Seq<Record>, Seq<Record>) {
    let fresh = emptied(DecoderState { pending: Seq::empty(), failed: false });
    let run = replayed(fresh, chunks, limit);
    (run.0 + run.2.sets, run.1 + run.2.deletes)
}

/// A pull that yields nothing leaves a state from which a pull yields
/// nothing again.
pub proof fn lemma_starved_stays_starved(st: DecoderState)
    requires
        pulled(st).0 is Nothing,
    ensures
        pulled(pulled(st).1) == pulled(st),
        drained(pulled(st).1) == (Seq::<Pulled>::empty(), pulled(st).1),
        drained(st) == (Seq::<Pulled>::empty(), pulled(st).1),
{
    if !st.failed {
        lemma_leading_newlines_bound(st.pending);
        let rest = st.pending.skip(leading_newlines(st.pending) as int);
        assert(leading_newlines(rest) == 0);
        assert(rest.skip(0) =~= rest);
    }
}

/// An advance neither loses nor invents a record: what is gathered after
/// it, with what the decoder will still yield, is what was gathered before
/// it, with what the decoder would have yielded. An advance that ends for
/// another reason than want of input has brought the decoder forward.
pub proof fn lemma_advance_conserves(st: ReplayState, limit: nat)
    ensures
        ({
            let step = advanced(st, limit);
            let before = drained(st.decoder);
            let after = drained(step.1.decoder);
            &&& step.1.sets + puts(after.0) == st.sets + puts(before.0)
            &&& step.1.deletes + removes(after.0) == st.deletes + removes(before.0)
            &&& after.1 == before.1
            &&& !(step.0 is Starved) ==> budget(step.1.decoder) < budget(st.decoder)
            &&& step.0 is Starved ==> step.1.decoder == before.1 && after.0.len() == 0
            &&& step.0 is Full ==> batch_full(step.1, limit)
        }),
    decreases budget(st.decoder),
{
    let pull = pulled(st.decoder);
    let before = drained(st.decoder);
    lemma_pull_shrinks(st.decoder);
    match pull.0 {
        Pulled::Nothing => {
            lemma_starved_stays_starved(st.decoder);
        },
        Pulled::Invalid => {
            assert(pull.1.failed);
            assert(drained(pull.1) == (Seq::<Pulled>::empty(), pull.1));
            assert(before.0 =~= seq![pull.0]);
            assert(before.0.drop_first() =~= Seq::<Pulled>::empty());
            assert(before.0.first() == pull.0);
            assert(puts(before.0.drop_first()) =~= Seq::<Record>::empty());
            assert(removes(before.0.drop_first()) =~= Seq::<Record>::empty());
            assert(puts(before.0) =~= Seq::<Record>::empty());
            assert(removes(before.0) =~= Seq::<Record>::empty());
            assert(st.sets + Seq::<Record>::empty() =~= st.sets);
            assert(st.deletes + Seq::<Record>::empty() =~= st.deletes);
        },
        Pulled::Record(record) => {
            let next = gathered(st, pull.1, record);
            let more = drained(pull.1);
            assert(before.0 == seq![pull.0] + more.0);
            assert(before.0.drop_first() =~= more.0);
            assert(before.0.first() == pull.0);
            if record is Put {
                assert(puts(before.0) == seq![record] + puts(more.0));
                assert(removes(before.0) == removes(more.0));
                assert(st.sets.push(record) + puts(more.0) =~= st.sets + (seq![record] + puts(
                    more.0,
                )));
            } else {
                assert(removes(before.0) == seq![record] + removes(more.0));
                assert(puts(before.0) == puts(more.0));
                assert(st.deletes.push(record) + removes(more.0) =~= st.deletes + (seq![record]
                    + removes(more.0)));
            }
            if !batch_full(next, limit) {
                lemma_advance_conserves(next, limit);
            }
        },
    }
}

/// A replay that is advanced until it is starved has handed over or still
/// holds every record that its decoder would have yielded, and nothing else;
/// its decoder is drained.
pub proof fn lemma_exhausted_conserves(st: ReplayState, limit: nat)
    ensures
        ({
            let run = exhausted(st, limit);
            let all = drained(st.decoder);
            &&& run.0 + run.2.sets == st.sets + puts(all.0)
            &&& run.1 + run.2.deletes == st.deletes + removes(all.0)
            &&& run.2.decoder == all.1
        }),
    decreases budget(st.decoder),
{
    let step = advanced(st, limit);
    lemma_advance_conserves(st, limit);
    let all = drained(st.decoder);
    let after = drained(step.1.decoder);
    match step.0 {
        Halt::Starved => {
            assert(puts(after.0) =~= Seq::<Record>::empty());
            assert(removes(after.0) =~= Seq::<Record>::empty());
            assert(step.1.sets + Seq::<Record>::empty() =~= step.1.sets);
            assert(step.1.deletes + Seq::<Record>::empty() =~= step.1.deletes);
            assert(Seq::<Record>::empty() + step.1.sets =~= step.1.sets);
            assert(Seq::<Record>::empty() + step.1.deletes =~= step.1.deletes);
        },
        Halt::Rejected => {
            lemma_exhausted_conserves(step.1, limit);
        },
        Halt::Full => {
            let next = emptied(step.1.decoder);
            lemma_exhausted_conserves(next, limit);
            let rest = exhausted(next, limit);
            assert(Seq::<Record>::empty() + puts(after.0) =~= puts(after.0));
            assert(Seq::<Record>::empty() + removes(after.0) =~= removes(after.0));
            assert((step.1.sets + rest.0) + rest.2.sets =~= step.1.sets + (rest.0 + rest.2.sets));
            assert((step.1.deletes + rest.1) + rest.2.deletes =~= step.1.deletes + (rest.1
                + rest.2.deletes));
        },
    }
}

/// The SETs of two runs of yields, one after the other, are the SETs of the
/// first followed by those of the second; and so for the DELETEs.
pub proof fn lemma_kinds_of_concatenation(a: Seq<Pulled>, b: Seq<Pulled>)
    ensures
        puts(a + b) == puts(a) + puts(b),
        removes(a + b) == removes(a) + removes(b),
    decreases a.len(),
{
    if a.len() == 0 {
        assert(a + b =~= b);
        assert(Seq::<Record>::empty() + puts(b) =~= puts(b));
        assert(Seq::<Record>::empty() + removes(b) =~= removes(b));
    } else {
        lemma_kinds_of_concatenation(a.drop_first(), b);
        assert((a + b).drop_first() =~= a.drop_first() + b);
        assert((a + b).first() == a.first());
        let pa = puts(a.drop_first());
        let ra = removes(a.drop_first());
        match a.first() {
            Pulled::Record(r) => {
                assert((seq![r] + pa) + puts(b) =~= seq![r] + (pa + puts(b)));
                assert((seq![r] + ra) + removes(b) =~= seq![r] + (ra + removes(b)));
            },
            _ => {},
        }
    }
}

/// The replay of a file read in chunks has handed over or still holds what
/// a decoder yields that is fed the chunks and drained after each.
proof fn lemma_replayed_is_streamed(chunks: Seq<Seq<u8>>, limit: nat)
    ensures
        ({
            let start = DecoderState { pending: Seq::empty(), failed: false };
            let run = replayed(emptied(start), chunks, limit);
            let stream = streamed(start, chunks);
            &&& run.0 + run.2.sets == puts(stream.0)
            &&& run.1 + run.2.deletes == removes(stream.0)
            &&& run.2.decoder == stream.1
        }),
    decreases chunks.len(),
{
    let start = DecoderState { pending: Seq::<u8>::empty(), failed: false };
    if chunks.len() == 0 {
        lemma_exhausted_conserves(emptied(start), limit);
        let all = drained(start);
        assert(Seq::<Record>::empty() + puts(all.0) =~= puts(all.0));
        assert(Seq::<Record>::empty() + removes(all.0) =~= removes(all.0));
    } else {
        let front = chunks.drop_last();
        lemma_replayed_is_streamed(front, limit);
        let before = replayed(emptied(start), front, limit);
        let stream = streamed(start, front);
        let next = ReplayState {
            decoder: fed(before.2.decoder, chunks.last()),
            sets: before.2.sets,
            deletes: before.2.deletes,
        };
        lemma_exhausted_conserves(next, limit);
        let after = exhausted(next, limit);
        let more = drained(fed(stream.1, chunks.last()));
        lemma_kinds_of_concatenation(stream.0, more.0);
        assert((before.0 + after.0) + after.2.sets =~= before.0 + (after.0 + after.2.sets));
        assert(before.0 + (before.2.sets + puts(more.0)) =~= (before.0 + before.2.sets) + puts(
            more.0,
        ));
        assert((before.1 + after.1) + after.2.deletes =~= before.1 + (after.1
            + after.2.deletes));
        assert(before.1 + (before.2.deletes + removes(more.0)) =~= (before.1
            + before.2.deletes) + removes(more.0));
    }
}

/// The rows that the replay of a segment hands over are the records that
/// the segment holds: the SETs that a decoder yields from the bytes of the
/// file, in their order, and the DELETEs, in theirs. Neither the cut of the
/// chunks nor the size of the batches shows in them.
pub proof fn lemma_replay_hands_over_the_segment(chunks: Seq<Seq<u8>>, limit: nat)
    ensures
        ({
            let start = DecoderState { pending: Seq::empty(), failed: false };
            let held = drained(fed(start, joined(chunks))).0;
            handed_over(chunks, limit) == (puts(held), removes(held))
        }),
{
    let start = DecoderState { pending: Seq::<u8>::empty(), failed: false };
    lemma_replayed_is_streamed(chunks, limit);
    lemma_chunking_is_invisible(start, chunks);
}

/// The records among what a decoder yielded, in order.
pub open spec fn records_of(items: Seq<Pulled>) -> Seq<Record>
    decreases items.len(),
{
    if items.len() == 0 {
        Seq::empty()
    } else {
        let rest = records_of(items.drop_first());
        match items.first() {
            Pulled::Record(r) => seq![r] + rest,
            _ => rest,
        }
    }
}

/// The SETs and the DELETEs together are the records, each as often as it
/// was yielded.
pub proof fn lemma_kinds_make_up_the_records(items: Seq<Pulled>)
    ensures
        (puts(items) + removes(items)).to_multiset() == records_of(items).to_multiset(),
    decreases items.len(),
{
    broadcast use vstd::seq_lib::lemma_multiset_commutative;

    if items.len() == 0 {
        assert(puts(items) + removes(items) =~= records_of(items));
    } else {
        let rest = items.drop_first();
        lemma_kinds_make_up_the_records(rest);
        match items.first() {
            Pulled::Record(r) => {
                let one = seq![r];
                assert((one + (puts(rest) + removes(rest))).to_multiset() == one.to_multiset().add(
                    (puts(rest) + removes(rest)).to_multiset(),
                ));
                assert((one + records_of(rest)).to_multiset() == one.to_multiset().add(
                    records_of(rest).to_multiset(),
                ));
                if r is Put {
                    assert(puts(items) + removes(items) =~= one + (puts(rest) + removes(rest)));
                } else {
                    assert((puts(rest) + removes(rest)).to_multiset() == puts(
                        rest,
                    ).to_multiset().add(removes(rest).to_multiset()));
                    assert((one + removes(rest)).to_multiset() == one.to_multiset().add(
                        removes(rest).to_multiset(),
                    ));
                    assert((puts(rest) + (one + removes(rest))).to_multiset() == puts(
                        rest,
                    ).to_multiset().add((one + removes(rest)).to_multiset()));
                    assert(puts(rest).to_multiset().add(
                        one.to_multiset().add(removes(rest).to_multiset()),
                    ) =~= one.to_multiset().add(
                        puts(rest).to_multiset().add(removes(rest).to_multiset()),
                    ));
                }
            },
            _ => {},
        }
    }
}

/// Recovery stages what the segment holds: where the rows that the replay
/// hands over are written to the staging table, batch by batch in whatever
/// order, the table ends as if the records of the segment had been written
/// one by one in the order of the log. This holds of a segment in which no
/// two records are about one key at one time.
pub proof fn lemma_recovery_stages_the_segment(
    chunks: Seq<Seq<u8>>,
    limit: nat,
    written: Seq<Record>,
)
    requires
        ({
            let start = DecoderState { pending: Seq::empty(), failed: false };
            let held = drained(fed(start, joined(chunks))).0;
            let handed = handed_over(chunks, limit);
            &&& distinct_times(records_of(held))
            &&& written.to_multiset() == (handed.0 + handed.1).to_multiset()
        }),
    ensures
        ({
            let start = DecoderState { pending: Seq::empty(), failed: false };
            let held = drained(fed(start, joined(chunks))).0;
            upserted_all(Map::empty(), written) == upserted_all(Map::empty(), records_of(held))
        }),
{
    let start = DecoderState { pending: Seq::<u8>::empty(), failed: false };
    let held = drained(fed(start, joined(chunks))).0;
    lemma_replay_hands_over_the_segment(chunks, limit);
    lemma_kinds_make_up_the_records(held);
    lemma_order_is_irrelevant(records_of(held), written);
}

} // verus!
