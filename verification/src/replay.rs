//! Replaying one segment: chunks of the file go in, batches of rows for the
//! staging table come out.
//!
//! The caller reads the file and talks to the store. Between the two it
//! feeds each chunk to a [`SegmentReplay`] and advances it until it asks for
//! more input, writing out every batch that it hands over on the way.

use vstd::prelude::*;
use crate::codec::{Record, WALOperation};
use crate::decoder::{fed, pulled, DecoderState, Pulled, WALDecoder};
use crate::stream::{budget, lemma_pull_shrinks};

verus! {

/// Rows that one statement writes at most: a batch is handed over as soon as
/// it holds this many.
pub const BATCH_SIZE: usize = 20_000;

/// Bytes read from a segment file at a time.
pub const CHUNK_SIZE: usize = 8192;

/// A SET to be written to the staging table.
#[derive(Debug, Clone, PartialEq, Eq)]
pub struct SetRow {
    pub key: String,
    pub timestamp: u128,
    pub value: String,
}

/// A DELETE to be written to the staging table.
#[derive(Debug, Clone, PartialEq, Eq)]
pub struct DeleteRow {
    pub key: String,
    pub timestamp: u128,
}

impl View for SetRow {
    type V = Record;

    open spec fn view(&self) -> Record {
        Record::Put { timestamp: self.timestamp, key: self.key@, value: self.value@ }
    }
}

impl View for DeleteRow {
    type V = Record;

    open spec fn view(&self) -> Record {
        Record::Delete { timestamp: self.timestamp, key: self.key@ }
    }
}

/// The records that a batch of SET rows stands for.
pub open spec fn set_rows(rows: Seq<SetRow>) -> Seq<Record> {
    rows.map_values(|row: SetRow| row@)
}

/// The records that a batch of DELETE rows stands for.
pub open spec fn delete_rows(rows: Seq<DeleteRow>) -> Seq<Record> {
    rows.map_values(|row: DeleteRow| row@)
}

/// The state of a replay: what the decoder holds and what has been gathered
/// for the next batch of each kind.
pub struct ReplayState {
    pub decoder: DecoderState,
    pub sets: Seq<Record>,
    pub deletes: Seq<Record>,
}

/// How an advance ends.
pub enum Halt {
    /// The decoder has nothing whole left: more input is needed.
    Starved,
    /// One of the batches is full: both are handed over.
    Full,
    /// The decoder met an invalid opcode.
    Rejected,
}

/// Whether one of the batches has reached `limit` rows.
pub open spec fn batch_full(st: ReplayState, limit: nat) -> bool {
    st.sets.len() >= limit || st.deletes.len() >= limit
}

/// The state with `record` added to the batch of its kind.
pub open spec fn gathered(st: ReplayState, decoder: DecoderState, record: Record) -> ReplayState {
    if record is Put {
        ReplayState { decoder, sets: st.sets.push(record), deletes: st.deletes }
    } else {
        ReplayState { decoder, sets: st.sets, deletes: st.deletes.push(record) }
    }
}

/// One advance: records are pulled and gathered until a batch is full, the
/// decoder is starved, or it rejects a byte.
pub open spec fn advanced(st: ReplayState, limit: nat) -> (Halt, ReplayState)
    decreases budget(st.decoder),
{
    let step = pulled(st.decoder);
    match step.0 {
        Pulled::Nothing => (
            Halt::Starved,
            ReplayState { decoder: step.1, sets: st.sets, deletes: st.deletes },
        ),
        Pulled::Invalid => (
            Halt::Rejected,
            ReplayState { decoder: step.1, sets: st.sets, deletes: st.deletes },
        ),
        Pulled::Record(record) => {
            let next = gathered(st, step.1, record);
            if batch_full(next, limit) {
                (Halt::Full, next)
            } else {
                proof {
                    lemma_pull_shrinks(st.decoder);
                }
                advanced(next, limit)
            }
        },
    }
}

/// What an advance hands to the caller.
#[derive(Debug, PartialEq, Eq)]
pub enum ReplayStep {
    /// More input is needed. The consumed bytes have been dropped from memory.
    Starved,
    /// A batch is full: write both to the staging table, SET rows first.
    Flush { sets: Vec<SetRow>, deletes: Vec<DeleteRow> },
    /// A byte that is no opcode stood at a record boundary. Nothing behind it
    /// will be decoded.
    Rejected { reason: String },
}

/// The replay of one segment.
pub struct SegmentReplay {
    decoder: WALDecoder,
    set_batch: Vec<SetRow>,
    delete_batch: Vec<DeleteRow>,
}

impl View for SegmentReplay {
    type V = ReplayState;

    closed spec fn view(&self) -> ReplayState {
        ReplayState {
            decoder: self.decoder@,
            sets: set_rows(self.set_batch@),
            deletes: delete_rows(self.delete_batch@),
        }
    }
}

impl SegmentReplay {
    /// The number of bytes of the file that the replay holds in memory.
    pub closed spec fn held(&self) -> nat {
        self.decoder.held()
    }

    /// The number of bytes of the file that the replay holds in memory.
    pub fn buffered_len(&self) -> (n: usize)
        ensures
            n == self.held(),
    {
        self.decoder.buffered_len()
    }

    /// A replay that has seen nothing yet.
    pub fn new() -> (replay: Self)
        ensures
            replay@ == (ReplayState {
                decoder: DecoderState { pending: Seq::<u8>::empty(), failed: false },
                sets: Seq::<Record>::empty(),
                deletes: Seq::<Record>::empty(),
            }),
            replay.held() == 0,
    {
        let replay = SegmentReplay {
            decoder: WALDecoder::new(),
            set_batch: Vec::with_capacity(BATCH_SIZE),
            delete_batch: Vec::with_capacity(BATCH_SIZE),
        };
        assert(set_rows(replay.set_batch@) =~= Seq::<Record>::empty());
        assert(delete_rows(replay.delete_batch@) =~= Seq::<Record>::empty());
        replay
    }

    /// Takes in the next chunk of the segment file.
    pub fn feed(&mut self, chunk: &[u8])
        ensures
            final(self)@ == (ReplayState {
                decoder: fed(old(self)@.decoder, chunk@),
                sets: old(self)@.sets,
                deletes: old(self)@.deletes,
            }),
            final(self).held() == old(self).held() + chunk@.len(),
    {
        self.decoder.feed(chunk);
    }

    /// Pulls records into the batches until a batch is full, the decoder is
    /// starved or it rejects a byte. A starved replay keeps in memory only
    /// the bytes that are still to be decoded.
    pub fn advance(&mut self) -> (step: ReplayStep)
        ensures
            step is Starved ==> final(self).held() == final(self)@.decoder.pending.len(),
            !(step is Starved) ==> final(self).held() == old(self).held(),
            ({
                let (halt, after) = advanced(old(self)@, BATCH_SIZE as nat);
                match halt {
                    Halt::Starved => step is Starved && final(self)@ == after,
                    Halt::Rejected => step matches ReplayStep::Rejected { reason }
                        && reason@ == crate::decoder::invalid_opcode_text() && final(self)@
                        == after,
                    Halt::Full => step matches ReplayStep::Flush { sets, deletes } && set_rows(
                        sets@,
                    ) == after.sets && delete_rows(deletes@) == after.deletes && final(self)@
                        == (ReplayState {
                        decoder: after.decoder,
                        sets: Seq::<Record>::empty(),
                        deletes: Seq::<Record>::empty(),
                    }),
                }
            }),
    {
        loop
            invariant
                advanced(self@, BATCH_SIZE as nat) == advanced(old(self)@, BATCH_SIZE as nat),
                self.held() == old(self).held(),
            decreases budget(self@.decoder),
        {
            let ghost before = self@;
            proof {
                lemma_pull_shrinks(before.decoder);
            }
            match self.decoder.next_operation() {
                None => {
                    self.decoder.compact();
                    return ReplayStep::Starved;
                },
                Some(Err(reason)) => {
                    return ReplayStep::Rejected { reason };
                },
                Some(Ok(op)) => {
                    match op {
                        WALOperation::Put { timestamp, key, value } => {
                            self.set_batch.push(SetRow { key, timestamp, value });
                            assert(set_rows(self.set_batch@) =~= before.sets.push(op@));
                        },
                        WALOperation::Delete { timestamp, key } => {
                            self.delete_batch.push(DeleteRow { key, timestamp });
                            assert(delete_rows(self.delete_batch@) =~= before.deletes.push(op@));
                        },
                    }
                    assert(self@ == gathered(before, pulled(before.decoder).1, op@));
                    if self.set_batch.len() >= BATCH_SIZE || self.delete_batch.len()
                        >= BATCH_SIZE {
                        let (sets, deletes) = self.take_batches();
                        return ReplayStep::Flush { sets, deletes };
                    }
                },
            }
        }
    }

    /// Hands over what the batches hold and leaves them empty.
    fn take_batches(&mut self) -> (batches: (Vec<SetRow>, Vec<DeleteRow>))
        ensures
            set_rows(batches.0@) == old(self)@.sets,
            delete_rows(batches.1@) == old(self)@.deletes,
            final(self).held() == old(self).held(),
            final(self)@ == (ReplayState {
                decoder: old(self)@.decoder,
                sets: Seq::<Record>::empty(),
                deletes: Seq::<Record>::empty(),
            }),
    {
        let mut sets: Vec<SetRow> = Vec::with_capacity(BATCH_SIZE);
        let mut deletes: Vec<DeleteRow> = Vec::with_capacity(BATCH_SIZE);
        core::mem::swap(&mut self.set_batch, &mut sets);
        core::mem::swap(&mut self.delete_batch, &mut deletes);
        assert(set_rows(self.set_batch@) =~= Seq::<Record>::empty());
        assert(delete_rows(self.delete_batch@) =~= Seq::<Record>::empty());
        (sets, deletes)
    }

    /// Ends the replay at the end of the file: hands over the rows gathered
    /// since the last full batch. Bytes of a record that the file does not
    /// hold in full are dropped.
    pub fn finish(self) -> (batches: (Vec<SetRow>, Vec<DeleteRow>))
        ensures
            set_rows(batches.0@) == self@.sets,
            delete_rows(batches.1@) == self@.deletes,
    {
        (self.set_batch, self.delete_batch)
    }
}

} // verus!
