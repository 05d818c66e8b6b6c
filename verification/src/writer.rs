//! The batching of the background writer.
//!
//! Encoded records arrive one by one and are gathered in a buffer. The
//! buffer is written out, as one append to one segment, when it has reached
//! 64 KiB, when the periodic timer ticks, and when the queue is closed. The
//! task that owns the queue and the timer calls the function for each event
//! and writes what it is handed.

use vstd::prelude::*;

verus! {

/// Bytes at which the buffer is written out at once.
pub const FLUSH_THRESHOLD: usize = 65536;

/// Milliseconds between two ticks of the flush timer.
pub const FLUSH_TIMEOUT_MS: u64 = 10;

/// What happens to the writer.
pub enum WriterEvent {
    /// A record arrived from the queue.
    Data(Seq<u8>),
    /// The timer ticked.
    Tick,
    /// The queue was closed.
    Close,
}

/// What an event does to a buffer: the bytes to write out, if any, and the
/// buffer afterwards.
pub open spec fn handled(buffer: Seq<u8>, event: WriterEvent) -> (Option<Seq<u8>>, Seq<u8>) {
    match event {
        WriterEvent::Data(data) => {
            let all = buffer + data;
            if all.len() >= FLUSH_THRESHOLD {
                (Some(all), Seq::empty())
            } else {
                (None, all)
            }
        },
        _ => if buffer.len() > 0 {
            (Some(buffer), Seq::empty())
        } else {
            (None, buffer)
        },
    }
}

/// Whether the value handed out stands for `batch`.
pub open spec fn hands_out(res: Option<Vec<u8>>, batch: Option<Seq<u8>>) -> bool {
    match batch {
        None => res is None,
        Some(bytes) => res matches Some(v) && v@ == bytes,
    }
}

/// The accumulation buffer of the background writer.
pub struct BatchWriter {
    buffer: Vec<u8>,
}

impl View for BatchWriter {
    type V = Seq<u8>;

    closed spec fn view(&self) -> Seq<u8> {
        self.buffer@
    }
}

impl BatchWriter {
    /// A writer with an empty buffer.
    pub fn new() -> (w: Self)
        ensures
            w@ == Seq::<u8>::empty(),
    {
        BatchWriter { buffer: Vec::with_capacity(FLUSH_THRESHOLD) }
    }

    /// The number of bytes that wait in the buffer.
    pub fn pending_len(&self) -> (n: usize)
        ensures
            n == self@.len(),
    {
        self.buffer.len()
    }

    /// Takes in a record. Where the buffer has reached the threshold with
    /// it, the whole buffer is handed out to be written, and the timer is to
    /// be reset. What stays behind is always short of the threshold.
    pub fn on_data(&mut self, data: &[u8]) -> (batch: Option<Vec<u8>>)
        ensures
            hands_out(batch, handled(old(self)@, WriterEvent::Data(data@)).0),
            final(self)@ == handled(old(self)@, WriterEvent::Data(data@)).1,
            final(self)@.len() < FLUSH_THRESHOLD,
    {
        let ghost before = self.buffer@;
        self.buffer.extend_from_slice(data);
        assert(self.buffer@ =~= before + data@);
        if self.buffer.len() >= FLUSH_THRESHOLD {
            Some(self.take())
        } else {
            None
        }
    }

    /// The timer ticked: a buffer that holds anything is handed out to be
    /// written.
    pub fn on_tick(&mut self) -> (batch: Option<Vec<u8>>)
        ensures
            hands_out(batch, handled(old(self)@, WriterEvent::Tick).0),
            final(self)@ == handled(old(self)@, WriterEvent::Tick).1,
            final(self)@.len() == 0,
    {
        if self.buffer.len() > 0 {
            Some(self.take())
        } else {
            None
        }
    }

    /// The queue was closed: what is left in the buffer is handed out to be
    /// written before the task ends.
    pub fn on_close(self) -> (batch: Option<Vec<u8>>)
        ensures
            hands_out(batch, handled(self@, WriterEvent::Close).0),
    {
        if self.buffer.len() > 0 {
            Some(self.buffer)
        } else {
            None
        }
    }

    /// Moves the buffer out and leaves an empty one.
    fn take(&mut self) -> (bytes: Vec<u8>)
        ensures
            bytes@ == old(self)@,
            final(self)@ == Seq::<u8>::empty(),
    {
        let mut bytes: Vec<u8> = Vec::with_capacity(FLUSH_THRESHOLD);
        core::mem::swap(&mut self.buffer, &mut bytes);
        bytes
    }
}

/// The bytes written out over a run of events, in order, and the buffer at
/// its end.
pub open spec fn written(events: Seq<WriterEvent>) -> (Seq<u8>, Seq<u8>)
    decreases events.len(),
{
    if events.len() == 0 {
        (Seq::empty(), Seq::empty())
    } else {
        let before = written(events.drop_last());
        let step = handled(before.1, events.last());
        match step.0 {
            Some(batch) => (before.0 + batch, step.1),
            None => (before.0, step.1),
        }
    }
}

/// The bytes of the records that arrived over a run of events, in order.
pub open spec fn arrived(events: Seq<WriterEvent>) -> Seq<u8>
    decreases events.len(),
{
    if events.len() == 0 {
        Seq::empty()
    } else {
        match events.last() {
            WriterEvent::Data(data) => arrived(events.drop_last()) + data,
            _ => arrived(events.drop_last()),
        }
    }
}

/// Nothing is lost, doubled or reordered: what was written out, followed by
/// what waits in the buffer, is what arrived. The buffer stays short of the
/// threshold, and is empty after a tick or the close of the queue.
pub proof fn lemma_written_is_arrived(events: Seq<WriterEvent>)
    ensures
        written(events).0 + written(events).1 == arrived(events),
        written(events).1.len() < FLUSH_THRESHOLD,
        events.len() > 0 && !(events.last() is Data) ==> written(events).1.len() == 0,
    decreases events.len(),
{
    if events.len() == 0 {
        assert(Seq::<u8>::empty() + Seq::<u8>::empty() =~= Seq::<u8>::empty());
    } else {
        let front = events.drop_last();
        lemma_written_is_arrived(front);
        let before = written(front);
        match events.last() {
            WriterEvent::Data(data) => {
                assert(before.0 + (before.1 + data) =~= (before.0 + before.1) + data);
                assert((before.0 + (before.1 + data)) + Seq::<u8>::empty() =~= before.0 + (
                before.1 + data));
            },
            _ => {
                assert((before.0 + before.1) + Seq::<u8>::empty() =~= before.0 + before.1);
            },
        }
    }
}

} // verus!
