//! The write side of the log: stamping and enqueueing records, and the pool
//! of segment files that the background writer appends to.

use std::sync::Arc;
use tokio::fs::File;
use tokio::sync::mpsc::error::SendError;
use tokio::sync::mpsc::{UnboundedReceiver, UnboundedSender};
use tokio::sync::{RwLock, RwLockWriteGuard, TryLockError};
use vstd::prelude::*;
use vstd::string::StringExecFns;
use vstd::utf8::encode_utf8;
use crate::codec::{encode_delete, encode_record, encode_set, Record};
use crate::error::KVStoreError;
use crate::segments::{
    lemma_bytes_of_concatenation, lemma_common_prefix, lemma_common_suffix, name_less,
};

verus! {

/// `tokio::fs::File`, an open file. It is carried to the caller, who writes.
#[verifier::external_type_specification]
#[verifier::external_body]
pub struct ExFile(File);

/// The sending half of tokio's queue without a bound.
#[verifier::external_type_specification]
#[verifier::external_body]
#[verifier::reject_recursive_types(T)]
pub struct ExUnboundedSender<T>(UnboundedSender<T>);

/// The receiving half of tokio's queue without a bound.
#[verifier::external_type_specification]
#[verifier::external_body]
#[verifier::reject_recursive_types(T)]
pub struct ExUnboundedReceiver<T>(UnboundedReceiver<T>);

/// The error of a send on a closed queue. It holds the message.
#[verifier::external_type_specification]
#[verifier::external_body]
#[verifier::reject_recursive_types(T)]
pub struct ExSendError<T>(SendError<T>);

/// tokio's lock for many readers or one writer.
#[verifier::external_type_specification]
#[verifier::external_body]
#[verifier::reject_recursive_types(T)]
pub struct ExRwLock<T: ?Sized>(RwLock<T>);

/// The hold of a writer on a lock. The lock is free again when it is
/// dropped.
#[verifier::external_type_specification]
#[verifier::external_body]
#[verifier::reject_recursive_types(T)]
pub struct ExRwLockWriteGuard<'a, T: ?Sized>(RwLockWriteGuard<'a, T>);

/// The error of an attempt on a lock that is taken.
#[verifier::external_type_specification]
#[verifier::external_body]
pub struct ExTryLockError(TryLockError);

/// `UnboundedSender::send` puts the message on the queue without waiting,
/// or hands it back in an error where the receiving half is closed. Which of
/// the two happens is not for the sender to know.
pub assume_specification<T>[ UnboundedSender::<T>::send ](
    sender: &UnboundedSender<T>,
    message: T,
) -> (sent: Result<(), SendError<T>>)
;

/// `RwLock::try_write` takes the lock for writing where it is free now, and
/// fails where it is not. Which of the two happens depends on the other
/// holders.
pub assume_specification<T: ?Sized>[ RwLock::<T>::try_write ](lock: &RwLock<T>) -> (held: Result<
    RwLockWriteGuard<'_, T>,
    TryLockError,
>)
;

/// Calls `RwLock::new`, which makes a lock around the value.
#[verifier::external_body]
fn new_lock(value: WALFile) -> (lock: RwLock<WALFile>) {
    RwLock::new(value)
}

/// Calls `tokio::sync::mpsc::unbounded_channel`, which makes a queue without
/// a bound and returns its two halves.
#[verifier::external_body]
fn queue() -> (halves: (UnboundedSender<Vec<u8>>, UnboundedReceiver<Vec<u8>>)) {
    tokio::sync::mpsc::unbounded_channel()
}

/// Reads the clock: `SystemTime::now`, as nanoseconds since the Unix epoch,
/// or `None` where the clock stands before the epoch.
#[verifier::external_body]
fn unix_nanos() -> (nanos: Option<u128>) {
    std::time::SystemTime::now().duration_since(std::time::UNIX_EPOCH).ok().map(|d| d.as_nanos())
}

/// Calls `fastrand::usize` on the range from zero up to `bound`, which draws
/// a number of that range.
#[verifier::external_body]
fn random_below(bound: usize) -> (drawn: usize)
    requires
        bound > 0,
    ensures
        drawn < bound,
{
    fastrand::usize(0..bound)
}

/// The pattern of the stamp in the name of a segment: year, month, day, an
/// underscore, hour, minute, second, an underscore, and the nanoseconds.
pub open spec fn stamp_pattern() -> Seq<char> {
    "%Y%m%d_%H%M%S_%f"@
}

/// Whether a character can stand in a stamp: a digit, an underscore, or
/// the plus sign that leads a year of more than four digits.
pub open spec fn is_stamp_char(c: char) -> bool {
    '0' <= c <= '9' || c == '_' || c == '+'
}

/// Whether a text has the shape of a stamp: at least the twenty-five
/// characters of a four-digit year with date, time and nanoseconds, and no
/// character that a stamp cannot hold.
pub open spec fn is_stamp(text: Seq<char>) -> bool {
    text.len() >= 25 && forall|i: int| 0 <= i < text.len() ==> is_stamp_char(#[trigger] text[i])
}

/// The text that chrono makes, by the pattern of the stamp, of the moment
/// `secs` seconds and `nanos` nanoseconds after the Unix epoch, or `None`
/// where chrono has no date for it.
pub uninterp spec fn utc_stamp_of(secs: i64, nanos: u32) -> Option<Seq<char>>;

/// Calls `chrono::DateTime::from_timestamp`, formats the date by `pattern`
/// with `DateTime::format`, and writes it out with
/// `DelayedFormat::write_to`. Of a moment that is out of chrono's range the
/// first gives `None`. By the pattern of the stamp, chrono writes the year
/// in four digits or more, with a plus sign before more than four, then
/// two digits each for month, day, hour, minute and second, nine for the
/// nanoseconds, and the two underscores between them.
#[verifier::external_body]
fn format_utc(secs: i64, nanos: u32, pattern: &str) -> (stamp: Option<String>)
    requires
        secs >= 0,
        pattern@ == stamp_pattern(),
    ensures
        match stamp {
            Some(text) => utc_stamp_of(secs, nanos) == Some(text@) && is_stamp(text@),
            None => utc_stamp_of(secs, nanos) is None,
        },
{
    let moment = chrono::DateTime::from_timestamp(secs, nanos)?;
    let mut text = String::new();
    moment.format(pattern).write_to(&mut text).ok()?;
    Some(text)
}

/// One segment file of the pool, open for appending.
pub struct WALFile {
    pub file: File,
}

/// Where the next write goes.
pub enum WriterSlot<'a> {
    /// The slot `index` was free: its lock is held.
    Ready { index: usize, guard: RwLockWriteGuard<'a, WALFile> },
    /// Every slot is taken: wait for the lock of slot `index`.
    Wait { index: usize },
}

impl<'a> WriterSlot<'a> {
    /// The slot that the write goes to.
    pub open spec fn index(self) -> usize {
        match self {
            WriterSlot::Ready { index, .. } => index,
            WriterSlot::Wait { index } => index,
        }
    }
}

/// The name of a segment file made at the time that `stamp` gives.
pub open spec fn segment_name(stamp: Seq<char>) -> Seq<char> {
    "wal_"@ + stamp + ".log"@
}

/// The stamp of the moment `time_ns` nanoseconds after the Unix epoch, or
/// `None` where there is no date for it.
pub open spec fn stamp_of(time_ns: u128) -> Option<Seq<char>> {
    if time_ns / 1_000_000_000 > i64::MAX {
        None
    } else {
        utc_stamp_of((time_ns / 1_000_000_000) as i64, (time_ns % 1_000_000_000) as u32)
    }
}

/// Segments made at different times sort by their time: the names of two
/// stamps that take as many bytes sort as the stamps do.
pub proof fn lemma_names_sort_as_stamps(a: Seq<char>, b: Seq<char>)
    requires
        encode_utf8(a).len() == encode_utf8(b).len(),
    ensures
        name_less(segment_name(a), segment_name(b)) == name_less(a, b),
{
    let head = "wal_"@;
    let tail = ".log"@;
    lemma_bytes_of_concatenation(head, a);
    lemma_bytes_of_concatenation(head + a, tail);
    lemma_bytes_of_concatenation(head, b);
    lemma_bytes_of_concatenation(head + b, tail);
    let h = encode_utf8(head);
    let t = encode_utf8(tail);
    let x = encode_utf8(a);
    let y = encode_utf8(b);
    lemma_common_suffix(h + x, h + y, t);
    lemma_common_prefix(h, x, y);
}

/// Stamps are plain: each character of a stamp is one byte, so that stamps
/// of as many characters take as many bytes, and their names sort as they
/// do.
pub proof fn lemma_stamps_sort_their_names(a: Seq<char>, b: Seq<char>)
    requires
        is_stamp(a),
        is_stamp(b),
        a.len() == b.len(),
    ensures
        name_less(segment_name(a), segment_name(b)) == name_less(a, b),
{
    assert(vstd::utf8::is_ascii_chars(a)) by {
        assert forall|i: int| 0 <= i < a.len() implies '\0' <= #[trigger] a[i] <= '\u{7f}' by {
            assert(is_stamp_char(a[i]));
        }
    }
    assert(vstd::utf8::is_ascii_chars(b)) by {
        assert forall|i: int| 0 <= i < b.len() implies '\0' <= #[trigger] b[i] <= '\u{7f}' by {
            assert(is_stamp_char(b[i]));
        }
    }
    vstd::utf8::is_ascii_chars_encode_utf8(a);
    vstd::utf8::is_ascii_chars_encode_utf8(b);
    lemma_names_sort_as_stamps(a, b);
}

/// The slot that is tried next when `tried` slots of `slots` have been
/// tried in vain: the slots are tried in their order, each once.
pub open spec fn slot_after(tried: usize, slots: usize) -> Option<usize> {
    if tried < slots {
        Some(tried)
    } else {
        None
    }
}

/// The write-ahead log.
pub struct WAL {
    logs_dir: String,
    pool: Vec<Arc<RwLock<WALFile>>>,
    tx: UnboundedSender<Vec<u8>>,
    rx: Option<UnboundedReceiver<Vec<u8>>>,
}

impl WAL {
    /// The directory of the segment files.
    pub closed spec fn dir(&self) -> Seq<char> {
        self.logs_dir@
    }

    /// The number of segments in the pool.
    pub closed spec fn slots(&self) -> nat {
        self.pool@.len()
    }

    /// Whether the receiving half of the queue is still here to be taken.
    pub closed spec fn has_receiver(&self) -> bool {
        self.rx is Some
    }

    /// A log for the directory `logs_dir`, with an empty pool and a new queue.
    pub fn new(logs_dir: &str) -> (wal: Self)
        ensures
            wal.dir() == logs_dir@,
            wal.slots() == 0,
            wal.has_receiver(),
    {
        let (tx, rx) = queue();
        WAL { logs_dir: String::from_str(logs_dir), pool: Vec::new(), tx, rx: Some(rx) }
    }

    /// The directory of the segment files.
    pub fn logs_dir(&self) -> (dir: &str)
        ensures
            dir@ == self.dir(),
    {
        self.logs_dir.as_str()
    }

    /// The number of segments in the pool.
    pub fn pool_size(&self) -> (n: usize)
        ensures
            n == self.slots(),
    {
        self.pool.len()
    }

    /// Fills the pool with one slot for each of the files, which the caller
    /// has opened for appending.
    pub fn initialize_pool(&mut self, files: Vec<File>)
        ensures
            final(self).slots() == files@.len(),
            final(self).dir() == old(self).dir(),
            final(self).has_receiver() == old(self).has_receiver(),
    {
        let mut pool: Vec<Arc<RwLock<WALFile>>> = Vec::with_capacity(files.len());
        for file in it: files
            invariant
                pool@.len() == it.index(),
        {
            pool.push(Arc::new(new_lock(WALFile { file })));
        }
        self.pool = pool;
    }

    /// Hands the receiving half of the queue to the background writer. It
    /// can be taken once; after that there is none left.
    pub fn take_receiver(&mut self) -> (rx: Option<UnboundedReceiver<Vec<u8>>>)
        ensures
            rx is Some <==> old(self).has_receiver(),
            !final(self).has_receiver(),
            final(self).slots() == old(self).slots(),
            final(self).dir() == old(self).dir(),
    {
        let mut rx: Option<UnboundedReceiver<Vec<u8>>> = None;
        core::mem::swap(&mut self.rx, &mut rx);
        rx
    }

    /// The lock of slot `index`, for a caller that has been told to wait on
    /// it.
    pub fn slot(&self, index: usize) -> (lock: Option<Arc<RwLock<WALFile>>>)
        ensures
            lock is Some <==> index < self.slots(),
    {
        if index < self.pool.len() {
            Some(self.pool[index].clone())
        } else {
            None
        }
    }

    /// What an attempt to take the lock of slot `index` amounts to: the slot
    /// is ready where the lock was free, and nothing is gained where it was
    /// not.
    pub fn claimed<'a>(
        index: usize,
        attempt: Result<RwLockWriteGuard<'a, WALFile>, TryLockError>,
    ) -> (slot: Option<WriterSlot<'a>>)
        ensures
            match attempt {
                Ok(held) => slot == Some(WriterSlot::Ready { index, guard: held }),
                Err(_) => slot is None,
            },
    {
        match attempt {
            Ok(guard) => Some(WriterSlot::Ready { index, guard }),
            Err(_) => None,
        }
    }

    /// The slot whose lock is tried next when `tried` slots have been tried
    /// in vain, or `None` when every slot has been tried.
    pub fn next_slot(tried: usize, slots: usize) -> (next: Option<usize>)
        ensures
            next == slot_after(tried, slots),
    {
        if tried < slots {
            Some(tried)
        } else {
            None
        }
    }

    /// The slot to wait on when every lock was taken: the one that was drawn.
    pub fn waiting_on<'a>(drawn: usize) -> (slot: WriterSlot<'a>)
        ensures
            slot == (WriterSlot::Wait { index: drawn }),
    {
        WriterSlot::Wait { index: drawn }
    }

    /// Picks the segment for the next write: the first slot, in order, whose
    /// lock is free at the moment it is tried; where none is, a slot drawn at
    /// random, for the caller to wait on. An empty pool is an error.
    ///
    /// Which locks are free is for the other holders to say. The order of
    /// the attempts is that of [`WAL::next_slot`], what an attempt amounts to
    /// is said by [`WAL::claimed`], and the slot to wait on by
    /// [`WAL::waiting_on`].
    pub fn get_writer_file(&self) -> (res: Result<WriterSlot<'_>, KVStoreError>)
        ensures
            res is Err <==> self.slots() == 0,
            res matches Err(e) ==> e == KVStoreError::PoolError,
            res matches Ok(slot) ==> slot.index() < self.slots(),
    {
        let pool_size = self.pool.len();
        if pool_size == 0 {
            return Err(KVStoreError::PoolError);
        }
        let mut tried: usize = 0;
        loop
            invariant
                tried <= pool_size,
                0 < pool_size == self.pool@.len(),
            decreases pool_size - tried,
        {
            match Self::next_slot(tried, pool_size) {
                Some(index) => {
                    match Self::claimed(index, self.pool[index].try_write()) {
                        Some(slot) => {
                            return Ok(slot);
                        },
                        None => {},
                    }
                    tried += 1;
                },
                None => {
                    return Ok(Self::waiting_on(random_below(pool_size)));
                },
            }
        }
    }

    /// What a call of the queue's sender amounts to.
    pub fn enqueued(sent: Result<(), SendError<Vec<u8>>>) -> (res: Result<(), KVStoreError>)
        ensures
            res == (match sent {
                Ok(_) => Ok::<(), KVStoreError>(()),
                Err(_) => Err::<(), KVStoreError>(KVStoreError::QueueClosed),
            }),
    {
        match sent {
            Ok(_) => Ok(()),
            Err(_) => Err(KVStoreError::QueueClosed),
        }
    }

    /// The record of a SET made at the time that the clock gave, or an
    /// error where the clock gave none.
    pub fn stamped_set(time_ns: Option<u128>, key: &str, val: &str) -> (res: Result<
        Vec<u8>,
        KVStoreError,
    >)
        ensures
            match time_ns {
                Some(timestamp) => res matches Ok(buffer) && buffer@ == encode_record(
                    Record::Put { timestamp, key: key@, value: val@ },
                ),
                None => res == Err::<Vec<u8>, KVStoreError>(KVStoreError::ClockError),
            },
    {
        match time_ns {
            Some(timestamp) => Ok(encode_set(timestamp, key, val)),
            None => Err(KVStoreError::ClockError),
        }
    }

    /// The record of a DELETE made at the time that the clock gave, or an
    /// error where the clock gave none.
    pub fn stamped_delete(time_ns: Option<u128>, key: &str) -> (res: Result<Vec<u8>, KVStoreError>)
        ensures
            match time_ns {
                Some(timestamp) => res matches Ok(buffer) && buffer@ == encode_record(
                    Record::Delete { timestamp, key: key@ },
                ),
                None => res == Err::<Vec<u8>, KVStoreError>(KVStoreError::ClockError),
            },
    {
        match time_ns {
            Some(timestamp) => Ok(encode_delete(timestamp, key)),
            None => Err(KVStoreError::ClockError),
        }
    }

    /// Logs a SET: stamps it with the time, encodes it and puts it on the
    /// queue to the background writer. The call does not wait for the record
    /// to reach the disk. Whether it succeeds is for the clock and the queue
    /// to say.
    pub fn set(&self, key: &str, val: &str) -> (res: Result<(), KVStoreError>)
        ensures
            res matches Err(e) ==> e == KVStoreError::QueueClosed || e
                == KVStoreError::ClockError,
    {
        match Self::stamped_set(unix_nanos(), key, val) {
            Ok(buffer) => Self::enqueued(self.tx.send(buffer)),
            Err(e) => Err(e),
        }
    }

    /// Logs a DELETE: stamps it with the time, encodes it and puts it on the
    /// queue to the background writer.
    pub fn delete(&self, key: &str) -> (res: Result<(), KVStoreError>)
        ensures
            res matches Err(e) ==> e == KVStoreError::QueueClosed || e
                == KVStoreError::ClockError,
    {
        match Self::stamped_delete(unix_nanos(), key) {
            Ok(buffer) => Self::enqueued(self.tx.send(buffer)),
            Err(e) => Err(e),
        }
    }

    /// The stamp of the moment `time_ns` nanoseconds after the Unix epoch.
    pub fn stamp_at(time_ns: u128) -> (stamp: Option<String>)
        ensures
            match stamp {
                Some(text) => stamp_of(time_ns) == Some(text@) && is_stamp(text@),
                None => stamp_of(time_ns) is None,
            },
    {
        let secs = time_ns / 1_000_000_000;
        if secs > i64::MAX as u128 {
            return None;
        }
        let nanos = (time_ns % 1_000_000_000) as u32;
        format_utc(secs as i64, nanos, "%Y%m%d_%H%M%S_%f")
    }

    /// The name of a segment made at the time that the clock gave, or an
    /// error where the clock gave none or one that has no date.
    pub fn file_name_for(time_ns: Option<u128>) -> (res: Result<String, KVStoreError>)
        ensures
            match time_ns {
                Some(time) => match stamp_of(time) {
                    Some(stamp) => res matches Ok(name) && name@ == segment_name(stamp)
                        && is_stamp(stamp),
                    None => res == Err::<String, KVStoreError>(KVStoreError::ClockError),
                },
                None => res == Err::<String, KVStoreError>(KVStoreError::ClockError),
            },
    {
        match time_ns {
            Some(time) => match Self::stamp_at(time) {
                Some(stamp) => Ok(Self::file_name_at(stamp.as_str())),
                None => Err(KVStoreError::ClockError),
            },
            None => Err(KVStoreError::ClockError),
        }
    }

    /// A name for a new segment file. It holds the time of its making, so
    /// that later segments sort later. Whether a name can be made is for the
    /// clock to say.
    pub fn get_new_file_name() -> (res: Result<String, KVStoreError>)
        ensures
            res matches Ok(name) ==> exists|stamp: Seq<char>|
                is_stamp(stamp) && name@ == #[trigger] segment_name(stamp),
            res matches Err(e) ==> e == KVStoreError::ClockError,
    {
        Self::file_name_for(unix_nanos())
    }

    /// The name of a segment file made at the time that `stamp` gives.
    pub fn file_name_at(stamp: &str) -> (name: String)
        ensures
            name@ == segment_name(stamp@),
    {
        String::from_str("wal_").concat(stamp).concat(".log")
    }
}

} // verus!
