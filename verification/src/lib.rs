//! A key-value store made durable by a group-committing write-ahead log.
//!
//! Mutations are encoded as binary records, batched by a background writer,
//! appended to one of several segment files, and replayed at start-up into a
//! staging table that keeps the newest record of each key.
//!
//! The library holds the rules and leaves input and output to its caller:
//!
//! - [`codec`], [`decoder`]: the layout of a record and the streaming
//!   decoder; [`roundtrip`] and [`stream`] prove that decoding undoes
//!   encoding, that a record cut short is never mistaken for a whole one,
//!   and that the cut of the chunks does not show in what is decoded.
//! - [`wal`], [`writer`]: stamping and enqueueing records, the dispatch over
//!   the pool of segments, and the batching of the background writer;
//!   [`spread`] proves that the segments together hold every record that
//!   was written, once and whole.
//! - [`segments`], [`recovery`], [`replay`]: which files are recovered in
//!   which order, who may recover a segment, and the batches that its replay
//!   hands over; [`whole_segment`] proves that they are the records that the
//!   segment holds, and [`crash`] what is recovered of a write that a crash
//!   cut short.
//! - [`staging`], [`tables`], [`sql`]: the rule that the newest record of a
//!   key wins, the two tables held in memory, and the statements that do the
//!   same to a persistent store.
//! - [`cache`], [`handlers`]: the map that serves reads and the three
//!   operations on keys.
//! - [`bootstrap`], [`config`], [`models`], [`error`]: the order of start-up
//!   and the small types around it.

pub mod codec;
pub mod decoder;
pub mod stream;
pub mod roundtrip;
pub mod replay;
pub mod whole_segment;
pub mod crash;
pub mod spread;
pub mod segments;
pub mod recovery;
pub mod writer;
pub mod staging;
pub mod tables;
pub mod sql;
pub mod cache;
pub mod error;
pub mod wal;
pub mod config;
pub mod models;
pub mod handlers;
pub mod bootstrap;
