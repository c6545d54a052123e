//! Storage core of a small disk-oriented database: block-addressed files,
//! a write-ahead log packed into blocks, and a pinned buffer pool.
//!
//! The three layers, leaves first:
//!
//! - [`file`]: block identities, pages with typed accessors, and the file
//!   manager. The file manager holds the file table of one database
//!   directory, each file's name with its bytes, and reads and writes it in
//!   blocks. It touches no disk: whoever embeds the library loads the table
//!   from the directory and stores it back.
//! - [`log`]: the log manager, which packs records from the end of each
//!   block towards its start, assigns sequence numbers, flushes on demand,
//!   and hands out a cursor that reads the records back newest first.
//! - [`buffer`]: the frames and the buffer manager, which pins and unpins
//!   blocks, replaces the first unpinned frame, and writes a changed page only
//!   after the log that describes the change.
//!
//! [`record`], [`log_records`], [`recovery`] and [`tx`] hold what transactions
//! build on them. [`bytes`] holds the encoding of integers.
//!
//! The layers do not own one another. An operation of the log manager takes
//! the file manager it works on, and an operation of the buffer manager
//! takes both. Each type states its own invariant as `wf`, and
//! `LogManager::intact` says when a log manager and a file manager belong
//! together and the log is in order. An operation that reads or writes
//! returns an error where it cannot do its work; none panics.

pub mod buffer;
pub mod bytes;
pub mod file;
pub mod log;
pub mod log_records;
pub mod record;
pub mod recovery;
pub mod tx;
