//! The transaction, as its users see it.

use vstd::prelude::*;

verus! {

/// Transaction:
/// 1. manage buffers
/// 2. generate log records for each update and write them to the log file
/// 3. rollback transaction on demand
/// 4. guarantee the program will satisfy the ACID isolation property
///
/// The type names the operations that its users call. None of them takes or
/// returns anything, and none has an effect: what a transaction does to the
/// log and to the buffer pool is in `recovery`.
pub struct Transaction {}

impl Transaction {
    /// Commits the transaction. Without effect.
    pub fn commit() {
    }

    /// Rolls the transaction back. Without effect.
    pub fn rollback() {
    }

    /// Recovers the database after a crash. Without effect.
    pub fn recover() {
    }

    /// Pins a block. Without effect.
    pub fn pin() {
    }

    /// Unpins a block. Without effect.
    pub fn unpin() {
    }

    /// Reads an integer. Without effect.
    pub fn get_int() {
    }

    /// Reads a string. Without effect.
    pub fn get_string() {
    }

    /// Writes an integer. Without effect.
    pub fn set_int() {
    }

    /// Writes a string. Without effect.
    pub fn set_string() {
    }

    /// The number of available buffers. Without effect.
    pub fn available_buff() {
    }

    /// The size of a file. Without effect.
    pub fn size() {
    }

    /// Appends a block to a file. Without effect.
    pub fn append() {
    }

    /// The block size. Without effect.
    pub fn block_size() {
    }
}

} // verus!
