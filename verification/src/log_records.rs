//! The log records, one type for each kind, and how each is written to the log.

use crate::bytes::i32_be_bytes;
use crate::file::{FileError, FileManager, Page};
use crate::log::LogManager;
use crate::record::{tag_of, LogRecord, TxType};
use vstd::prelude::*;

verus! {

/// Appends to the log a record that holds nothing but the tag of the kind `t`.
fn write_tag(lm: &mut LogManager, fm: &mut FileManager, t: TxType) -> (res: Result<i32, FileError>)
    requires
        old(lm).wf(),
        old(fm).wf(),
    ensures
        final(lm).wf(),
        final(fm).wf(),
        final(fm).same_setup(old(fm)),
        old(lm).appended(old(fm), i32_be_bytes(tag_of(t)), final(lm), final(fm), res),
{
    let mut p = Page::new(4);
    proof {
        crate::bytes::lemma_i32_round_trip(tag_of(t));
    }
    match p.set_i32(0, t.tag()) {
        Ok(()) => {},
        Err(e) => {
            return Err(e);
        },
    }
    let bytes: Vec<u8> = p.contents().clone();
    assert(bytes@ =~= i32_be_bytes(tag_of(t)));
    lm.append(fm, bytes)
}

/// A checkpoint.
#[derive(Debug)]
pub struct CheckPointRecord {}

impl Default for CheckPointRecord {
    fn default() -> (rec: Self) {
        Self {  }
    }
}

impl LogRecord for CheckPointRecord {
    open spec fn kind(&self) -> TxType {
        TxType::CheckPoint
    }

    open spec fn spec_tx_num(&self) -> int {
        -1
    }

    fn op(&self) -> (t: TxType) {
        TxType::CheckPoint
    }

    fn tx_num(&self) -> (n: i32) {
        -1
    }
}

impl CheckPointRecord {
    pub fn new() -> (rec: Self) {
        Self {  }
    }

    /// The record as it is printed.
    pub fn label(&self) -> (text: &'static str)
        ensures
            text@ == "<CHECKPOINT>"@,
    {
        "<CHECKPOINT>"
    }

    /// Appends the record to the log and returns its sequence number. The
    /// record is the four bytes of its tag.
    pub fn write_to_log(lm: &mut LogManager, fm: &mut FileManager) -> (res: Result<
        i32,
        FileError,
    >)
        requires
            old(lm).wf(),
            old(fm).wf(),
        ensures
            final(lm).wf(),
            final(fm).wf(),
            final(fm).same_setup(old(fm)),
            old(lm).appended(
                old(fm),
                i32_be_bytes(tag_of(TxType::CheckPoint)),
                final(lm),
                final(fm),
                res,
            ),
    {
        write_tag(lm, fm, TxType::CheckPoint)
    }
}

/// The start of a transaction.
#[derive(Debug)]
pub struct StartRecord {}

impl Default for StartRecord {
    fn default() -> (rec: Self) {
        Self {  }
    }
}

impl LogRecord for StartRecord {
    open spec fn kind(&self) -> TxType {
        TxType::Start
    }

    open spec fn spec_tx_num(&self) -> int {
        -1
    }

    fn op(&self) -> (t: TxType) {
        TxType::Start
    }

    fn tx_num(&self) -> (n: i32) {
        -1
    }
}

impl StartRecord {
    pub fn new() -> (rec: Self) {
        Self {  }
    }

    /// The record as it is printed.
    pub fn label(&self) -> (text: &'static str)
        ensures
            text@ == "<START>"@,
    {
        "<START>"
    }

    /// Appends the record to the log and returns its sequence number. The
    /// record is the four bytes of its tag.
    pub fn write_to_log(lm: &mut LogManager, fm: &mut FileManager) -> (res: Result<
        i32,
        FileError,
    >)
        requires
            old(lm).wf(),
            old(fm).wf(),
        ensures
            final(lm).wf(),
            final(fm).wf(),
            final(fm).same_setup(old(fm)),
            old(lm).appended(
                old(fm),
                i32_be_bytes(tag_of(TxType::Start)),
                final(lm),
                final(fm),
                res,
            ),
    {
        write_tag(lm, fm, TxType::Start)
    }
}

/// The commit of a transaction.
#[derive(Debug)]
pub struct CommitRecord {}

impl Default for CommitRecord {
    fn default() -> (rec: Self) {
        Self {  }
    }
}

impl LogRecord for CommitRecord {
    open spec fn kind(&self) -> TxType {
        TxType::Commit
    }

    open spec fn spec_tx_num(&self) -> int {
        -1
    }

    fn op(&self) -> (t: TxType) {
        TxType::Commit
    }

    fn tx_num(&self) -> (n: i32) {
        -1
    }
}

impl CommitRecord {
    pub fn new() -> (rec: Self) {
        Self {  }
    }

    /// The record as it is printed.
    pub fn label(&self) -> (text: &'static str)
        ensures
            text@ == "<COMMIT>"@,
    {
        "<COMMIT>"
    }

    /// Appends the record to the log and returns its sequence number. The
    /// record is the four bytes of its tag.
    pub fn write_to_log(lm: &mut LogManager, fm: &mut FileManager) -> (res: Result<
        i32,
        FileError,
    >)
        requires
            old(lm).wf(),
            old(fm).wf(),
        ensures
            final(lm).wf(),
            final(fm).wf(),
            final(fm).same_setup(old(fm)),
            old(lm).appended(
                old(fm),
                i32_be_bytes(tag_of(TxType::Commit)),
                final(lm),
                final(fm),
                res,
            ),
    {
        write_tag(lm, fm, TxType::Commit)
    }
}

/// The rollback of a transaction.
#[derive(Debug)]
pub struct RollbackRecord {}

impl Default for RollbackRecord {
    fn default() -> (rec: Self) {
        Self {  }
    }
}

impl LogRecord for RollbackRecord {
    open spec fn kind(&self) -> TxType {
        TxType::Rollback
    }

    open spec fn spec_tx_num(&self) -> int {
        -1
    }

    fn op(&self) -> (t: TxType) {
        TxType::Rollback
    }

    fn tx_num(&self) -> (n: i32) {
        -1
    }
}

impl RollbackRecord {
    pub fn new() -> (rec: Self) {
        Self {  }
    }

    /// The record as it is printed.
    pub fn label(&self) -> (text: &'static str)
        ensures
            text@ == "<Rollback>"@,
    {
        "<Rollback>"
    }

    /// Appends the record to the log and returns its sequence number. The
    /// record is the four bytes of its tag.
    pub fn write_to_log(lm: &mut LogManager, fm: &mut FileManager) -> (res: Result<
        i32,
        FileError,
    >)
        requires
            old(lm).wf(),
            old(fm).wf(),
        ensures
            final(lm).wf(),
            final(fm).wf(),
            final(fm).same_setup(old(fm)),
            old(lm).appended(
                old(fm),
                i32_be_bytes(tag_of(TxType::Rollback)),
                final(lm),
                final(fm),
                res,
            ),
    {
        write_tag(lm, fm, TxType::Rollback)
    }
}

/// An update of an integer.
#[derive(Debug)]
pub struct SetI32Record {}

impl Default for SetI32Record {
    fn default() -> (rec: Self) {
        Self {  }
    }
}

impl LogRecord for SetI32Record {
    open spec fn kind(&self) -> TxType {
        TxType::SetI32
    }

    open spec fn spec_tx_num(&self) -> int {
        -1
    }

    fn op(&self) -> (t: TxType) {
        TxType::SetI32
    }

    fn tx_num(&self) -> (n: i32) {
        -1
    }
}

impl SetI32Record {
    pub fn new() -> (rec: Self) {
        Self {  }
    }

    /// The record as it is printed.
    pub fn label(&self) -> (text: &'static str)
        ensures
            text@ == "<SETI32>"@,
    {
        "<SETI32>"
    }

    /// Appends the record to the log and returns its sequence number. The
    /// record is the four bytes of its tag.
    pub fn write_to_log(lm: &mut LogManager, fm: &mut FileManager) -> (res: Result<
        i32,
        FileError,
    >)
        requires
            old(lm).wf(),
            old(fm).wf(),
        ensures
            final(lm).wf(),
            final(fm).wf(),
            final(fm).same_setup(old(fm)),
            old(lm).appended(
                old(fm),
                i32_be_bytes(tag_of(TxType::SetI32)),
                final(lm),
                final(fm),
                res,
            ),
    {
        write_tag(lm, fm, TxType::SetI32)
    }
}

/// An update of a string.
#[derive(Debug)]
pub struct SetStringRecord {}

impl Default for SetStringRecord {
    fn default() -> (rec: Self) {
        Self {  }
    }
}

impl LogRecord for SetStringRecord {
    open spec fn kind(&self) -> TxType {
        TxType::SetString
    }

    open spec fn spec_tx_num(&self) -> int {
        -1
    }

    fn op(&self) -> (t: TxType) {
        TxType::SetI32
    }

    fn tx_num(&self) -> (n: i32) {
        -1
    }
}

impl SetStringRecord {
    pub fn new() -> (rec: Self) {
        Self {  }
    }

    /// The record as it is printed.
    pub fn label(&self) -> (text: &'static str)
        ensures
            text@ == "<SETSTRING>"@,
    {
        "<SETSTRING>"
    }

    /// Appends the record to the log and returns its sequence number. The
    /// record is the four bytes of its tag.
    pub fn write_to_log(lm: &mut LogManager, fm: &mut FileManager) -> (res: Result<
        i32,
        FileError,
    >)
        requires
            old(lm).wf(),
            old(fm).wf(),
        ensures
            final(lm).wf(),
            final(fm).wf(),
            final(fm).same_setup(old(fm)),
            old(lm).appended(
                old(fm),
                i32_be_bytes(tag_of(TxType::SetString)),
                final(lm),
                final(fm),
                res,
            ),
    {
        write_tag(lm, fm, TxType::SetString)
    }
}

} // verus!
