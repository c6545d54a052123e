//! The kinds of log records and how a record's bytes tell its kind.

use crate::file::{i32_at, in_page, Page};
use crate::log_records::{
    CheckPointRecord, CommitRecord, RollbackRecord, SetI32Record, SetStringRecord, StartRecord,
};
use vstd::prelude::*;

verus! {

/// Errors of the record layer.
#[derive(Debug, Clone, Copy, PartialEq, Eq)]
pub enum LogRecordError {
    /// The bytes do not begin with the tag of any kind of record.
    UnknownRecord,
}

impl LogRecordError {
    /// The error in words.
    pub fn message(&self) -> (text: &'static str)
        ensures
            text@ == "Unknown Log record"@,
    {
        "Unknown Log record"
    }
}

/// The kind of a log record. A record begins with the tag of its kind, a
/// 32-bit integer: 0 for a checkpoint up to 5 for a string update.
#[derive(Debug, Clone, Copy, PartialEq, Eq, Structural, PartialOrd, Ord)]
pub enum TxType {
    CheckPoint,
    Start,
    Commit,
    Rollback,
    SetI32,
    SetString,
}

/// The kind that the tag `n` stands for.
pub open spec fn tx_type_of(n: int) -> Option<TxType> {
    if n == 0 {
        Some(TxType::CheckPoint)
    } else if n == 1 {
        Some(TxType::Start)
    } else if n == 2 {
        Some(TxType::Commit)
    } else if n == 3 {
        Some(TxType::Rollback)
    } else if n == 4 {
        Some(TxType::SetI32)
    } else if n == 5 {
        Some(TxType::SetString)
    } else {
        None
    }
}

/// The tag of a kind.
pub open spec fn tag_of(t: TxType) -> int {
    match t {
        TxType::CheckPoint => 0,
        TxType::Start => 1,
        TxType::Commit => 2,
        TxType::Rollback => 3,
        TxType::SetI32 => 4,
        TxType::SetString => 5,
    }
}

/// The kind of the record that `bytes` holds: that of the tag in its first
/// four bytes, if there is one.
pub open spec fn record_kind(bytes: Seq<u8>) -> Option<TxType> {
    if in_page(bytes, 0, 4) {
        tx_type_of(i32_at(bytes, 0))
    } else {
        None
    }
}

/// The operation that a record of the kind `t` reports: its kind, but for a
/// string update, which reports the update of an integer.
pub open spec fn reported_op(t: TxType) -> TxType {
    match t {
        TxType::SetString => TxType::SetI32,
        _ => t,
    }
}

/// Each kind is the kind of its own tag.
pub proof fn lemma_tag_round_trip(t: TxType)
    ensures
        tx_type_of(tag_of(t)) == Some(t),
{
}

impl TxType {
    /// The kind that the tag `n` stands for.
    pub fn from_int(n: i32) -> (t: Option<Self>)
        ensures
            t == tx_type_of(n as int),
    {
        match n {
            0 => Some(TxType::CheckPoint),
            1 => Some(TxType::Start),
            2 => Some(TxType::Commit),
            3 => Some(TxType::Rollback),
            4 => Some(TxType::SetI32),
            5 => Some(TxType::SetString),
            _ => None,
        }
    }

    /// The tag of this kind.
    pub fn tag(&self) -> (n: i32)
        ensures
            n == tag_of(*self),
    {
        match self {
            TxType::CheckPoint => 0,
            TxType::Start => 1,
            TxType::Commit => 2,
            TxType::Rollback => 3,
            TxType::SetI32 => 4,
            TxType::SetString => 5,
        }
    }
}

/// What every log record tells of itself.
pub trait LogRecord {
    /// The kind of the record.
    spec fn kind(&self) -> TxType;

    /// The transaction of the record; -1 where it names none.
    spec fn spec_tx_num(&self) -> int;

    /// The operation of the record.
    fn op(&self) -> (t: TxType)
        ensures
            t == reported_op(self.kind()),
    ;

    /// The transaction of the record; -1 where it names none.
    fn tx_num(&self) -> (n: i32)
        ensures
            n == self.spec_tx_num(),
    ;
}

/// The record that `bytes` holds, by the tag in its first four bytes.
pub fn create_log_record(bytes: Vec<u8>) -> (res: Result<Box<dyn LogRecord>, LogRecordError>)
    ensures
        match record_kind(bytes@) {
            Some(t) => res is Ok && res->Ok_0.kind() == t && res->Ok_0.spec_tx_num() == -1,
            None => res is Err && res->Err_0 == LogRecordError::UnknownRecord,
        },
{
    let p = Page::from(bytes);
    let tag: i32 = match p.get_i32(0) {
        Ok(tag) => tag,
        Err(_) => {
            return Err(LogRecordError::UnknownRecord);
        },
    };
    match TxType::from_int(tag) {
        Some(TxType::CheckPoint) => Ok(Box::new(CheckPointRecord::new())),
        Some(TxType::Start) => Ok(Box::new(StartRecord::new())),
        Some(TxType::Commit) => Ok(Box::new(CommitRecord::new())),
        Some(TxType::Rollback) => Ok(Box::new(RollbackRecord::new())),
        Some(TxType::SetI32) => Ok(Box::new(SetI32Record::new())),
        Some(TxType::SetString) => Ok(Box::new(SetStringRecord::new())),
        None => Err(LogRecordError::UnknownRecord),
    }
}

} // verus!
