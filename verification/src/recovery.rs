//! What a transaction leaves in the log and in the files when it starts,
//! commits and rolls back.

use crate::buffer::BufferManager;
use crate::bytes::i32_be_bytes;
use crate::file::{
    blob_at, file_bytes, has_blob_at, i32_at, in_page, FileError, FileManager, IoErrorKind,
    BLOCK_SIZE,
};
use crate::log::{boundary_of, lemma_rest_of_moves_back, rest_of, LogIterator, LogManager};
use crate::log_records::{CommitRecord, RollbackRecord, StartRecord};
use crate::record::{
    create_log_record, record_kind, reported_op, tag_of, LogRecord, LogRecordError, TxType,
};
use vstd::prelude::*;

verus! {

/// Why a rollback failed.
#[derive(Debug, Clone, Copy, PartialEq, Eq)]
pub enum RecoveryError {
    /// The log or a page could not be written or read.
    File(FileError),
    /// A record of the log is of no known kind.
    Record(LogRecordError),
}

/// The bytes of a record that holds nothing but the tag of its kind.
pub open spec fn tag_record(t: TxType) -> Seq<u8> {
    i32_be_bytes(tag_of(t))
}

/// Whether a walk through `records`, newest first, meets the start record
/// of the transaction `tx`, and the error of the first record of unknown
/// kind that it meets before. Records name no transaction, which is -1.
pub open spec fn finds_start(records: Seq<Seq<u8>>, tx: int) -> Result<bool, LogRecordError>
    decreases records.len(),
{
    if records.len() == 0 {
        Ok(false)
    } else {
        match record_kind(records[0]) {
            None => Err(LogRecordError::UnknownRecord),
            Some(t) => if tx == -1 && reported_op(t) == TxType::Start {
                Ok(true)
            } else {
                finds_start(records.skip(1), tx)
            },
        }
    }
}

/// What a walk finds that starts at the offset `pos` of the block `number`
/// of a log file, whose bytes are `data` and whose block `number` is `page`:
/// whether it meets the start record of the transaction `tx` on its way to
/// the oldest record, or the error that ends it before. It is ended by a
/// block that cannot be read, by a record that does not lie in its block, and
/// by a record of unknown kind.
pub open spec fn walk(data: Seq<u8>, page: Seq<u8>, pos: int, number: int, tx: int) -> Result<
    bool,
    RecoveryError,
>
    decreases number, page.len() - pos,
    via walk_goes_on
{
    let rest = rest_of(data, page, pos, number);
    if pos >= BLOCK_SIZE && number <= 0 {
        Ok(false)
    } else if rest.failure is Some {
        Err(RecoveryError::File(FileError::IoError(rest.failure.unwrap())))
    } else if rest.pos >= BLOCK_SIZE {
        Ok(false)
    } else if !has_blob_at(rest.page, rest.pos) {
        Err(
            RecoveryError::File(
                FileError::IoError(
                    if in_page(rest.page, rest.pos, 4) && i32_at(rest.page, rest.pos) < 0 {
                        IoErrorKind::BadLength
                    } else {
                        IoErrorKind::OutOfBounds
                    },
                ),
            ),
        )
    } else {
        match record_kind(blob_at(rest.page, rest.pos)) {
            None => Err(RecoveryError::Record(LogRecordError::UnknownRecord)),
            Some(t) => if tx == -1 && reported_op(t) == TxType::Start {
                Ok(true)
            } else {
                walk(data, rest.page, rest.pos + 4 + i32_at(rest.page, rest.pos), rest.number, tx)
            },
        }
    }
}

#[via_fn]
proof fn walk_goes_on(data: Seq<u8>, page: Seq<u8>, pos: int, number: int, tx: int) {
    lemma_rest_of_moves_back(data, page, pos, number);
}

/// The result of an operation that follows an append whose sequence number
/// it does not return.
pub open spec fn without_lsn<T>(res: Result<T, FileError>, lsn: int) -> Result<i32, FileError> {
    match res {
        Ok(_) => Ok(lsn as i32),
        Err(e) => Err(e),
    }
}

/// The recovery manager of one transaction.
#[derive(Debug)]
pub struct RecoveryManager {
    tx_num: i32,
}

impl RecoveryManager {
    /// The number of the transaction.
    pub closed spec fn spec_tx_num(&self) -> int {
        self.tx_num as int
    }

    /// What a commit does, from the pool `bm`, the file layer `fm` and the
    /// log manager `lm` to the `after` ones, with the result `res`: a commit
    /// record is appended, the log flushed up to it, and then every page of
    /// the transaction flushed. The first step that fails ends the commit.
    pub open spec fn committed(
        &self,
        bm: &BufferManager,
        fm: &FileManager,
        lm: &LogManager,
        after_bm: &BufferManager,
        after_fm: &FileManager,
        after_lm: &LogManager,
        res: Result<(), FileError>,
    ) -> bool {
        exists|lm1: LogManager, fm1: FileManager, r1: Result<i32, FileError>| #[trigger]
            lm.appended(fm, tag_record(TxType::Commit), &lm1, &fm1, r1) && lm1.wf() && fm1.wf()
                && match r1 {
                Err(e) => res == Err::<(), FileError>(e) && after_lm.same_state(&lm1)
                    && after_fm@ == fm1@ && after_bm.spec_pool() == bm.spec_pool(),
                Ok(lsn) => exists|lm2: LogManager, fm2: FileManager, r2: Result<(), FileError>|
                    #[trigger] lm1.flushed_up_to(&fm1, lsn as int, &lm2, &fm2, r2) && lm2.wf()
                        && fm2.wf() && match r2 {
                        Err(e) => res == Err::<(), FileError>(e) && after_lm.same_state(&lm2)
                            && after_fm@ == fm2@ && after_bm.spec_pool() == bm.spec_pool(),
                        Ok(()) => bm.flushed_all(
                            &fm2,
                            &lm2,
                            self.spec_tx_num(),
                            after_bm,
                            after_fm,
                            after_lm,
                            res,
                        ),
                    },
            }
    }

    /// What the walk of a rollback does, from the file layer `fm` and the
    /// log manager `lm` to the `after` ones, with the result `res`: the log
    /// is flushed and then read, newest first, up to the start record of the
    /// transaction. In a log that is in order the walk meets every record.
    pub open spec fn walked(
        &self,
        fm: &FileManager,
        lm: &LogManager,
        after_fm: &FileManager,
        after_lm: &LogManager,
        res: Result<bool, RecoveryError>,
    ) -> bool {
        &&& after_lm.same_but_saved(lm)
        &&& after_lm.spec_last_saved_lsn() == lm.saved_after_flush(lm.spec_latest_lsn())
        &&& after_fm@ == lm.files_after_flush(fm@, lm.spec_latest_lsn())
        &&& res == match lm.flush_failure(lm.spec_latest_lsn()) {
            Some(kind) => Err::<bool, RecoveryError>(
                RecoveryError::File(FileError::IoError(kind)),
            ),
            None => walk(
                file_bytes(after_fm@, lm.spec_log_file_name()),
                lm.spec_page(),
                boundary_of(lm.spec_page()),
                lm.spec_cur_block().1,
                self.spec_tx_num(),
            ),
        }
        &&& lm.intact(fm) ==> {
            &&& after_lm.intact(after_fm)
            &&& after_lm.records(after_fm) == lm.records(fm)
            &&& res == match finds_start(lm.records(fm), self.spec_tx_num()) {
                Ok(found) => Ok::<bool, RecoveryError>(found),
                Err(e) => Err::<bool, RecoveryError>(RecoveryError::Record(e)),
            }
        }
    }

    /// What a rollback does, from the pool `bm`, the file layer `fm` and
    /// the log manager `lm` to the `after` ones, with the result `res`: the
    /// log is walked back to the start of the transaction, every page of the
    /// transaction flushed, a rollback record appended and the log flushed
    /// up to it. The first step that fails ends the rollback.
    pub open spec fn rolled_back(
        &self,
        bm: &BufferManager,
        fm: &FileManager,
        lm: &LogManager,
        after_bm: &BufferManager,
        after_fm: &FileManager,
        after_lm: &LogManager,
        res: Result<(), RecoveryError>,
    ) -> bool {
        exists|lm1: LogManager, fm1: FileManager, r1: Result<bool, RecoveryError>| #[trigger]
            self.walked(fm, lm, &fm1, &lm1, r1) && lm1.wf() && fm1.wf() && match r1 {
                Err(e) => res == Err::<(), RecoveryError>(e) && after_lm.same_state(&lm1)
                    && after_fm@ == fm1@ && after_bm.spec_pool() == bm.spec_pool(),
                Ok(_) => exists|
                    bm2: BufferManager,
                    lm2: LogManager,
                    fm2: FileManager,
                    r2: Result<(), FileError>,
                | #[trigger]
                    bm.flushed_all(&fm1, &lm1, self.spec_tx_num(), &bm2, &fm2, &lm2, r2)
                        && lm2.wf() && fm2.wf() && after_bm.spec_pool() == bm2.spec_pool()
                        && match r2 {
                        Err(e) => res == Err::<(), RecoveryError>(RecoveryError::File(e))
                            && after_lm.same_state(&lm2) && after_fm@ == fm2@,
                        Ok(()) => exists|
                            lm3: LogManager,
                            fm3: FileManager,
                            r3: Result<i32, FileError>,
                        | #[trigger]
                            lm2.appended(&fm2, tag_record(TxType::Rollback), &lm3, &fm3, r3)
                                && lm3.wf() && fm3.wf() && match r3 {
                                Err(e) => res == Err::<(), RecoveryError>(RecoveryError::File(e))
                                    && after_lm.same_state(&lm3) && after_fm@ == fm3@,
                                Ok(lsn) => lm3.flushed_up_to(
                                    &fm3,
                                    lsn as int,
                                    after_lm,
                                    after_fm,
                                    match res {
                                        Ok(()) => Ok(()),
                                        Err(RecoveryError::File(e)) => Err(e),
                                        Err(RecoveryError::Record(_)) => Ok(()),
                                    },
                                ) && !(res matches Err(RecoveryError::Record(_))),
                            },
                    },
            }
    }

    /// The recovery manager of the transaction `tx_num`, which starts: a
    /// start record is appended to the log.
    pub fn new(tx_num: i32, fm: &mut FileManager, lm: &mut LogManager) -> (res: Result<
        RecoveryManager,
        FileError,
    >)
        requires
            old(fm).wf(),
            old(lm).wf(),
        ensures
            final(fm).wf(),
            final(fm).same_setup(old(fm)),
            final(lm).wf(),
            res is Ok ==> res->Ok_0.spec_tx_num() == tx_num,
            old(lm).appended(
                old(fm),
                tag_record(TxType::Start),
                final(lm),
                final(fm),
                without_lsn(res, old(lm).spec_latest_lsn() + 1),
            ),
    {
        match StartRecord::write_to_log(lm, fm) {
            Ok(_) => Ok(RecoveryManager { tx_num }),
            Err(e) => Err(e),
        }
    }

    /// The number of the transaction.
    pub fn tx_num(&self) -> (n: i32)
        ensures
            n == self.spec_tx_num(),
    {
        self.tx_num
    }

    /// Commits the transaction: a commit record is appended to the log, the
    /// log flushed up to it, and every page that the transaction changed
    /// flushed.
    pub fn commit(&self, bm: &mut BufferManager, fm: &mut FileManager, lm: &mut LogManager) -> (res:
        Result<(), FileError>)
        requires
            old(bm).wf(),
            old(fm).wf(),
            old(lm).wf(),
        ensures
            final(bm).wf(),
            final(fm).wf(),
            final(fm).same_setup(old(fm)),
            final(lm).wf(),
            self.committed(old(bm), old(fm), old(lm), final(bm), final(fm), final(lm), res),
    {
        let r1 = CommitRecord::write_to_log(lm, fm);
        let ghost lm1 = *lm;
        let ghost fm1 = *fm;
        let lsn: i32 = match r1 {
            Ok(lsn) => lsn,
            Err(e) => {
                assert(old(lm).appended(old(fm), tag_record(TxType::Commit), &lm1, &fm1, r1));
                return Err(e);
            },
        };
        let r2 = lm.flush_with_lsn(fm, lsn);
        let ghost lm2 = *lm;
        let ghost fm2 = *fm;
        match r2 {
            Ok(()) => {},
            Err(e) => {
                assert(lm1.flushed_up_to(&fm1, lsn as int, &lm2, &fm2, r2));
                assert(old(lm).appended(old(fm), tag_record(TxType::Commit), &lm1, &fm1, r1));
                return Err(e);
            },
        }
        let res = bm.flush_all(fm, lm, self.tx_num as i64);
        proof {
            assert(lm1.flushed_up_to(&fm1, lsn as int, &lm2, &fm2, r2));
            assert(old(lm).appended(old(fm), tag_record(TxType::Commit), &lm1, &fm1, r1));
        }
        res
    }

    /// Rolls the transaction back: the log is walked back to the start of
    /// the transaction, every page that the transaction changed flushed, a
    /// rollback record appended to the log and the log flushed up to it.
    pub fn rollback(
        &mut self,
        bm: &mut BufferManager,
        fm: &mut FileManager,
        lm: &mut LogManager,
    ) -> (res: Result<(), RecoveryError>)
        requires
            old(bm).wf(),
            old(fm).wf(),
            old(lm).wf(),
        ensures
            final(bm).wf(),
            final(fm).wf(),
            final(fm).same_setup(old(fm)),
            final(lm).wf(),
            final(self).spec_tx_num() == old(self).spec_tx_num(),
            old(self).rolled_back(
                old(bm),
                old(fm),
                old(lm),
                final(bm),
                final(fm),
                final(lm),
                res,
            ),
    {
        let r1 = self.do_rollback(fm, lm);
        let ghost lm1 = *lm;
        let ghost fm1 = *fm;
        match r1 {
            Ok(_) => {},
            Err(e) => {
                assert(self.walked(old(fm), old(lm), &fm1, &lm1, r1));
                return Err(e);
            },
        }
        let r2 = bm.flush_all(fm, lm, self.tx_num as i64);
        let ghost bm2 = *bm;
        let ghost lm2 = *lm;
        let ghost fm2 = *fm;
        match r2 {
            Ok(()) => {},
            Err(e) => {
                assert(old(bm).flushed_all(
                    &fm1,
                    &lm1,
                    self.spec_tx_num(),
                    &bm2,
                    &fm2,
                    &lm2,
                    r2,
                ));
                assert(self.walked(old(fm), old(lm), &fm1, &lm1, r1));
                return Err(RecoveryError::File(e));
            },
        }
        let r3 = RollbackRecord::write_to_log(lm, fm);
        let ghost lm3 = *lm;
        let ghost fm3 = *fm;
        let lsn: i32 = match r3 {
            Ok(lsn) => lsn,
            Err(e) => {
                assert(lm2.appended(&fm2, tag_record(TxType::Rollback), &lm3, &fm3, r3));
                assert(old(bm).flushed_all(
                    &fm1,
                    &lm1,
                    self.spec_tx_num(),
                    &bm2,
                    &fm2,
                    &lm2,
                    r2,
                ));
                assert(self.walked(old(fm), old(lm), &fm1, &lm1, r1));
                return Err(RecoveryError::File(e));
            },
        };
        let r4 = lm.flush_with_lsn(fm, lsn);
        proof {
            assert(lm2.appended(&fm2, tag_record(TxType::Rollback), &lm3, &fm3, r3));
            assert(old(bm).flushed_all(&fm1, &lm1, self.spec_tx_num(), &bm2, &fm2, &lm2, r2));
            assert(self.walked(old(fm), old(lm), &fm1, &lm1, r1));
        }
        match r4 {
            Ok(()) => Ok(()),
            Err(e) => Err(RecoveryError::File(e)),
        }
    }

    /// Walks the log back, newest record first, up to the start record of
    /// the transaction, and tells whether it met that record.
    fn do_rollback(&self, fm: &mut FileManager, lm: &mut LogManager) -> (res: Result<
        bool,
        RecoveryError,
    >)
        requires
            old(fm).wf(),
            old(lm).wf(),
        ensures
            final(fm).wf(),
            final(fm).same_setup(old(fm)),
            final(lm).wf(),
            self.walked(old(fm), old(lm), final(fm), final(lm), res),
    {
        let mut iter: LogIterator = match lm.iterator(fm) {
            Ok(iter) => iter,
            Err(e) => {
                return Err(RecoveryError::File(e));
            },
        };
        let ghost all = old(lm).records(old(fm));
        let ghost flushed = fm@;
        let ghost name = lm.spec_log_file_name();
        let ghost data = file_bytes(fm@, name);
        let ghost tx = self.spec_tx_num();
        let ghost goal = walk(data, iter.spec_page(), iter.spec_pos(), iter.spec_block().1, tx);
        proof {
            assert(flushed.contains_key(name));
            fm.lemma_file_sizes(name);
        }
        while iter.has_next(fm)
            invariant
                iter.wf(),
                fm.wf(),
                fm.same_setup(old(fm)),
                lm.wf(),
                lm.same_but_saved(old(lm)),
                all == old(lm).records(old(fm)),
                old(lm).flush_failure(old(lm).spec_latest_lsn()) is None,
                name == old(lm).spec_log_file_name(),
                tx == self.spec_tx_num(),
                iter.spec_block().0 == name,
                flushed.contains_key(name),
                fm@ == flushed,
                lm.spec_last_saved_lsn() == old(lm).saved_after_flush(old(lm).spec_latest_lsn()),
                flushed == old(lm).files_after_flush(old(fm)@, old(lm).spec_latest_lsn()),
                data == file_bytes(flushed, name),
                goal == walk(
                    data,
                    old(lm).spec_page(),
                    boundary_of(old(lm).spec_page()),
                    old(lm).spec_cur_block().1,
                    tx,
                ),
                goal == walk(data, iter.spec_page(), iter.spec_pos(), iter.spec_block().1, tx),
                old(lm).intact(old(fm)) ==> iter.intact(fm) && fm@ == flushed && finds_start(
                    iter.remaining(fm),
                    self.spec_tx_num(),
                ) == finds_start(all, self.spec_tx_num()) && lm.intact(fm) && lm.records(fm)
                    == all && lm.spec_last_saved_lsn() == old(lm).spec_latest_lsn() && flushed
                    == old(lm).files_after_flush(old(fm)@, old(lm).spec_latest_lsn()),
            decreases iter.spec_block().1, BLOCK_SIZE - iter.spec_pos(),
        {
            proof {
                fm.lemma_file_sizes(name);
            }
            let bytes: Vec<u8> = match iter.next(fm) {
                Ok(Some(bytes)) => bytes,
                Ok(None) => {
                    return Ok(false);
                },
                Err(e) => {
                    return Err(RecoveryError::File(e));
                },
            };
            let rec = match create_log_record(bytes) {
                Ok(rec) => rec,
                Err(e) => {
                    return Err(RecoveryError::Record(e));
                },
            };
            if rec.tx_num() == self.tx_num && rec.op() == TxType::Start {
                return Ok(true);
            }
        }
        Ok(false)
    }
}

} // verus!
