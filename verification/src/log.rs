//! The write-ahead log: records packed from the end of each block towards
//! its start, appended under increasing sequence numbers, flushed on demand
//! and read back newest first.

use crate::bytes::{i32_be_bytes, lemma_i32_round_trip, write_at, zeros};
use crate::file::{
    blob, blob_at, block_at, block_count, extended, file_bytes, has_blob_at, has_block, i32_at,
    in_page, lemma_disjoint_write, lemma_set_get_bytes, lemma_set_get_i32, lemma_write_then_read,
    outcome, touched, with_block, write_failure, BlockId, FileError, FileManager, IoErrorKind,
    Page, BLOCK_SIZE, I32_SIZE, MAX_FILE_BYTES,
};
use vstd::prelude::*;

verus! {

/// The boundary of a log block: the offset, stored at the start of the
/// block, at which the record appended last begins.
pub open spec fn boundary_of(page: Seq<u8>) -> int {
    i32_at(page, 0)
}

/// Whether the bytes of `page` from `pos` on are records packed without a
/// gap up to the end of the page.
pub open spec fn packed_from(page: Seq<u8>, pos: int) -> bool
    decreases page.len() - pos,
{
    if pos >= page.len() {
        pos == page.len()
    } else {
        has_blob_at(page, pos) && packed_from(page, pos + 4 + i32_at(page, pos))
    }
}

/// The records packed in `page` from `pos` on, the one at `pos` first. Within
/// a block that is the newest record first.
pub open spec fn records_from(page: Seq<u8>, pos: int) -> Seq<Seq<u8>>
    decreases page.len() - pos,
{
    if pos >= page.len() || !has_blob_at(page, pos) {
        Seq::empty()
    } else {
        seq![blob_at(page, pos)] + records_from(page, pos + 4 + i32_at(page, pos))
    }
}

/// Whether `page` is a well-formed log block of `bs` bytes: its boundary
/// lies behind the boundary field and the records are packed from it.
pub open spec fn is_log_block(page: Seq<u8>, bs: int) -> bool {
    &&& page.len() == bs
    &&& 4 <= boundary_of(page) <= bs
    &&& packed_from(page, boundary_of(page))
}

/// The records of a log block, newest first.
pub open spec fn block_records(page: Seq<u8>) -> Seq<Seq<u8>> {
    records_from(page, boundary_of(page))
}

/// The records of the first `n` blocks of a log file, newest first: those of
/// a later block come before those of an earlier one.
pub open spec fn file_records(data: Seq<u8>, bs: int, n: int) -> Seq<Seq<u8>>
    decreases n,
{
    if n <= 0 {
        Seq::empty()
    } else {
        block_records(block_at(data, bs, n - 1)) + file_records(data, bs, n - 1)
    }
}

/// Whether each of the first `n` blocks of a file is a well-formed log block.
pub open spec fn log_blocks(data: Seq<u8>, bs: int, n: int) -> bool {
    forall|k: int| 0 <= k < n ==> is_log_block(#[trigger] block_at(data, bs, k), bs)
}

/// A log block after `rec` was appended to it: the record is stored in front
/// of the boundary and the boundary moves to its start.
pub open spec fn with_record(page: Seq<u8>, rec: Seq<u8>) -> Seq<u8> {
    let pos = boundary_of(page) - 4 - rec.len();
    write_at(write_at(page, pos, blob(rec)), 0, i32_be_bytes(pos))
}

/// A log block that was emptied: its boundary is its length.
pub open spec fn emptied(page: Seq<u8>) -> Seq<u8> {
    write_at(page, 0, i32_be_bytes(page.len() as int))
}

/// The log after the records `recs` were appended in order to a log that
/// holds `log`, both newest first.
pub open spec fn after_appends(log: Seq<Seq<u8>>, recs: Seq<Seq<u8>>) -> Seq<Seq<u8>>
    decreases recs.len(),
{
    if recs.len() == 0 {
        log
    } else {
        seq![recs.last()] + after_appends(log, recs.drop_last())
    }
}

/// Two pages that hold the same bytes from `pos` on are packed alike from
/// there and hold the same records.
pub proof fn lemma_records_depend_on_tail(p: Seq<u8>, q: Seq<u8>, pos: int)
    requires
        p.len() == q.len(),
        0 <= pos,
        forall|i: int| pos <= i < p.len() ==> p[i] == q[i],
    ensures
        packed_from(p, pos) == packed_from(q, pos),
        records_from(p, pos) == records_from(q, pos),
    decreases p.len() - pos,
{
    if pos < p.len() {
        if in_page(p, pos, 4) {
            assert(p.subrange(pos, pos + 4) =~= q.subrange(pos, pos + 4));
            let n = i32_at(p, pos);
            if has_blob_at(p, pos) {
                assert(p.subrange(pos + 4, pos + 4 + n) =~= q.subrange(pos + 4, pos + 4 + n));
                lemma_records_depend_on_tail(p, q, pos + 4 + n);
            }
        }
    }
}

/// An emptied page is a well-formed log block without records.
pub proof fn lemma_emptied(page: Seq<u8>)
    requires
        4 <= page.len() <= i32::MAX,
    ensures
        is_log_block(emptied(page), page.len() as int),
        boundary_of(emptied(page)) == page.len(),
        block_records(emptied(page)) == Seq::<Seq<u8>>::empty(),
{
    lemma_set_get_i32(page, 0, page.len() as int);
}

/// Appending a record that fits to a well-formed log block gives a
/// well-formed log block that holds the record in front of the others.
pub proof fn lemma_with_record(page: Seq<u8>, rec: Seq<u8>)
    requires
        is_log_block(page, page.len() as int),
        page.len() <= i32::MAX,
        boundary_of(page) - 4 - rec.len() >= 4,
    ensures
        is_log_block(with_record(page, rec), page.len() as int),
        boundary_of(with_record(page, rec)) == boundary_of(page) - 4 - rec.len(),
        block_records(with_record(page, rec)) == seq![rec] + block_records(page),
{
    let b = boundary_of(page);
    let pos = b - 4 - rec.len();
    let mid = write_at(page, pos, blob(rec));
    let fin = with_record(page, rec);
    lemma_i32_round_trip(pos);
    lemma_i32_round_trip(rec.len() as int);
    lemma_set_get_i32(mid, 0, pos);
    lemma_set_get_bytes(page, pos, rec);
    lemma_disjoint_write(mid, 0, i32_be_bytes(pos), pos, 4 + rec.len() as int);
    assert(has_blob_at(mid, pos));
    assert(i32_at(mid, pos) == rec.len()) by {
        assert(mid.subrange(pos, pos + 4) =~= i32_be_bytes(rec.len() as int));
    }
    assert(has_blob_at(fin, pos) && blob_at(fin, pos) == rec);
    assert(i32_at(fin, pos) == rec.len());
    lemma_records_depend_on_tail(page, fin, b);
}

/// The records of the first `n` blocks depend on the bytes of those blocks only.
pub proof fn lemma_file_records_depend_on_blocks(a: Seq<u8>, b: Seq<u8>, bs: int, n: int)
    requires
        forall|k: int| 0 <= k < n ==> #[trigger] block_at(a, bs, k) == block_at(b, bs, k),
    ensures
        file_records(a, bs, n) == file_records(b, bs, n),
        log_blocks(a, bs, n) == log_blocks(b, bs, n),
    decreases n,
{
    if n > 0 {
        lemma_file_records_depend_on_blocks(a, b, bs, n - 1);
        assert(block_at(a, bs, n - 1) == block_at(b, bs, n - 1));
    }
    if log_blocks(a, bs, n) {
        assert forall|k: int| 0 <= k < n implies is_log_block(
            #[trigger] block_at(b, bs, k),
            bs,
        ) by {
            assert(block_at(a, bs, k) == block_at(b, bs, k));
        }
    }
    if log_blocks(b, bs, n) {
        assert forall|k: int| 0 <= k < n implies is_log_block(
            #[trigger] block_at(a, bs, k),
            bs,
        ) by {
            assert(block_at(a, bs, k) == block_at(b, bs, k));
        }
    }
}

/// Packed records take at least four bytes each.
pub proof fn lemma_records_take_room(page: Seq<u8>, pos: int)
    requires
        0 <= pos <= page.len(),
        packed_from(page, pos),
    ensures
        4 * records_from(page, pos).len() <= page.len() - pos,
    decreases page.len() - pos,
{
    if pos < page.len() {
        lemma_records_take_room(page, pos + 4 + i32_at(page, pos));
    }
}

/// The blocks of a log file hold fewer than a quarter of their bytes in records.
pub proof fn lemma_file_records_take_room(data: Seq<u8>, bs: int, n: int)
    requires
        bs >= 4,
        0 <= n,
        log_blocks(data, bs, n),
    ensures
        4 * file_records(data, bs, n).len() <= n * (bs - 4),
    decreases n,
{
    if n > 0 {
        lemma_file_records_take_room(data, bs, n - 1);
        let block = block_at(data, bs, n - 1);
        assert(is_log_block(block, bs));
        lemma_records_take_room(block, boundary_of(block));
        assert(n * (bs - 4) == (n - 1) * (bs - 4) + (bs - 4)) by (nonlinear_arith);
    }
}

/// Records come out of the log in the reverse of the order in which they
/// were appended: after appending `recs` in order, the log holds them last
/// one first, in front of what it held before.
pub proof fn lemma_reverse_append_order(log: Seq<Seq<u8>>, recs: Seq<Seq<u8>>)
    ensures
        after_appends(log, recs) == recs.reverse() + log,
    decreases recs.len(),
{
    if recs.len() == 0 {
        assert(recs.reverse() + log =~= log);
    } else {
        lemma_reverse_append_order(log, recs.drop_last());
        assert(recs.reverse() =~= seq![recs.last()] + recs.drop_last().reverse());
        assert(recs.reverse() + log =~= seq![recs.last()] + (recs.drop_last().reverse() + log));
    }
}

/// The log manager: it owns the page that holds the tail of the log file and
/// assigns the log sequence numbers. The file layer through which it reads
/// and writes is handed to each operation.
#[derive(Debug)]
pub struct LogManager {
    log_file_name: String,
    log_page: Page,
    cur_block: BlockId,
    latest_lsn: i32,
    last_saved_lsn: i32,
}

impl LogManager {
    /// The name of the log file.
    pub closed spec fn spec_log_file_name(&self) -> Seq<char> {
        self.log_file_name@
    }

    /// The bytes of the log page, the tail of the log in memory.
    pub closed spec fn spec_page(&self) -> Seq<u8> {
        self.log_page@
    }

    /// The block of the log file that the log page stands for.
    pub closed spec fn spec_cur_block(&self) -> (Seq<char>, int) {
        self.cur_block@
    }

    /// The sequence number assigned last.
    pub closed spec fn spec_latest_lsn(&self) -> int {
        self.latest_lsn as int
    }

    /// The sequence number up to which the log was written to its file.
    pub closed spec fn spec_last_saved_lsn(&self) -> int {
        self.last_saved_lsn as int
    }

    /// The manager's own invariant: the log page is one block long, its
    /// boundary lies in it, the current block belongs to the log file, and
    /// `0 <= last_saved_lsn <= latest_lsn`.
    pub open spec fn wf(&self) -> bool {
        &&& self.spec_page().len() == BLOCK_SIZE
        &&& 4 <= boundary_of(self.spec_page()) <= BLOCK_SIZE
        &&& self.spec_cur_block().0 == self.spec_log_file_name()
        &&& 0 <= self.spec_cur_block().1
        &&& 0 <= self.spec_last_saved_lsn() <= self.spec_latest_lsn() <= i32::MAX
    }

    /// Whether two managers are in the same state.
    pub open spec fn same_state(&self, other: &LogManager) -> bool {
        &&& self.spec_log_file_name() == other.spec_log_file_name()
        &&& self.spec_page() == other.spec_page()
        &&& self.spec_cur_block() == other.spec_cur_block()
        &&& self.spec_latest_lsn() == other.spec_latest_lsn()
        &&& self.spec_last_saved_lsn() == other.spec_last_saved_lsn()
    }

    /// Whether two managers differ at most in the last saved sequence number.
    pub open spec fn same_but_saved(&self, other: &LogManager) -> bool {
        &&& self.spec_log_file_name() == other.spec_log_file_name()
        &&& self.spec_page() == other.spec_page()
        &&& self.spec_cur_block() == other.spec_cur_block()
        &&& self.spec_latest_lsn() == other.spec_latest_lsn()
    }

    /// The manager as it is but for its last saved sequence number, which is `saved`.
    pub closed spec fn with_saved(&self, saved: int) -> LogManager {
        LogManager { last_saved_lsn: saved as i32, ..*self }
    }

    /// A manager with another last saved sequence number differs in nothing else.
    pub proof fn lemma_with_saved(&self, saved: int)
        requires
            i32::MIN <= saved <= i32::MAX,
        ensures
            self.with_saved(saved).same_but_saved(self),
            self.with_saved(saved).spec_last_saved_lsn() == saved,
    {
    }

    /// The bytes of the log file in the file layer `fm`.
    pub open spec fn log_data(&self, fm: &FileManager) -> Seq<u8> {
        file_bytes(fm@, self.spec_log_file_name())
    }

    /// Every record of the log, newest first: those of the log page, then
    /// those of the blocks before the current one.
    pub open spec fn records(&self, fm: &FileManager) -> Seq<Seq<u8>> {
        block_records(self.spec_page()) + file_records(
            self.log_data(fm),
            BLOCK_SIZE as int,
            self.spec_cur_block().1,
        )
    }

    /// The records that the log file itself holds, newest first.
    pub open spec fn durable(&self, fm: &FileManager) -> Seq<Seq<u8>> {
        file_records(self.log_data(fm), BLOCK_SIZE as int, self.spec_cur_block().1 + 1)
    }

    /// Whether the log is in order: manager and file layer are well-formed,
    /// the log file ends with the current block, each of its blocks and the
    /// log page are well-formed log blocks, the file holds all records but
    /// the `latest_lsn - last_saved_lsn` newest ones, and the records
    /// appended through this manager are in the log.
    pub open spec fn intact(&self, fm: &FileManager) -> bool {
        let bs = BLOCK_SIZE as int;
        let cur = self.spec_cur_block().1;
        let data = self.log_data(fm);
        let unsaved = self.spec_latest_lsn() - self.spec_last_saved_lsn();
        &&& self.wf()
        &&& fm.wf()
        &&& data.len() == (cur + 1) * bs
        &&& log_blocks(data, bs, cur + 1)
        &&& is_log_block(self.spec_page(), bs)
        &&& unsaved <= block_records(self.spec_page()).len()
        &&& block_records(block_at(data, bs, cur)) == block_records(self.spec_page()).skip(unsaved)
        &&& self.spec_latest_lsn() <= self.records(fm).len()
    }

    /// Why a flush up to `lsn` fails, if it does. Nothing is written, and so
    /// nothing fails, where `lsn` is below the last saved sequence number.
    pub open spec fn flush_failure(&self, lsn: int) -> Option<IoErrorKind> {
        if lsn < self.spec_last_saved_lsn() {
            None
        } else {
            write_failure(BLOCK_SIZE as int, self.spec_cur_block().1, BLOCK_SIZE as int)
        }
    }

    /// The last saved sequence number after a flush up to `lsn`: a flush that
    /// writes the log page saves every record appended so far.
    pub open spec fn saved_after_flush(&self, lsn: int) -> int {
        if lsn >= self.spec_last_saved_lsn() && self.flush_failure(lsn) is None {
            self.spec_latest_lsn()
        } else {
            self.spec_last_saved_lsn()
        }
    }

    /// The file table after a flush up to `lsn`: where the flush writes, the
    /// log page stands as the current block of the log file.
    pub open spec fn files_after_flush(
        &self,
        files: Map<Seq<char>, Seq<u8>>,
        lsn: int,
    ) -> Map<Seq<char>, Seq<u8>> {
        let name = self.spec_log_file_name();
        if lsn < self.spec_last_saved_lsn() {
            files
        } else if self.flush_failure(lsn) is None {
            files.insert(
                name,
                with_block(
                    file_bytes(files, name),
                    BLOCK_SIZE as int,
                    self.spec_cur_block().1,
                    self.spec_page(),
                ),
            )
        } else {
            touched(files, name)
        }
    }

    /// What a flush up to `lsn` does: `self` and `fm` are the log manager
    /// and the file layer before it, `after` and `after_fm` after it, and
    /// `res` is what it returns. A log that is in order stays so and keeps
    /// its records, and holds all of them in its file once the log page was
    /// written.
    pub open spec fn flushed_up_to(
        &self,
        fm: &FileManager,
        lsn: int,
        after: &LogManager,
        after_fm: &FileManager,
        res: Result<(), FileError>,
    ) -> bool {
        &&& after.same_but_saved(self)
        &&& res == outcome(self.flush_failure(lsn))
        &&& after.spec_last_saved_lsn() == self.saved_after_flush(lsn)
        &&& after_fm@ == self.files_after_flush(fm@, lsn)
        &&& self.intact(fm) ==> res is Ok && after.intact(after_fm) && after.records(after_fm)
            == self.records(fm)
        &&& self.intact(fm) && lsn >= self.spec_last_saved_lsn() ==> after.durable(after_fm)
            == after.records(after_fm)
    }

    /// The record that was appended under the sequence number `lsn`.
    pub open spec fn record_of(&self, fm: &FileManager, lsn: int) -> Seq<u8>
        recommends
            1 <= lsn <= self.spec_latest_lsn(),
    {
        self.records(fm)[self.spec_latest_lsn() - lsn]
    }

    /// In a log that is in order, the file holds every record but the
    /// `latest_lsn - last_saved_lsn` newest ones: each record with a
    /// sequence number up to `last_saved_lsn` is in the file.
    pub proof fn lemma_saved_records_are_durable(&self, fm: &FileManager, lsn: int)
        requires
            self.intact(fm),
            1 <= lsn <= self.spec_last_saved_lsn(),
        ensures
            self.durable(fm) == self.records(fm).skip(
                self.spec_latest_lsn() - self.spec_last_saved_lsn(),
            ),
            self.spec_last_saved_lsn() - lsn < self.durable(fm).len(),
            self.durable(fm)[self.spec_last_saved_lsn() - lsn] == self.record_of(fm, lsn),
    {
        let bs = BLOCK_SIZE as int;
        let cur = self.spec_cur_block().1;
        let unsaved = self.spec_latest_lsn() - self.spec_last_saved_lsn();
        let older = file_records(self.log_data(fm), bs, cur);
        assert(self.durable(fm) == block_records(block_at(self.log_data(fm), bs, cur)) + older);
        assert(self.durable(fm) =~= self.records(fm).skip(unsaved));
    }

    /// A log that is in order does not run out of sequence numbers: its file
    /// is full before.
    pub proof fn lemma_lsn_left(&self, fm: &FileManager)
        requires
            self.intact(fm),
        ensures
            self.spec_latest_lsn() <= self.records(fm).len() < i32::MAX,
    {
        let bs = BLOCK_SIZE as int;
        let cur = self.spec_cur_block().1;
        fm.lemma_file_sizes(self.spec_log_file_name());
        lemma_records_take_room(self.spec_page(), boundary_of(self.spec_page()));
        assert forall|k: int| 0 <= k < cur implies is_log_block(
            #[trigger] block_at(self.log_data(fm), bs, k),
            bs,
        ) by {}
        lemma_file_records_take_room(self.log_data(fm), bs, cur);
    }

    /// What an append of the record `rec` does: `self` and `fm` are the log
    /// manager and the file layer before it, `after` and `after_fm` after it,
    /// and `res` is what it returns.
    ///
    /// A record that no empty block can hold is refused, and so is one for
    /// which no sequence number is left; neither changes anything. Otherwise
    /// the record gets the next sequence number. Where it finds room in the
    /// log page it is stored there and nothing is written. Where it does not,
    /// the log page is flushed, a block is appended to the log file, and the
    /// record opens that block in the emptied log page; the append fails,
    /// after the flush, where the file cannot grow. A log that is in order
    /// stays so, and holds the record in front of the others exactly if the
    /// append succeeded.
    pub open spec fn appended(
        &self,
        fm: &FileManager,
        rec: Seq<u8>,
        after: &LogManager,
        after_fm: &FileManager,
        res: Result<i32, FileError>,
    ) -> bool {
        let fits = rec.len() + 8 <= BLOCK_SIZE;
        let room = boundary_of(self.spec_page()) - 4 - rec.len() >= 4;
        let free_lsn = self.spec_latest_lsn() < i32::MAX;
        &&& after.spec_log_file_name() == self.spec_log_file_name()
        &&& res is Ok ==> res->Ok_0 == self.spec_latest_lsn() + 1 && after.spec_latest_lsn()
            == self.spec_latest_lsn() + 1
        &&& res is Err ==> after.spec_latest_lsn() == self.spec_latest_lsn()
        &&& !fits ==> res == Err::<i32, FileError>(FileError::IoError(IoErrorKind::RecordTooLarge))
            && after.same_state(self) && after_fm@ == fm@
        &&& fits && !free_lsn ==> res == Err::<i32, FileError>(
            FileError::IoError(IoErrorKind::LsnExhausted),
        ) && after.same_state(self) && after_fm@ == fm@
        &&& fits && free_lsn && room ==> res is Ok && after.spec_page() == with_record(
            self.spec_page(),
            rec,
        ) && after.spec_cur_block() == self.spec_cur_block() && after.spec_last_saved_lsn()
            == self.spec_last_saved_lsn() && after_fm@ == fm@
        &&& self.intact(fm) ==> after.intact(after_fm)
        &&& self.intact(fm) && res is Ok ==> after.records(after_fm) == seq![rec] + self.records(
            fm,
        )
        &&& self.intact(fm) && res is Err ==> after.records(after_fm) == self.records(fm)
        &&& fits && free_lsn && !room ==> {
            let bs = BLOCK_SIZE as int;
            let name = self.spec_log_file_name();
            let latest = self.spec_latest_lsn();
            let flushed = self.files_after_flush(fm@, latest);
            let next = block_count(file_bytes(flushed, name), bs);
            match self.flush_failure(latest) {
                Some(kind) => res == Err::<i32, FileError>(FileError::IoError(kind))
                    && after.same_state(self) && after_fm@ == flushed,
                None => if (next + 1) * bs <= MAX_FILE_BYTES {
                    &&& res is Ok
                    &&& after.spec_cur_block() == (name, next)
                    &&& after.spec_page() == with_record(emptied(self.spec_page()), rec)
                    &&& after.spec_last_saved_lsn() == latest
                    &&& after_fm@ == flushed.insert(
                        name,
                        with_block(
                            extended(file_bytes(flushed, name), bs),
                            bs,
                            next,
                            emptied(self.spec_page()),
                        ),
                    )
                } else {
                    &&& res == Err::<i32, FileError>(
                        FileError::IoError(IoErrorKind::FileTooLarge),
                    )
                    &&& after.spec_page() == self.spec_page()
                    &&& after.spec_cur_block() == self.spec_cur_block()
                    &&& after.spec_last_saved_lsn() == latest
                    &&& after_fm@ == flushed
                },
            }
        }
    }

    /// Opens the log kept in the file `log_file_name`. An empty log file
    /// gets a first, empty block. Of a log file that holds blocks the last
    /// one becomes the log page; it is refused where its boundary lies
    /// outside the block. Sequence numbers start anew.
    pub fn new(fm: &mut FileManager, log_file_name: String) -> (res: Result<LogManager, FileError>)
        requires
            old(fm).wf(),
        ensures
            final(fm).wf(),
            final(fm).same_setup(old(fm)),
            res is Ok ==> res->Ok_0.wf() && res->Ok_0.spec_latest_lsn() == 0
                && res->Ok_0.spec_last_saved_lsn() == 0 && res->Ok_0.spec_log_file_name()
                == log_file_name@,
            ({
                let bs = BLOCK_SIZE as int;
                let data = file_bytes(old(fm)@, log_file_name@);
                let n = block_count(data, bs);
                if n == 0 {
                    &&& res is Ok
                    &&& res->Ok_0.spec_cur_block() == (log_file_name@, 0int)
                    &&& res->Ok_0.spec_page() == emptied(zeros(bs))
                    &&& final(fm)@ == old(fm)@.insert(log_file_name@, res->Ok_0.spec_page())
                    &&& res->Ok_0.intact(final(fm))
                    &&& res->Ok_0.records(final(fm)) == Seq::<Seq<u8>>::empty()
                } else {
                    let last = block_at(data, bs, n - 1);
                    &&& final(fm)@ == old(fm)@
                    &&& if 4 <= boundary_of(last) <= bs {
                        &&& res is Ok
                        &&& res->Ok_0.spec_cur_block() == (log_file_name@, n - 1)
                        &&& res->Ok_0.spec_page() == last
                        &&& data.len() == n * bs && log_blocks(data, bs, n)
                            ==> res->Ok_0.intact(final(fm)) && res->Ok_0.records(final(fm))
                            == file_records(data, bs, n)
                    } else {
                        res == Err::<LogManager, FileError>(
                            FileError::IoError(IoErrorKind::BadBoundary),
                        )
                    }
                }
            }),
    {
        let bs: i32 = fm.block_size();
        let ghost data = file_bytes(fm@, log_file_name@);
        let mut log_page = Page::new(bs);
        let log_size: i32 = match fm.length(log_file_name.as_str()) {
            Ok(n) => n,
            Err(e) => {
                return Err(e);
            },
        };
        proof {
            fm.lemma_file_sizes(log_file_name@);
        }
        let ghost fm1 = *fm;
        if log_size == 0 {
            let block = match fm.append(log_file_name.as_str()) {
                Ok(block) => block,
                Err(e) => {
                    return Err(e);
                },
            };
            let ghost fm2 = *fm;
            match log_page.set_i32(0, bs) {
                Ok(()) => {},
                Err(e) => {
                    return Err(e);
                },
            }
            match fm.write(&block, &log_page) {
                Ok(()) => {},
                Err(e) => {
                    return Err(e);
                },
            }
            let lm = LogManager {
                log_file_name,
                log_page,
                cur_block: block,
                latest_lsn: 0,
                last_saved_lsn: 0,
            };
            proof {
                let bsi = BLOCK_SIZE as int;
                let page = lm.spec_page();
                lemma_emptied(zeros(bsi));
                let grown = extended(file_bytes(fm1@, lm.log_file_name@), bsi);
                assert(grown.len() == bsi);
                let written = with_block(file_bytes(fm2@, lm.log_file_name@), bsi, 0, page);
                assert(written =~= page);
                assert(fm@ =~= old(fm)@.insert(lm.log_file_name@, page));
                assert(block_at(page, bsi, 0) =~= page);
                assert(lm.log_data(fm) == page);
                assert(block_records(page).skip(0) =~= block_records(page));
                assert(file_records(page, bsi, 0) =~= Seq::<Seq<u8>>::empty());
                assert(lm.records(fm) =~= Seq::<Seq<u8>>::empty());
            }
            Ok(lm)
        } else {
            let cur = BlockId::new(log_file_name.as_str(), log_size - 1);
            match fm.read(&cur, &mut log_page) {
                Ok(()) => {},
                Err(e) => {
                    return Err(e);
                },
            }
            let boundary: i32 = match log_page.get_i32(0) {
                Ok(b) => b,
                Err(e) => {
                    return Err(e);
                },
            };
            if boundary < I32_SIZE as i32 || boundary > bs {
                return Err(FileError::IoError(IoErrorKind::BadBoundary));
            }
            let lm = LogManager {
                log_file_name,
                log_page,
                cur_block: cur,
                latest_lsn: 0,
                last_saved_lsn: 0,
            };
            proof {
                let bsi = BLOCK_SIZE as int;
                let page = lm.spec_page();
                assert(fm@ =~= old(fm)@);
                if data.len() == log_size * bsi && log_blocks(data, bsi, log_size as int) {
                    assert(is_log_block(block_at(data, bsi, log_size - 1), bsi));
                    assert(block_records(page).skip(0) =~= block_records(page));
                }
            }
            Ok(lm)
        }
    }

    /// Writes the log page to the current block of the log file.
    fn flush(&mut self, fm: &mut FileManager) -> (res: Result<(), FileError>)
        requires
            old(self).wf(),
            old(fm).wf(),
        ensures
            final(self).wf(),
            final(fm).wf(),
            final(fm).same_setup(old(fm)),
            final(self).same_but_saved(old(self)),
            res == outcome(old(self).flush_failure(old(self).spec_latest_lsn())),
            final(self).spec_last_saved_lsn() == old(self).saved_after_flush(
                old(self).spec_latest_lsn(),
            ),
            final(fm)@ == old(self).files_after_flush(old(fm)@, old(self).spec_latest_lsn()),
            old(self).intact(old(fm)) ==> res is Ok && final(self).intact(final(fm))
                && final(self).records(final(fm)) == old(self).records(old(fm))
                && final(self).durable(final(fm)) == final(self).records(final(fm)),
    {
        proof {
            fm.lemma_file_sizes(self.spec_log_file_name());
        }
        match fm.write(&self.cur_block, &self.log_page) {
            Ok(()) => {},
            Err(e) => {
                return Err(e);
            },
        }
        self.last_saved_lsn = self.latest_lsn;
        proof {
            if old(self).intact(old(fm)) {
                let bs = BLOCK_SIZE as int;
                let cur = self.spec_cur_block().1;
                let page = self.spec_page();
                let before = old(self).log_data(old(fm));
                let after = self.log_data(fm);
                assert(after =~= write_at(before, cur * bs, page));
                assert(block_at(after, bs, cur) =~= page);
                assert forall|k: int| 0 <= k < cur implies #[trigger] block_at(after, bs, k)
                    == block_at(before, bs, k) by {
                    assert(block_at(after, bs, k) =~= block_at(before, bs, k));
                }
                lemma_file_records_depend_on_blocks(before, after, bs, cur);
                assert forall|k: int| 0 <= k < cur + 1 implies is_log_block(
                    #[trigger] block_at(after, bs, k),
                    bs,
                ) by {
                    if k < cur {
                        assert(is_log_block(block_at(before, bs, k), bs));
                    }
                }
                assert(block_records(page).skip(0) =~= block_records(page));
            }
        }
        Ok(())
    }

    /// Makes the log durable up to the record `lsn`: where `lsn` is not
    /// below the last saved sequence number, the log page is written to the
    /// current block and every record appended so far is then in the file.
    pub fn flush_with_lsn(&mut self, fm: &mut FileManager, lsn: i32) -> (res: Result<
        (),
        FileError,
    >)
        requires
            old(self).wf(),
            old(fm).wf(),
        ensures
            final(self).wf(),
            final(fm).wf(),
            final(fm).same_setup(old(fm)),
            old(self).flushed_up_to(old(fm), lsn as int, final(self), final(fm), res),
    {
        if lsn >= self.last_saved_lsn {
            self.flush(fm)
        } else {
            Ok(())
        }
    }

    /// Starts a new block at the end of the log file and makes it the
    /// current block: the log page is emptied and written as that block. The
    /// records that the log page held are kept only where it was flushed
    /// before.
    pub fn append_new_block(&mut self, fm: &mut FileManager) -> (res: Result<BlockId, FileError>)
        requires
            old(self).wf(),
            old(fm).wf(),
        ensures
            final(self).wf(),
            final(fm).wf(),
            final(fm).same_setup(old(fm)),
            final(self).spec_log_file_name() == old(self).spec_log_file_name(),
            final(self).spec_latest_lsn() == old(self).spec_latest_lsn(),
            final(self).spec_last_saved_lsn() == old(self).spec_last_saved_lsn(),
            ({
                let bs = BLOCK_SIZE as int;
                let name = old(self).spec_log_file_name();
                let data = old(self).log_data(old(fm));
                let k = block_count(data, bs);
                if (k + 1) * bs <= MAX_FILE_BYTES {
                    &&& res is Ok
                    &&& res->Ok_0@ == (name, k)
                    &&& final(self).spec_cur_block() == (name, k)
                    &&& final(self).spec_page() == emptied(old(self).spec_page())
                    &&& final(fm)@ == old(fm)@.insert(
                        name,
                        with_block(extended(data, bs), bs, k, final(self).spec_page()),
                    )
                } else {
                    &&& res == Err::<BlockId, FileError>(
                        FileError::IoError(IoErrorKind::FileTooLarge),
                    )
                    &&& final(self).same_state(old(self))
                    &&& final(fm)@ == touched(old(fm)@, name)
                }
            }),
            old(self).intact(old(fm)) && old(self).spec_last_saved_lsn()
                == old(self).spec_latest_lsn() ==> final(self).intact(final(fm))
                && final(self).records(final(fm)) == old(self).records(old(fm)),
    {
        let ghost bs = BLOCK_SIZE as int;
        let ghost data = self.log_data(fm);
        let ghost k = block_count(data, bs);
        proof {
            fm.lemma_file_sizes(self.spec_log_file_name());
        }
        let block = match fm.append(self.log_file_name.as_str()) {
            Ok(block) => block,
            Err(e) => {
                proof {
                    if old(self).intact(old(fm)) {
                        assert(fm@ =~= old(fm)@);
                    }
                }
                return Err(e);
            },
        };
        let ghost fm1 = *fm;
        let size: i32 = fm.block_size();
        match self.log_page.set_i32(0, size) {
            Ok(()) => {},
            Err(e) => {
                return Err(e);
            },
        }
        proof {
            lemma_emptied(old(self).spec_page());
        }
        match fm.write(&block, &self.log_page) {
            Ok(()) => {},
            Err(e) => {
                return Err(e);
            },
        }
        self.cur_block = block.clone();
        proof {
            let name = self.spec_log_file_name();
            let page = self.spec_page();
            let grown = extended(data, bs);
            assert(file_bytes(fm1@, name) == grown);
            assert(fm@ =~= old(fm)@.insert(name, with_block(grown, bs, k, page)));
            if old(self).intact(old(fm)) {
                let cur = old(self).spec_cur_block().1;
                let after = self.log_data(fm);
                assert(k == cur + 1);
                assert(grown.len() == (k + 1) * bs);
                assert(after =~= write_at(grown, k * bs, page));
                assert(block_at(after, bs, k) =~= page);
                assert forall|j: int| 0 <= j < k implies #[trigger] block_at(after, bs, j)
                    == block_at(data, bs, j) by {
                    assert(block_at(after, bs, j) =~= block_at(data, bs, j));
                }
                lemma_file_records_depend_on_blocks(data, after, bs, k);
                assert forall|j: int| 0 <= j < k + 1 implies is_log_block(
                    #[trigger] block_at(after, bs, j),
                    bs,
                ) by {
                    if j < k {
                        assert(is_log_block(block_at(data, bs, j), bs));
                    }
                }
                assert(block_records(page).skip(0) =~= block_records(page));
                let unsaved = old(self).spec_latest_lsn() - old(self).spec_last_saved_lsn();
                let kept = block_records(block_at(data, bs, cur));
                assert(file_records(after, bs, k) == kept + file_records(data, bs, cur));
                assert(self.records(fm) =~= kept + file_records(data, bs, cur));
                assert(old(self).records(old(fm)).len() == unsaved + kept.len() + file_records(
                    data,
                    bs,
                    cur,
                ).len());
                if unsaved == 0 {
                    assert(kept =~= block_records(old(self).spec_page()));
                }
            }
        }
        Ok(block)
    }

    /// Appends `log_record` to the log and returns its sequence number, one
    /// above the number assigned last. The record goes in front of the
    /// boundary of the log page; where that would reach into the boundary
    /// field, the log page is flushed and a new block started first. Nothing
    /// is written to the file for a record that finds room in the log page.
    pub fn append(&mut self, fm: &mut FileManager, log_record: Vec<u8>) -> (res: Result<
        i32,
        FileError,
    >)
        requires
            old(self).wf(),
            old(fm).wf(),
        ensures
            final(self).wf(),
            final(fm).wf(),
            final(fm).same_setup(old(fm)),
            old(self).appended(old(fm), log_record@, final(self), final(fm), res),
    {
        let bs: i32 = fm.block_size();
        let n: usize = log_record.len();
        if n > bs as usize - 2 * I32_SIZE {
            return Err(FileError::IoError(IoErrorKind::RecordTooLarge));
        }
        if self.latest_lsn == i32::MAX {
            return Err(FileError::IoError(IoErrorKind::LsnExhausted));
        }
        let boundary: i32 = match self.log_page.get_i32(0) {
            Ok(b) => b,
            Err(e) => {
                return Err(e);
            },
        };
        let bytes_needed: i32 = n as i32 + I32_SIZE as i32;
        let boundary: i32 = if boundary - bytes_needed < I32_SIZE as i32 {
            match self.flush(fm) {
                Ok(()) => {},
                Err(e) => {
                    return Err(e);
                },
            }
            match self.append_new_block(fm) {
                Ok(_) => {},
                Err(e) => {
                    return Err(e);
                },
            }
            proof {
                lemma_emptied(old(self).spec_page());
            }
            bs
        } else {
            boundary
        };
        let ghost mid = *self;
        let ghost mid_fm = *fm;
        let recpos: i32 = boundary - bytes_needed;
        proof {
            lemma_i32_round_trip(n as int);
            lemma_i32_round_trip(recpos as int);
        }
        match self.log_page.set_bytes(recpos as u64, log_record.as_slice()) {
            Ok(()) => {},
            Err(e) => {
                return Err(e);
            },
        }
        match self.log_page.set_i32(0, recpos) {
            Ok(()) => {},
            Err(e) => {
                return Err(e);
            },
        }
        self.latest_lsn = self.latest_lsn + 1;
        proof {
            let page = mid.spec_page();
            assert(self.spec_page() == with_record(page, log_record@));
            lemma_set_get_i32(
                write_at(page, recpos as int, blob(log_record@)),
                0,
                recpos as int,
            );
            if old(self).intact(old(fm)) {
                assert(mid.intact(&mid_fm));
                assert(mid.records(&mid_fm) == old(self).records(old(fm)));
                lemma_with_record(page, log_record@);
                let unsaved = mid.spec_latest_lsn() - mid.spec_last_saved_lsn();
                assert(block_records(self.spec_page()).skip(unsaved + 1) =~= block_records(
                    page,
                ).skip(unsaved));
                assert(self.records(fm) =~= seq![log_record@] + mid.records(&mid_fm));
            }
        }
        Ok(self.latest_lsn)
    }

    /// Flushes the log and returns an iterator over its records, newest
    /// first. The iterator starts in the current block, at the record that
    /// was appended last.
    pub fn iterator(&mut self, fm: &mut FileManager) -> (res: Result<LogIterator, FileError>)
        requires
            old(self).wf(),
            old(fm).wf(),
        ensures
            final(self).wf(),
            final(fm).wf(),
            final(fm).same_setup(old(fm)),
            final(self).same_but_saved(old(self)),
            final(self).spec_last_saved_lsn() == old(self).saved_after_flush(
                old(self).spec_latest_lsn(),
            ),
            final(fm)@ == old(self).files_after_flush(old(fm)@, old(self).spec_latest_lsn()),
            match old(self).flush_failure(old(self).spec_latest_lsn()) {
                Some(kind) => res == Err::<LogIterator, FileError>(FileError::IoError(kind)),
                None => res is Ok && res->Ok_0.wf()
                    && res->Ok_0.spec_block() == old(self).spec_cur_block()
                    && res->Ok_0.spec_page() == old(self).spec_page()
                    && res->Ok_0.spec_pos() == boundary_of(old(self).spec_page()),
            },
            old(self).intact(old(fm)) ==> res is Ok && final(self).intact(final(fm))
                && final(self).records(final(fm)) == old(self).records(old(fm))
                && res->Ok_0.intact(final(fm))
                && res->Ok_0.remaining(final(fm)) == old(self).records(old(fm)),
    {
        match self.flush(fm) {
            Ok(()) => {},
            Err(e) => {
                return Err(e);
            },
        }
        let res = LogIterator::new(fm, self.cur_block.clone());
        proof {
            let bs = BLOCK_SIZE as int;
            let cur = self.spec_cur_block().1;
            lemma_write_then_read(
                old(self).log_data(old(fm)),
                bs,
                cur,
                self.spec_page(),
                cur,
            );
            assert(fm@ =~= old(self).files_after_flush(old(fm)@, old(self).spec_latest_lsn()));
            if old(self).intact(old(fm)) {
                let bs = BLOCK_SIZE as int;
                let cur = self.spec_cur_block().1;
                let data = self.log_data(fm);
                assert(is_log_block(block_at(data, bs, cur), bs));
                assert(block_records(self.spec_page()).skip(0) =~= block_records(self.spec_page()));
            }
        }
        res
    }

    /// The name of the log file.
    pub fn log_file_name(&self) -> (name: &str)
        ensures
            name@ == self.spec_log_file_name(),
    {
        self.log_file_name.as_str()
    }

    /// The block of the log file that the log page stands for.
    pub fn cur_block(&self) -> (block: &BlockId)
        ensures
            block@ == self.spec_cur_block(),
    {
        &self.cur_block
    }

    /// The sequence number assigned last; 0 before the first append.
    pub fn latest_lsn(&self) -> (lsn: i32)
        ensures
            lsn == self.spec_latest_lsn(),
    {
        self.latest_lsn
    }

    /// The sequence number up to which the log was written to its file.
    pub fn last_saved_lsn(&self) -> (lsn: i32)
        ensures
            lsn == self.spec_last_saved_lsn(),
    {
        self.last_saved_lsn
    }
}

/// Where a cursor comes to rest when it looks for its next record.
pub struct Rest {
    /// The bytes of the block in which it rests.
    pub page: Seq<u8>,
    /// The offset in that block at which it rests.
    pub pos: int,
    /// The number of the block that the cursor counts as its own.
    pub number: int,
    /// Why the search failed, if it did.
    pub failure: Option<IoErrorKind>,
    /// Whether the search read the file.
    pub read: bool,
}

/// Where a cursor comes to rest that looks for its next record from the
/// offset `pos` of the block `number` of a log file, whose bytes are `data`
/// and whose block `number` is `page`. The cursor stays where a record
/// begins. At the end of its block it moves to the boundary of the block
/// before, and on from there; it rests at the end of the first block of the
/// file, and where the block before is not in the file or has its boundary
/// outside the block.
pub open spec fn rest_of(data: Seq<u8>, page: Seq<u8>, pos: int, number: int) -> Rest
    decreases number,
{
    let bs = BLOCK_SIZE as int;
    if pos < bs || number <= 0 {
        Rest { page, pos, number, failure: None, read: false }
    } else if !has_block(data, bs, number - 1) {
        Rest { page, pos, number, failure: Some(IoErrorKind::ShortRead), read: true }
    } else {
        let before = block_at(data, bs, number - 1);
        if 4 <= boundary_of(before) <= bs {
            Rest { read: true, ..rest_of(data, before, boundary_of(before), number - 1) }
        } else {
            Rest {
                page: before,
                pos: bs,
                number,
                failure: Some(IoErrorKind::BadBoundary),
                read: true,
            }
        }
    }
}

/// A cursor that moves to a block before its own comes to rest in a block of
/// a smaller number, or fails.
pub proof fn lemma_rest_of_moves_back(data: Seq<u8>, page: Seq<u8>, pos: int, number: int)
    ensures
        number > 0 ==> 0 <= rest_of(data, page, pos, number).number <= number,
        pos >= BLOCK_SIZE && number > 0 && rest_of(data, page, pos, number).failure is None
            ==> rest_of(data, page, pos, number).number < number,
    decreases number,
{
    let bs = BLOCK_SIZE as int;
    if pos >= bs && number > 0 && has_block(data, bs, number - 1) {
        let before = block_at(data, bs, number - 1);
        if 4 <= boundary_of(before) <= bs {
            lemma_rest_of_moves_back(data, before, boundary_of(before), number - 1);
        }
    }
}

/// A cursor over the records of a log file, from the newest to the oldest.
#[derive(Debug)]
pub struct LogIterator {
    block_id: BlockId,
    page: Page,
    cur_pos: i32,
    boundary: i32,
}

impl LogIterator {
    /// The block that the cursor stands in.
    pub closed spec fn spec_block(&self) -> (Seq<char>, int) {
        self.block_id@
    }

    /// The bytes of the block that the cursor stands in.
    pub closed spec fn spec_page(&self) -> Seq<u8> {
        self.page@
    }

    /// The offset in the block at which the next record begins.
    pub closed spec fn spec_pos(&self) -> int {
        self.cur_pos as int
    }

    /// The cursor's own invariant: its page is one block long, its position
    /// lies in the block behind the boundary field or at the block's end, and
    /// its block number is not negative.
    pub open spec fn wf(&self) -> bool {
        &&& self.spec_page().len() == BLOCK_SIZE
        &&& 4 <= self.spec_pos() <= BLOCK_SIZE
        &&& 0 <= self.spec_block().1
    }

    /// The records still to come, newest first: those of the cursor's block
    /// from its position on, then those of the blocks before it.
    pub open spec fn remaining(&self, fm: &FileManager) -> Seq<Seq<u8>> {
        records_from(self.spec_page(), self.spec_pos()) + file_records(
            file_bytes(fm@, self.spec_block().0),
            BLOCK_SIZE as int,
            self.spec_block().1,
        )
    }

    /// Whether what the cursor has still to read is in order: the rest of
    /// its block is packed records, and the blocks before it are in the file
    /// and are well-formed log blocks.
    pub open spec fn intact(&self, fm: &FileManager) -> bool {
        let data = file_bytes(fm@, self.spec_block().0);
        &&& self.wf()
        &&& fm.wf()
        &&& packed_from(self.spec_page(), self.spec_pos())
        &&& self.spec_block().1 * BLOCK_SIZE <= data.len()
        &&& log_blocks(data, BLOCK_SIZE as int, self.spec_block().1)
    }

    /// A cursor that stands at the newest record of `block`.
    pub fn new(fm: &mut FileManager, block: BlockId) -> (res: Result<LogIterator, FileError>)
        requires
            old(fm).wf(),
        ensures
            final(fm).wf(),
            final(fm).same_setup(old(fm)),
            final(fm)@ == touched(old(fm)@, block@.0),
            ({
                let bs = BLOCK_SIZE as int;
                let data = file_bytes(old(fm)@, block@.0);
                if !has_block(data, bs, block@.1) {
                    res == Err::<LogIterator, FileError>(
                        FileError::IoError(
                            if block@.1 < 0 {
                                IoErrorKind::BadBlock
                            } else {
                                IoErrorKind::ShortRead
                            },
                        ),
                    )
                } else if !(4 <= boundary_of(block_at(data, bs, block@.1)) <= bs) {
                    res == Err::<LogIterator, FileError>(
                        FileError::IoError(IoErrorKind::BadBoundary),
                    )
                } else {
                    &&& res is Ok
                    &&& res->Ok_0.wf()
                    &&& res->Ok_0.spec_block() == block@
                    &&& res->Ok_0.spec_page() == block_at(data, bs, block@.1)
                    &&& res->Ok_0.spec_pos() == boundary_of(res->Ok_0.spec_page())
                }
            }),
    {
        let bs: i32 = fm.block_size();
        let mut p = Page::new(bs);
        match fm.read(&block, &mut p) {
            Ok(()) => {},
            Err(e) => {
                return Err(e);
            },
        }
        let boundary: i32 = match p.get_i32(0) {
            Ok(b) => b,
            Err(e) => {
                return Err(e);
            },
        };
        if boundary < I32_SIZE as i32 || boundary > bs {
            return Err(FileError::IoError(IoErrorKind::BadBoundary));
        }
        Ok(LogIterator { block_id: block, page: p, cur_pos: boundary, boundary })
    }

    /// Whether the cursor has not reached the start of the log: a record is
    /// left in its block, or a block lies before it.
    pub fn has_next(&self, fm: &FileManager) -> (more: bool)
        ensures
            more == (self.spec_pos() < fm.spec_block_size() || self.spec_block().1 > 0),
            self.intact(fm) && !more ==> self.remaining(fm).len() == 0,
    {
        proof {
            if self.intact(fm) && self.spec_pos() >= BLOCK_SIZE && self.spec_block().1 <= 0 {
                assert(self.remaining(fm) =~= Seq::<Seq<u8>>::empty());
            }
        }
        self.cur_pos < fm.block_size() || self.block_id.number() > 0
    }

    /// The next record, from the newest to the oldest, or `None` at the start
    /// of the log. At the end of a block the cursor moves to the block before.
    /// The record is the length and the bytes stored where the cursor comes
    /// to rest, and the cursor then stands behind them.
    pub fn next(&mut self, fm: &mut FileManager) -> (res: Result<Option<Vec<u8>>, FileError>)
        requires
            old(self).wf(),
            old(fm).wf(),
        ensures
            final(self).wf(),
            final(fm).wf(),
            final(fm).same_setup(old(fm)),
            ({
                let name = old(self).spec_block().0;
                let rest = rest_of(
                    file_bytes(old(fm)@, name),
                    old(self).spec_page(),
                    old(self).spec_pos(),
                    old(self).spec_block().1,
                );
                &&& final(fm)@ == if rest.read {
                    touched(old(fm)@, name)
                } else {
                    old(fm)@
                }
                &&& final(self).spec_block() == (name, rest.number)
                &&& final(self).spec_page() == rest.page
                &&& match rest.failure {
                    Some(kind) => res == Err::<Option<Vec<u8>>, FileError>(
                        FileError::IoError(kind),
                    ) && final(self).spec_pos() == rest.pos,
                    None => if rest.pos >= BLOCK_SIZE {
                        res == Ok::<Option<Vec<u8>>, FileError>(None) && final(self).spec_pos()
                            == rest.pos
                    } else if has_blob_at(rest.page, rest.pos) {
                        res is Ok && res->Ok_0 is Some && res->Ok_0->0@ == blob_at(
                            rest.page,
                            rest.pos,
                        ) && final(self).spec_pos() == rest.pos + 4 + i32_at(rest.page, rest.pos)
                    } else {
                        res == Err::<Option<Vec<u8>>, FileError>(
                            FileError::IoError(
                                if in_page(rest.page, rest.pos, 4) && i32_at(rest.page, rest.pos)
                                    < 0 {
                                    IoErrorKind::BadLength
                                } else {
                                    IoErrorKind::OutOfBounds
                                },
                            ),
                        ) && final(self).spec_pos() == rest.pos
                    },
                }
            }),
            final(self).spec_block().0 == old(self).spec_block().0,
            final(self).spec_block().1 <= old(self).spec_block().1,
            res == Ok::<Option<Vec<u8>>, FileError>(None) ==> final(self).spec_block().1 <= 0
                && final(self).spec_pos() >= BLOCK_SIZE,
            res is Ok && res->Ok_0 is Some ==> final(self).spec_block().1
                < old(self).spec_block().1 || final(self).spec_pos() > old(self).spec_pos(),
            old(self).intact(old(fm)) ==> res is Ok && final(self).intact(final(fm)) && final(fm)@
                == old(fm)@ && match res->Ok_0 {
                None => old(self).remaining(old(fm)).len() == 0 && final(self).remaining(
                    final(fm),
                ).len() == 0,
                Some(rec) => old(self).remaining(old(fm)).len() > 0
                    && rec@ == old(self).remaining(old(fm))[0]
                    && final(self).remaining(final(fm)) == old(self).remaining(old(fm)).skip(1),
            },
    {
        let bs: i32 = fm.block_size();
        let ghost name = self.spec_block().0;
        let ghost log = file_bytes(fm@, name);
        let ghost goal = rest_of(log, self.spec_page(), self.spec_pos(), self.spec_block().1);
        let ghost did_read = false;
        while self.cur_pos >= bs
            invariant
                bs == BLOCK_SIZE,
                self.wf(),
                fm.wf(),
                fm.same_setup(old(fm)),
                name == old(self).spec_block().0,
                log == file_bytes(old(fm)@, name),
                log == file_bytes(fm@, name),
                fm@ == if did_read {
                    touched(old(fm)@, name)
                } else {
                    old(fm)@
                },
                goal == rest_of(
                    log,
                    old(self).spec_page(),
                    old(self).spec_pos(),
                    old(self).spec_block().1,
                ),
                goal == (Rest {
                    read: did_read || rest_of(
                        log,
                        self.spec_page(),
                        self.spec_pos(),
                        self.spec_block().1,
                    ).read,
                    ..rest_of(log, self.spec_page(), self.spec_pos(), self.spec_block().1)
                }),
                self.spec_block().0 == old(self).spec_block().0,
                self.spec_block().1 <= old(self).spec_block().1,
                self.spec_block().1 < old(self).spec_block().1
                    || self.spec_pos() >= old(self).spec_pos(),
                old(self).intact(old(fm)) ==> self.intact(fm) && fm@ == old(fm)@
                    && self.remaining(fm) == old(self).remaining(old(fm)),
            decreases self.spec_block().1,
        {
            let number: i32 = self.block_id.number();
            if number <= 0 {
                proof {
                    if old(self).intact(old(fm)) {
                        assert(self.remaining(fm) =~= Seq::<Seq<u8>>::empty());
                    }
                }
                return Ok(None);
            }
            let block = BlockId::new(self.block_id.filename(), number - 1);
            let ghost before = *self;
            let ghost data = file_bytes(fm@, self.spec_block().0);
            let ghost files = fm@;
            let read = fm.read(&block, &mut self.page);
            proof {
                did_read = true;
                assert(touched(touched(old(fm)@, name), name) =~= touched(old(fm)@, name));
            }
            match read {
                Ok(()) => {},
                Err(e) => {
                    return Err(e);
                },
            }
            let boundary: i32 = match self.page.get_i32(0) {
                Ok(b) => b,
                Err(e) => {
                    return Err(e);
                },
            };
            if boundary < I32_SIZE as i32 || boundary > bs {
                proof {
                    if old(self).intact(old(fm)) {
                        assert(is_log_block(block_at(data, bs as int, number - 1), bs as int));
                    }
                }
                self.cur_pos = bs;
                return Err(FileError::IoError(IoErrorKind::BadBoundary));
            }
            self.block_id = block;
            self.boundary = boundary;
            self.cur_pos = boundary;
            proof {
                if old(self).intact(old(fm)) {
                    assert(is_log_block(block_at(data, bs as int, number - 1), bs as int));
                    assert(fm@ =~= old(fm)@);
                    assert(records_from(before.spec_page(), before.spec_pos()) =~= Seq::<
                        Seq<u8>,
                    >::empty());
                    assert(before.remaining(fm) =~= self.remaining(fm));
                    assert forall|k: int| 0 <= k < number - 1 implies is_log_block(
                        #[trigger] block_at(data, bs as int, k),
                        bs as int,
                    ) by {}
                }
            }
        }
        let ghost before = *self;
        let rec: Vec<u8> = match self.page.get_bytes(self.cur_pos as u64) {
            Ok(rec) => rec,
            Err(e) => {
                return Err(e);
            },
        };
        self.cur_pos = self.cur_pos + (I32_SIZE + rec.len()) as i32;
        proof {
            if old(self).intact(old(fm)) {
                assert(before.remaining(fm).skip(1) =~= self.remaining(fm));
            }
        }
        Ok(Some(rec))
    }
}

} // verus!
