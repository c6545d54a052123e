//! The buffer pool: frames that hold pages of blocks, pinned and unpinned by
//! their users, replaced when no one pins them, and written back only after
//! the log that describes their changes.

use crate::bytes::zeros;
use crate::file::{
    block_at, file_bytes, has_block, lemma_write_then_read, outcome, read_failure, touched,
    with_block, write_failure, BlockId, FileError, FileManager, IoErrorKind, Page, BLOCK_SIZE,
};
use crate::log::LogManager;
use vstd::prelude::*;

verus! {

/// How long a caller waits for a frame, in milliseconds.
pub const MAX_TIME: u128 = 10000;

/// What a frame holds.
pub struct BufferView {
    /// The bytes of the frame's page.
    pub contents: Seq<u8>,
    /// The block that the frame is assigned to: its file and its number.
    pub block: Option<(Seq<char>, int)>,
    /// How many users pin the frame.
    pub pins: nat,
    /// The transaction that changed the page; negative where the page is clean.
    pub txnum: int,
    /// The sequence number of the log record of the latest change.
    pub lsn: int,
}

/// Why flushing a frame fails, if it does. A clean frame is not written; of
/// a dirty one the log is flushed up to the frame's sequence number and then
/// the page written to the frame's block.
pub open spec fn flush_failure(b: BufferView, lm: &LogManager) -> Option<IoErrorKind> {
    if b.txnum < 0 {
        None
    } else if lm.flush_failure(b.lsn) is Some {
        lm.flush_failure(b.lsn)
    } else {
        match b.block {
            None => None,
            Some(blk) => write_failure(BLOCK_SIZE as int, blk.1, b.contents.len() as int),
        }
    }
}

/// The file table after flushing a frame: the page is written on top of
/// what the flush of the log left, and only where that flush succeeded.
pub open spec fn files_after_flush(
    b: BufferView,
    lm: &LogManager,
    files: Map<Seq<char>, Seq<u8>>,
) -> Map<Seq<char>, Seq<u8>> {
    if b.txnum < 0 {
        files
    } else {
        let logged = lm.files_after_flush(files, b.lsn);
        if lm.flush_failure(b.lsn) is Some {
            logged
        } else {
            match b.block {
                None => logged,
                Some(blk) => if write_failure(BLOCK_SIZE as int, blk.1, b.contents.len() as int)
                    is None {
                    logged.insert(
                        blk.0,
                        with_block(file_bytes(logged, blk.0), BLOCK_SIZE as int, blk.1, b.contents),
                    )
                } else {
                    touched(logged, blk.0)
                },
            }
        }
    }
}

/// The last saved sequence number of the log after flushing a frame.
pub open spec fn saved_after_flush(b: BufferView, lm: &LogManager) -> int {
    if b.txnum < 0 {
        lm.spec_last_saved_lsn()
    } else {
        lm.saved_after_flush(b.lsn)
    }
}

/// The frame after flushing it: clean where a dirty frame was flushed.
pub open spec fn flushed(b: BufferView, lm: &LogManager) -> BufferView {
    if b.txnum >= 0 && flush_failure(b, lm) is None {
        BufferView { txnum: -1, ..b }
    } else {
        b
    }
}

/// Why assigning a frame to the block `blk` fails, if it does: the frame is
/// flushed, then the block read.
pub open spec fn assign_failure(
    b: BufferView,
    lm: &LogManager,
    files: Map<Seq<char>, Seq<u8>>,
    blk: (Seq<char>, int),
) -> Option<IoErrorKind> {
    if flush_failure(b, lm) is Some {
        flush_failure(b, lm)
    } else {
        read_failure(
            file_bytes(files_after_flush(b, lm, files), blk.0),
            BLOCK_SIZE as int,
            blk.1,
            b.contents.len() as int,
        )
    }
}

/// The file table after assigning a frame to the block `blk`.
pub open spec fn files_after_assign(
    b: BufferView,
    lm: &LogManager,
    files: Map<Seq<char>, Seq<u8>>,
    blk: (Seq<char>, int),
) -> Map<Seq<char>, Seq<u8>> {
    if flush_failure(b, lm) is Some {
        files_after_flush(b, lm, files)
    } else {
        touched(files_after_flush(b, lm, files), blk.0)
    }
}

/// The frame after assigning it to the block `blk`: it holds the block,
/// clean and unpinned. A frame that could not be assigned keeps its block.
pub open spec fn assigned(
    b: BufferView,
    lm: &LogManager,
    files: Map<Seq<char>, Seq<u8>>,
    blk: (Seq<char>, int),
) -> BufferView {
    if assign_failure(b, lm, files, blk) is Some {
        flushed(b, lm)
    } else {
        BufferView {
            contents: block_at(
                file_bytes(files_after_flush(b, lm, files), blk.0),
                BLOCK_SIZE as int,
                blk.1,
            ),
            block: Some(blk),
            pins: 0,
            ..flushed(b, lm)
        }
    }
}

/// Whether flushing the frame writes its page into the log file itself.
pub open spec fn writes_log_file(b: BufferView, lm: &LogManager) -> bool {
    b.txnum >= 0 && match b.block {
        None => false,
        Some(blk) => blk.0 == lm.spec_log_file_name(),
    }
}

/// The sequence number `lsn` as the log takes it: cut to 32 bits.
fn log_lsn(lsn: i64) -> (cut: i32)
    ensures
        lsn > i32::MAX ==> cut == i32::MAX,
        lsn < i32::MIN ==> cut == i32::MIN,
        i32::MIN <= lsn <= i32::MAX ==> cut == lsn,
{
    if lsn > i32::MAX as i64 {
        i32::MAX
    } else if lsn < i32::MIN as i64 {
        i32::MIN
    } else {
        lsn as i32
    }
}

/// A frame of the buffer pool: a page, the block it is assigned to, its pin
/// count, and the mark of the transaction that changed it.
#[derive(Debug)]
pub struct Buffer {
    contents: Page,
    block: Option<BlockId>,
    pins: u64,
    /// transaction number
    txnum: i64,
    lsn: i64,
}

impl View for Buffer {
    type V = BufferView;

    closed spec fn view(&self) -> BufferView {
        BufferView {
            contents: self.contents@,
            block: match self.block {
                None => None,
                Some(blk) => Some(blk@),
            },
            pins: self.pins as nat,
            txnum: self.txnum as int,
            lsn: self.lsn as int,
        }
    }
}

impl Buffer {
    /// An empty frame for the blocks of `fm`: a page of zero bytes, no
    /// block, no pin, clean.
    pub fn new(fm: &FileManager) -> (buf: Self)
        requires
            fm.wf(),
        ensures
            buf@ == (BufferView {
                contents: zeros(BLOCK_SIZE as int),
                block: None,
                pins: 0,
                txnum: -1,
                lsn: -1,
            }),
    {
        let block_size: i32 = fm.block_size();
        Buffer { contents: Page::new(block_size), block: None, pins: 0, txnum: -1, lsn: -1 }
    }

    /// The page of the frame, to read and to change.
    pub fn contents(&mut self) -> (page: &mut Page)
        ensures
            page@ == old(self)@.contents,
            final(self)@ == (BufferView { contents: final(page)@, ..old(self)@ }),
    {
        &mut self.contents
    }

    /// The block that the frame is assigned to.
    pub fn block(&self) -> (blk: Option<&BlockId>)
        ensures
            match blk {
                None => self@.block is None,
                Some(b) => self@.block == Some(b@),
            },
    {
        self.block.as_ref()
    }

    /// Marks the page as changed by the transaction `txnum`. The sequence
    /// number of the change is recorded only where `lsn` is not negative.
    pub fn set_modified(&mut self, txnum: i64, lsn: i64)
        ensures
            final(self)@ == (BufferView {
                txnum: txnum as int,
                lsn: if lsn >= 0 {
                    lsn as int
                } else {
                    old(self)@.lsn
                },
                ..old(self)@
            }),
    {
        self.txnum = txnum;
        if lsn >= 0 {
            self.lsn = lsn;
        }
    }

    /// Whether some user pins the frame.
    pub fn is_pinned(&self) -> (pinned: bool)
        ensures
            pinned == (self@.pins > 0),
    {
        self.pins > 0
    }

    /// The transaction that changed the page; negative where the page is clean.
    pub fn modifying_tx(&self) -> (txnum: i64)
        ensures
            txnum == self@.txnum,
    {
        self.txnum
    }

    /// Assigns the frame to `block`: the frame is flushed where it is
    /// dirty, the block read into its page, and its pin count reset.
    pub fn assign_to_block(
        &mut self,
        fm: &mut FileManager,
        lm: &mut LogManager,
        block: BlockId,
    ) -> (res: Result<(), FileError>)
        requires
            old(fm).wf(),
            old(lm).wf(),
        ensures
            final(fm).wf(),
            final(fm).same_setup(old(fm)),
            final(lm).wf(),
            res == outcome(assign_failure(old(self)@, old(lm), old(fm)@, block@)),
            final(self)@ == assigned(old(self)@, old(lm), old(fm)@, block@),
            final(fm)@ == files_after_assign(old(self)@, old(lm), old(fm)@, block@),
            final(lm).same_but_saved(old(lm)),
            final(lm).spec_last_saved_lsn() == saved_after_flush(old(self)@, old(lm)),
            old(lm).intact(old(fm)) && !writes_log_file(old(self)@, old(lm))
                && block@.0 != old(lm).spec_log_file_name() ==> final(lm).intact(final(fm))
                && final(lm).records(final(fm)) == old(lm).records(old(fm)),
    {
        match self.flush(fm, lm) {
            Ok(()) => {},
            Err(e) => {
                return Err(e);
            },
        }
        let ghost logged = *lm;
        let ghost logged_fm = *fm;
        match fm.read(&block, &mut self.contents) {
            Ok(()) => {},
            Err(e) => {
                proof {
                    lemma_other_file_keeps_log(&logged, &logged_fm, lm, fm, block@.0);
                }
                return Err(e);
            },
        }
        proof {
            lemma_other_file_keeps_log(&logged, &logged_fm, lm, fm, block@.0);
        }
        self.block = Some(block);
        self.pins = 0;
        Ok(())
    }

    /// Writes the page back where the frame is dirty: first the log is
    /// flushed up to the record of the page's latest change, then the page
    /// is written to the frame's block, and then the frame is clean.
    pub fn flush(&mut self, fm: &mut FileManager, lm: &mut LogManager) -> (res: Result<
        (),
        FileError,
    >)
        requires
            old(fm).wf(),
            old(lm).wf(),
        ensures
            final(fm).wf(),
            final(fm).same_setup(old(fm)),
            final(lm).wf(),
            res == outcome(flush_failure(old(self)@, old(lm))),
            final(self)@ == flushed(old(self)@, old(lm)),
            final(fm)@ == files_after_flush(old(self)@, old(lm), old(fm)@),
            final(lm).same_but_saved(old(lm)),
            final(lm).spec_last_saved_lsn() == saved_after_flush(old(self)@, old(lm)),
            old(lm).intact(old(fm)) && !writes_log_file(old(self)@, old(lm))
                ==> final(lm).intact(final(fm)) && final(lm).records(final(fm))
                == old(lm).records(old(fm)),
    {
        if self.txnum >= 0 {
            match lm.flush_with_lsn(fm, log_lsn(self.lsn)) {
                Ok(()) => {},
                Err(e) => {
                    return Err(e);
                },
            }
            let ghost logged = *lm;
            let ghost logged_fm = *fm;
            match &self.block {
                Some(blk) => {
                    match fm.write(blk, &self.contents) {
                        Ok(()) => {},
                        Err(e) => {
                            proof {
                                lemma_other_file_keeps_log(&logged, &logged_fm, lm, fm, blk@.0);
                            }
                            return Err(e);
                        },
                    }
                    proof {
                        lemma_other_file_keeps_log(&logged, &logged_fm, lm, fm, blk@.0);
                    }
                },
                None => {},
            }
            self.txnum = -1;
        }
        Ok(())
    }

    /// Adds a pin.
    fn pin(&mut self)
        requires
            old(self)@.pins < u64::MAX,
        ensures
            final(self)@ == (BufferView { pins: old(self)@.pins + 1, ..old(self)@ }),
    {
        self.pins = self.pins + 1;
    }

    /// Takes a pin away.
    fn unpin(&mut self)
        requires
            old(self)@.pins > 0,
        ensures
            final(self)@ == (BufferView { pins: (old(self)@.pins - 1) as nat, ..old(self)@ }),
    {
        self.pins = self.pins - 1;
    }
}

/// The log comes before the page. Where the flush of the log fails, the
/// flush of a dirty frame fails with it, the frame stays dirty and its page
/// is not written: the files are as the flush of the log left them. Where
/// the page is written, it is written on top of the flushed log, and the log
/// is then saved up to the record of the page's latest change.
pub proof fn lemma_log_before_page(b: BufferView, lm: &LogManager, files: Map<Seq<char>, Seq<u8>>)
    requires
        lm.wf(),
        b.txnum >= 0,
    ensures
        lm.flush_failure(b.lsn) is Some ==> flush_failure(b, lm) == lm.flush_failure(b.lsn)
            && flushed(b, lm) == b && files_after_flush(b, lm, files) == lm.files_after_flush(
            files,
            b.lsn,
        ),
        lm.flush_failure(b.lsn) is None ==> saved_after_flush(b, lm) >= lm.spec_last_saved_lsn()
            && (b.lsn <= lm.spec_latest_lsn() ==> saved_after_flush(b, lm) >= b.lsn),
        forall|name: Seq<char>|
            !(b.block is Some && b.block.unwrap().0 == name) ==> #[trigger] file_kept(
                lm.files_after_flush(files, b.lsn),
                files_after_flush(b, lm, files),
                name,
            ),
{
}

/// A change of the file table that leaves the log file as it is leaves a log
/// that is in order so, with the same records.
pub proof fn lemma_other_file_keeps_log(
    lm: &LogManager,
    fm: &FileManager,
    after: &LogManager,
    after_fm: &FileManager,
    name: Seq<char>,
)
    requires
        after.same_state(lm),
        after_fm.wf(),
        forall|n: Seq<char>| n != name ==> file_bytes(after_fm@, n) == file_bytes(fm@, n),
    ensures
        lm.intact(fm) && name != lm.spec_log_file_name() ==> after.intact(after_fm)
            && after.records(after_fm) == lm.records(fm),
{
}

/// How many frames of the pool no one pins.
pub open spec fn unpinned_count(pool: Seq<BufferView>) -> int
    decreases pool.len(),
{
    if pool.len() == 0 {
        0
    } else {
        unpinned_count(pool.drop_last()) + if pool.last().pins == 0 {
            1int
        } else {
            0int
        }
    }
}

/// No block is held by two frames of the pool.
pub open spec fn distinct_blocks(pool: Seq<BufferView>) -> bool {
    forall|i: int, j: int|
        0 <= i < j < pool.len() && pool[i].block is Some ==> pool[i].block != pool[j].block
}

/// Whether frame `i` of the pool holds the block `blk`.
pub open spec fn holds(pool: Seq<BufferView>, blk: (Seq<char>, int), i: int) -> bool {
    0 <= i < pool.len() && pool[i].block == Some(blk)
}

/// Whether some frame of the pool holds the block `blk`.
pub open spec fn is_resident(pool: Seq<BufferView>, blk: (Seq<char>, int)) -> bool {
    exists|i: int| holds(pool, blk, i)
}

/// Whether frame `j` is the first frame of the pool that no one pins.
pub open spec fn first_free(pool: Seq<BufferView>, j: int) -> bool {
    &&& 0 <= j < pool.len()
    &&& pool[j].pins == 0
    &&& forall|k: int| 0 <= k < j ==> (#[trigger] pool[k]).pins > 0
}

/// Whether no one pins some frame of the pool.
pub open spec fn has_free(pool: Seq<BufferView>) -> bool {
    exists|j: int| 0 <= j < pool.len() && (#[trigger] pool[j]).pins == 0
}

/// Whether the wait that began at `start` has lasted longer than `MAX_TIME`
/// at the time `now`, both in milliseconds.
pub open spec fn waited_too_long(start: int, now: int) -> bool {
    now - start > MAX_TIME
}

/// Changing one frame changes the count of unpinned frames by what that
/// frame adds to it.
pub proof fn lemma_count_update(pool: Seq<BufferView>, i: int, v: BufferView)
    requires
        0 <= i < pool.len(),
    ensures
        unpinned_count(pool.update(i, v)) == unpinned_count(pool) - (if pool[i].pins == 0 {
            1int
        } else {
            0int
        }) + (if v.pins == 0 {
            1int
        } else {
            0int
        }),
        0 <= unpinned_count(pool) <= pool.len(),
        pool[i].pins == 0 ==> unpinned_count(pool) >= 1,
        pool[i].pins > 0 ==> unpinned_count(pool) < pool.len(),
    decreases pool.len(),
{
    let last = pool.len() - 1;
    lemma_count_bounds(pool.drop_last());
    if i == last {
        assert(pool.update(i, v).drop_last() =~= pool.drop_last());
    } else {
        lemma_count_update(pool.drop_last(), i, v);
        assert(pool.update(i, v).drop_last() =~= pool.drop_last().update(i, v));
    }
}

/// Two pools whose frames agree in their pins have the same count of
/// unpinned frames.
pub proof fn lemma_same_pins_same_count(a: Seq<BufferView>, b: Seq<BufferView>)
    requires
        a.len() == b.len(),
        forall|k: int| 0 <= k < a.len() ==> a[k].pins == b[k].pins,
    ensures
        unpinned_count(a) == unpinned_count(b),
    decreases a.len(),
{
    if a.len() > 0 {
        lemma_same_pins_same_count(a.drop_last(), b.drop_last());
    }
}

/// Where no block is held twice in a pool, none is in a pool whose frames
/// hold the same blocks.
pub proof fn lemma_same_blocks_distinct(a: Seq<BufferView>, b: Seq<BufferView>)
    requires
        a.len() == b.len(),
        forall|k: int| 0 <= k < a.len() ==> a[k].block == b[k].block,
        distinct_blocks(b),
    ensures
        distinct_blocks(a),
{
    assert forall|i: int, j: int| 0 <= i < j < a.len() && a[i].block is Some implies a[i].block
        != a[j].block by {
        assert(b[i].block != b[j].block);
    }
}

/// The count of unpinned frames lies between zero and the size of the pool,
/// and is zero only where every frame is pinned.
pub proof fn lemma_count_bounds(pool: Seq<BufferView>)
    ensures
        0 <= unpinned_count(pool) <= pool.len(),
        unpinned_count(pool) == 0 <==> !has_free(pool),
    decreases pool.len(),
{
    if pool.len() > 0 {
        lemma_count_bounds(pool.drop_last());
        if has_free(pool.drop_last()) {
            let j = choose|j: int|
                0 <= j < pool.drop_last().len() && (#[trigger] pool.drop_last()[j]).pins == 0;
            assert(pool[j].pins == 0);
        }
        if has_free(pool) {
            let j = choose|j: int| 0 <= j < pool.len() && (#[trigger] pool[j]).pins == 0;
            if j < pool.len() - 1 {
                assert(pool.drop_last()[j].pins == 0);
            }
        }
        if pool.last().pins == 0 {
            assert(pool[pool.len() - 1].pins == 0);
        }
    }
}

/// Whether a flush of all pages of the transaction `txnum` writes the page
/// of frame `i`: the transaction changed it and it is assigned to a block.
pub open spec fn written_by(pool: Seq<BufferView>, txnum: int, i: int) -> bool {
    0 <= i < pool.len() && pool[i].txnum == txnum && txnum >= 0 && pool[i].block is Some
}

/// Whether a flush of all pages of the transaction `txnum` writes into the
/// file `name`.
pub open spec fn writes_file(pool: Seq<BufferView>, txnum: int, name: Seq<char>) -> bool {
    exists|i: int| #[trigger] written_by(pool, txnum, i) && pool[i].block.unwrap().0 == name
}

/// Whether a flush of all pages of the transaction `txnum` writes a page
/// as the block `k` of the file `name`.
pub open spec fn writes_block(pool: Seq<BufferView>, txnum: int, name: Seq<char>, k: int) -> bool {
    exists|i: int| #[trigger] written_by(pool, txnum, i) && pool[i].block == Some((name, k))
}

/// Whether the flush of frame `j` for the transaction `txnum` makes a log
/// that is saved up to `saved` write its page: the frame is dirty with a
/// page of the transaction whose change is not saved.
pub open spec fn forces_log(pool: Seq<BufferView>, txnum: int, saved: int, j: int) -> bool {
    0 <= j < pool.len() && pool[j].txnum == txnum && txnum >= 0 && pool[j].lsn >= saved
}

/// Whether the flush of one of the first `n` frames makes the log write its page.
pub open spec fn log_forced(pool: Seq<BufferView>, txnum: int, saved: int, n: int) -> bool {
    exists|j: int| j < n && #[trigger] forces_log(pool, txnum, saved, j)
}

/// Whether the block `k` of the file `name` is in both file tables, with the
/// same bytes.
pub open spec fn block_kept(
    before: Map<Seq<char>, Seq<u8>>,
    after: Map<Seq<char>, Seq<u8>>,
    name: Seq<char>,
    k: int,
) -> bool {
    has_block(file_bytes(after, name), BLOCK_SIZE as int, k) && block_at(
        file_bytes(after, name),
        BLOCK_SIZE as int,
        k,
    ) == block_at(file_bytes(before, name), BLOCK_SIZE as int, k)
}

/// How far a flush of all pages of a transaction has come: the file table,
/// the last saved sequence number of the log, and the failure that ended it,
/// if one did.
pub struct Progress {
    pub files: Map<Seq<char>, Seq<u8>>,
    pub saved: int,
    pub failure: Option<IoErrorKind>,
}

/// How far a flush of all pages of the transaction `txnum` has come when it
/// has gone through the first `n` frames of the pool: each frame of the
/// transaction is flushed on top of what the frames before it left, and
/// nothing is done after a failure.
pub open spec fn flushed_through(
    pool: Seq<BufferView>,
    txnum: int,
    lm: &LogManager,
    files: Map<Seq<char>, Seq<u8>>,
    n: int,
) -> Progress
    decreases n,
{
    if n <= 0 {
        Progress { files, saved: lm.spec_last_saved_lsn(), failure: None }
    } else {
        let before = flushed_through(pool, txnum, lm, files, n - 1);
        let b = pool[n - 1];
        if before.failure is Some || b.txnum != txnum {
            before
        } else {
            let log = lm.with_saved(before.saved);
            Progress {
                files: files_after_flush(b, &log, before.files),
                saved: saved_after_flush(b, &log),
                failure: flush_failure(b, &log),
            }
        }
    }
}

/// Nothing is done after a failure.
pub proof fn lemma_failure_ends(
    pool: Seq<BufferView>,
    txnum: int,
    lm: &LogManager,
    files: Map<Seq<char>, Seq<u8>>,
    m: int,
    n: int,
)
    requires
        0 <= m <= n,
        flushed_through(pool, txnum, lm, files, m).failure is Some,
    ensures
        flushed_through(pool, txnum, lm, files, n) == flushed_through(pool, txnum, lm, files, m),
    decreases n - m,
{
    if m < n {
        lemma_failure_ends(pool, txnum, lm, files, m, n - 1);
    }
}

/// Whether frame `i` is the first frame of the transaction `txnum` whose
/// flush fails.
pub open spec fn first_failing(pool: Seq<BufferView>, lm: &LogManager, txnum: int, i: int) -> bool {
    &&& 0 <= i < pool.len()
    &&& pool[i].txnum == txnum
    &&& flush_failure(pool[i], lm) is Some
    &&& forall|k: int|
        0 <= k < i && (#[trigger] pool[k]).txnum == txnum ==> flush_failure(pool[k], lm) is None
}

/// Whether the flush of no frame of the transaction `txnum` fails.
pub open spec fn none_failing(pool: Seq<BufferView>, lm: &LogManager, txnum: int) -> bool {
    forall|i: int|
        0 <= i < pool.len() && (#[trigger] pool[i]).txnum == txnum ==> flush_failure(pool[i], lm)
            is None
}

/// Whether the file `name` is the same in both file tables.
pub open spec fn file_kept(
    before: Map<Seq<char>, Seq<u8>>,
    after: Map<Seq<char>, Seq<u8>>,
    name: Seq<char>,
) -> bool {
    before.contains_key(name) == after.contains_key(name) && file_bytes(before, name)
        == file_bytes(after, name)
}

/// Why a pin attempt did not give a frame.
#[derive(Debug, Clone, Copy, PartialEq, Eq)]
pub enum BufferError {
    /// The wait for a frame has lasted longer than `MAX_TIME`.
    NoBuffer,
    /// The file layer failed while a frame was replaced.
    Io(FileError),
}

/// What a pin attempt tells its caller to do.
#[derive(Debug, Clone, Copy, PartialEq, Eq)]
pub enum PinStep {
    /// The block is pinned in the frame of this number.
    Pinned(usize),
    /// No frame can take the block now: wait a while and attempt again.
    Wait,
}

/// The buffer pool: a fixed number of frames and the count of those that no
/// one pins. The file layer and the log manager that the frames work with
/// are handed to each operation.
#[derive(Debug)]
pub struct BufferManager {
    buffer_pool: Vec<Buffer>,
    num_available: u64,
}

impl BufferManager {
    /// The frames of the pool.
    pub closed spec fn spec_pool(&self) -> Seq<BufferView> {
        Seq::new(self.buffer_pool@.len(), |i: int| self.buffer_pool@[i]@)
    }

    /// The count that the pool keeps of its unpinned frames.
    pub closed spec fn spec_available(&self) -> int {
        self.num_available as int
    }

    /// The pool's invariant: the count it keeps is the number of frames that
    /// no one pins, and no block is held by two frames.
    pub open spec fn wf(&self) -> bool {
        &&& self.spec_available() == unpinned_count(self.spec_pool())
        &&& distinct_blocks(self.spec_pool())
    }

    /// What one attempt to pin the block `blk` does: `self`, `fm` and `lm`
    /// are the pool, the file layer and the log manager before it, the
    /// `after` ones after it, and `res` is what it returns.
    ///
    /// A frame that holds the block takes one more pin, without any reading
    /// or writing; it gives none where its pin count cannot grow. Where no
    /// frame holds the block, the first unpinned frame is assigned to it and
    /// pinned once; where the assignment fails, its error is returned and
    /// the frame keeps its block. Where every frame is pinned, nothing
    /// changes and no frame is given.
    pub open spec fn tried_to_pin(
        &self,
        fm: &FileManager,
        lm: &LogManager,
        blk: (Seq<char>, int),
        after: &BufferManager,
        after_fm: &FileManager,
        after_lm: &LogManager,
        res: Result<Option<usize>, FileError>,
    ) -> bool {
        let pool = self.spec_pool();
        &&& after.spec_pool().len() == pool.len()
        &&& after_lm.same_but_saved(lm)
        &&& forall|i: int| #[trigger]
            holds(pool, blk, i) ==> {
                &&& after_fm@ == fm@
                &&& after_lm.same_state(lm)
                &&& if pool[i].pins < u64::MAX {
                    res == Ok::<Option<usize>, FileError>(Some(i as usize)) && after.spec_pool()
                        == pool.update(i, BufferView { pins: pool[i].pins + 1, ..pool[i] })
                } else {
                    res == Ok::<Option<usize>, FileError>(None) && after.spec_pool() == pool
                }
            }
        &&& !is_resident(pool, blk) ==> forall|j: int| #[trigger]
            first_free(pool, j) ==> {
                &&& after_fm@ == files_after_assign(pool[j], lm, fm@, blk)
                &&& after_lm.spec_last_saved_lsn() == saved_after_flush(pool[j], lm)
                &&& match assign_failure(pool[j], lm, fm@, blk) {
                    Some(kind) => res == Err::<Option<usize>, FileError>(
                        FileError::IoError(kind),
                    ) && after.spec_pool() == pool.update(j, assigned(pool[j], lm, fm@, blk)),
                    None => res == Ok::<Option<usize>, FileError>(Some(j as usize))
                        && after.spec_pool() == pool.update(
                        j,
                        BufferView { pins: 1, ..assigned(pool[j], lm, fm@, blk) },
                    ),
                }
                &&& lm.intact(fm) && !writes_log_file(pool[j], lm) && blk.0
                    != lm.spec_log_file_name() ==> after_lm.intact(after_fm) && after_lm.records(
                    after_fm,
                ) == lm.records(fm)
            }
        &&& !is_resident(pool, blk) && !has_free(pool) ==> {
            &&& res == Ok::<Option<usize>, FileError>(None)
            &&& after.spec_pool() == pool
            &&& after_fm@ == fm@
            &&& after_lm.same_state(lm)
        }
    }

    /// What a flush of all pages of the transaction `txnum` does: `self`,
    /// `fm` and `lm` are the pool, the file layer and the log manager before
    /// it, the `after` ones after it, and `res` is what it returns.
    ///
    /// The frames are flushed in order, each on top of what the frames before
    /// it left, and the first failure ends the flush with its error: the
    /// result, the file table and the last saved sequence number of the log
    /// are those of `flushed_through`. Exactly the frames of the transaction are
    /// flushed; every other frame is left as it was. Each frame that was
    /// flushed is clean, the log is saved up to the record of its page, and
    /// its page stands in its block of its file. The log page is written
    /// exactly if the change of some page that was to be flushed was not
    /// saved.
    /// A file that is neither the log file nor the file of a page that is
    /// written stays as it was, and so does every block, outside the log
    /// file, that no page is written to.
    pub open spec fn flushed_all(
        &self,
        fm: &FileManager,
        lm: &LogManager,
        txnum: int,
        after: &BufferManager,
        after_fm: &FileManager,
        after_lm: &LogManager,
        res: Result<(), FileError>,
    ) -> bool {
        let pool = self.spec_pool();
        let now = after.spec_pool();
        let bs = BLOCK_SIZE as int;
        let log_name = lm.spec_log_file_name();
        let end = flushed_through(pool, txnum, lm, fm@, pool.len() as int);
        &&& now.len() == pool.len()
        &&& after.spec_available() == self.spec_available()
        &&& after_lm.same_but_saved(lm)
        &&& res == outcome(end.failure)
        &&& after_fm@ == end.files
        &&& after_lm.spec_last_saved_lsn() == end.saved
        &&& after_lm.spec_last_saved_lsn() >= lm.spec_last_saved_lsn()
        &&& forall|i: int|
            0 <= i < pool.len() && (#[trigger] pool[i]).txnum != txnum ==> now[i] == pool[i]
        &&& none_failing(pool, lm, txnum) ==> {
            &&& res is Ok
            &&& forall|i: int|
                0 <= i < pool.len() && (#[trigger] pool[i]).txnum == txnum ==> now[i] == flushed(
                    pool[i],
                    lm,
                )
            &&& after_lm.spec_last_saved_lsn() == if log_forced(
                pool,
                txnum,
                lm.spec_last_saved_lsn(),
                pool.len() as int,
            ) {
                lm.spec_latest_lsn()
            } else {
                lm.spec_last_saved_lsn()
            }
            &&& !writes_file(pool, txnum, log_name) ==> file_kept(
                if log_forced(pool, txnum, lm.spec_last_saved_lsn(), pool.len() as int) {
                    lm.files_after_flush(fm@, lm.spec_latest_lsn())
                } else {
                    fm@
                },
                after_fm@,
                log_name,
            )
        }
        &&& forall|i: int| #[trigger]
            first_failing(pool, lm, txnum, i) ==> {
                &&& res == outcome(flush_failure(pool[i], lm))
                &&& forall|k: int|
                    0 <= k < i && (#[trigger] pool[k]).txnum == txnum ==> now[k] == flushed(
                        pool[k],
                        lm,
                    )
                &&& forall|k: int| i <= k < pool.len() ==> #[trigger] now[k] == pool[k]
                &&& after_lm.spec_last_saved_lsn() == if log_forced(
                    pool,
                    txnum,
                    lm.spec_last_saved_lsn(),
                    i + 1,
                ) && write_failure(bs, lm.spec_cur_block().1, bs) is None {
                    lm.spec_latest_lsn()
                } else {
                    lm.spec_last_saved_lsn()
                }
                &&& !writes_file(pool, txnum, log_name) ==> file_kept(
                    if log_forced(pool, txnum, lm.spec_last_saved_lsn(), i + 1) {
                        lm.files_after_flush(fm@, lm.spec_latest_lsn())
                    } else {
                        fm@
                    },
                    after_fm@,
                    log_name,
                )
            }
        &&& forall|i: int| #[trigger]
            written_by(pool, txnum, i) && now[i].txnum == -1 ==> {
                let blk = pool[i].block.unwrap();
                &&& pool[i].lsn <= lm.spec_latest_lsn() ==> pool[i].lsn
                    <= after_lm.spec_last_saved_lsn()
                &&& blk.0 != log_name ==> block_at(file_bytes(after_fm@, blk.0), bs, blk.1)
                    == pool[i].contents && has_block(
                    file_bytes(after_fm@, blk.0),
                    bs,
                    blk.1,
                )
            }
        &&& forall|name: Seq<char>|
            name != log_name && !writes_file(pool, txnum, name) ==> #[trigger] file_kept(
                fm@,
                after_fm@,
                name,
            )
        &&& forall|name: Seq<char>, k: int|
            name != log_name && has_block(file_bytes(fm@, name), bs, k)
                && !writes_block(pool, txnum, name, k) ==> #[trigger] block_kept(
                fm@,
                after_fm@,
                name,
                k,
            )
        &&& lm.intact(fm) && !writes_file(pool, txnum, log_name) ==> after_lm.intact(after_fm)
            && after_lm.records(after_fm) == lm.records(fm)
    }

    /// A pool of `num_buffs` empty frames for the blocks of `fm`.
    pub fn new(fm: &FileManager, num_buffs: u64) -> (bm: Self)
        requires
            fm.wf(),
            num_buffs <= usize::MAX,
        ensures
            bm.wf(),
            bm.spec_available() == num_buffs,
            bm.spec_pool().len() == num_buffs,
            forall|i: int|
                0 <= i < num_buffs ==> #[trigger] bm.spec_pool()[i] == (BufferView {
                    contents: zeros(BLOCK_SIZE as int),
                    block: None,
                    pins: 0,
                    txnum: -1,
                    lsn: -1,
                }),
    {
        let mut buffer_pool: Vec<Buffer> = Vec::new();
        let mut index: u64 = 0;
        let ghost empty = BufferView {
            contents: zeros(BLOCK_SIZE as int),
            block: None,
            pins: 0,
            txnum: -1,
            lsn: -1,
        };
        while index < num_buffs
            invariant
                fm.wf(),
                index <= num_buffs,
                buffer_pool@.len() == index,
                empty == (BufferView {
                    contents: zeros(BLOCK_SIZE as int),
                    block: None,
                    pins: 0,
                    txnum: -1,
                    lsn: -1,
                }),
                forall|i: int| 0 <= i < index ==> (#[trigger] buffer_pool@[i])@ == empty,
                unpinned_count(Seq::new(buffer_pool@.len(), |i: int| buffer_pool@[i]@)) == index,
            decreases num_buffs - index,
        {
            let ghost before = Seq::new(buffer_pool@.len(), |i: int| buffer_pool@[i]@);
            let buf = Buffer::new(fm);
            buffer_pool.push(buf);
            index = index + 1;
            proof {
                let now = Seq::new(buffer_pool@.len(), |i: int| buffer_pool@[i]@);
                assert(now.drop_last() =~= before);
            }
        }
        BufferManager { buffer_pool, num_available: num_buffs }
    }

    /// The number of frames that no one pins.
    pub fn available(&self) -> (n: u64)
        ensures
            n == self.spec_available(),
            self.wf() ==> n == unpinned_count(self.spec_pool()),
    {
        self.num_available
    }

    /// The number of frames of the pool.
    pub fn capacity(&self) -> (n: usize)
        ensures
            n == self.spec_pool().len(),
    {
        self.buffer_pool.len()
    }

    /// The frame of the number `frame`.
    pub fn buffer(&self, frame: usize) -> (buf: &Buffer)
        requires
            frame < self.spec_pool().len(),
        ensures
            buf@ == self.spec_pool()[frame as int],
    {
        &self.buffer_pool[frame]
    }

    /// The page of the frame of the number `frame`, to read and to change.
    pub fn contents(&mut self, frame: usize) -> (page: &mut Page)
        requires
            frame < old(self).spec_pool().len(),
        ensures
            page@ == old(self).spec_pool()[frame as int].contents,
            final(self).spec_pool() =~= old(self).spec_pool().update(
                frame as int,
                BufferView { contents: final(page)@, ..old(self).spec_pool()[frame as int] },
            ),
            final(self).spec_available() == old(self).spec_available(),
            old(self).wf() ==> final(self).wf(),
    {
        proof {
            let pool = self.spec_pool();
            assert forall|after: Seq<BufferView>|
                after.len() == pool.len() && (forall|k: int|
                    0 <= k < pool.len() ==> after[k].pins == pool[k].pins)
                    implies #[trigger] unpinned_count(after) == unpinned_count(pool) by {
                lemma_same_pins_same_count(after, pool);
            }
            assert forall|after: Seq<BufferView>|
                after.len() == pool.len() && distinct_blocks(pool) && (forall|k: int|
                    0 <= k < pool.len() ==> after[k].block == pool[k].block)
                    implies #[trigger] distinct_blocks(after) by {
                lemma_same_blocks_distinct(after, pool);
            }
        }
        &mut self.buffer_pool[frame].contents
    }

    /// Marks the page of the frame `frame` as changed by the transaction
    /// `txnum`, with the sequence number `lsn` of the change where it is not
    /// negative.
    pub fn set_modified(&mut self, frame: usize, txnum: i64, lsn: i64)
        requires
            frame < old(self).spec_pool().len(),
        ensures
            final(self).spec_pool() == old(self).spec_pool().update(
                frame as int,
                BufferView {
                    txnum: txnum as int,
                    lsn: if lsn >= 0 {
                        lsn as int
                    } else {
                        old(self).spec_pool()[frame as int].lsn
                    },
                    ..old(self).spec_pool()[frame as int]
                },
            ),
            final(self).spec_available() == old(self).spec_available(),
            old(self).wf() ==> final(self).wf(),
    {
        self.buffer_pool[frame].set_modified(txnum, lsn);
        proof {
            let pool = old(self).spec_pool();
            assert(self.spec_pool() =~= pool.update(frame as int, self.spec_pool()[frame as int]));
            lemma_count_update(pool, frame as int, self.spec_pool()[frame as int]);
        }
    }

    /// Flushes every frame whose page the transaction `txnum` changed, and
    /// no other frame.
    pub fn flush_all(&mut self, fm: &mut FileManager, lm: &mut LogManager, txnum: i64) -> (res:
        Result<(), FileError>)
        requires
            old(self).wf(),
            old(fm).wf(),
            old(lm).wf(),
        ensures
            final(self).wf(),
            final(fm).wf(),
            final(fm).same_setup(old(fm)),
            final(lm).wf(),
            old(self).flushed_all(
                old(fm),
                old(lm),
                txnum as int,
                final(self),
                final(fm),
                final(lm),
                res,
            ),
    {
        let ghost pool = self.spec_pool();
        let ghost bs = BLOCK_SIZE as int;
        let ghost log_name = lm.spec_log_file_name();
        let ghost saved = lm.spec_last_saved_lsn();
        let ghost tx = txnum as int;
        let mut i: usize = 0;
        proof {
            assert forall|name: Seq<char>| #[trigger] file_kept(fm@, fm@, name) by {}
            assert forall|name: Seq<char>, k: int|
                has_block(file_bytes(fm@, name), bs, k) implies #[trigger] block_kept(
                fm@,
                fm@,
                name,
                k,
            ) by {}
        }
        while i < self.buffer_pool.len()
            invariant
                i <= self.buffer_pool@.len(),
                pool == old(self).spec_pool(),
                bs == BLOCK_SIZE as int,
                tx == txnum as int,
                log_name == old(lm).spec_log_file_name(),
                saved == old(lm).spec_last_saved_lsn(),
                self.spec_pool().len() == pool.len(),
                self.spec_available() == old(self).spec_available(),
                old(self).wf(),
                self.wf(),
                fm.wf(),
                fm.same_setup(old(fm)),
                lm.wf(),
                old(lm).wf(),
                lm.same_but_saved(old(lm)),
                flushed_through(pool, tx, old(lm), old(fm)@, i as int) == (Progress {
                    files: fm@,
                    saved: lm.spec_last_saved_lsn(),
                    failure: None,
                }),
                lm.spec_last_saved_lsn() == if log_forced(pool, tx, saved, i as int) {
                    lm.spec_latest_lsn()
                } else {
                    saved
                },
                log_forced(pool, tx, saved, i as int) ==> write_failure(
                    bs,
                    lm.spec_cur_block().1,
                    bs,
                ) is None,
                forall|k: int|
                    0 <= k < i && (#[trigger] pool[k]).txnum == txnum ==> self.spec_pool()[k]
                        == flushed(pool[k], old(lm)) && flush_failure(pool[k], old(lm)) is None,
                forall|k: int|
                    0 <= k < pool.len() && (k >= i || pool[k].txnum != txnum)
                        ==> #[trigger] self.spec_pool()[k] == pool[k],
                forall|k: int|
                    0 <= k < i && #[trigger] written_by(pool, tx, k) ==> {
                        let blk = pool[k].block.unwrap();
                        &&& pool[k].lsn <= lm.spec_latest_lsn() ==> pool[k].lsn
                            <= lm.spec_last_saved_lsn()
                        &&& blk.0 != log_name ==> has_block(
                            file_bytes(fm@, blk.0),
                            bs,
                            blk.1,
                        ) && block_at(file_bytes(fm@, blk.0), bs, blk.1) == pool[k].contents
                    },
                forall|name: Seq<char>|
                    name != log_name && !writes_file(pool, tx, name) ==> #[trigger] file_kept(
                        old(fm)@,
                        fm@,
                        name,
                    ),
                forall|name: Seq<char>, k: int|
                    name != log_name && has_block(file_bytes(old(fm)@, name), bs, k)
                        && !writes_block(pool, tx, name, k) ==> #[trigger] block_kept(
                        old(fm)@,
                        fm@,
                        name,
                        k,
                    ),
                !writes_file(pool, tx, log_name) ==> file_kept(
                    if log_forced(pool, tx, saved, i as int) {
                        old(lm).files_after_flush(old(fm)@, old(lm).spec_latest_lsn())
                    } else {
                        old(fm)@
                    },
                    fm@,
                    log_name,
                ),
                old(lm).intact(old(fm)) && !writes_file(pool, tx, log_name) ==> lm.intact(fm)
                    && lm.records(fm) == old(lm).records(old(fm)),
            decreases self.buffer_pool@.len() - i,
        {
            let ghost b = pool[i as int];
            let ghost lm0 = *lm;
            let ghost fm0 = *fm;
            let ghost pool0 = self.spec_pool();
            proof {
                assert(log_forced(pool, tx, saved, i + 1) <==> log_forced(pool, tx, saved, i as int)
                    || forces_log(pool, tx, saved, i as int)) by {
                    if log_forced(pool, tx, saved, i + 1) {
                        let j = choose|j: int|
                            j < i + 1 && #[trigger] forces_log(pool, tx, saved, j);
                        if j < i {
                            assert(log_forced(pool, tx, saved, i as int));
                        }
                    }
                    if log_forced(pool, tx, saved, i as int) {
                        let j = choose|j: int| j < i && #[trigger] forces_log(pool, tx, saved, j);
                        assert(j < i + 1 && forces_log(pool, tx, saved, j));
                    }
                    if forces_log(pool, tx, saved, i as int) {
                        assert(i < i + 1 && forces_log(pool, tx, saved, i as int));
                    }
                }
            }
            if self.buffer_pool[i].modifying_tx() == txnum {
                assert(pool0[i as int] == b);
                assert(flush_failure(b, &lm0) == flush_failure(b, old(lm)));
                assert(flushed(b, &lm0) == flushed(b, old(lm)));
                proof {
                    if written_by(pool, tx, i as int) {
                        assert(writes_file(pool, tx, b.block.unwrap().0));
                        assert(writes_block(pool, tx, b.block.unwrap().0, b.block.unwrap().1));
                    }
                }
                let res = self.buffer_pool[i].flush(fm, lm);
                proof {
                    old(lm).lemma_with_saved(lm0.spec_last_saved_lsn());
                    let log = old(lm).with_saved(lm0.spec_last_saved_lsn());
                    assert(flushed_through(pool, tx, old(lm), old(fm)@, i + 1) == (Progress {
                        files: files_after_flush(b, &log, fm0@),
                        saved: saved_after_flush(b, &log),
                        failure: flush_failure(b, &log),
                    }));
                    if res is Err {
                        lemma_failure_ends(
                            pool,
                            tx,
                            old(lm),
                            old(fm)@,
                            i + 1,
                            pool.len() as int,
                        );
                    }
                    let v = self.spec_pool()[i as int];
                    assert(self.spec_pool() =~= pool0.update(i as int, v));
                    lemma_same_pins_same_count(self.spec_pool(), pool0);
                    lemma_same_blocks_distinct(self.spec_pool(), pool0);
                    let logged = lm0.files_after_flush(fm0@, b.lsn);
                    let page_written = b.txnum >= 0 && b.block is Some && lm0.flush_failure(b.lsn)
                        is None && write_failure(
                        bs,
                        b.block.unwrap().1,
                        b.contents.len() as int,
                    ) is None;
                    assert forall|name: Seq<char>|
                        name != log_name && !writes_file(pool, tx, name)
                            implies #[trigger] file_kept(old(fm)@, fm@, name) by {
                        assert(file_kept(old(fm)@, fm0@, name));
                    }
                    assert forall|name: Seq<char>, k: int|
                        name != log_name && has_block(
                            file_bytes(old(fm)@, name),
                            bs,
                            k,
                        ) && !writes_block(pool, tx, name, k) implies #[trigger] block_kept(
                        old(fm)@,
                        fm@,
                        name,
                        k,
                    ) by {
                        assert(block_kept(old(fm)@, fm0@, name, k));
                        assert(file_bytes(logged, name) == file_bytes(fm0@, name));
                        if page_written && b.block.unwrap().0 == name {
                            lemma_write_then_read(
                                file_bytes(logged, name),
                                bs,
                                b.block.unwrap().1,
                                b.contents,
                                k,
                            );
                        }
                    }
                    assert forall|k: int|
                        0 <= k < i && #[trigger] written_by(pool, tx, k) implies ({
                        let blk = pool[k].block.unwrap();
                        blk.0 != log_name ==> has_block(
                            file_bytes(fm@, blk.0),
                            bs,
                            blk.1,
                        ) && block_at(file_bytes(fm@, blk.0), bs, blk.1) == pool[k].contents
                    }) by {
                        let blk = pool[k].block.unwrap();
                        if blk.0 != log_name {
                            assert(file_bytes(logged, blk.0) == file_bytes(fm0@, blk.0));
                            assert(pool[k].block != pool[i as int].block);
                            if page_written && b.block.unwrap().0 == blk.0 {
                                lemma_write_then_read(
                                    file_bytes(logged, blk.0),
                                    bs,
                                    b.block.unwrap().1,
                                    b.contents,
                                    blk.1,
                                );
                            }
                        }
                    }
                    if res is Ok && written_by(pool, tx, i as int) {
                        let mine = b.block.unwrap();
                        lemma_write_then_read(
                            file_bytes(logged, mine.0),
                            bs,
                            mine.1,
                            b.contents,
                            mine.1,
                        );
                    }
                    if !writes_file(pool, tx, log_name) && b.txnum >= 0 {
                        if b.block is Some {
                            assert(b.block.unwrap().0 != log_name);
                        }
                        assert(file_kept(logged, fm@, log_name));
                        let data = file_bytes(old(fm)@, log_name);
                        let cur = lm0.spec_cur_block().1;
                        let page = lm0.spec_page();
                        assert(with_block(with_block(data, bs, cur, page), bs, cur, page)
                            =~= with_block(data, bs, cur, page));
                    }
                }
                match res {
                    Ok(()) => {},
                    Err(e) => {
                        proof {
                            let now = self.spec_pool();
                            assert(lm.spec_last_saved_lsn() >= saved);
                            assert forall|k: int| #[trigger]
                                written_by(pool, tx, k) && now[k].txnum == -1 implies k < i by {
                                if k >= i {
                                    assert(now[k] == pool[k]);
                                }
                            }
                            assert(first_failing(pool, old(lm), tx, i as int));
                            assert forall|j: int| #[trigger]
                                first_failing(pool, old(lm), tx, j) implies j == i by {
                                if j < i {
                                    assert(pool[j].txnum == txnum);
                                }
                                if j > i {
                                    assert(pool[i as int].txnum == txnum);
                                }
                            }
                            assert(!none_failing(pool, old(lm), tx)) by {
                                assert(pool[i as int].txnum == txnum);
                            }
                        }
                        return Err(e);
                    },
                }
            }
            i = i + 1;
        }
        proof {
            assert(none_failing(pool, old(lm), tx));
            assert forall|j: int| #[trigger] first_failing(pool, old(lm), tx, j) implies false by {
                assert(pool[j].txnum == txnum);
            }
        }
        Ok(())
    }

    /// Takes one pin from the frame `frame`, which must be pinned. A frame
    /// that loses its last pin counts as available.
    pub fn unpin(&mut self, frame: usize)
        requires
            old(self).wf(),
            frame < old(self).spec_pool().len(),
            old(self).spec_pool()[frame as int].pins > 0,
        ensures
            final(self).wf(),
            final(self).spec_pool() == old(self).spec_pool().update(
                frame as int,
                BufferView {
                    pins: (old(self).spec_pool()[frame as int].pins - 1) as nat,
                    ..old(self).spec_pool()[frame as int]
                },
            ),
            final(self).spec_available() == old(self).spec_available()
                + if old(self).spec_pool()[frame as int].pins == 1 {
                1int
            } else {
                0int
            },
    {
        self.buffer_pool[frame].unpin();
        proof {
            let pool = old(self).spec_pool();
            assert(self.spec_pool() =~= pool.update(frame as int, self.spec_pool()[frame as int]));
            lemma_count_update(pool, frame as int, self.spec_pool()[frame as int]);
        }
        proof {
            assert(self.buffer_pool.len() <= usize::MAX);
        }
        if !self.buffer_pool[frame].is_pinned() {
            self.num_available = self.num_available + 1;
        }
    }

    /// Whether the wait that began at `start` has lasted too long at `now`.
    pub fn waiting_too_long(start: u128, now: u128) -> (late: bool)
        ensures
            late == waited_too_long(start as int, now as int),
    {
        now > start && now - start > MAX_TIME
    }

    /// The first frame that holds `block`.
    fn find_existing_buffer(&self, block: &BlockId) -> (found: Option<usize>)
        ensures
            match found {
                Some(i) => holds(self.spec_pool(), block@, i as int),
                None => !is_resident(self.spec_pool(), block@),
            },
    {
        let mut i: usize = 0;
        while i < self.buffer_pool.len()
            invariant
                i <= self.buffer_pool@.len(),
                forall|k: int| 0 <= k < i ==> !holds(self.spec_pool(), block@, k),
            decreases self.buffer_pool@.len() - i,
        {
            let same: bool = match &self.buffer_pool[i].block {
                Some(block_id) => block_id.eq(block),
                None => false,
            };
            if same {
                return Some(i);
            }
            i = i + 1;
        }
        None
    }

    /// The first frame that no one pins.
    fn choose_unpinned_buffer(&self) -> (found: Option<usize>)
        ensures
            match found {
                Some(j) => first_free(self.spec_pool(), j as int),
                None => !has_free(self.spec_pool()),
            },
    {
        let mut j: usize = 0;
        while j < self.buffer_pool.len()
            invariant
                j <= self.buffer_pool@.len(),
                forall|k: int| 0 <= k < j ==> (#[trigger] self.spec_pool()[k]).pins > 0,
            decreases self.buffer_pool@.len() - j,
        {
            if !self.buffer_pool[j].is_pinned() {
                return Some(j);
            }
            j = j + 1;
        }
        None
    }

    /// One attempt to pin `block`, by the naive rule: a frame that holds
    /// the block is taken; else the first frame that no one pins is assigned
    /// to it; else no frame is given.
    pub fn try_to_pin(&mut self, fm: &mut FileManager, lm: &mut LogManager, block: BlockId) -> (res:
        Result<Option<usize>, FileError>)
        requires
            old(self).wf(),
            old(fm).wf(),
            old(lm).wf(),
        ensures
            final(self).wf(),
            final(fm).wf(),
            final(fm).same_setup(old(fm)),
            final(lm).wf(),
            old(self).tried_to_pin(
                old(fm),
                old(lm),
                block@,
                final(self),
                final(fm),
                final(lm),
                res,
            ),
    {
        let ghost pool = self.spec_pool();
        let ghost blk = block@;
        proof {
            lemma_count_bounds(pool);
        }
        match self.find_existing_buffer(&block) {
            Some(i) => {
                proof {
                    lemma_count_update(pool, i as int, pool[i as int]);
                    assert forall|k: int| holds(pool, blk, k) implies k == i by {
                        if k != i {
                            if k < i {
                                assert(pool[k].block != pool[i as int].block);
                            } else {
                                assert(pool[i as int].block != pool[k].block);
                            }
                        }
                    }
                }
                if self.buffer_pool[i].pins == u64::MAX {
                    return Ok(None);
                }
                if !self.buffer_pool[i].is_pinned() {
                    self.num_available = self.num_available - 1;
                }
                self.buffer_pool[i].pin();
                proof {
                    let v = self.spec_pool()[i as int];
                    assert(self.spec_pool() =~= pool.update(i as int, v));
                    lemma_count_update(pool, i as int, v);
                }
                Ok(Some(i))
            },
            None => {
                match self.choose_unpinned_buffer() {
                    Some(j) => {
                        proof {
                            assert forall|k: int| first_free(pool, k) implies k == j by {
                                if k < j {
                                    assert(pool[k].pins > 0);
                                }
                                if j < k {
                                    assert(pool[j as int].pins > 0);
                                }
                            }
                        }
                        match self.buffer_pool[j].assign_to_block(fm, lm, block) {
                            Ok(()) => {},
                            Err(e) => {
                                proof {
                                    let v = self.spec_pool()[j as int];
                                    assert(self.spec_pool() =~= pool.update(j as int, v));
                                    lemma_count_update(pool, j as int, v);
                                }
                                return Err(e);
                            },
                        }
                        proof {
                            lemma_count_update(pool, j as int, pool[j as int]);
                        }
                        self.num_available = self.num_available - 1;
                        self.buffer_pool[j].pin();
                        proof {
                            let v = self.spec_pool()[j as int];
                            assert(self.spec_pool() =~= pool.update(j as int, v));
                            lemma_count_update(pool, j as int, v);
                            assert forall|a: int, b: int|
                                0 <= a < b < self.spec_pool().len() && self.spec_pool()[a].block
                                    is Some implies self.spec_pool()[a].block
                                != self.spec_pool()[b].block by {
                                if a == j {
                                    assert(!holds(pool, blk, b));
                                } else if b == j {
                                    assert(!holds(pool, blk, a));
                                } else {
                                    assert(pool[a].block != pool[b].block);
                                }
                            }
                        }
                        Ok(Some(j))
                    },
                    None => {
                        proof {
                            assert forall|k: int| first_free(pool, k) implies false by {
                                assert(pool[k].pins == 0);
                            }
                        }
                        Ok(None)
                    },
                }
            },
        }
    }

    /// One step of pinning `block`, for a caller who began to wait at
    /// `start` and attempts again at `now`, both in milliseconds. After more
    /// than `MAX_TIME` the caller is told that there is no buffer, and
    /// nothing is attempted. Else the block is pinned where a frame can take
    /// it, and the caller told to wait where none can.
    pub fn pin(
        &mut self,
        fm: &mut FileManager,
        lm: &mut LogManager,
        block: BlockId,
        start: u128,
        now: u128,
    ) -> (res: Result<PinStep, BufferError>)
        requires
            old(self).wf(),
            old(fm).wf(),
            old(lm).wf(),
        ensures
            final(self).wf(),
            final(fm).wf(),
            final(fm).same_setup(old(fm)),
            final(lm).wf(),
            waited_too_long(start as int, now as int) ==> res == Err::<PinStep, BufferError>(
                BufferError::NoBuffer,
            ) && final(self).spec_pool() == old(self).spec_pool() && final(fm)@ == old(fm)@
                && final(lm).same_state(old(lm)),
            !waited_too_long(start as int, now as int) ==> old(self).tried_to_pin(
                old(fm),
                old(lm),
                block@,
                final(self),
                final(fm),
                final(lm),
                match res {
                    Ok(PinStep::Pinned(frame)) => Ok(Some(frame)),
                    Ok(PinStep::Wait) => Ok(None),
                    Err(BufferError::Io(e)) => Err(e),
                    Err(BufferError::NoBuffer) => Ok(None),
                },
            ) && res != Err::<PinStep, BufferError>(BufferError::NoBuffer),
    {
        if Self::waiting_too_long(start, now) {
            return Err(BufferError::NoBuffer);
        }
        match self.try_to_pin(fm, lm, block) {
            Ok(Some(frame)) => Ok(PinStep::Pinned(frame)),
            Ok(None) => Ok(PinStep::Wait),
            Err(e) => Err(BufferError::Io(e)),
        }
    }
}

} // verus!
