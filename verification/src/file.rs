//! The file layer: block identities, pages with typed accessors, and the
//! block-addressed file table.

use crate::bytes::{
    be_i32, be_u64, i32_be_bytes, lemma_i32_round_trip, lemma_u64_round_trip,
    lemma_write_at_concat, lemma_write_at_read_back, load_bytes, load_i32, load_u64, store_bytes,
    store_i32, store_u64, u64_be_bytes, write_at, zeros,
};
use vstd::prelude::*;
use vstd::utf8::{decode_utf8, encode_utf8, valid_utf8};

verus! {

/// Size in bytes of a block, and so of every page that holds one.
pub const BLOCK_SIZE: i32 = 4096;

/// Width in bytes of a 64-bit integer stored in a page.
pub const U64_SIZE: usize = 8;

/// Width in bytes of a 32-bit integer stored in a page. Lengths and log
/// boundaries are stored with this width.
pub const I32_SIZE: usize = 4;

/// Largest size in bytes that a file may reach: block offsets stay 32-bit values.
pub const MAX_FILE_BYTES: usize = 0x7fff_ffff;

/// Why an operation of the storage core failed.
#[derive(Debug, Clone, Copy, PartialEq, Eq)]
pub enum IoErrorKind {
    /// A page access reaches beyond the end of the page.
    OutOfBounds,
    /// A length prefix is negative, or a payload is too long for a 32-bit length.
    BadLength,
    /// The bytes of a stored string are not UTF-8.
    InvalidUtf8,
    /// A file holds fewer bytes than the block that was asked for.
    ShortRead,
    /// A block number is negative.
    BadBlock,
    /// A page handed to the file layer is not one block long.
    PageSize,
    /// A file would grow beyond `MAX_FILE_BYTES`.
    FileTooLarge,
    /// The boundary field of a log block lies outside the block.
    BadBoundary,
    /// A log record does not fit into an empty block.
    RecordTooLarge,
    /// No further log sequence number can be assigned.
    LsnExhausted,
}

/// Errors of the file layer.
#[derive(Debug, Clone, Copy, PartialEq, Eq)]
pub enum FileError {
    IoError(IoErrorKind),
}

/// A logical block number.
#[derive(Debug, Clone, Copy, PartialEq, Eq, Hash)]
pub struct BlockNum(pub i32);

impl BlockNum {
    pub fn as_i32(&self) -> (n: i32)
        ensures
            n == self.0,
    {
        self.0
    }
}

/// `BlockId` identifies a specific block by its file name and logical block number.
#[derive(Debug, Hash)]
pub struct BlockId {
    filename: String,
    block_id: BlockNum,
}

impl View for BlockId {
    type V = (Seq<char>, int);

    closed spec fn view(&self) -> (Seq<char>, int) {
        (self.filename@, self.block_id.0 as int)
    }
}

impl BlockId {
    pub fn new(filename: &str, block_id: i32) -> (block: Self)
        ensures
            block@ == (filename@, block_id as int),
    {
        Self { filename: filename.to_owned(), block_id: BlockNum(block_id) }
    }

    pub fn filename(&self) -> (name: &str)
        ensures
            name@ == self@.0,
    {
        self.filename.as_str()
    }

    pub fn number(&self) -> (n: i32)
        ensures
            n == self@.1,
    {
        self.block_id.as_i32()
    }
}

impl Clone for BlockId {
    fn clone(&self) -> (block: Self)
        ensures
            block@ == self@,
    {
        Self { filename: self.filename.clone(), block_id: self.block_id }
    }
}

impl PartialEq for BlockId {
    fn eq(&self, other: &Self) -> (same: bool) {
        self.filename == other.filename && self.block_id.0 == other.block_id.0
    }
}

impl Eq for BlockId {

}

impl vstd::std_specs::cmp::PartialEqSpecImpl for BlockId {
    open spec fn obeys_eq_spec() -> bool {
        true
    }

    open spec fn eq_spec(&self, other: &Self) -> bool {
        self@ == other@
    }
}

/// Whether the `width` bytes from `off` on lie inside `p`.
pub open spec fn in_page(p: Seq<u8>, off: int, width: int) -> bool {
    0 <= off && off + width <= p.len()
}

/// The 32-bit integer that `p` holds at `off`.
pub open spec fn i32_at(p: Seq<u8>, off: int) -> int
    recommends
        in_page(p, off, 4),
{
    be_i32(p.subrange(off, off + 4))
}

/// The 64-bit integer that `p` holds at `off`.
pub open spec fn u64_at(p: Seq<u8>, off: int) -> int
    recommends
        in_page(p, off, 8),
{
    be_u64(p.subrange(off, off + 8))
}

/// Whether `p` holds at `off` a length and, behind it, that many bytes.
pub open spec fn has_blob_at(p: Seq<u8>, off: int) -> bool {
    in_page(p, off, 4) && i32_at(p, off) >= 0 && off + 4 + i32_at(p, off) <= p.len()
}

/// The bytes behind the length that `p` holds at `off`.
pub open spec fn blob_at(p: Seq<u8>, off: int) -> Seq<u8>
    recommends
        has_blob_at(p, off),
{
    p.subrange(off + 4, off + 4 + i32_at(p, off))
}

/// A length and the bytes it counts, as they are laid out in a page.
pub open spec fn blob(b: Seq<u8>) -> Seq<u8>
    recommends
        b.len() <= i32::MAX,
{
    i32_be_bytes(b.len() as int) + b
}

/// Whether a length and the bytes `b` can be stored in `p` at `off`.
pub open spec fn blob_fits(p: Seq<u8>, off: int, b: Seq<u8>) -> bool {
    b.len() <= i32::MAX && in_page(p, off, 4 + b.len() as int)
}

/// `String::from_utf8`: it accepts exactly the byte sequences that are
/// well-formed UTF-8, and the string then holds the characters they encode.
#[verifier::external_body]
fn string_from_utf8(bytes: Vec<u8>) -> (out: Option<String>)
    ensures
        out is Some <==> valid_utf8(bytes@),
        out is Some ==> out->0@ == decode_utf8(bytes@),
{
    String::from_utf8(bytes).ok()
}

/// The minimum unit when reading and writing a file: a buffer of bytes with
/// typed accessors. Integers are stored most significant byte first; bytes and
/// strings as a 32-bit length followed by the payload; strings in UTF-8.
#[derive(Debug)]
pub struct Page {
    bb: Vec<u8>,
}

impl View for Page {
    type V = Seq<u8>;

    closed spec fn view(&self) -> Seq<u8> {
        self.bb@
    }
}

impl Page {
    /// A page of `capacity` zero bytes.
    pub fn new(capacity: i32) -> (page: Self)
        requires
            capacity >= 0,
        ensures
            page@ == zeros(capacity as int),
    {
        let bb: Vec<u8> = vec![0u8; capacity as usize];
        assert(bb@ =~= zeros(capacity as int));
        Page { bb }
    }

    /// Reads the 8 bytes at `offset` as an integer.
    pub fn get_u64(&self, offset: u64) -> (res: Result<u64, FileError>)
        ensures
            in_page(self@, offset as int, 8) ==> res is Ok && res->Ok_0 == u64_at(
                self@,
                offset as int,
            ),
            !in_page(self@, offset as int, 8) ==> res == Err::<u64, FileError>(
                FileError::IoError(IoErrorKind::OutOfBounds),
            ),
    {
        let len: usize = self.bb.len();
        if len < U64_SIZE || offset > (len - U64_SIZE) as u64 {
            return Err(FileError::IoError(IoErrorKind::OutOfBounds));
        }
        Ok(load_u64(self.bb.as_slice(), offset as usize))
    }

    /// Reads the 4 bytes at `offset` as an integer.
    pub fn get_i32(&self, offset: u64) -> (res: Result<i32, FileError>)
        ensures
            in_page(self@, offset as int, 4) ==> res is Ok && res->Ok_0 == i32_at(
                self@,
                offset as int,
            ),
            !in_page(self@, offset as int, 4) ==> res == Err::<i32, FileError>(
                FileError::IoError(IoErrorKind::OutOfBounds),
            ),
    {
        let len: usize = self.bb.len();
        if len < I32_SIZE || offset > (len - I32_SIZE) as u64 {
            return Err(FileError::IoError(IoErrorKind::OutOfBounds));
        }
        Ok(load_i32(self.bb.as_slice(), offset as usize))
    }

    /// Writes `val` as 8 bytes at `offset`. A write that would reach beyond
    /// the page is refused and changes nothing.
    pub fn set_u64(&mut self, offset: u64, val: u64) -> (res: Result<(), FileError>)
        ensures
            in_page(old(self)@, offset as int, 8) ==> res is Ok && final(self)@ == write_at(
                old(self)@,
                offset as int,
                u64_be_bytes(val as int),
            ),
            !in_page(old(self)@, offset as int, 8) ==> res == Err::<(), FileError>(
                FileError::IoError(IoErrorKind::OutOfBounds),
            ) && final(self)@ == old(self)@,
    {
        let len: usize = self.bb.len();
        if len < U64_SIZE || offset > (len - U64_SIZE) as u64 {
            return Err(FileError::IoError(IoErrorKind::OutOfBounds));
        }
        store_u64(&mut self.bb, offset as usize, val);
        Ok(())
    }

    /// Writes `val` as 4 bytes at `offset`. A write that would reach beyond
    /// the page is refused and changes nothing.
    pub fn set_i32(&mut self, offset: u64, val: i32) -> (res: Result<(), FileError>)
        ensures
            in_page(old(self)@, offset as int, 4) ==> res is Ok && final(self)@ == write_at(
                old(self)@,
                offset as int,
                i32_be_bytes(val as int),
            ),
            !in_page(old(self)@, offset as int, 4) ==> res == Err::<(), FileError>(
                FileError::IoError(IoErrorKind::OutOfBounds),
            ) && final(self)@ == old(self)@,
    {
        let len: usize = self.bb.len();
        if len < I32_SIZE || offset > (len - I32_SIZE) as u64 {
            return Err(FileError::IoError(IoErrorKind::OutOfBounds));
        }
        store_i32(&mut self.bb, offset as usize, val);
        Ok(())
    }

    /// Reads the length stored at `offset` and returns that many bytes from behind it.
    pub fn get_bytes(&self, offset: u64) -> (res: Result<Vec<u8>, FileError>)
        ensures
            has_blob_at(self@, offset as int) ==> res is Ok && res->Ok_0@ == blob_at(
                self@,
                offset as int,
            ),
            !has_blob_at(self@, offset as int) ==> res == Err::<Vec<u8>, FileError>(
                FileError::IoError(
                    if !in_page(self@, offset as int, 4) {
                        IoErrorKind::OutOfBounds
                    } else if i32_at(self@, offset as int) < 0 {
                        IoErrorKind::BadLength
                    } else {
                        IoErrorKind::OutOfBounds
                    },
                ),
            ),
    {
        let n: i32 = match self.get_i32(offset) {
            Ok(n) => n,
            Err(e) => {
                return Err(e);
            },
        };
        if n < 0 {
            return Err(FileError::IoError(IoErrorKind::BadLength));
        }
        let len: usize = self.bb.len();
        let start: usize = offset as usize + I32_SIZE;
        if n as usize > len - start {
            return Err(FileError::IoError(IoErrorKind::OutOfBounds));
        }
        Ok(load_bytes(self.bb.as_slice(), start, n as usize))
    }

    /// Writes the length of `byte` at `offset` and the bytes behind it. A
    /// write that would reach beyond the page is refused and changes nothing.
    pub fn set_bytes(&mut self, offset: u64, byte: &[u8]) -> (res: Result<(), FileError>)
        ensures
            blob_fits(old(self)@, offset as int, byte@) ==> res is Ok && final(self)@ == write_at(
                old(self)@,
                offset as int,
                blob(byte@),
            ),
            !blob_fits(old(self)@, offset as int, byte@) ==> res == Err::<(), FileError>(
                FileError::IoError(
                    if byte@.len() > i32::MAX {
                        IoErrorKind::BadLength
                    } else {
                        IoErrorKind::OutOfBounds
                    },
                ),
            ) && final(self)@ == old(self)@,
    {
        let n: usize = byte.len();
        if n > 0x7fff_ffff {
            return Err(FileError::IoError(IoErrorKind::BadLength));
        }
        let len: usize = self.bb.len();
        if len < I32_SIZE + n || offset > (len - I32_SIZE - n) as u64 {
            return Err(FileError::IoError(IoErrorKind::OutOfBounds));
        }
        let off: usize = offset as usize;
        store_i32(&mut self.bb, off, n as i32);
        store_bytes(&mut self.bb, off + I32_SIZE, byte);
        proof {
            lemma_i32_round_trip(n as int);
            lemma_write_at_concat(
                old(self)@,
                off as int,
                i32_be_bytes(n as int),
                byte@,
            );
        }
        Ok(())
    }

    /// Reads the bytes stored at `offset` and decodes them as UTF-8.
    pub fn get_string(&self, offset: u64) -> (res: Result<String, FileError>)
        ensures
            has_blob_at(self@, offset as int) && valid_utf8(blob_at(self@, offset as int))
                ==> res is Ok && res->Ok_0@ == decode_utf8(blob_at(self@, offset as int)),
            has_blob_at(self@, offset as int) && !valid_utf8(blob_at(self@, offset as int))
                ==> res == Err::<String, FileError>(FileError::IoError(IoErrorKind::InvalidUtf8)),
            !has_blob_at(self@, offset as int) ==> res == Err::<String, FileError>(
                FileError::IoError(
                    if !in_page(self@, offset as int, 4) {
                        IoErrorKind::OutOfBounds
                    } else if i32_at(self@, offset as int) < 0 {
                        IoErrorKind::BadLength
                    } else {
                        IoErrorKind::OutOfBounds
                    },
                ),
            ),
    {
        let byte: Vec<u8> = match self.get_bytes(offset) {
            Ok(byte) => byte,
            Err(e) => {
                return Err(e);
            },
        };
        match string_from_utf8(byte) {
            Some(s) => Ok(s),
            None => Err(FileError::IoError(IoErrorKind::InvalidUtf8)),
        }
    }

    /// Writes `s` at `offset` as its UTF-8 bytes behind their length.
    pub fn set_string(&mut self, offset: u64, s: &str) -> (res: Result<(), FileError>)
        ensures
            blob_fits(old(self)@, offset as int, encode_utf8(s@)) ==> res is Ok && final(self)@
                == write_at(old(self)@, offset as int, blob(encode_utf8(s@))),
            !blob_fits(old(self)@, offset as int, encode_utf8(s@)) ==> res == Err::<
                (),
                FileError,
            >(
                FileError::IoError(
                    if encode_utf8(s@).len() > i32::MAX {
                        IoErrorKind::BadLength
                    } else {
                        IoErrorKind::OutOfBounds
                    },
                ),
            ) && final(self)@ == old(self)@,
    {
        self.set_bytes(offset, s.as_bytes())
    }

    /// The number of bytes that a string of `strlen` bytes takes in a page.
    pub fn max_length(strlen: usize) -> (n: i32)
        requires
            I32_SIZE + strlen <= i32::MAX,
        ensures
            n == I32_SIZE + strlen,
    {
        (I32_SIZE + strlen) as i32
    }

    /// The bytes of the page.
    pub fn contents(&mut self) -> (bytes: &mut Vec<u8>)
        ensures
            bytes@ == old(self)@,
            final(self)@ == final(bytes)@,
    {
        &mut self.bb
    }
}

impl From<Vec<u8>> for Page {
    fn from(b: Vec<u8>) -> (page: Self)
        ensures
            page@ == b@,
    {
        Page { bb: b }
    }
}

impl vstd::std_specs::convert::FromSpecImpl<Vec<u8>> for Page {
    open spec fn obeys_from_spec() -> bool {
        true
    }

    closed spec fn from_spec(b: Vec<u8>) -> Self {
        Page { bb: b }
    }
}

/// An integer written to a page is the integer read back from the same offset.
pub proof fn lemma_set_get_i32(p: Seq<u8>, off: int, v: int)
    requires
        in_page(p, off, 4),
        i32::MIN <= v <= i32::MAX,
    ensures
        in_page(write_at(p, off, i32_be_bytes(v)), off, 4),
        i32_at(write_at(p, off, i32_be_bytes(v)), off) == v,
{
    lemma_i32_round_trip(v);
    lemma_write_at_read_back(p, off, i32_be_bytes(v));
}

/// A 64-bit integer written to a page is the integer read back from the same offset.
pub proof fn lemma_set_get_u64(p: Seq<u8>, off: int, v: int)
    requires
        in_page(p, off, 8),
        0 <= v <= u64::MAX,
    ensures
        in_page(write_at(p, off, u64_be_bytes(v)), off, 8),
        u64_at(write_at(p, off, u64_be_bytes(v)), off) == v,
{
    lemma_u64_round_trip(v);
    lemma_write_at_read_back(p, off, u64_be_bytes(v));
}

/// Bytes written to a page are the bytes read back from the same offset.
pub proof fn lemma_set_get_bytes(p: Seq<u8>, off: int, b: Seq<u8>)
    requires
        blob_fits(p, off, b),
    ensures
        has_blob_at(write_at(p, off, blob(b)), off),
        blob_at(write_at(p, off, blob(b)), off) == b,
{
    let q = write_at(p, off, blob(b));
    lemma_i32_round_trip(b.len() as int);
    assert(q.subrange(off, off + 4) =~= i32_be_bytes(b.len() as int));
    assert(q.subrange(off + 4, off + 4 + b.len()) =~= b);
}

/// A string written to a page is the string read back from the same offset.
pub proof fn lemma_set_get_string(p: Seq<u8>, off: int, s: Seq<char>)
    requires
        blob_fits(p, off, encode_utf8(s)),
    ensures
        has_blob_at(write_at(p, off, blob(encode_utf8(s))), off),
        valid_utf8(blob_at(write_at(p, off, blob(encode_utf8(s))), off)),
        decode_utf8(blob_at(write_at(p, off, blob(encode_utf8(s))), off)) == s,
{
    lemma_set_get_bytes(p, off, encode_utf8(s));
    vstd::utf8::encode_utf8_valid_utf8(s);
    vstd::utf8::encode_utf8_decode_utf8(s);
}

/// A write of `data` at `a` does not change what is read from a range that it
/// does not overlap: neither the bytes of `[b, b + width)`, nor an integer, nor
/// a length with its payload stored in that range.
pub proof fn lemma_disjoint_write(p: Seq<u8>, a: int, data: Seq<u8>, b: int, width: int)
    requires
        0 <= width,
        in_page(p, b, width),
        b + width <= a || a + data.len() <= b,
    ensures
        write_at(p, a, data).subrange(b, b + width) == p.subrange(b, b + width),
        width >= 4 ==> i32_at(write_at(p, a, data), b) == i32_at(p, b),
        width >= 8 ==> u64_at(write_at(p, a, data), b) == u64_at(p, b),
        has_blob_at(p, b) && 4 + i32_at(p, b) <= width ==> has_blob_at(write_at(p, a, data), b)
            && blob_at(write_at(p, a, data), b) == blob_at(p, b),
{
    let q = write_at(p, a, data);
    assert(q.subrange(b, b + width) =~= p.subrange(b, b + width));
    if width >= 4 {
        assert(q.subrange(b, b + 4) =~= p.subrange(b, b + 4));
    }
    if width >= 8 {
        assert(q.subrange(b, b + 8) =~= p.subrange(b, b + 8));
    }
    if has_blob_at(p, b) && 4 + i32_at(p, b) <= width {
        assert(q.subrange(b + 4, b + 4 + i32_at(p, b)) =~= p.subrange(b + 4, b + 4 + i32_at(p, b)));
    }
}

/// A file of the database directory: its name and its bytes.
#[derive(Debug)]
pub struct StoredFile {
    pub name: String,
    pub data: Vec<u8>,
}

/// Whether a directory entry of this name is swept when the database is
/// opened: its name begins with `temp`.
pub open spec fn is_temp(name: Seq<char>) -> bool {
    name.len() >= 4 && name[0] == 't' && name[1] == 'e' && name[2] == 'm' && name[3] == 'p'
}

/// The file table that a list of files with distinct names stands for.
pub open spec fn table_of(files: Seq<StoredFile>) -> Map<Seq<char>, Seq<u8>> {
    Map::new(
        |n: Seq<char>| exists|i: int| 0 <= i < files.len() && files[i].name@ == n,
        |n: Seq<char>| files[choose|i: int| 0 <= i < files.len() && files[i].name@ == n].data@,
    )
}

/// No two files of the list have the same name.
pub open spec fn distinct_names(files: Seq<StoredFile>) -> bool {
    forall|i: int, j: int| 0 <= i < j < files.len() ==> files[i].name@ != files[j].name@
}

/// The file table that a directory listing gives: its entries inserted in
/// order, those with a temporary name left out.
pub open spec fn listed(entries: Seq<StoredFile>) -> Map<Seq<char>, Seq<u8>>
    decreases entries.len(),
{
    if entries.len() == 0 {
        Map::empty()
    } else {
        let rest = listed(entries.drop_last());
        let e = entries.last();
        if is_temp(e.name@) {
            rest
        } else {
            rest.insert(e.name@, e.data@)
        }
    }
}

/// Whether some entry that is kept is larger than a file may be.
pub open spec fn oversized(entries: Seq<StoredFile>) -> bool {
    exists|i: int|
        0 <= i < entries.len() && !is_temp(#[trigger] entries[i].name@) && entries[i].data@.len()
            > MAX_FILE_BYTES
}

/// The table after the file `name` was opened: a file that did not exist is
/// created empty.
pub open spec fn touched(files: Map<Seq<char>, Seq<u8>>, name: Seq<char>) -> Map<
    Seq<char>,
    Seq<u8>,
> {
    if files.contains_key(name) {
        files
    } else {
        files.insert(name, Seq::empty())
    }
}

/// The bytes of the file `name`; none where the file does not exist.
pub open spec fn file_bytes(files: Map<Seq<char>, Seq<u8>>, name: Seq<char>) -> Seq<u8> {
    if files.contains_key(name) {
        files[name]
    } else {
        Seq::empty()
    }
}

/// The size of a file in whole blocks.
pub open spec fn block_count(data: Seq<u8>, bs: int) -> int {
    data.len() as int / bs
}

/// Whether the file holds every byte of block `k`.
pub open spec fn has_block(data: Seq<u8>, bs: int, k: int) -> bool {
    0 <= k && (k + 1) * bs <= data.len()
}

/// The bytes of block `k`.
pub open spec fn block_at(data: Seq<u8>, bs: int, k: int) -> Seq<u8>
    recommends
        has_block(data, bs, k),
{
    data.subrange(k * bs, (k + 1) * bs)
}

/// `data`, filled up with zero bytes to the length `len` where it is shorter.
pub open spec fn padded(data: Seq<u8>, len: int) -> Seq<u8> {
    if data.len() >= len {
        data
    } else {
        data + zeros(len - data.len())
    }
}

/// The file after `page` was written as its block `k`: the file grows, with
/// zero bytes, where the block lies behind its end.
pub open spec fn with_block(data: Seq<u8>, bs: int, k: int, page: Seq<u8>) -> Seq<u8> {
    write_at(padded(data, (k + 1) * bs), k * bs, page)
}

/// The file after one block was appended to its whole blocks.
pub open spec fn extended(data: Seq<u8>, bs: int) -> Seq<u8> {
    padded(data, (block_count(data, bs) + 1) * bs)
}

/// Why a read of block `k` into a page of `page_len` bytes fails, if it does.
pub open spec fn read_failure(data: Seq<u8>, bs: int, k: int, page_len: int) -> Option<
    IoErrorKind,
> {
    if k < 0 {
        Some(IoErrorKind::BadBlock)
    } else if page_len != bs {
        Some(IoErrorKind::PageSize)
    } else if !has_block(data, bs, k) {
        Some(IoErrorKind::ShortRead)
    } else {
        None
    }
}

/// Why a write of a page of `page_len` bytes as block `k` fails, if it does.
pub open spec fn write_failure(bs: int, k: int, page_len: int) -> Option<IoErrorKind> {
    if k < 0 {
        Some(IoErrorKind::BadBlock)
    } else if page_len != bs {
        Some(IoErrorKind::PageSize)
    } else if (k + 1) * bs > MAX_FILE_BYTES {
        Some(IoErrorKind::FileTooLarge)
    } else {
        None
    }
}

/// The result of an operation that returns nothing: `Ok` unless it failed.
pub open spec fn outcome(failure: Option<IoErrorKind>) -> Result<(), FileError> {
    match failure {
        None => Ok(()),
        Some(kind) => Err(FileError::IoError(kind)),
    }
}

/// Whether two strings hold the same characters.
fn same_name(a: &str, b: &str) -> (same: bool)
    ensures
        same == (a@ == b@),
{
    let x: &[u8] = a.as_bytes();
    let y: &[u8] = b.as_bytes();
    proof {
        vstd::utf8::encode_utf8_decode_utf8(a@);
        vstd::utf8::encode_utf8_decode_utf8(b@);
    }
    if x.len() != y.len() {
        return false;
    }
    let mut i: usize = 0;
    while i < x.len()
        invariant
            x@.len() == y@.len(),
            i <= x@.len(),
            x@.subrange(0, i as int) == y@.subrange(0, i as int),
            x@ == encode_utf8(a@),
            y@ == encode_utf8(b@),
        decreases x@.len() - i,
    {
        if x[i] != y[i] {
            assert(x@[i as int] != y@[i as int]);
            return false;
        }
        assert(x@.subrange(0, i + 1) =~= x@.subrange(0, i as int).push(x@[i as int]));
        assert(y@.subrange(0, i + 1) =~= y@.subrange(0, i as int).push(y@[i as int]));
        i += 1;
    }
    assert(x@ =~= x@.subrange(0, i as int));
    assert(y@ =~= y@.subrange(0, i as int));
    true
}

/// Whether a directory entry of this name is swept when the database is opened.
pub fn is_temp_name(name: &str) -> (temp: bool)
    ensures
        temp == is_temp(name@),
{
    let n: usize = name.unicode_len();
    if n < 4 {
        return false;
    }
    name.get_char(0) == 't' && name.get_char(1) == 'e' && name.get_char(2) == 'm'
        && name.get_char(3) == 'p'
}

/// Fills `buf` up with zero bytes to the length `len`.
fn pad_zeros(buf: &mut Vec<u8>, len: usize)
    ensures
        final(buf)@ == padded(old(buf)@, len as int),
{
    let ghost before = buf@;
    while buf.len() < len
        invariant
            before.len() <= buf.len(),
            buf.len() > before.len() ==> buf.len() <= len,
            buf@ == before + zeros(buf.len() - before.len()),
        decreases len - buf.len(),
    {
        buf.push(0u8);
        assert(buf@ =~= before + zeros(buf.len() - before.len()));
    }
    assert(buf@ =~= padded(before, len as int));
}

/// Changing the bytes of one file of the list changes the table at its name only.
proof fn lemma_table_update(before: Seq<StoredFile>, after: Seq<StoredFile>, i: int)
    requires
        distinct_names(before),
        0 <= i < before.len(),
        after.len() == before.len(),
        after[i].name@ == before[i].name@,
        forall|j: int| 0 <= j < before.len() && j != i ==> after[j] == before[j],
    ensures
        distinct_names(after),
        table_of(after) == table_of(before).insert(before[i].name@, after[i].data@),
{
    assert forall|a: int, b: int| 0 <= a < b < after.len() implies after[a].name@
        != after[b].name@ by {
        assert(after[a].name@ == before[a].name@);
        assert(after[b].name@ == before[b].name@);
    }
    let goal = table_of(before).insert(before[i].name@, after[i].data@);
    assert forall|n: Seq<char>| table_of(after).contains_key(n) <==> goal.contains_key(n) by {
        if table_of(after).contains_key(n) {
            let j = choose|j: int| 0 <= j < after.len() && after[j].name@ == n;
            assert(before[j].name@ == n);
        }
        if goal.contains_key(n) && n != before[i].name@ {
            let j = choose|j: int| 0 <= j < before.len() && before[j].name@ == n;
            assert(after[j].name@ == n);
        }
        if n == before[i].name@ {
            assert(after[i].name@ == n);
        }
    }
    assert forall|n: Seq<char>| table_of(after).contains_key(n) implies table_of(after)[n]
        == goal[n] by {
        let j = choose|j: int| 0 <= j < after.len() && after[j].name@ == n;
        assert(before[j].name@ == n);
        if j != i {
            let k = choose|k: int| 0 <= k < before.len() && before[k].name@ == n;
            assert(k == j);
        }
    }
    assert(table_of(after) =~= goal);
}

/// Adding a file with a new name to the list inserts it into the table.
proof fn lemma_table_push(before: Seq<StoredFile>, f: StoredFile)
    requires
        distinct_names(before),
        !table_of(before).contains_key(f.name@),
    ensures
        distinct_names(before.push(f)),
        table_of(before.push(f)) == table_of(before).insert(f.name@, f.data@),
{
    let after = before.push(f);
    assert forall|a: int, b: int| 0 <= a < b < after.len() implies after[a].name@
        != after[b].name@ by {
        assert(after[a] == before[a]);
        if b < before.len() {
            assert(after[b] == before[b]);
        }
    }
    let goal = table_of(before).insert(f.name@, f.data@);
    assert forall|n: Seq<char>| table_of(after).contains_key(n) <==> goal.contains_key(n) by {
        if table_of(after).contains_key(n) {
            let j = choose|j: int| 0 <= j < after.len() && after[j].name@ == n;
            if j < before.len() {
                assert(before[j].name@ == n);
            }
        }
        if goal.contains_key(n) && n != f.name@ {
            let j = choose|j: int| 0 <= j < before.len() && before[j].name@ == n;
            assert(after[j].name@ == n);
        }
        if n == f.name@ {
            assert(after[before.len() as int].name@ == n);
        }
    }
    assert forall|n: Seq<char>| table_of(after).contains_key(n) implies table_of(after)[n]
        == goal[n] by {
        let j = choose|j: int| 0 <= j < after.len() && after[j].name@ == n;
        if j < before.len() {
            assert(before[j].name@ == n);
            let k = choose|k: int| 0 <= k < before.len() && before[k].name@ == n;
            assert(after[k].name@ == n);
            assert(k == j);
        }
    }
    assert(table_of(after) =~= goal);
}

/// Reads and writes pages to the blocks of the database's files.
///
/// The manager holds the file table of one database directory: each file's
/// name with its bytes. A file is created, empty, when it is first touched,
/// and grows only by `append` and by a `write` behind its end.
#[derive(Debug)]
pub struct FileManager {
    open_files: Vec<StoredFile>,
    db_dir: String,
    block_size: i32,
    is_new: bool,
}

impl View for FileManager {
    type V = Map<Seq<char>, Seq<u8>>;

    /// The file table: the bytes of each file, by the file's name.
    closed spec fn view(&self) -> Map<Seq<char>, Seq<u8>> {
        table_of(self.open_files@)
    }
}

impl FileManager {
    /// The manager's invariant: file names are distinct, no file is larger
    /// than `MAX_FILE_BYTES`, and the block size is `BLOCK_SIZE`.
    pub closed spec fn wf(&self) -> bool {
        &&& self.block_size == BLOCK_SIZE
        &&& distinct_names(self.open_files@)
        &&& forall|i: int|
            0 <= i < self.open_files@.len() ==> (#[trigger] self.open_files@[i]).data@.len()
                <= MAX_FILE_BYTES
    }

    pub closed spec fn spec_block_size(&self) -> i32 {
        self.block_size
    }

    pub closed spec fn spec_is_new(&self) -> bool {
        self.is_new
    }

    pub closed spec fn spec_db_dir(&self) -> Seq<char> {
        self.db_dir@
    }

    /// Whether two managers are set up alike: for the same directory, with
    /// the same block size, and both new or both not.
    pub open spec fn same_setup(&self, other: &FileManager) -> bool {
        &&& self.spec_block_size() == other.spec_block_size()
        &&& self.spec_is_new() == other.spec_is_new()
        &&& self.spec_db_dir() == other.spec_db_dir()
    }

    /// In a well-formed manager no file is larger than `MAX_FILE_BYTES`.
    pub proof fn lemma_file_sizes(&self, name: Seq<char>)
        requires
            self.wf(),
        ensures
            file_bytes(self@, name).len() <= MAX_FILE_BYTES,
            self.spec_block_size() == BLOCK_SIZE,
    {
        if self@.contains_key(name) {
            let j = choose|j: int|
                0 <= j < self.open_files@.len() && self.open_files@[j].name@ == name;
            assert(self.open_files@[j].data@.len() <= MAX_FILE_BYTES);
        }
    }

    /// Opens the database directory `db_dir`, given whether it `existed`
    /// and the `entries` found in it. Entries with a temporary name are left
    /// out. The manager is new where the directory had to be created.
    pub fn new(db_dir: &str, existed: bool, entries: Vec<StoredFile>) -> (res: Result<
        FileManager,
        FileError,
    >)
        ensures
            oversized(entries@) ==> res == Err::<FileManager, FileError>(
                FileError::IoError(IoErrorKind::FileTooLarge),
            ),
            !oversized(entries@) ==> res is Ok && res->Ok_0.wf() && res->Ok_0@ == listed(entries@)
                && res->Ok_0.spec_is_new() == !existed && res->Ok_0.spec_db_dir() == db_dir@
                && res->Ok_0.spec_block_size() == BLOCK_SIZE,
    {
        let ghost all = entries@;
        let mut pending = entries;
        let mut open_files: Vec<StoredFile> = Vec::new();
        assert(table_of(open_files@) =~= Map::empty());
        while pending.len() > 0
            invariant
                distinct_names(open_files@),
                forall|i: int|
                    0 <= i < open_files@.len() ==> (#[trigger] open_files@[i]).data@.len()
                        <= MAX_FILE_BYTES,
                all == entries@,
                pending@.len() <= all.len(),
                pending@ == all.subrange(0, pending@.len() as int),
                listed(all) == listed(pending@).union_prefer_right(table_of(open_files@)),
                forall|i: int|
                    pending@.len() <= i < all.len() ==> is_temp(#[trigger] all[i].name@)
                        || all[i].data@.len() <= MAX_FILE_BYTES,
            decreases pending@.len(),
        {
            let ghost rest = pending@;
            let ghost files = open_files@;
            let e: StoredFile = pending.pop().unwrap();
            assert(pending@ =~= all.subrange(0, pending@.len() as int));
            assert(rest.drop_last() == pending@);
            assert(rest.last() == e);
            assert(e == all[pending@.len() as int]);
            if is_temp_name(e.name.as_str()) {
                continue ;
            }
            if e.data.len() > MAX_FILE_BYTES {
                assert(!is_temp(all[pending@.len() as int].name@));
                assert(oversized(all));
                return Err(FileError::IoError(IoErrorKind::FileTooLarge));
            }
            let mut found: bool = false;
            let mut i: usize = 0;
            while i < open_files.len()
                invariant
                    i <= open_files.len(),
                    found <==> exists|j: int| 0 <= j < i && open_files@[j].name@ == e.name@,
                decreases open_files.len() - i,
            {
                if same_name(open_files[i].name.as_str(), e.name.as_str()) {
                    found = true;
                }
                i += 1;
            }
            if found {
                assert(table_of(files).contains_key(e.name@));
                assert(listed(rest).union_prefer_right(table_of(files)) =~= listed(
                    pending@,
                ).union_prefer_right(table_of(files)));
            } else {
                proof {
                    assert(!table_of(files).contains_key(e.name@));
                    lemma_table_push(files, e);
                    assert(listed(rest).union_prefer_right(table_of(files)) =~= listed(
                        pending@,
                    ).union_prefer_right(table_of(files.push(e))));
                }
                open_files.push(e);
            }
        }
        assert(pending@ =~= Seq::empty());
        assert(listed(all) =~= table_of(open_files@));
        Ok(
            FileManager {
                open_files,
                db_dir: db_dir.to_owned(),
                block_size: BLOCK_SIZE,
                is_new: !existed,
            },
        )
    }

    /// The size in bytes of every block of every file.
    pub fn block_size(&self) -> (n: i32)
        ensures
            n == self.spec_block_size(),
            self.wf() ==> n == BLOCK_SIZE,
    {
        self.block_size
    }

    /// Whether the database directory had to be created.
    pub fn is_new(&self) -> (b: bool)
        ensures
            b == self.spec_is_new(),
    {
        self.is_new
    }

    /// The path of the database directory.
    pub fn db_dir(&self) -> (dir: &str)
        ensures
            dir@ == self.spec_db_dir(),
    {
        self.db_dir.as_str()
    }

    /// Finds the file `filename` in the table, creating it empty where it
    /// does not exist, and returns its place in the table.
    fn open(&mut self, filename: &str) -> (at: usize)
        requires
            old(self).wf(),
        ensures
            final(self).wf(),
            final(self)@ == touched(old(self)@, filename@),
            at < final(self).open_files@.len(),
            final(self).open_files@[at as int].name@ == filename@,
            final(self).open_files@[at as int].data@ == file_bytes(old(self)@, filename@),
            final(self).same_setup(old(self)),
    {
        let mut i: usize = 0;
        while i < self.open_files.len()
            invariant
                i <= self.open_files.len(),
                self == old(self),
                self.wf(),
                forall|j: int| 0 <= j < i ==> self.open_files@[j].name@ != filename@,
            decreases self.open_files.len() - i,
        {
            if same_name(self.open_files[i].name.as_str(), filename) {
                proof {
                    let j = choose|j: int|
                        0 <= j < self.open_files@.len() && self.open_files@[j].name@
                            == filename@;
                    assert(j == i);
                }
                return i;
            }
            i += 1;
        }
        let f = StoredFile { name: filename.to_owned(), data: Vec::new() };
        proof {
            assert(f.data@ =~= Seq::empty());
            lemma_table_push(self.open_files@, f);
        }
        self.open_files.push(f);
        i
    }

    /// The size of the file `filename` in whole blocks. The file is created,
    /// empty, where it does not exist.
    pub fn length(&mut self, filename: &str) -> (res: Result<i32, FileError>)
        requires
            old(self).wf(),
        ensures
            final(self).wf(),
            final(self)@ == touched(old(self)@, filename@),
            final(self).same_setup(old(self)),
            res is Ok,
            res->Ok_0 == block_count(file_bytes(old(self)@, filename@), BLOCK_SIZE as int),
    {
        let at: usize = self.open(filename);
        let size: usize = self.open_files[at].data.len();
        Ok((size / (self.block_size as usize)) as i32)
    }

    /// Reads block `block_id` into the page `p`, which must be one block
    /// long. The file is created, empty, where it does not exist. A failed
    /// read leaves the page as it was.
    pub fn read(&mut self, block_id: &BlockId, p: &mut Page) -> (res: Result<(), FileError>)
        requires
            old(self).wf(),
        ensures
            final(self).wf(),
            final(self)@ == touched(old(self)@, block_id@.0),
            final(self).same_setup(old(self)),
            match read_failure(
                file_bytes(old(self)@, block_id@.0),
                BLOCK_SIZE as int,
                block_id@.1,
                old(p)@.len() as int,
            ) {
                None => res is Ok && final(p)@ == block_at(
                    file_bytes(old(self)@, block_id@.0),
                    BLOCK_SIZE as int,
                    block_id@.1,
                ),
                Some(kind) => res == Err::<(), FileError>(FileError::IoError(kind)) && final(p)@
                    == old(p)@,
            },
    {
        let at: usize = self.open(block_id.filename());
        let number: i32 = block_id.number();
        if number < 0 {
            return Err(FileError::IoError(IoErrorKind::BadBlock));
        }
        let bs: usize = self.block_size as usize;
        if p.bb.len() != bs {
            return Err(FileError::IoError(IoErrorKind::PageSize));
        }
        let size: usize = self.open_files[at].data.len();
        if (number as usize) >= size / bs {
            return Err(FileError::IoError(IoErrorKind::ShortRead));
        }
        let offset: usize = (number as usize) * bs;
        let block: Vec<u8> = load_bytes(self.open_files[at].data.as_slice(), offset, bs);
        p.bb = block;
        Ok(())
    }

    /// Writes the page `p`, which must be one block long, as block
    /// `block_id`. The file is created where it does not exist, and grows,
    /// with zero bytes, where the block lies behind its end.
    pub fn write(&mut self, block_id: &BlockId, p: &Page) -> (res: Result<(), FileError>)
        requires
            old(self).wf(),
        ensures
            final(self).wf(),
            final(self).same_setup(old(self)),
            match write_failure(BLOCK_SIZE as int, block_id@.1, p@.len() as int) {
                None => res is Ok && final(self)@ == old(self)@.insert(
                    block_id@.0,
                    with_block(
                        file_bytes(old(self)@, block_id@.0),
                        BLOCK_SIZE as int,
                        block_id@.1,
                        p@,
                    ),
                ),
                Some(kind) => res == Err::<(), FileError>(FileError::IoError(kind))
                    && final(self)@ == touched(old(self)@, block_id@.0),
            },
    {
        let at: usize = self.open(block_id.filename());
        let number: i32 = block_id.number();
        if number < 0 {
            return Err(FileError::IoError(IoErrorKind::BadBlock));
        }
        let bs: usize = self.block_size as usize;
        if p.bb.len() != bs {
            return Err(FileError::IoError(IoErrorKind::PageSize));
        }
        if (number as usize) >= MAX_FILE_BYTES / bs {
            return Err(FileError::IoError(IoErrorKind::FileTooLarge));
        }
        let offset: usize = (number as usize) * bs;
        let ghost files = self.open_files@;
        pad_zeros(&mut self.open_files[at].data, offset + bs);
        store_bytes(&mut self.open_files[at].data, offset, p.bb.as_slice());
        proof {
            lemma_table_update(files, self.open_files@, at as int);
            assert(touched(old(self)@, block_id@.0).insert(
                block_id@.0,
                self.open_files@[at as int].data@,
            ) =~= old(self)@.insert(block_id@.0, self.open_files@[at as int].data@));
        }
        Ok(())
    }

    /// Extends the file `filename` by one block of zero bytes and returns
    /// the new block's id: its number is the file's size in whole blocks
    /// before the call. The file is created where it does not exist.
    pub fn append(&mut self, filename: &str) -> (res: Result<BlockId, FileError>)
        requires
            old(self).wf(),
        ensures
            final(self).wf(),
            final(self).same_setup(old(self)),
            (block_count(file_bytes(old(self)@, filename@), BLOCK_SIZE as int) + 1) * BLOCK_SIZE
                <= MAX_FILE_BYTES ==> res is Ok && res->Ok_0@ == (
                filename@,
                block_count(file_bytes(old(self)@, filename@), BLOCK_SIZE as int),
            ) && final(self)@ == old(self)@.insert(
                filename@,
                extended(file_bytes(old(self)@, filename@), BLOCK_SIZE as int),
            ),
            (block_count(file_bytes(old(self)@, filename@), BLOCK_SIZE as int) + 1) * BLOCK_SIZE
                > MAX_FILE_BYTES ==> res == Err::<BlockId, FileError>(
                FileError::IoError(IoErrorKind::FileTooLarge),
            ) && final(self)@ == touched(old(self)@, filename@),
    {
        let at: usize = self.open(filename);
        let bs: usize = self.block_size as usize;
        let blk_num: usize = self.open_files[at].data.len() / bs;
        if blk_num >= MAX_FILE_BYTES / bs {
            return Err(FileError::IoError(IoErrorKind::FileTooLarge));
        }
        let ghost files = self.open_files@;
        pad_zeros(&mut self.open_files[at].data, (blk_num + 1) * bs);
        proof {
            lemma_table_update(files, self.open_files@, at as int);
            assert(touched(old(self)@, filename@).insert(
                filename@,
                self.open_files@[at as int].data@,
            ) =~= old(self)@.insert(filename@, self.open_files@[at as int].data@));
        }
        Ok(BlockId::new(filename, blk_num as i32))
    }

    /// The file `filename` as the table holds it. The file is created,
    /// empty, where it does not exist.
    pub fn get_file(&mut self, filename: &str) -> (res: Result<&StoredFile, FileError>)
        requires
            old(self).wf(),
        ensures
            final(self).wf(),
            final(self)@ == touched(old(self)@, filename@),
            final(self).same_setup(old(self)),
            res is Ok,
            res->Ok_0.name@ == filename@,
            res->Ok_0.data@ == file_bytes(old(self)@, filename@),
    {
        let at: usize = self.open(filename);
        Ok(&self.open_files[at])
    }

    /// The files of the table, each once.
    pub fn files(&self) -> (files: &Vec<StoredFile>)
        ensures
            table_of(files@) == self@,
            self.wf() ==> distinct_names(files@),
    {
        &self.open_files
    }
}

/// A page written as a block is the page that a read of that block gives,
/// and the write leaves every other block of the file as it was.
pub proof fn lemma_write_then_read(data: Seq<u8>, bs: int, k: int, page: Seq<u8>, other: int)
    requires
        bs > 0,
        write_failure(bs, k, page.len() as int) is None,
    ensures
        read_failure(with_block(data, bs, k, page), bs, k, page.len() as int) is None,
        block_at(with_block(data, bs, k, page), bs, k) == page,
        other != k && has_block(data, bs, other) ==> has_block(
            with_block(data, bs, k, page),
            bs,
            other,
        ) && block_at(with_block(data, bs, k, page), bs, other) == block_at(data, bs, other),
{
    let after = with_block(data, bs, k, page);
    assert((k + 1) * bs == k * bs + bs) by (nonlinear_arith);
    assert(k * bs >= 0) by (nonlinear_arith)
        requires
            k >= 0,
            bs > 0,
    ;
    assert(block_at(after, bs, k) =~= page);
    if other != k && has_block(data, bs, other) {
        assert((other + 1) * bs == other * bs + bs) by (nonlinear_arith);
        assert(other * bs >= 0) by (nonlinear_arith)
            requires
                other >= 0,
                bs > 0,
        ;
        assert((other + 1) * bs <= k * bs || (k + 1) * bs <= other * bs) by (nonlinear_arith)
            requires
                other != k,
                bs > 0,
        ;
        assert(block_at(after, bs, other) =~= block_at(data, bs, other));
    }
}

/// Appending grows the size of a file in blocks by exactly one, and keeps
/// the bytes that the file held.
pub proof fn lemma_append_grows(data: Seq<u8>, bs: int)
    requires
        bs > 0,
    ensures
        block_count(extended(data, bs), bs) == block_count(data, bs) + 1,
        extended(data, bs).subrange(0, data.len() as int) == data,
        has_block(extended(data, bs), bs, block_count(data, bs)),
{
    let k = block_count(data, bs);
    let len = data.len() as int;
    assert(k >= 0 && k * bs <= len < (k + 1) * bs) by {
        vstd::arithmetic::div_mod::lemma_fundamental_div_mod(len, bs);
        vstd::arithmetic::div_mod::lemma_mod_bound(len, bs);
        vstd::arithmetic::div_mod::lemma_div_pos_is_pos(len, bs);
        assert(bs * k == k * bs) by (nonlinear_arith);
        assert((k + 1) * bs == k * bs + bs) by (nonlinear_arith);
    }
    assert(extended(data, bs).len() == (k + 1) * bs);
    assert(((k + 1) * bs) / bs == k + 1) by {
        vstd::arithmetic::div_mod::lemma_div_multiples_vanish(k + 1, bs);
        assert((k + 1) * bs == bs * (k + 1)) by (nonlinear_arith);
    }
    assert(extended(data, bs).subrange(0, len) =~= data);
}

} // verus!
