//! Big-endian integers and byte ranges inside a buffer.
//!
//! Everything a page stores is laid out with the functions of this module:
//! fixed-width integers most significant byte first, and ranges of bytes
//! copied in and out of a buffer whose length never changes.

use vstd::prelude::*;

verus! {

/// The unsigned value that the first four bytes of `b` denote, most significant byte first.
#[verifier::opaque]
pub open spec fn be_u32(b: Seq<u8>) -> int
    recommends
        b.len() >= 4,
{
    b[0] as int * 0x100_0000 + b[1] as int * 0x1_0000 + b[2] as int * 0x100 + b[3] as int
}

/// The signed value that the first four bytes of `b` denote in two's complement,
/// most significant byte first.
pub open spec fn be_i32(b: Seq<u8>) -> int
    recommends
        b.len() >= 4,
{
    if be_u32(b) >= 0x8000_0000 {
        be_u32(b) - 0x1_0000_0000
    } else {
        be_u32(b)
    }
}

/// The four bytes that denote the unsigned value `u`, most significant byte first.
#[verifier::opaque]
pub open spec fn u32_be_bytes(u: int) -> Seq<u8>
    recommends
        0 <= u <= u32::MAX,
{
    seq![
        (u / 0x100_0000 % 0x100) as u8,
        (u / 0x1_0000 % 0x100) as u8,
        (u / 0x100 % 0x100) as u8,
        (u % 0x100) as u8,
    ]
}

/// The four bytes that denote `v` in two's complement, most significant byte first.
pub open spec fn i32_be_bytes(v: int) -> Seq<u8>
    recommends
        i32::MIN <= v <= i32::MAX,
{
    u32_be_bytes(
        if v < 0 {
            v + 0x1_0000_0000
        } else {
            v
        },
    )
}

/// The unsigned value that the first eight bytes of `b` denote, most significant byte first.
pub open spec fn be_u64(b: Seq<u8>) -> int
    recommends
        b.len() >= 8,
{
    be_u32(b) * 0x1_0000_0000 + be_u32(b.skip(4))
}

/// The eight bytes that denote `v`, most significant byte first.
pub open spec fn u64_be_bytes(v: int) -> Seq<u8>
    recommends
        0 <= v <= u64::MAX,
{
    u32_be_bytes(v / 0x1_0000_0000) + u32_be_bytes(v % 0x1_0000_0000)
}

/// `s` with the bytes of `data` laid over it from position `off` on.
/// The length of `s` is kept: what would fall behind its end is dropped.
pub open spec fn write_at(s: Seq<u8>, off: int, data: Seq<u8>) -> Seq<u8> {
    Seq::new(
        s.len(),
        |i: int|
            if off <= i < off + data.len() {
                data[i - off]
            } else {
                s[i]
            },
    )
}

/// A sequence of `n` zero bytes.
pub open spec fn zeros(n: int) -> Seq<u8> {
    Seq::new(n as nat, |i: int| 0u8)
}

/// An unsigned 32-bit value survives encoding and decoding, and takes four bytes.
pub proof fn lemma_u32_round_trip(u: int)
    requires
        0 <= u <= u32::MAX,
    ensures
        u32_be_bytes(u).len() == 4,
        be_u32(u32_be_bytes(u)) == u,
{
    reveal(be_u32);
    reveal(u32_be_bytes);
}

/// A 32-bit value survives encoding and decoding, and takes four bytes.
pub proof fn lemma_i32_round_trip(v: int)
    requires
        i32::MIN <= v <= i32::MAX,
    ensures
        i32_be_bytes(v).len() == 4,
        be_i32(i32_be_bytes(v)) == v,
{
    if v < 0 {
        lemma_u32_round_trip(v + 0x1_0000_0000);
    } else {
        lemma_u32_round_trip(v);
    }
}

/// A 64-bit value survives encoding and decoding, and takes eight bytes.
pub proof fn lemma_u64_round_trip(v: int)
    requires
        0 <= v <= u64::MAX,
    ensures
        u64_be_bytes(v).len() == 8,
        be_u64(u64_be_bytes(v)) == v,
{
    let h = v / 0x1_0000_0000;
    let l = v % 0x1_0000_0000;
    lemma_u32_round_trip(h);
    lemma_u32_round_trip(l);
    let hi = u32_be_bytes(h);
    let lo = u32_be_bytes(l);
    reveal(be_u32);
    assert((hi + lo).skip(4) =~= lo);
    assert((hi + lo)[0] == hi[0] && (hi + lo)[1] == hi[1] && (hi + lo)[2] == hi[2] && (hi
        + lo)[3] == hi[3]);
}

/// What was written at `off` is what stands there afterwards.
pub proof fn lemma_write_at_read_back(s: Seq<u8>, off: int, data: Seq<u8>)
    requires
        0 <= off,
        off + data.len() <= s.len(),
    ensures
        write_at(s, off, data).len() == s.len(),
        write_at(s, off, data).subrange(off, off + data.len()) == data,
{
    assert(write_at(s, off, data).subrange(off, off + data.len()) =~= data);
}

/// Writing a concatenation is writing its first part and then its second part behind it.
pub proof fn lemma_write_at_concat(s: Seq<u8>, off: int, a: Seq<u8>, b: Seq<u8>)
    requires
        0 <= off,
    ensures
        write_at(s, off, a + b) == write_at(write_at(s, off, a), off + a.len(), b),
{
    assert(write_at(s, off, a + b) =~= write_at(write_at(s, off, a), off + a.len(), b));
}

/// Reads the 32-bit integer stored at `off`.
pub(crate) fn load_i32(buf: &[u8], off: usize) -> (v: i32)
    requires
        off + 4 <= buf.len(),
    ensures
        v == be_i32(buf@.subrange(off as int, off + 4)),
{
    let b0: u32 = buf[off] as u32;
    let b1: u32 = buf[off + 1] as u32;
    let b2: u32 = buf[off + 2] as u32;
    let b3: u32 = buf[off + 3] as u32;
    let u: u32 = b0 * 0x100_0000 + b1 * 0x1_0000 + b2 * 0x100 + b3;
    proof {
        reveal(be_u32);
    }
    if u >= 0x8000_0000 {
        (u as i64 - 0x1_0000_0000i64) as i32
    } else {
        u as i32
    }
}

/// Reads the 64-bit integer stored at `off`.
pub(crate) fn load_u64(buf: &[u8], off: usize) -> (v: u64)
    requires
        off + 8 <= buf.len(),
    ensures
        v == be_u64(buf@.subrange(off as int, off + 8)),
{
    let ghost b = buf@.subrange(off as int, off + 8);
    let hi: u64 = buf[off] as u64 * 0x100_0000 + buf[off + 1] as u64 * 0x1_0000 + buf[off
        + 2] as u64 * 0x100 + buf[off + 3] as u64;
    let lo: u64 = buf[off + 4] as u64 * 0x100_0000 + buf[off + 5] as u64 * 0x1_0000 + buf[off
        + 6] as u64 * 0x100 + buf[off + 7] as u64;
    proof {
        reveal(be_u32);
        assert(b.skip(4)[0] == b[4]);
        assert(b.skip(4)[1] == b[5]);
        assert(b.skip(4)[2] == b[6]);
        assert(b.skip(4)[3] == b[7]);
        assert(hi == be_u32(b));
        assert(lo == be_u32(b.skip(4)));
    }
    hi * 0x1_0000_0000 + lo
}

/// Stores `v` at `off` as four bytes.
pub(crate) fn store_i32(buf: &mut Vec<u8>, off: usize, v: i32)
    requires
        off + 4 <= old(buf).len(),
    ensures
        final(buf)@ == write_at(old(buf)@, off as int, i32_be_bytes(v as int)),
{
    let u: u32 = if v < 0 {
        (v as i64 + 0x1_0000_0000i64) as u32
    } else {
        v as u32
    };
    buf[off] = (u / 0x100_0000 % 0x100) as u8;
    buf[off + 1] = (u / 0x1_0000 % 0x100) as u8;
    buf[off + 2] = (u / 0x100 % 0x100) as u8;
    buf[off + 3] = (u % 0x100) as u8;
    proof {
        reveal(u32_be_bytes);
    }
    assert(buf@ =~= write_at(old(buf)@, off as int, i32_be_bytes(v as int)));
}

/// Stores `v` at `off` as eight bytes.
pub(crate) fn store_u64(buf: &mut Vec<u8>, off: usize, v: u64)
    requires
        off + 8 <= old(buf).len(),
    ensures
        final(buf)@ == write_at(old(buf)@, off as int, u64_be_bytes(v as int)),
{
    let hi: u64 = v / 0x1_0000_0000;
    let lo: u64 = v % 0x1_0000_0000;
    buf[off] = (hi / 0x100_0000 % 0x100) as u8;
    buf[off + 1] = (hi / 0x1_0000 % 0x100) as u8;
    buf[off + 2] = (hi / 0x100 % 0x100) as u8;
    buf[off + 3] = (hi % 0x100) as u8;
    buf[off + 4] = (lo / 0x100_0000 % 0x100) as u8;
    buf[off + 5] = (lo / 0x1_0000 % 0x100) as u8;
    buf[off + 6] = (lo / 0x100 % 0x100) as u8;
    buf[off + 7] = (lo % 0x100) as u8;
    proof {
        reveal(u32_be_bytes);
    }
    assert(buf@ =~= write_at(old(buf)@, off as int, u64_be_bytes(v as int)));
}

/// Copies `data` over the bytes of `buf` from `off` on.
pub(crate) fn store_bytes(buf: &mut Vec<u8>, off: usize, data: &[u8])
    requires
        off + data@.len() <= old(buf).len(),
    ensures
        final(buf)@ == write_at(old(buf)@, off as int, data@),
{
    let n: usize = data.len();
    let mut i: usize = 0;
    while i < n
        invariant
            n == data@.len(),
            i <= n,
            off + n <= buf.len(),
            buf@ == write_at(old(buf)@, off as int, data@.subrange(0, i as int)),
        decreases n - i,
    {
        buf[off + i] = data[i];
        assert(buf@ =~= write_at(old(buf)@, off as int, data@.subrange(0, i + 1)));
        i += 1;
    }
    assert(data@.subrange(0, n as int) =~= data@);
}

/// Copies the `len` bytes of `buf` that start at `off`.
pub(crate) fn load_bytes(buf: &[u8], off: usize, len: usize) -> (out: Vec<u8>)
    requires
        off + len <= buf.len(),
    ensures
        out@ == buf@.subrange(off as int, off + len),
{
    let mut out: Vec<u8> = Vec::with_capacity(len);
    let mut i: usize = 0;
    while i < len
        invariant
            i <= len,
            off + len <= buf.len(),
            out@ == buf@.subrange(off as int, off + i),
        decreases len - i,
    {
        out.push(buf[off + i]);
        assert(out@ =~= buf@.subrange(off as int, off + i + 1));
        i += 1;
    }
    out
}

} // verus!
