//! Big-endian integer fields and byte runs, the building blocks of every
//! datagram. All multi-byte integers travel most significant byte first.

use vstd::prelude::*;

verus! {

/// The four bytes of a 32-bit field, most significant first.
pub open spec fn u32_be(v: u32) -> Seq<u8> {
    seq![
        (v / 0x100_0000) as u8,
        ((v / 0x1_0000) % 0x100) as u8,
        ((v / 0x100) % 0x100) as u8,
        (v % 0x100) as u8,
    ]
}

/// The 32-bit value whose big-endian image starts at `at`. Meaningful when
/// `at + 4 <= bytes.len()`.
pub open spec fn u32_at(bytes: Seq<u8>, at: int) -> u32 {
    (bytes[at] as int * 0x100_0000 + bytes[at + 1] as int * 0x1_0000 + bytes[at + 2] as int * 0x100
        + bytes[at + 3] as int) as u32
}

/// The two bytes of a 16-bit field, most significant first.
pub open spec fn u16_be(v: u16) -> Seq<u8> {
    seq![(v / 0x100) as u8, (v % 0x100) as u8]
}

/// The 16-bit value whose big-endian image starts at `at`. Meaningful when
/// `at + 2 <= bytes.len()`.
pub open spec fn u16_at(bytes: Seq<u8>, at: int) -> u16 {
    (bytes[at] as int * 0x100 + bytes[at + 1] as int) as u16
}

/// Reading a 32-bit field back from where its image was written gives the
/// value that was written.
pub proof fn lemma_u32_at_be(bytes: Seq<u8>, at: int, v: u32)
    requires
        0 <= at,
        at + 4 <= bytes.len(),
        bytes.subrange(at, at + 4) == u32_be(v),
    ensures
        u32_at(bytes, at) == v,
{
    let img = bytes.subrange(at, at + 4);
    assert(bytes[at] == img[0]);
    assert(bytes[at + 1] == img[1]);
    assert(bytes[at + 2] == img[2]);
    assert(bytes[at + 3] == img[3]);
}

/// Writing the 32-bit field read at `at` reproduces the four bytes there.
pub proof fn lemma_u32_be_at(bytes: Seq<u8>, at: int)
    requires
        0 <= at,
        at + 4 <= bytes.len(),
    ensures
        u32_be(u32_at(bytes, at)) == bytes.subrange(at, at + 4),
{
    let b0 = bytes[at] as int;
    let b1 = bytes[at + 1] as int;
    let b2 = bytes[at + 2] as int;
    let b3 = bytes[at + 3] as int;
    let v = b0 * 0x100_0000 + b1 * 0x1_0000 + b2 * 0x100 + b3;
    assert(0 <= v <= u32::MAX);
    assert(v / 0x100_0000 == b0);
    assert((v / 0x1_0000) % 0x100 == b1);
    assert((v / 0x100) % 0x100 == b2);
    assert(v % 0x100 == b3);
    assert(u32_be(u32_at(bytes, at)) =~= bytes.subrange(at, at + 4));
}

/// Reading a 16-bit field back from where its image was written gives the
/// value that was written.
pub proof fn lemma_u16_at_be(bytes: Seq<u8>, at: int, v: u16)
    requires
        0 <= at,
        at + 2 <= bytes.len(),
        bytes.subrange(at, at + 2) == u16_be(v),
    ensures
        u16_at(bytes, at) == v,
{
    let img = bytes.subrange(at, at + 2);
    assert(bytes[at] == img[0]);
    assert(bytes[at + 1] == img[1]);
}

/// Writing the 16-bit field read at `at` reproduces the two bytes there.
pub proof fn lemma_u16_be_at(bytes: Seq<u8>, at: int)
    requires
        0 <= at,
        at + 2 <= bytes.len(),
    ensures
        u16_be(u16_at(bytes, at)) == bytes.subrange(at, at + 2),
{
    let b0 = bytes[at] as int;
    let b1 = bytes[at + 1] as int;
    let v = b0 * 0x100 + b1;
    assert(v / 0x100 == b0);
    assert(v % 0x100 == b1);
    assert(u16_be(u16_at(bytes, at)) =~= bytes.subrange(at, at + 2));
}

/// Appends the big-endian image of `v` to `buf`.
pub fn put_u32(buf: &mut Vec<u8>, v: u32)
    ensures
        final(buf)@ == old(buf)@ + u32_be(v),
{
    buf.push((v / 0x100_0000) as u8);
    buf.push(((v / 0x1_0000) % 0x100) as u8);
    buf.push(((v / 0x100) % 0x100) as u8);
    buf.push((v % 0x100) as u8);
    assert(buf@ =~= old(buf)@ + u32_be(v));
}

/// Appends the big-endian image of `v` to `buf`.
pub fn put_u16(buf: &mut Vec<u8>, v: u16)
    ensures
        final(buf)@ == old(buf)@ + u16_be(v),
{
    buf.push((v / 0x100) as u8);
    buf.push((v % 0x100) as u8);
    assert(buf@ =~= old(buf)@ + u16_be(v));
}

/// Appends every byte of `bytes` to `buf`, in order.
pub fn put_bytes(buf: &mut Vec<u8>, bytes: &[u8])
    ensures
        final(buf)@ == old(buf)@ + bytes@,
{
    let mut i: usize = 0;
    while i < bytes.len()
        invariant
            i <= bytes@.len(),
            buf@ == old(buf)@ + bytes@.subrange(0, i as int),
        decreases bytes@.len() - i,
    {
        buf.push(bytes[i]);
        i += 1;
        assert(buf@ =~= old(buf)@ + bytes@.subrange(0, i as int));
    }
    assert(bytes@.subrange(0, i as int) =~= bytes@);
}

/// Reads the 32-bit big-endian field that starts at `at`.
pub fn get_u32(data: &[u8], at: usize) -> (v: u32)
    requires
        at + 4 <= data@.len(),
    ensures
        v == u32_at(data@, at as int),
{
    let b0: u32 = data[at] as u32;
    let b1: u32 = data[at + 1] as u32;
    let b2: u32 = data[at + 2] as u32;
    let b3: u32 = data[at + 3] as u32;
    b0 * 0x100_0000 + b1 * 0x1_0000 + b2 * 0x100 + b3
}

/// Reads the 16-bit big-endian field that starts at `at`.
pub fn get_u16(data: &[u8], at: usize) -> (v: u16)
    requires
        at + 2 <= data@.len(),
    ensures
        v == u16_at(data@, at as int),
{
    let b0: u16 = data[at] as u16;
    let b1: u16 = data[at + 1] as u16;
    b0 * 0x100 + b1
}

} // verus!
