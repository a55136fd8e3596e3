//! Integers in network byte order, and appending to an output buffer.

use vstd::prelude::*;

verus! {

/// The 16-bit integer whose big-endian bytes are `hi`, `lo`.
pub open spec fn be16(hi: u8, lo: u8) -> u16 {
    (hi as int * 256 + lo as int) as u16
}

/// The 32-bit integer whose big-endian bytes are `b0` to `b3`.
pub open spec fn be32(b0: u8, b1: u8, b2: u8, b3: u8) -> u32 {
    (((b0 as int * 256 + b1 as int) * 256 + b2 as int) * 256 + b3 as int) as u32
}

/// The two bytes of `x`, most significant first.
pub open spec fn u16_be(x: u16) -> Seq<u8> {
    seq![(x / 256) as u8, (x % 256) as u8]
}

/// The four bytes of `x`, most significant first.
pub open spec fn u32_be(x: u32) -> Seq<u8> {
    seq![
        (x / 0x100_0000) as u8,
        (x / 0x1_0000 % 256) as u8,
        (x / 0x100 % 256) as u8,
        (x % 256) as u8,
    ]
}

/// Reading back the bytes of a 16-bit integer gives the integer.
pub proof fn lemma_be16_of_bytes(x: u16)
    ensures
        u16_be(x).len() == 2,
        be16(u16_be(x)[0], u16_be(x)[1]) == x,
{
}

/// Reading back the bytes of a 32-bit integer gives the integer.
pub proof fn lemma_be32_of_bytes(x: u32)
    ensures
        u32_be(x).len() == 4,
        be32(u32_be(x)[0], u32_be(x)[1], u32_be(x)[2], u32_be(x)[3]) == x,
{
}

/// Composes a 16-bit integer from its big-endian bytes.
pub fn join_u16(hi: u8, lo: u8) -> (x: u16)
    ensures
        x == be16(hi, lo),
{
    (hi as u16) * 256 + (lo as u16)
}

/// Composes a 32-bit integer from its big-endian bytes.
pub fn join_u32(b0: u8, b1: u8, b2: u8, b3: u8) -> (x: u32)
    ensures
        x == be32(b0, b1, b2, b3),
{
    (((b0 as u32) * 256 + (b1 as u32)) * 256 + (b2 as u32)) * 256 + (b3 as u32)
}

/// Appends `x` in network byte order.
pub fn put_u16(w: &mut Vec<u8>, x: u16)
    ensures
        final(w)@ == old(w)@ + u16_be(x),
{
    w.push((x / 256) as u8);
    w.push((x % 256) as u8);
    assert(w@ =~= old(w)@ + u16_be(x));
}

/// Appends `x` in network byte order.
pub fn put_u32(w: &mut Vec<u8>, x: u32)
    ensures
        final(w)@ == old(w)@ + u32_be(x),
{
    w.push((x / 0x100_0000) as u8);
    w.push((x / 0x1_0000 % 256) as u8);
    w.push((x / 0x100 % 256) as u8);
    w.push((x % 256) as u8);
    assert(w@ =~= old(w)@ + u32_be(x));
}

/// Appends a run of bytes.
pub fn put_bytes(w: &mut Vec<u8>, bytes: &[u8])
    ensures
        final(w)@ == old(w)@ + bytes@,
{
    let mut i: usize = 0;
    while i < bytes.len()
        invariant
            i <= bytes@.len(),
            w@ == old(w)@ + bytes@.take(i as int),
        decreases bytes@.len() - i,
    {
        w.push(bytes[i]);
        i += 1;
        assert(w@ =~= old(w)@ + bytes@.take(i as int));
    }
    assert(bytes@.take(i as int) =~= bytes@);
}

} // verus!
