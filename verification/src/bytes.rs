//! Little-endian encodings of 64-bit and pointer-sized integers.

use vstd::prelude::*;

verus! {

/// The eight little-endian bytes of `x`, least significant first.
pub open spec fn u64_le_bytes(x: u64) -> Seq<u8> {
    seq![
        (x % 256) as u8,
        ((x / 0x100) % 256) as u8,
        ((x / 0x10000) % 256) as u8,
        ((x / 0x1000000) % 256) as u8,
        ((x / 0x100000000) % 256) as u8,
        ((x / 0x10000000000) % 256) as u8,
        ((x / 0x1000000000000) % 256) as u8,
        ((x / 0x100000000000000) % 256) as u8,
    ]
}

/// The number whose little-endian encoding is the first eight bytes of `b`.
pub open spec fn le_u64_value(b: Seq<u8>) -> int
    recommends
        b.len() >= 8,
{
    b[0] + 0x100 * b[1] + 0x10000 * b[2] + 0x1000000 * b[3] + 0x100000000 * b[4]
        + 0x10000000000 * b[5] + 0x1000000000000 * b[6] + 0x100000000000000 * b[7]
}

/// Appends the little-endian encoding of `x` to `out`.
pub fn push_u64_le(out: &mut Vec<u8>, x: u64)
    ensures
        final(out)@ == old(out)@ + u64_le_bytes(x),
{
    out.push((x % 256) as u8);
    out.push(((x / 0x100) % 256) as u8);
    out.push(((x / 0x10000) % 256) as u8);
    out.push(((x / 0x1000000) % 256) as u8);
    out.push(((x / 0x100000000) % 256) as u8);
    out.push(((x / 0x10000000000) % 256) as u8);
    out.push(((x / 0x1000000000000) % 256) as u8);
    out.push(((x / 0x100000000000000) % 256) as u8);
    assert(final(out)@ =~= old(out)@ + u64_le_bytes(x));
}

/// The little-endian bytes of `x`, as many as a `usize` has (eight or four).
pub open spec fn usize_le_bytes(x: usize) -> Seq<u8> {
    if usize::BITS == 64 {
        u64_le_bytes(x as u64)
    } else {
        u64_le_bytes(x as u64).take(4)
    }
}

/// Appends the little-endian encoding of `x`, in the width of a `usize`, to `out`.
pub fn push_usize_le(out: &mut Vec<u8>, x: usize)
    ensures
        final(out)@ == old(out)@ + usize_le_bytes(x),
{
    if usize::BITS == 64 {
        push_u64_le(out, x as u64);
    } else {
        let y = x as u64;
        out.push((y % 256) as u8);
        out.push(((y / 0x100) % 256) as u8);
        out.push(((y / 0x10000) % 256) as u8);
        out.push(((y / 0x1000000) % 256) as u8);
        assert(final(out)@ =~= old(out)@ + usize_le_bytes(x));
    }
}

/// Reads the first eight bytes of `b` as a little-endian number.
pub fn read_u64_le(b: &[u8]) -> (v: u64)
    requires
        b@.len() >= 8,
    ensures
        v == le_u64_value(b@),
{
    let b0 = b[0] as u64;
    let b1 = b[1] as u64;
    let b2 = b[2] as u64;
    let b3 = b[3] as u64;
    let b4 = b[4] as u64;
    let b5 = b[5] as u64;
    let b6 = b[6] as u64;
    let b7 = b[7] as u64;
    b0 + 0x100 * b1 + 0x10000 * b2 + 0x1000000 * b3 + 0x100000000 * b4 + 0x10000000000 * b5
        + 0x1000000000000 * b6 + 0x100000000000000 * b7
}

} // verus!
