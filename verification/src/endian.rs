//! Big-endian integers in byte strings.
use vstd::prelude::*;

verus! {

/// The big-endian bytes of `v`.
pub open spec fn be32(v: u32) -> Seq<u8> {
    seq![(v / 0x1000000) as u8, ((v / 0x10000) % 256) as u8, ((v / 0x100) % 256) as u8, (v % 256) as u8]
}

/// The number that four big-endian bytes at `i` stand for.
pub open spec fn read_be32(b: Seq<u8>, i: int) -> u32 {
    (b[i] as int * 0x1000000 + b[i + 1] as int * 0x10000 + b[i + 2] as int * 0x100 + b[i + 3] as int) as u32
}

pub proof fn lemma_be32_roundtrip(v: u32, rest: Seq<u8>, pre: Seq<u8>)
    ensures
        read_be32(pre + be32(v) + rest, pre.len() as int) == v,
{
    let b = pre + be32(v) + rest;
    let n = pre.len() as int;
    assert(b[n] == (v / 0x1000000) as u8);
    assert(b[n + 1] == ((v / 0x10000) % 256) as u8);
    assert(b[n + 2] == ((v / 0x100) % 256) as u8);
    assert(b[n + 3] == (v % 256) as u8);
    assert((v / 0x1000000) as int * 0x1000000 + ((v / 0x10000) % 256) as int * 0x10000 + ((v
        / 0x100) % 256) as int * 0x100 + (v % 256) as int == v) by (nonlinear_arith);
}

proof fn lemma_be32_digits(x0: int, x1: int, x2: int, x3: int)
    requires
        0 <= x0 < 256,
        0 <= x1 < 256,
        0 <= x2 < 256,
        0 <= x3 < 256,
    ensures
        0 <= x0 * 0x1000000 + x1 * 0x10000 + x2 * 0x100 + x3 < 0x100000000,
        (x0 * 0x1000000 + x1 * 0x10000 + x2 * 0x100 + x3) / 0x1000000 == x0,
        ((x0 * 0x1000000 + x1 * 0x10000 + x2 * 0x100 + x3) / 0x10000) % 256 == x1,
        ((x0 * 0x1000000 + x1 * 0x10000 + x2 * 0x100 + x3) / 0x100) % 256 == x2,
        (x0 * 0x1000000 + x1 * 0x10000 + x2 * 0x100 + x3) % 256 == x3,
{
    let v = x0 * 0x1000000 + x1 * 0x10000 + x2 * 0x100 + x3;
    assert(v / 0x10000 == x0 * 0x100 + x1);
    assert(v / 0x100 == x0 * 0x10000 + x1 * 0x100 + x2);
}

/// Four bytes are the big-endian bytes of the number they stand for.
pub proof fn lemma_be32_bytes(b: Seq<u8>, i: int)
    requires
        0 <= i,
        i + 4 <= b.len(),
    ensures
        be32(read_be32(b, i)) == b.subrange(i, i + 4),
{
    lemma_be32_digits(b[i] as int, b[i + 1] as int, b[i + 2] as int, b[i + 3] as int);
    assert(be32(read_be32(b, i)) =~= b.subrange(i, i + 4));
}

/// The big-endian bytes of `v`.
pub open spec fn be16(v: u16) -> Seq<u8> {
    seq![(v / 0x100) as u8, (v % 256) as u8]
}

/// The number that two big-endian bytes at `i` stand for.
pub open spec fn read_be16(b: Seq<u8>, i: int) -> u16 {
    (b[i] as int * 0x100 + b[i + 1] as int) as u16
}

/// Appends the big-endian bytes of `v`.
pub fn push_be16(out: &mut Vec<u8>, v: u16)
    ensures
        final(out)@ == old(out)@ + be16(v),
{
    out.push((v / 0x100) as u8);
    out.push((v % 256) as u8);
    assert(final(out)@ =~= old(out)@ + be16(v));
}

/// Appends the big-endian bytes of `v`.
pub fn push_be32(out: &mut Vec<u8>, v: u32)
    ensures
        final(out)@ == old(out)@ + be32(v),
{
    out.push((v / 0x1000000) as u8);
    out.push(((v / 0x10000) % 256) as u8);
    out.push(((v / 0x100) % 256) as u8);
    out.push((v % 256) as u8);
    assert(final(out)@ =~= old(out)@ + be32(v));
}

/// The number that two big-endian bytes at `i` stand for.
pub fn get_be16(b: &[u8], i: usize) -> (r: u16)
    requires
        i + 2 <= b@.len(),
    ensures
        r == read_be16(b@, i as int),
{
    (b[i] as u16) * 0x100 + (b[i + 1] as u16)
}

/// The number that four big-endian bytes at `i` stand for.
pub fn get_be32(b: &[u8], i: usize) -> (r: u32)
    requires
        i + 4 <= b@.len(),
    ensures
        r == read_be32(b@, i as int),
{
    (b[i] as u32) * 0x1000000 + (b[i + 1] as u32) * 0x10000 + (b[i + 2] as u32) * 0x100 + (b[i
        + 3] as u32)
}

} // verus!
