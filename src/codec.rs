use vstd::prelude::*;

verus! {

/// The big-endian value of the eight bytes of `b` that start at `pos`.
pub open spec fn u64_at(b: Seq<u8>, pos: int) -> u64 {
    (b[pos] as u64) << 56u64 | (b[pos + 1] as u64) << 48u64 | (b[pos + 2] as u64) << 40u64 | (
    b[pos + 3] as u64) << 32u64 | (b[pos + 4] as u64) << 24u64 | (b[pos + 5] as u64) << 16u64 | (
    b[pos + 6] as u64) << 8u64 | (b[pos + 7] as u64)
}

/// The byte of `x` that sits `s` bits up.
pub open spec fn byte_of(x: u64, s: u64) -> u8 {
    ((x >> s) & 0xffu64) as u8
}

/// The eight big-endian bytes of `x`.
pub open spec fn u64_bytes(x: u64) -> Seq<u8> {
    seq![
        byte_of(x, 56),
        byte_of(x, 48),
        byte_of(x, 40),
        byte_of(x, 32),
        byte_of(x, 24),
        byte_of(x, 16),
        byte_of(x, 8),
        byte_of(x, 0),
    ]
}

pub fn read_u64(b: &[u8], pos: usize) -> (r: u64)
    requires
        pos + 8 <= b@.len(),
    ensures
        r == u64_at(b@, pos as int),
{
    (b[pos] as u64) << 56u64 | (b[pos + 1] as u64) << 48u64 | (b[pos + 2] as u64) << 40u64 | (b[pos
        + 3] as u64) << 32u64 | (b[pos + 4] as u64) << 24u64 | (b[pos + 5] as u64) << 16u64 | (b[pos
        + 6] as u64) << 8u64 | (b[pos + 7] as u64)
}

fn push_byte_of(out: &mut Vec<u8>, x: u64, s: u64)
    requires
        s < 64,
    ensures
        final(out)@ == old(out)@.push(byte_of(x, s)),
{
    out.push(((x >> s) & 0xffu64) as u8);
}

pub fn write_u64(out: &mut Vec<u8>, x: u64)
    ensures
        final(out)@ == old(out)@ + u64_bytes(x),
{
    push_byte_of(out, x, 56);
    push_byte_of(out, x, 48);
    push_byte_of(out, x, 40);
    push_byte_of(out, x, 32);
    push_byte_of(out, x, 24);
    push_byte_of(out, x, 16);
    push_byte_of(out, x, 8);
    push_byte_of(out, x, 0);
    assert(out@ =~= old(out)@ + u64_bytes(x));
}

proof fn lemma_byte_cast(x: u64, s: u64)
    ensures
        byte_of(x, s) as u64 == (x >> s) & 0xffu64,
{
    assert((x >> s) & 0xffu64 <= 0xffu64) by (bit_vector);
}

/// Reading back the bytes of `x` gives `x`, wherever they stand.
pub proof fn lemma_u64_round_trip(b: Seq<u8>, pos: int, x: u64)
    requires
        0 <= pos,
        pos + 8 <= b.len(),
        b.subrange(pos, pos + 8) == u64_bytes(x),
    ensures
        u64_at(b, pos) == x,
{
    let e = u64_bytes(x);
    assert(b[pos] == e[0]);
    assert(b[pos + 1] == e[1]);
    assert(b[pos + 2] == e[2]);
    assert(b[pos + 3] == e[3]);
    assert(b[pos + 4] == e[4]);
    assert(b[pos + 5] == e[5]);
    assert(b[pos + 6] == e[6]);
    assert(b[pos + 7] == e[7]);
    lemma_byte_cast(x, 56);
    lemma_byte_cast(x, 48);
    lemma_byte_cast(x, 40);
    lemma_byte_cast(x, 32);
    lemma_byte_cast(x, 24);
    lemma_byte_cast(x, 16);
    lemma_byte_cast(x, 8);
    lemma_byte_cast(x, 0);
    assert(((x >> 56u64) & 0xffu64) << 56u64 | ((x >> 48u64) & 0xffu64) << 48u64 | ((x >> 40u64)
        & 0xffu64) << 40u64 | ((x >> 32u64) & 0xffu64) << 32u64 | ((x >> 24u64) & 0xffu64) << 24u64
        | ((x >> 16u64) & 0xffu64) << 16u64 | ((x >> 8u64) & 0xffu64) << 8u64 | ((x >> 0u64)
        & 0xffu64) == x) by (bit_vector);
}

} // verus!
