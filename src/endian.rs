//! Big-endian integers in byte sequences.
use vstd::prelude::*;

verus! {

/// The two bytes of `x`, most significant first.
pub open spec fn be16_bytes(x: u16) -> Seq<u8> {
    seq![(x >> 8u16) as u8, x as u8]
}

/// The four bytes of `x`, most significant first.
pub open spec fn be32_bytes(x: u32) -> Seq<u8> {
    seq![(x >> 24u32) as u8, (x >> 16u32) as u8, (x >> 8u32) as u8, x as u8]
}

/// The big-endian `u16` that starts at offset `at` of `b`.
pub open spec fn u16_at(b: Seq<u8>, at: int) -> u16 {
    ((b[at] as u16) << 8u16) | (b[at + 1] as u16)
}

/// The big-endian `u32` that starts at offset `at` of `b`.
pub open spec fn u32_at(b: Seq<u8>, at: int) -> u32 {
    ((b[at] as u32) << 24u32) | ((b[at + 1] as u32) << 16u32) | ((b[at + 2] as u32) << 8u32) | (
    b[at + 3] as u32)
}

/// Each element of `v` as two big-endian bytes, in order.
pub open spec fn be16_seq(v: Seq<u16>) -> Seq<u8>
    decreases v.len(),
{
    if v.len() == 0 {
        Seq::empty()
    } else {
        be16_seq(v.drop_last()) + be16_bytes(v.last())
    }
}

/// Each element of `v` as four big-endian bytes, in order.
pub open spec fn be32_seq(v: Seq<u32>) -> Seq<u8>
    decreases v.len(),
{
    if v.len() == 0 {
        Seq::empty()
    } else {
        be32_seq(v.drop_last()) + be32_bytes(v.last())
    }
}

proof fn lemma_u16_bytes_join(x: u16)
    by (bit_vector)
    ensures
        ((((x >> 8u16) as u8) as u16) << 8u16) | (((x as u8) as u16)) == x,
{
}

proof fn lemma_u32_bytes_join(x: u32)
    by (bit_vector)
    ensures
        ((((x >> 24u32) as u8) as u32) << 24u32) | ((((x >> 16u32) as u8) as u32) << 16u32) | ((((x
            >> 8u32) as u8) as u32) << 8u32) | (((x as u8) as u32)) == x,
{
}

/// Reading back the two bytes written for `x` gives `x`.
pub proof fn lemma_read_be16(b: Seq<u8>, at: int, x: u16)
    requires
        0 <= at,
        at + 2 <= b.len(),
        b.subrange(at, at + 2) == be16_bytes(x),
    ensures
        u16_at(b, at) == x,
{
    assert(b[at] == b.subrange(at, at + 2)[0]);
    assert(b[at + 1] == b.subrange(at, at + 2)[1]);
    lemma_u16_bytes_join(x);
}

/// Reading back the four bytes written for `x` gives `x`.
pub proof fn lemma_read_be32(b: Seq<u8>, at: int, x: u32)
    requires
        0 <= at,
        at + 4 <= b.len(),
        b.subrange(at, at + 4) == be32_bytes(x),
    ensures
        u32_at(b, at) == x,
{
    assert(b[at] == b.subrange(at, at + 4)[0]);
    assert(b[at + 1] == b.subrange(at, at + 4)[1]);
    assert(b[at + 2] == b.subrange(at, at + 4)[2]);
    assert(b[at + 3] == b.subrange(at, at + 4)[3]);
    lemma_u32_bytes_join(x);
}

pub proof fn lemma_be16_seq_len(v: Seq<u16>)
    ensures
        be16_seq(v).len() == 2 * v.len(),
    decreases v.len(),
{
    if v.len() > 0 {
        lemma_be16_seq_len(v.drop_last());
    }
}

pub proof fn lemma_be32_seq_len(v: Seq<u32>)
    ensures
        be32_seq(v).len() == 4 * v.len(),
    decreases v.len(),
{
    if v.len() > 0 {
        lemma_be32_seq_len(v.drop_last());
    }
}

/// Element `k` of `v` occupies bytes `2k .. 2k + 2` of `be16_seq(v)`.
pub proof fn lemma_be16_seq_at(v: Seq<u16>, k: int)
    requires
        0 <= k < v.len(),
    ensures
        be16_seq(v).len() == 2 * v.len(),
        be16_seq(v).subrange(2 * k, 2 * k + 2) == be16_bytes(v[k]),
    decreases v.len(),
{
    lemma_be16_seq_len(v);
    lemma_be16_seq_len(v.drop_last());
    let prefix = be16_seq(v.drop_last());
    if k == v.len() - 1 {
        assert(be16_seq(v).subrange(2 * k, 2 * k + 2) =~= be16_bytes(v[k]));
    } else {
        lemma_be16_seq_at(v.drop_last(), k);
        assert(be16_seq(v).subrange(2 * k, 2 * k + 2) =~= prefix.subrange(2 * k, 2 * k + 2));
    }
}

/// Element `k` of `v` occupies bytes `4k .. 4k + 4` of `be32_seq(v)`.
pub proof fn lemma_be32_seq_at(v: Seq<u32>, k: int)
    requires
        0 <= k < v.len(),
    ensures
        be32_seq(v).len() == 4 * v.len(),
        be32_seq(v).subrange(4 * k, 4 * k + 4) == be32_bytes(v[k]),
    decreases v.len(),
{
    lemma_be32_seq_len(v);
    lemma_be32_seq_len(v.drop_last());
    let prefix = be32_seq(v.drop_last());
    if k == v.len() - 1 {
        assert(be32_seq(v).subrange(4 * k, 4 * k + 4) =~= be32_bytes(v[k]));
    } else {
        lemma_be32_seq_at(v.drop_last(), k);
        assert(be32_seq(v).subrange(4 * k, 4 * k + 4) =~= prefix.subrange(4 * k, 4 * k + 4));
    }
}

/// Appends the two big-endian bytes of `x`.
pub fn push_be16(out: &mut Vec<u8>, x: u16)
    ensures
        final(out)@ == old(out)@ + be16_bytes(x),
{
    out.push((x >> 8u16) as u8);
    out.push(x as u8);
    assert(final(out)@ =~= old(out)@ + be16_bytes(x));
}

/// Appends the four big-endian bytes of `x`.
pub fn push_be32(out: &mut Vec<u8>, x: u32)
    ensures
        final(out)@ == old(out)@ + be32_bytes(x),
{
    out.push((x >> 24u32) as u8);
    out.push((x >> 16u32) as u8);
    out.push((x >> 8u32) as u8);
    out.push(x as u8);
    assert(final(out)@ =~= old(out)@ + be32_bytes(x));
}

/// The big-endian `u16` at offset `at`.
pub fn read_be16(b: &[u8], at: usize) -> (r: u16)
    requires
        at + 2 <= b@.len(),
    ensures
        r == u16_at(b@, at as int),
{
    ((b[at] as u16) << 8u16) | (b[at + 1] as u16)
}

/// The big-endian `u32` at offset `at`.
pub fn read_be32(b: &[u8], at: usize) -> (r: u32)
    requires
        at + 4 <= b@.len(),
    ensures
        r == u32_at(b@, at as int),
{
    ((b[at] as u32) << 24u32) | ((b[at + 1] as u32) << 16u32) | ((b[at + 2] as u32) << 8u32) | (
    b[at + 3] as u32)
}

} // verus!
