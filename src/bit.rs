//! Fixed-length bit strings.
use vstd::prelude::*;

use crate::endian::{be32_bytes, lemma_read_be32, push_be32, read_be32, u32_at};
use crate::error::CodecError;

verus! {

/// The largest bit length that the `i32` header field of a bit string holds.
pub const MAX_BIT_LEN: usize = 2147483647;

/// The content of a bit string: its length in bits and its packed bytes.
pub struct BitView {
    pub len: nat,
    pub data: Seq<u8>,
}

/// The number of bytes that hold `bits` bits.
pub open spec fn byte_len(bits: nat) -> nat {
    (bits + 7) / 8
}

/// The packed bytes are exactly as many as the length needs.
pub open spec fn bit_wf(b: BitView) -> bool {
    b.data.len() == byte_len(b.len)
}

/// Bit `s` of `x`, counting from the least significant.
pub open spec fn bit_of(x: u8, s: u8) -> bool {
    (x >> s) & 1u8 == 1u8
}

/// Bit `i` of the packed bytes `data`: the bits of each byte run from the most
/// significant to the least.
pub open spec fn bit_at(data: Seq<u8>, i: int) -> bool {
    bit_of(data[i / 8], (7 - i % 8) as u8)
}

/// The binary form of `b`: an `i32` bit length, then the packed bytes.
pub open spec fn bit_encoding(b: BitView) -> Result<Seq<u8>, CodecError> {
    if b.len > MAX_BIT_LEN {
        Err(CodecError::DimensionOverflow)
    } else {
        Ok(be32_bytes(b.len as u32) + b.data)
    }
}

/// What the binary form `b` decodes to. Bytes after the declared ones are
/// ignored. A length word above `MAX_BIT_LEN` is a negative `i32`.
pub open spec fn bit_decoding(b: Seq<u8>) -> Result<BitView, CodecError> {
    if b.len() < 4 {
        Err(CodecError::TruncatedInput)
    } else if u32_at(b, 0) > MAX_BIT_LEN {
        Err(CodecError::NegativeLength)
    } else if b.len() < 4 + byte_len(u32_at(b, 0) as nat) {
        Err(CodecError::TruncatedInput)
    } else {
        Ok(BitView { len: u32_at(b, 0) as nat, data: b.subrange(4, 4 + byte_len(u32_at(b, 0) as nat) as int) })
    }
}

proof fn lemma_set_bit(x: u8, s: u8, t: u8)
    by (bit_vector)
    requires
        s < 8,
        t < 8,
    ensures
        bit_of(x | (1u8 << s), t) == (t == s || bit_of(x, t)),
        !bit_of(0u8, t),
{
}

/// A bit string.
#[derive(Debug, PartialEq, Eq)]
pub struct Bit {
    len: usize,
    data: Vec<u8>,
}

impl View for Bit {
    type V = BitView;

    closed spec fn view(&self) -> BitView {
        BitView { len: self.len as nat, data: self.data@ }
    }
}

impl Clone for Bit {
    fn clone(&self) -> (r: Bit)
        ensures
            r@ == self@,
    {
        proof {
            use_type_invariant(self);
        }
        Bit { len: self.len, data: vstd::slice::slice_to_vec(self.data.as_slice()) }
    }
}

impl Bit {
    #[verifier::type_invariant]
    spec fn inv(&self) -> bool {
        bit_wf(self@)
    }

    /// Creates a bit string from a slice of bits, packed in order; the unused
    /// bits of the last byte are zero.
    pub fn new(data: &[bool]) -> (r: Bit)
        ensures
            r@.len == data@.len(),
            bit_wf(r@),
            forall|i: int| 0 <= i < data@.len() ==> bit_at(r@.data, i) == data@[i],
            forall|i: int| data@.len() <= i < 8 * r@.data.len() ==> !bit_at(r@.data, i),
    {
        let len = data.len();
        let nbytes = if len % 8 == 0 {
            len / 8
        } else {
            len / 8 + 1
        };
        let mut bytes: Vec<u8> = Vec::with_capacity(nbytes);
        let mut k: usize = 0;
        while k < nbytes
            invariant
                k <= nbytes,
                bytes@ == Seq::new(k as nat, |j: int| 0u8),
            decreases nbytes - k,
        {
            bytes.push(0);
            k += 1;
            proof {
                assert(bytes@ =~= Seq::new(k as nat, |j: int| 0u8));
            }
        }
        proof {
            assert forall|j: int| 0 <= j < 8 * nbytes implies !bit_at(bytes@, j) by {
                lemma_set_bit(0, 0, (7 - j % 8) as u8);
            }
        }
        let mut i: usize = 0;
        while i < len
            invariant
                len == data@.len(),
                nbytes == byte_len(len as nat),
                i <= len,
                bytes@.len() == nbytes,
                forall|j: int| 0 <= j < i ==> bit_at(bytes@, j) == data@[j],
                forall|j: int| i <= j < 8 * nbytes ==> !bit_at(bytes@, j),
            decreases len - i,
        {
            if data[i] {
                let at = i / 8;
                let shift = (7 - i % 8) as u8;
                let ghost before = bytes@;
                bytes.set(at, bytes[at] | (1u8 << shift));
                proof {
                    assert forall|j: int| 0 <= j < 8 * nbytes && j != i implies bit_at(bytes@, j)
                        == bit_at(before, j) by {
                        if j / 8 == at {
                            assert(j == 8 * (j / 8) + j % 8);
                            assert(i == 8 * (i / 8) + i % 8);
                            assert(j % 8 != i % 8);
                            lemma_set_bit(before[at as int], shift, (7 - j % 8) as u8);
                        }
                    }
                    lemma_set_bit(before[at as int], shift, shift);
                    assert forall|j: int| i < j < 8 * nbytes implies !bit_at(bytes@, j) by {
                        assert(bit_at(bytes@, j) == bit_at(before, j));
                    }
                }
            }
            i += 1;
        }
        Bit { len, data: bytes }
    }

    /// Creates a bit string from whole bytes: its length is eight bits per
    /// byte.
    pub fn from_bytes(data: &[u8]) -> (r: Bit)
        requires
            8 * data@.len() <= usize::MAX,
        ensures
            r@ == (BitView { len: 8 * data@.len(), data: data@ }),
    {
        Bit { len: data.len() * 8, data: vstd::slice::slice_to_vec(data) }
    }

    /// The number of bits.
    pub fn len(&self) -> (r: usize)
        ensures
            r == self@.len,
    {
        self.len
    }

    /// Whether the bit string holds no bits.
    pub fn is_empty(&self) -> (r: bool)
        ensures
            r == (self@.len == 0),
    {
        self.len == 0
    }

    /// The packed bytes.
    pub fn as_bytes(&self) -> (r: &[u8])
        ensures
            r@ == self@.data,
            bit_wf(self@),
    {
        proof {
            use_type_invariant(self);
        }
        self.data.as_slice()
    }

    /// Encodes the bit string in its binary form.
    pub fn to_sql(&self) -> (r: Result<Vec<u8>, CodecError>)
        ensures
            match r {
                Ok(out) => bit_encoding(self@) == Ok::<Seq<u8>, CodecError>(out@),
                Err(e) => bit_encoding(self@) == Err::<Seq<u8>, CodecError>(e),
            },
    {
        if self.len > MAX_BIT_LEN {
            return Err(CodecError::DimensionOverflow);
        }
        let mut out: Vec<u8> = Vec::new();
        push_be32(&mut out, self.len as u32);
        let ghost header = out@;
        let n = self.data.len();
        let mut i: usize = 0;
        while i < n
            invariant
                n == self@.data.len(),
                i <= n,
                out@ == header + self@.data.take(i as int),
            decreases n - i,
        {
            out.push(self.data[i]);
            proof {
                assert(header + self@.data.take(i + 1) =~= (header + self@.data.take(i as int)).push(
                    self@.data[i as int],
                ));
            }
            i += 1;
        }
        proof {
            assert(self@.data.take(n as int) =~= self@.data);
        }
        Ok(out)
    }

    /// Decodes a bit string from its binary form.
    pub fn from_sql(buf: &[u8]) -> (r: Result<Bit, CodecError>)
        ensures
            match r {
                Ok(v) => bit_decoding(buf@) == Ok::<BitView, CodecError>(v@),
                Err(e) => bit_decoding(buf@) == Err::<BitView, CodecError>(e),
            },
    {
        if buf.len() < 4 {
            return Err(CodecError::TruncatedInput);
        }
        let len = read_be32(buf, 0) as usize;
        if len > MAX_BIT_LEN {
            return Err(CodecError::NegativeLength);
        }
        let nbytes = (len + 7) / 8;
        if buf.len() < 4 + nbytes {
            return Err(CodecError::TruncatedInput);
        }
        let data = vstd::slice::slice_to_vec(vstd::slice::slice_subrange(buf, 4, 4 + nbytes));
        Ok(Bit { len, data })
    }
}

/// Decoding the binary form of a well-formed bit string whose length fits the
/// header gives back the same bit string.
pub proof fn lemma_bit_round_trip(v: BitView)
    requires
        bit_wf(v),
        v.len <= MAX_BIT_LEN,
    ensures
        bit_encoding(v) is Ok,
        bit_decoding(bit_encoding(v)->Ok_0) == Ok::<BitView, CodecError>(v),
{
    let b = be32_bytes(v.len as u32) + v.data;
    assert(b.subrange(0, 4) =~= be32_bytes(v.len as u32));
    lemma_read_be32(b, 0, v.len as u32);
    assert(b.subrange(4, 4 + byte_len(v.len) as int) =~= v.data);
}

/// Decoding the binary form of the bit string made from the bytes `b` gives
/// back `b`, wherever its length in bits fits the header.
pub proof fn lemma_bytes_round_trip(b: Seq<u8>)
    requires
        8 * b.len() <= MAX_BIT_LEN,
    ensures
        bit_encoding(BitView { len: 8 * b.len(), data: b }) is Ok,
        bit_decoding(bit_encoding(BitView { len: 8 * b.len(), data: b })->Ok_0) is Ok,
        bit_decoding(bit_encoding(BitView { len: 8 * b.len(), data: b })->Ok_0)->Ok_0.data == b,
{
    lemma_bit_round_trip(BitView { len: 8 * b.len(), data: b });
}

} // verus!
