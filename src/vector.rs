//! Dense vectors of single-precision floats.
use vstd::prelude::*;

use crate::endian::{
    be16_bytes, be32_bytes, be32_seq, lemma_be32_seq_at, lemma_be32_seq_len, lemma_read_be16,
    lemma_read_be32, push_be16, push_be32, read_be16, read_be32, u16_at, u32_at,
};
use crate::error::CodecError;

verus! {

/// The largest number of elements that a dense or half vector header can count.
pub const MAX_DIM: usize = 65535;

/// A dense vector. Each element is the IEEE 754 bit pattern of an `f32`.
#[derive(Clone, Debug, PartialEq)]
pub struct Vector(Vec<u32>);

impl View for Vector {
    type V = Seq<u32>;

    closed spec fn view(&self) -> Seq<u32> {
        self.0@
    }
}

/// The binary form of a dense vector `v`: a `u16` dimension, a `u16` zero
/// reserved field, then each element as four big-endian bytes.
pub open spec fn vector_encoding(v: Seq<u32>) -> Result<Seq<u8>, CodecError> {
    if v.len() == 0 {
        Err(CodecError::EmptyVector)
    } else if v.len() > MAX_DIM {
        Err(CodecError::DimensionOverflow)
    } else {
        Ok(be16_bytes(v.len() as u16) + be16_bytes(0) + be32_seq(v))
    }
}

/// What the binary form `b` decodes to. Bytes after the declared elements
/// are ignored.
pub open spec fn vector_decoding(b: Seq<u8>) -> Result<Seq<u32>, CodecError> {
    if b.len() < 4 {
        Err(CodecError::TruncatedInput)
    } else if u16_at(b, 2) != 0 {
        Err(CodecError::ReservedFieldNonZero)
    } else if u16_at(b, 0) == 0 {
        Err(CodecError::EmptyVector)
    } else if b.len() < 4 + 4 * u16_at(b, 0) {
        Err(CodecError::TruncatedInput)
    } else {
        Ok(Seq::new(u16_at(b, 0) as nat, |i: int| u32_at(b, 4 + 4 * i)))
    }
}

impl From<Vec<u32>> for Vector {
    fn from(v: Vec<u32>) -> (r: Vector)
        ensures
            r@ == v@,
    {
        Vector(v)
    }
}

impl vstd::std_specs::convert::FromSpecImpl<Vec<u32>> for Vector {
    open spec fn obeys_from_spec() -> bool {
        true
    }

    closed spec fn from_spec(v: Vec<u32>) -> Vector {
        Vector(v)
    }
}

impl From<Vector> for Vec<u32> {
    fn from(v: Vector) -> (r: Vec<u32>)
        ensures
            r@ == v@,
    {
        v.0
    }
}

impl vstd::std_specs::convert::FromSpecImpl<Vector> for Vec<u32> {
    open spec fn obeys_from_spec() -> bool {
        true
    }

    closed spec fn from_spec(v: Vector) -> Vec<u32> {
        v.0
    }
}

impl Vector {
    /// A copy of the elements.
    pub fn to_vec(&self) -> (r: Vec<u32>)
        ensures
            r@ == self@,
    {
        vstd::slice::slice_to_vec(self.0.as_slice())
    }

    /// The elements as a slice.
    pub fn as_slice(&self) -> (r: &[u32])
        ensures
            r@ == self@,
    {
        self.0.as_slice()
    }

    /// Encodes the vector in its binary form.
    pub fn to_sql(&self) -> (r: Result<Vec<u8>, CodecError>)
        ensures
            match r {
                Ok(out) => vector_encoding(self@) == Ok::<Seq<u8>, CodecError>(out@),
                Err(e) => vector_encoding(self@) == Err::<Seq<u8>, CodecError>(e),
            },
    {
        let n = self.0.len();
        if n == 0 {
            return Err(CodecError::EmptyVector);
        }
        if n > MAX_DIM {
            return Err(CodecError::DimensionOverflow);
        }
        let mut out: Vec<u8> = Vec::with_capacity(4 + 4 * n);
        push_be16(&mut out, n as u16);
        push_be16(&mut out, 0);
        let ghost header = out@;
        let mut i: usize = 0;
        while i < n
            invariant
                n == self@.len(),
                i <= n,
                header == be16_bytes(n as u16) + be16_bytes(0),
                out@ == header + be32_seq(self@.take(i as int)),
            decreases n - i,
        {
            push_be32(&mut out, self.0[i]);
            proof {
                let next = self@.take(i + 1);
                assert(next.drop_last() =~= self@.take(i as int));
                assert(header + be32_seq(next) =~= header + be32_seq(self@.take(i as int))
                    + be32_bytes(self@[i as int]));
            }
            i += 1;
        }
        proof {
            assert(self@.take(n as int) =~= self@);
        }
        Ok(out)
    }

    /// Decodes a vector from its binary form.
    pub fn from_sql(buf: &[u8]) -> (r: Result<Vector, CodecError>)
        ensures
            match r {
                Ok(v) => vector_decoding(buf@) == Ok::<Seq<u32>, CodecError>(v@),
                Err(e) => vector_decoding(buf@) == Err::<Seq<u32>, CodecError>(e),
            },
    {
        if buf.len() < 4 {
            return Err(CodecError::TruncatedInput);
        }
        let dim = read_be16(buf, 0) as usize;
        if read_be16(buf, 2) != 0 {
            return Err(CodecError::ReservedFieldNonZero);
        }
        if dim == 0 {
            return Err(CodecError::EmptyVector);
        }
        if buf.len() < 4 + 4 * dim {
            return Err(CodecError::TruncatedInput);
        }
        let mut v: Vec<u32> = Vec::with_capacity(dim);
        let mut i: usize = 0;
        while i < dim
            invariant
                dim == u16_at(buf@, 0),
                4 + 4 * dim <= buf@.len(),
                i <= dim,
                v@ =~= Seq::new(i as nat, |k: int| u32_at(buf@, 4 + 4 * k)),
            decreases dim - i,
        {
            v.push(read_be32(buf, 4 + 4 * i));
            i += 1;
        }
        Ok(Vector(v))
    }
}

/// Decoding the binary form of a vector of 1 to 65535 elements gives back the
/// same elements, bit for bit (NaN payloads and signed zeros included).
pub proof fn lemma_vector_round_trip(v: Seq<u32>)
    requires
        1 <= v.len() <= MAX_DIM,
    ensures
        vector_encoding(v) is Ok,
        vector_decoding(vector_encoding(v)->Ok_0) == Ok::<Seq<u32>, CodecError>(v),
{
    let b = be16_bytes(v.len() as u16) + be16_bytes(0) + be32_seq(v);
    lemma_be32_seq_len(v);
    assert(b.subrange(0, 2) =~= be16_bytes(v.len() as u16));
    lemma_read_be16(b, 0, v.len() as u16);
    assert(b.subrange(2, 4) =~= be16_bytes(0));
    lemma_read_be16(b, 2, 0);
    assert forall|k: int| 0 <= k < v.len() implies u32_at(b, 4 + 4 * k) == v[k] by {
        lemma_be32_seq_at(v, k);
        assert(b.subrange(4 + 4 * k, 4 + 4 * k + 4) =~= be32_seq(v).subrange(4 * k, 4 * k + 4));
        lemma_read_be32(b, 4 + 4 * k, v[k]);
    }
    assert(Seq::new(v.len(), |i: int| u32_at(b, 4 + 4 * i)) =~= v);
}

} // verus!
