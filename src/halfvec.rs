//! Dense vectors of half-precision floats.
use vstd::prelude::*;

use crate::endian::{
    be16_bytes, be16_seq, lemma_be16_seq_at, lemma_be16_seq_len, lemma_read_be16, push_be16,
    read_be16, u16_at,
};
use crate::error::CodecError;
use crate::vector::MAX_DIM;

verus! {

/// A half vector. Each element is the IEEE 754 bit pattern of a
/// half-precision float.
#[derive(Clone, Debug, PartialEq)]
pub struct HalfVector(Vec<u16>);

impl View for HalfVector {
    type V = Seq<u16>;

    closed spec fn view(&self) -> Seq<u16> {
        self.0@
    }
}

/// The binary form of a half vector `v`: a `u16` dimension, a `u16` zero
/// reserved field, then each element as two big-endian bytes.
pub open spec fn halfvec_encoding(v: Seq<u16>) -> Result<Seq<u8>, CodecError> {
    if v.len() == 0 {
        Err(CodecError::EmptyVector)
    } else if v.len() > MAX_DIM {
        Err(CodecError::DimensionOverflow)
    } else {
        Ok(be16_bytes(v.len() as u16) + be16_bytes(0) + be16_seq(v))
    }
}

/// What the binary form `b` decodes to. Bytes after the declared elements
/// are ignored.
pub open spec fn halfvec_decoding(b: Seq<u8>) -> Result<Seq<u16>, CodecError> {
    if b.len() < 4 {
        Err(CodecError::TruncatedInput)
    } else if u16_at(b, 2) != 0 {
        Err(CodecError::ReservedFieldNonZero)
    } else if u16_at(b, 0) == 0 {
        Err(CodecError::EmptyVector)
    } else if b.len() < 4 + 2 * u16_at(b, 0) {
        Err(CodecError::TruncatedInput)
    } else {
        Ok(Seq::new(u16_at(b, 0) as nat, |i: int| u16_at(b, 4 + 2 * i)))
    }
}

impl From<Vec<u16>> for HalfVector {
    fn from(v: Vec<u16>) -> (r: HalfVector)
        ensures
            r@ == v@,
    {
        HalfVector(v)
    }
}

impl vstd::std_specs::convert::FromSpecImpl<Vec<u16>> for HalfVector {
    open spec fn obeys_from_spec() -> bool {
        true
    }

    closed spec fn from_spec(v: Vec<u16>) -> HalfVector {
        HalfVector(v)
    }
}

impl From<HalfVector> for Vec<u16> {
    fn from(v: HalfVector) -> (r: Vec<u16>)
        ensures
            r@ == v@,
    {
        v.0
    }
}

impl vstd::std_specs::convert::FromSpecImpl<HalfVector> for Vec<u16> {
    open spec fn obeys_from_spec() -> bool {
        true
    }

    closed spec fn from_spec(v: HalfVector) -> Vec<u16> {
        v.0
    }
}

impl HalfVector {
    /// A copy of the elements.
    pub fn to_vec(&self) -> (r: Vec<u16>)
        ensures
            r@ == self@,
    {
        vstd::slice::slice_to_vec(self.0.as_slice())
    }

    /// The elements as a slice.
    pub fn as_slice(&self) -> (r: &[u16])
        ensures
            r@ == self@,
    {
        self.0.as_slice()
    }

    /// Encodes the half vector in its binary form.
    pub fn to_sql(&self) -> (r: Result<Vec<u8>, CodecError>)
        ensures
            match r {
                Ok(out) => halfvec_encoding(self@) == Ok::<Seq<u8>, CodecError>(out@),
                Err(e) => halfvec_encoding(self@) == Err::<Seq<u8>, CodecError>(e),
            },
    {
        let n = self.0.len();
        if n == 0 {
            return Err(CodecError::EmptyVector);
        }
        if n > MAX_DIM {
            return Err(CodecError::DimensionOverflow);
        }
        let mut out: Vec<u8> = Vec::with_capacity(4 + 2 * n);
        push_be16(&mut out, n as u16);
        push_be16(&mut out, 0);
        let ghost header = out@;
        let mut i: usize = 0;
        while i < n
            invariant
                n == self@.len(),
                i <= n,
                header == be16_bytes(n as u16) + be16_bytes(0),
                out@ == header + be16_seq(self@.take(i as int)),
            decreases n - i,
        {
            push_be16(&mut out, self.0[i]);
            proof {
                let next = self@.take(i + 1);
                assert(next.drop_last() =~= self@.take(i as int));
                assert(header + be16_seq(next) =~= header + be16_seq(self@.take(i as int))
                    + be16_bytes(self@[i as int]));
            }
            i += 1;
        }
        proof {
            assert(self@.take(n as int) =~= self@);
        }
        Ok(out)
    }

    /// Decodes a half vector from its binary form.
    pub fn from_sql(buf: &[u8]) -> (r: Result<HalfVector, CodecError>)
        ensures
            match r {
                Ok(v) => halfvec_decoding(buf@) == Ok::<Seq<u16>, CodecError>(v@),
                Err(e) => halfvec_decoding(buf@) == Err::<Seq<u16>, CodecError>(e),
            },
    {
        if buf.len() < 4 {
            return Err(CodecError::TruncatedInput);
        }
        let dim = read_be16(buf, 0) as usize;
        if read_be16(buf, 2) != 0 {
            return Err(CodecError::ReservedFieldNonZero);
        }
        if dim == 0 {
            return Err(CodecError::EmptyVector);
        }
        if buf.len() < 4 + 2 * dim {
            return Err(CodecError::TruncatedInput);
        }
        let mut v: Vec<u16> = Vec::with_capacity(dim);
        let mut i: usize = 0;
        while i < dim
            invariant
                dim == u16_at(buf@, 0),
                4 + 2 * dim <= buf@.len(),
                i <= dim,
                v@ =~= Seq::new(i as nat, |k: int| u16_at(buf@, 4 + 2 * k)),
            decreases dim - i,
        {
            v.push(read_be16(buf, 4 + 2 * i));
            i += 1;
        }
        Ok(HalfVector(v))
    }
}

/// Decoding the binary form of a half vector of 1 to 65535 elements gives back
/// the same elements, bit for bit.
pub proof fn lemma_halfvec_round_trip(v: Seq<u16>)
    requires
        1 <= v.len() <= MAX_DIM,
    ensures
        halfvec_encoding(v) is Ok,
        halfvec_decoding(halfvec_encoding(v)->Ok_0) == Ok::<Seq<u16>, CodecError>(v),
{
    let b = be16_bytes(v.len() as u16) + be16_bytes(0) + be16_seq(v);
    lemma_be16_seq_len(v);
    assert(b.subrange(0, 2) =~= be16_bytes(v.len() as u16));
    lemma_read_be16(b, 0, v.len() as u16);
    assert(b.subrange(2, 4) =~= be16_bytes(0));
    lemma_read_be16(b, 2, 0);
    assert forall|k: int| 0 <= k < v.len() implies u16_at(b, 4 + 2 * k) == v[k] by {
        lemma_be16_seq_at(v, k);
        assert(b.subrange(4 + 2 * k, 4 + 2 * k + 2) =~= be16_seq(v).subrange(2 * k, 2 * k + 2));
        lemma_read_be16(b, 4 + 2 * k, v[k]);
    }
    assert(Seq::new(v.len(), |i: int| u16_at(b, 4 + 2 * i)) =~= v);
}

} // verus!
