use vstd::prelude::*;

verus! {

/// Why a value could not be encoded or a buffer could not be decoded.
#[derive(Clone, Copy, Debug, PartialEq, Eq, Structural)]
pub enum CodecError {
    /// The value has more elements than its header field can count.
    DimensionOverflow,
    /// The buffer is shorter than its header declares.
    TruncatedInput,
    /// A reserved header field is not zero.
    ReservedFieldNonZero,
    /// A sparse vector whose entry count is not below its dimension, or whose
    /// indices are not strictly ascending within the dimension.
    InvalidSparseLayout,
    /// A dense or half vector with no elements.
    EmptyVector,
    /// A bit string header that declares a negative length.
    NegativeLength,
}

} // verus!
