//! Binary wire codec for the vector column kinds of a vector-search database
//! extension: dense vectors, half-precision vectors, sparse vectors and bit
//! strings.
//!
//! Floating-point elements are carried as their IEEE 754 bit patterns (`u32`
//! for single precision, `u16` for half precision), so every conversion here is
//! bit-exact, NaN payloads and signed zeros included.
pub mod bit;
pub mod endian;
pub mod error;
pub mod halfvec;
pub mod kind;
pub mod sparsevec;
pub mod vector;

pub use bit::Bit;
pub use error::CodecError;
pub use halfvec::HalfVector;
pub use kind::{DistanceOperator, VectorKind};
pub use sparsevec::SparseVector;
pub use vector::Vector;
