use vstd::prelude::*;

verus! {

/// Dense, zero-based identity of a storage slot.
pub type PointOffsetType = usize;

/// One element of a vector: the bit pattern of a single-precision number.
pub type VectorElementType = u32;

/// A similarity score: the bit pattern of a single-precision number.
pub type ScoreType = u32;

/// A point together with the score it got against a query.
#[derive(Clone, Copy, Debug, PartialEq, Eq, Structural)]
pub struct ScoredPointOffset {
    pub idx: PointOffsetType,
    pub score: ScoreType,
}

/// What can go wrong in a storage operation.
#[derive(Clone, Copy, Debug, PartialEq, Eq, Structural)]
pub enum OperationError {
    /// A vector's length, or a dimension, does not fit the storage.
    DimensionMismatch,
    /// An offset at or beyond the number of slots.
    OutOfRange,
    /// An offset whose slot is deleted or absent.
    NotFound,
    /// The backing implementation does not offer the operation.
    Unsupported,
    /// The files behind the storage could not be read, written or mapped.
    IoFailure,
    /// The two files do not fit each other or the dimension.
    Corruption,
}

pub type OperationResult<T> = Result<T, OperationError>;

} // verus!
