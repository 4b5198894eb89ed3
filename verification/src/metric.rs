//! The similarity function that scoring is done with.
//!
//! A metric is supplied by the caller. The library hands it vectors and
//! takes the scores it gives; a higher score always means a better match.

use crate::types::{ScoreType, VectorElementType};
use vstd::prelude::*;

verus! {

/// A similarity function over vectors of equal length.
pub trait Metric {
    /// Prepares a query vector, once for each query.
    fn preprocess(&self, vector: Vec<VectorElementType>) -> Vec<VectorElementType>;

    /// The score of `v2` against the prepared query `v1`.
    fn similarity(&self, v1: &Vec<VectorElementType>, v2: &Vec<VectorElementType>) -> ScoreType;
}

/// `query` is what the metric may make of `vector` when it prepares it.
pub open spec fn prepares<M: Metric>(
    metric: &M,
    vector: Seq<VectorElementType>,
    query: Seq<VectorElementType>,
) -> bool {
    exists|v: Vec<VectorElementType>, q: Vec<VectorElementType>|
        v@ == vector && q@ == query && call_ensures(M::preprocess, (metric, v), q)
}

/// `score` is a score that the metric may give `stored` against `query`.
pub open spec fn rates<M: Metric>(
    metric: &M,
    query: Seq<VectorElementType>,
    stored: Seq<VectorElementType>,
    score: ScoreType,
) -> bool {
    exists|q: Vec<VectorElementType>, v: Vec<VectorElementType>|
        q@ == query && v@ == stored && call_ensures(M::similarity, (metric, &q, &v), score)
}

} // verus!
