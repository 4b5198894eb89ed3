//! The contract of a vector storage, whatever holds the vectors.

use crate::metric::{prepares, rates, Metric};
use crate::raw_scorer::{is_scoring, lemma_scoring_offsets};
use crate::storage_model::StorageModel;
use crate::top_scores::{is_descending, lemma_top_scores, top_scores};
use crate::types::{
    OperationError,
    OperationResult,
    PointOffsetType,
    ScoreType,
    ScoredPointOffset,
    VectorElementType,
};
use std::ops::Range;
use vstd::prelude::*;

verus! {

/// The offsets of the live slots as the storage hands them out.
pub open spec fn live_ids(model: StorageModel) -> Seq<PointOffsetType> {
    Seq::new(model.live_offsets().len(), |i: int| model.live_offsets()[i] as PointOffsetType)
}

/// The points that can be scored: the live slots.
pub open spec fn live_set(model: StorageModel) -> Set<PointOffsetType> {
    Set::new(|p: PointOffsetType| model.is_live(p as int))
}

/// Each point of the storage paired with each score that the metric may
/// give its vector against `query`.
pub open spec fn ratings_of<M: Metric>(
    model: StorageModel,
    metric: &M,
    query: Seq<VectorElementType>,
) -> Set<(PointOffsetType, ScoreType)> {
    Set::new(
        |e: (PointOffsetType, ScoreType)|
            e.0 < model.slots() && rates(metric, query, model.vectors[e.0 as int], e.1),
    )
}

/// `out` holds the `top` best of a scoring of `points` against `vector`:
/// the metric prepares the vector as a query, every point among `points`
/// that is live is scored against that query, in the order of the points,
/// and the best are selected from those scores.
pub open spec fn is_top_scoring<M: Metric>(
    model: StorageModel,
    metric: &M,
    vector: Seq<VectorElementType>,
    points: Seq<PointOffsetType>,
    top: nat,
    out: Seq<ScoredPointOffset>,
) -> bool {
    exists|query: Seq<VectorElementType>, scored: Seq<ScoredPointOffset>|
        {
            &&& prepares(metric, vector, query)
            &&& #[trigger] is_scoring(
                live_set(model),
                ratings_of(model, metric, query),
                points,
                scored,
            )
            &&& out == top_scores(scored, top)
        }
}

/// Whatever is returned as the best of a scoring is a live point among the
/// candidates; the entries come best first, and no more are returned than
/// were asked for or than there are candidates.
pub proof fn lemma_top_scoring<M: Metric>(
    model: StorageModel,
    metric: &M,
    vector: Seq<VectorElementType>,
    points: Seq<PointOffsetType>,
    top: nat,
    out: Seq<ScoredPointOffset>,
)
    requires
        is_top_scoring(model, metric, vector, points, top, out),
    ensures
        out.len() <= top,
        out.len() <= points.len(),
        is_descending(out),
        forall|j: int|
            0 <= j < out.len() ==> model.is_live((#[trigger] out[j]).idx as int)
                && points.contains(out[j].idx),
{
    let (query, scored) = choose|query: Seq<VectorElementType>, scored: Seq<ScoredPointOffset>|
        {
            &&& prepares(metric, vector, query)
            &&& #[trigger] is_scoring(
                live_set(model),
                ratings_of(model, metric, query),
                points,
                scored,
            )
            &&& out == top_scores(scored, top)
        };
    lemma_top_scores(scored, top);
    lemma_scoring_offsets(
        live_set(model),
        ratings_of(model, metric, query),
        points,
        scored,
    );
    assert forall|j: int| 0 <= j < out.len() implies model.is_live((#[trigger] out[j]).idx as int)
        && points.contains(out[j].idx) by {
        assert(scored.contains(out[j]));
        let i = choose|i: int| 0 <= i < scored.len() && scored[i] == out[j];
        assert(live_set(model).contains(scored[i].idx));
    }
}

/// Once a slot is deleted, no scoring returns it, whatever the query, the
/// candidates and the metric.
pub proof fn lemma_deleted_is_not_scored<M: Metric>(
    model: StorageModel,
    k: PointOffsetType,
    metric: &M,
    vector: Seq<VectorElementType>,
    points: Seq<PointOffsetType>,
    top: nat,
    out: Seq<ScoredPointOffset>,
)
    requires
        model.wf(),
        k < model.slots(),
        is_top_scoring(model.delete(k as int), metric, vector, points, top, out),
    ensures
        forall|j: int| 0 <= j < out.len() ==> (#[trigger] out[j]).idx != k,
{
    lemma_top_scoring(model.delete(k as int), metric, vector, points, top, out);
}

/// What can be read of a store of vectors of one dimension, each in a slot
/// that is known by its offset. Slots are handed out in sequence and never
/// given away again: deleting a vector marks its slot and leaves the vector
/// where it is.
pub trait VectorSource {
    /// What the storage holds.
    spec fn view(&self) -> StorageModel;

    /// The storage is in order.
    spec fn wf(&self) -> bool;

    /// A storage that is in order holds well-formed contents, in slots that
    /// can be counted.
    proof fn lemma_contents(&self)
        requires
            self.wf(),
        ensures
            self@.wf(),
            self@.slots() <= usize::MAX,
    ;

    /// The length of every vector.
    fn vector_dim(&self) -> (r: usize)
        requires
            self.wf(),
        ensures
            r == self@.dim,
    ;

    /// The number of vectors that are not deleted.
    fn vector_count(&self) -> (r: usize)
        requires
            self.wf(),
        ensures
            r == self@.count(),
            r + self@.deleted_count() == self@.slots(),
    ;

    /// The number of deleted slots.
    fn deleted_count(&self) -> (r: usize)
        requires
            self.wf(),
        ensures
            r == self@.deleted_count(),
    ;

    /// The vector of slot `key`, deleted or not; `None` beyond the last slot.
    fn get_vector(&self, key: PointOffsetType) -> (r: Option<Vec<VectorElementType>>)
        requires
            self.wf(),
        ensures
            match r {
                Some(v) => self@.get(key as int) == Some(v@),
                None => self@.get(key as int) is None,
            },
    ;

    /// The offsets of the live slots in ascending order.
    fn iter_ids(&self) -> (r: Vec<PointOffsetType>)
        requires
            self.wf(),
        ensures
            r@ == live_ids(self@),
            forall|i: int| 0 <= i < r.len() ==> r[i] as int == self@.live_offsets()[i],
    ;
}

/// A store of vectors that can grow, delete and score.
pub trait VectorStorage: VectorSource {
    /// The storage can grow by `more` slots.
    spec fn has_room(&self, more: nat) -> bool;

    /// The storage can overwrite a vector in place.
    spec fn takes_updates(&self) -> bool;

    /// Appends a vector in a new slot and returns its offset.
    fn put_vector(&mut self, vector: &Vec<VectorElementType>) -> (r: OperationResult<
        PointOffsetType,
    >)
        requires
            old(self).wf(),
        ensures
            final(self).wf(),
            match r {
                Ok(offset) => {
                    &&& vector.len() == old(self)@.dim
                    &&& old(self).has_room(1)
                    &&& offset == old(self)@.slots()
                    &&& final(self)@ == old(self)@.put(vector@)
                },
                Err(e) => {
                    &&& final(self)@ == old(self)@
                    &&& e == if vector.len() != old(self)@.dim {
                        OperationError::DimensionMismatch
                    } else {
                        OperationError::IoFailure
                    }
                    &&& vector.len() != old(self)@.dim || !old(self).has_room(1)
                },
            },
    ;

    /// Overwrites the vector of slot `key`, where the storage can do that.
    fn update_vector(&mut self, key: PointOffsetType, vector: &Vec<VectorElementType>) -> (r:
        OperationResult<PointOffsetType>)
        requires
            old(self).wf(),
        ensures
            final(self).wf(),
            match r {
                Ok(offset) => {
                    &&& old(self).takes_updates()
                    &&& vector.len() == old(self)@.dim
                    &&& key < old(self)@.slots()
                    &&& offset == key
                    &&& final(self)@ == old(self)@.update(key as int, vector@)
                },
                Err(e) => {
                    &&& final(self)@ == old(self)@
                    &&& e == if !old(self).takes_updates() {
                        OperationError::Unsupported
                    } else if vector.len() != old(self)@.dim {
                        OperationError::DimensionMismatch
                    } else {
                        OperationError::OutOfRange
                    }
                    &&& !old(self).takes_updates() || vector.len() != old(self)@.dim || key
                        >= old(self)@.slots()
                },
            },
    ;

    /// Appends every live vector of `other`, in the order of its slots, and
    /// returns the offsets that they got. Either all of them are appended or
    /// none is.
    fn update_from<S: VectorSource>(&mut self, other: &S) -> (r: OperationResult<
        Range<PointOffsetType>,
    >)
        requires
            old(self).wf(),
            other.wf(),
        ensures
            final(self).wf(),
            match r {
                Ok(range) => {
                    &&& other@.dim == old(self)@.dim
                    &&& old(self).has_room(other@.count())
                    &&& range.start == old(self)@.slots()
                    &&& range.end == old(self)@.slots() + other@.count()
                    &&& final(self)@ == old(self)@.ingest(other@.live_vectors())
                },
                Err(e) => {
                    &&& final(self)@ == old(self)@
                    &&& e == if other@.dim != old(self)@.dim {
                        OperationError::DimensionMismatch
                    } else {
                        OperationError::IoFailure
                    }
                    &&& other@.dim != old(self)@.dim || !old(self).has_room(other@.count())
                },
            },
    ;

    /// Marks slot `key` as deleted. Deleting a deleted slot changes nothing
    /// and is no error.
    fn delete(&mut self, key: PointOffsetType) -> (r: OperationResult<()>)
        requires
            old(self).wf(),
        ensures
            final(self).wf(),
            match r {
                Ok(_) => key < old(self)@.slots() && final(self)@ == old(self)@.delete(key as int),
                Err(e) => {
                    &&& e == OperationError::OutOfRange
                    &&& key >= old(self)@.slots()
                    &&& final(self)@ == old(self)@
                },
            },
    ;

    /// Makes what was written durable. It changes nothing in the storage,
    /// and fails only where the files fail.
    fn flush(&self) -> (r: OperationResult<()>)
        requires
            self.wf(),
        ensures
            r matches Err(e) ==> e == OperationError::IoFailure,
    ;

    /// Scores the live points among `points` against `vector` and returns
    /// the `top` best, best first.
    fn score_points<M: Metric>(
        &self,
        vector: &Vec<VectorElementType>,
        points: &[PointOffsetType],
        top: usize,
        metric: &M,
    ) -> (r: Vec<ScoredPointOffset>)
        requires
            self.wf(),
        ensures
            is_top_scoring(self@, metric, vector@, points@, top as nat, r@),
            r.len() <= top,
            is_descending(r@),
            forall|j: int| 0 <= j < r.len() ==> self@.is_live((#[trigger] r[j]).idx as int),
    ;

    /// Scores every live point against `vector` and returns the `top` best,
    /// best first.
    fn score_all<M: Metric>(&self, vector: &Vec<VectorElementType>, top: usize, metric: &M) -> (r:
        Vec<ScoredPointOffset>)
        requires
            self.wf(),
        ensures
            is_top_scoring(self@, metric, vector@, live_ids(self@), top as nat, r@),
            r.len() <= top,
            is_descending(r@),
            forall|j: int| 0 <= j < r.len() ==> self@.is_live((#[trigger] r[j]).idx as int),
    ;

    /// Scores the live points among `points` against the vector of the live
    /// slot `point` and returns the `top` best, best first.
    fn score_internal<M: Metric>(
        &self,
        point: PointOffsetType,
        points: &[PointOffsetType],
        top: usize,
        metric: &M,
    ) -> (r: OperationResult<Vec<ScoredPointOffset>>)
        requires
            self.wf(),
        ensures
            match r {
                Ok(out) => {
                    &&& self@.is_live(point as int)
                    &&& is_top_scoring(
                        self@,
                        metric,
                        self@.vectors[point as int],
                        points@,
                        top as nat,
                        out@,
                    )
                    &&& out.len() <= top
                    &&& is_descending(out@)
                    &&& forall|j: int|
                        0 <= j < out.len() ==> self@.is_live((#[trigger] out[j]).idx as int)
                },
                Err(e) => e == OperationError::NotFound && !self@.is_live(point as int),
            },
    ;
}

} // verus!
