//! The vector storage over the table of the two files, and its scorer.

use crate::encoding::{encode, encode_all};
use crate::metric::{prepares, rates, Metric};
use crate::mmap_vectors::{
    is_consistent,
    lemma_table_model_wf,
    record_size,
    valid_dimension,
    MmapVectors,
};
use crate::raw_scorer::{is_scoring, lemma_scoring_start, lemma_scoring_step, RawScorer};
use crate::storage_model::{clear_below, lemma_clear_below, lemma_count_set_bound, StorageModel};
use crate::top_scores::peek_top_scores;
use crate::types::{
    OperationError,
    OperationResult,
    PointOffsetType,
    ScoreType,
    ScoredPointOffset,
    VectorElementType,
};
use crate::vector_storage::{
    lemma_top_scoring,
    live_ids,
    live_set,
    ratings_of,
    VectorSource,
    VectorStorage,
};
use std::ops::Range;
use vstd::prelude::*;

verus! {

/// Scores points of a table against one prepared query.
pub struct MemmapRawScorer<'a, M: Metric> {
    query: Vec<VectorElementType>,
    metric: &'a M,
    mmap_store: &'a MmapVectors,
}

impl<'a, M: Metric> MemmapRawScorer<'a, M> {
    /// The prepared query.
    pub closed spec fn query(&self) -> Seq<VectorElementType> {
        self.query@
    }

    /// The metric that gives the scores.
    pub closed spec fn metric(&self) -> &M {
        self.metric
    }

    /// The table whose points are scored.
    pub closed spec fn table(&self) -> &MmapVectors {
        self.mmap_store
    }
}

impl<'a, M: Metric> RawScorer for MemmapRawScorer<'a, M> {
    open spec fn wf(&self) -> bool {
        self.table().wf()
    }

    open spec fn live(&self) -> Set<PointOffsetType> {
        live_set(self.table()@)
    }

    open spec fn ratings(&self) -> Set<(PointOffsetType, ScoreType)> {
        ratings_of(self.table()@, self.metric(), self.query())
    }

    fn check_point(&self, point: PointOffsetType) -> (r: bool) {
        match self.mmap_store.deleted(point) {
            Some(gone) => !gone,
            None => false,
        }
    }

    fn score_point(&self, point: PointOffsetType) -> (r: Option<ScoredPointOffset>) {
        if !self.check_point(point) {
            return None;
        }
        let other_vector = self.mmap_store.raw_vector(point).unwrap();
        let score = self.metric.similarity(&self.query, &other_vector);
        proof {
            assert(rates(
                self.metric(),
                self.query(),
                self.table()@.vectors[point as int],
                score,
            )) by {
                assert(self.query@ == self.query() && other_vector@
                    == self.table()@.vectors[point as int] && call_ensures(
                    M::similarity,
                    (self.metric, &self.query, &other_vector),
                    score,
                ));
            }
        }
        Some(ScoredPointOffset { idx: point, score })
    }

    fn score_points(&self, points: &[PointOffsetType]) -> (r: Vec<ScoredPointOffset>) {
        let mut out: Vec<ScoredPointOffset> = Vec::new();
        let mut i: usize = 0;
        proof {
            lemma_scoring_start(self.live(), self.ratings(), points@);
        }
        while i < points.len()
            invariant
                i <= points.len(),
                self.wf(),
                is_scoring(self.live(), self.ratings(), points@.take(i as int), out@),
            decreases points.len() - i,
        {
            let next = self.score_point(points[i]);
            proof {
                lemma_scoring_step(self.live(), self.ratings(), points@, i as int, out@, next);
            }
            if let Some(scored) = next {
                out.push(scored);
            }
            i += 1;
        }
        assert(points@.take(points.len() as int) =~= points@);
        out
    }
}

/// A vector storage over the table of the two files. It grows only at its
/// end and overwrites nothing but deletion flags.
pub struct MemmapVectorStorage {
    mmap_store: MmapVectors,
}

/// The offsets below `n` whose flag is not set, as the storage hands them out.
spec fn ids_below(deleted: Seq<bool>, n: nat) -> Seq<PointOffsetType> {
    Seq::new(clear_below(deleted, n).len(), |i: int| clear_below(deleted, n)[i] as PointOffsetType)
}

impl MemmapVectorStorage {
    /// The table that the storage keeps.
    pub closed spec fn table(&self) -> MmapVectors {
        self.mmap_store
    }

    /// Makes a storage of the images of the vectors file and of the flags
    /// file. Images that do not fit each other or the dimension are refused
    /// as they are.
    pub fn open(vectors: Vec<u8>, deleted: Vec<u8>, dim: usize) -> (r: OperationResult<Self>)
        ensures
            match r {
                Ok(storage) => {
                    &&& is_consistent(vectors@, deleted@, dim as nat)
                    &&& storage.wf()
                    &&& storage.table().vectors_bytes() == vectors@
                    &&& storage.table().deleted_bytes() == deleted@
                    &&& storage.table().dimension() == dim
                },
                Err(e) => {
                    &&& !is_consistent(vectors@, deleted@, dim as nat)
                    &&& e == if valid_dimension(dim as nat) {
                        OperationError::Corruption
                    } else {
                        OperationError::DimensionMismatch
                    }
                },
            },
    {
        match MmapVectors::open(vectors, deleted, dim) {
            Ok(mmap_store) => Ok(MemmapVectorStorage { mmap_store }),
            Err(e) => Err(e),
        }
    }

    /// The image of the vectors file as the storage stands.
    pub fn vectors_image(&self) -> (r: &Vec<u8>)
        ensures
            r@ == self.table().vectors_bytes(),
    {
        self.mmap_store.vectors_image()
    }

    /// The image of the flags file as the storage stands.
    pub fn deleted_image(&self) -> (r: &Vec<u8>)
        ensures
            r@ == self.table().deleted_bytes(),
    {
        self.mmap_store.deleted_image()
    }

    /// Binds a query and a metric to the storage: the metric prepares the
    /// query once, and the scorer scores against what it made of it.
    pub fn raw_scorer<'a, M: Metric>(
        &'a self,
        vector: &Vec<VectorElementType>,
        metric: &'a M,
    ) -> (r: MemmapRawScorer<'a, M>)
        requires
            self.wf(),
        ensures
            r.wf(),
            r.table()@ == self@,
            r.metric() == metric,
            prepares(metric, vector@, r.query()),
    {
        let copy = vector.clone();
        assert(copy@ =~= vector@);
        let query = metric.preprocess(copy);
        MemmapRawScorer { query, metric, mmap_store: &self.mmap_store }
    }
}

/// A storage opened on the images of a storage that is in order opens
/// without error and holds what that storage holds: the same counts, and
/// the same vector in every slot.
pub proof fn lemma_reopen(before: MemmapVectorStorage, after: MemmapVectorStorage)
    requires
        before.wf(),
        after.table().vectors_bytes() == before.table().vectors_bytes(),
        after.table().deleted_bytes() == before.table().deleted_bytes(),
        after.table().dimension() == before.table().dimension(),
    ensures
        is_consistent(
            before.table().vectors_bytes(),
            before.table().deleted_bytes(),
            before.table().dimension(),
        ),
        after@ == before@,
        after@.count() == before@.count(),
        after@.deleted_count() == before@.deleted_count(),
        forall|k: int| after@.get(k) == before@.get(k),
{
}

impl VectorSource for MemmapVectorStorage {
    open spec fn view(&self) -> StorageModel {
        self.table()@
    }

    open spec fn wf(&self) -> bool {
        self.table().wf()
    }

    proof fn lemma_contents(&self) {
        let table = self.table();
        lemma_table_model_wf(
            table.vectors_bytes(),
            table.deleted_bytes(),
            table.dimension(),
        );
        table.lemma_slots_counted();
    }

    fn vector_dim(&self) -> (r: usize) {
        self.mmap_store.dim()
    }

    fn vector_count(&self) -> (r: usize) {
        self.mmap_store.num_vectors() - self.mmap_store.deleted_count()
    }

    fn deleted_count(&self) -> (r: usize) {
        self.mmap_store.deleted_count()
    }

    fn get_vector(&self, key: PointOffsetType) -> (r: Option<Vec<VectorElementType>>) {
        self.mmap_store.raw_vector(key)
    }

    fn iter_ids(&self) -> (r: Vec<PointOffsetType>) {
        let num_vectors = self.mmap_store.num_vectors();
        let mut ids: Vec<PointOffsetType> = Vec::new();
        let mut id: usize = 0;
        while id < num_vectors
            invariant
                id <= num_vectors,
                num_vectors == self@.slots(),
                self.wf(),
                ids@ == ids_below(self@.deleted, id as nat),
            decreases num_vectors - id,
        {
            let gone = self.mmap_store.deleted(id).unwrap();
            if !gone {
                ids.push(id);
            }
            proof {
                assert(ids@ =~= ids_below(self@.deleted, (id + 1) as nat));
            }
            id += 1;
        }
        proof {
            lemma_clear_below(self@.deleted, num_vectors as nat);
            assert(ids@ =~= live_ids(self@));
        }
        ids
    }
}

impl VectorStorage for MemmapVectorStorage {
    open spec fn has_room(&self, more: nat) -> bool {
        self.table().has_room(more)
    }

    open spec fn takes_updates(&self) -> bool {
        false
    }

    fn put_vector(&mut self, vector: &Vec<VectorElementType>) -> (r: OperationResult<
        PointOffsetType,
    >)
        ensures
            final(self).table().dimension() == old(self).table().dimension(),
            r is Ok ==> final(self).table().vectors_bytes() == old(self).table().vectors_bytes()
                + encode(vector@),
            r is Ok ==> final(self).table().deleted_bytes() == old(
                self,
            ).table().deleted_bytes().push(0u8),
            r is Err ==> final(self).table() == old(self).table(),
    {
        if vector.len() != self.mmap_store.dim() {
            return Err(OperationError::DimensionMismatch);
        }
        if !self.mmap_store.has_room_for(1) {
            return Err(OperationError::IoFailure);
        }
        let offset = self.mmap_store.push_vector(vector);
        Ok(offset)
    }

    fn update_vector(&mut self, key: PointOffsetType, vector: &Vec<VectorElementType>) -> (r:
        OperationResult<PointOffsetType>)
        ensures
            final(self).table() == old(self).table(),
    {
        Err(OperationError::Unsupported)
    }

    fn update_from<S: VectorSource>(&mut self, other: &S) -> (r: OperationResult<
        Range<PointOffsetType>,
    >)
        ensures
            final(self).table().dimension() == old(self).table().dimension(),
            r is Ok ==> final(self).table().vectors_bytes() == old(self).table().vectors_bytes()
                + encode_all(other@.live_vectors()),
            r is Ok ==> final(self).table().deleted_bytes() == old(self).table().deleted_bytes()
                + Seq::new(other@.count(), |i: int| 0u8),
            r is Err ==> final(self).table() == old(self).table(),
    {
        let dim = self.mmap_store.dim();
        if other.vector_dim() != dim {
            return Err(OperationError::DimensionMismatch);
        }
        let more = other.vector_count();
        if !self.mmap_store.has_room_for(more) {
            return Err(OperationError::IoFailure);
        }
        let start_index = self.mmap_store.num_vectors();
        let ids = other.iter_ids();
        let ghost incoming = other@.live_vectors();
        proof {
            other.lemma_contents();
            lemma_clear_below(other@.deleted, other@.deleted.len());
            lemma_count_set_bound(other@.deleted);
            assert(other@.deleted.take(other@.deleted.len() as int) =~= other@.deleted);
            assert(old(self)@.ingest(incoming.take(0)) == old(self)@) by {
                let before = old(self)@;
                let after = before.ingest(incoming.take(0));
                assert(after.vectors =~= before.vectors);
                assert(after.deleted =~= before.deleted);
            }
            assert(old(self).table().vectors_bytes() + encode_all(incoming.take(0))
                =~= old(self).table().vectors_bytes());
            assert(old(self).table().deleted_bytes() + Seq::new(0, |i: int| 0u8) =~= old(
                self,
            ).table().deleted_bytes());
        }
        let mut i: usize = 0;
        while i < ids.len()
            invariant
                i <= ids.len(),
                ids.len() == more,
                other.wf(),
                other@.wf(),
                other@.dim == dim,
                incoming == other@.live_vectors(),
                incoming.len() == ids.len(),
                forall|j: int| 0 <= j < ids.len() ==> ids[j] as int == other@.live_offsets()[j],
                forall|j: int|
                    0 <= j < ids.len() ==> 0 <= #[trigger] other@.live_offsets()[j]
                        < other@.slots(),
                self.mmap_store.wf(),
                self.mmap_store.dimension() == dim,
                old(self).table().has_room(more as nat),
                self@ == old(self)@.ingest(incoming.take(i as int)),
                self.mmap_store.vectors_bytes() == old(self).table().vectors_bytes() + encode_all(
                    incoming.take(i as int),
                ),
                self.mmap_store.deleted_bytes() == old(self).table().deleted_bytes() + Seq::new(
                    i as nat,
                    |j: int| 0u8,
                ),
            decreases ids.len() - i,
        {
            let vector = other.get_vector(ids[i]).unwrap();
            proof {
                let n = old(self)@.slots() as int;
                let size = record_size(dim as nat) as int;
                assert(self@.slots() == n + i);
                assert((n + i + 1) * size <= (n + more) * size) by (nonlinear_arith)
                    requires
                        i + 1 <= more,
                        0 <= size,
                        0 <= n,
                ;
                assert(vector@ == incoming[i as int]);
            }
            self.mmap_store.push_vector(&vector);
            proof {
                let before = old(self)@;
                let now = before.ingest(incoming.take(i as int)).put(vector@);
                let then = before.ingest(incoming.take(i + 1));
                assert(now.vectors =~= then.vectors);
                assert(now.deleted =~= then.deleted);
                assert(incoming.take(i + 1).drop_last() =~= incoming.take(i as int));
                assert(self.mmap_store.vectors_bytes() =~= old(self).table().vectors_bytes()
                    + encode_all(incoming.take(i + 1)));
                assert(self.mmap_store.deleted_bytes() =~= old(self).table().deleted_bytes()
                    + Seq::new((i + 1) as nat, |j: int| 0u8));
            }
            i += 1;
        }
        proof {
            assert(incoming.take(ids.len() as int) =~= incoming);
            self.mmap_store.lemma_slots_counted();
            assert(self@.slots() == start_index + more);
        }
        Ok(Range { start: start_index, end: start_index + more })
    }

    fn delete(&mut self, key: PointOffsetType) -> (r: OperationResult<()>)
        ensures
            final(self).table().dimension() == old(self).table().dimension(),
            final(self).table().vectors_bytes() == old(self).table().vectors_bytes(),
            r is Ok ==> final(self).table().deleted_bytes() == old(
                self,
            ).table().deleted_bytes().update(
                key as int,
                if old(self).table().deleted_bytes()[key as int] != 0 {
                    old(self).table().deleted_bytes()[key as int]
                } else {
                    1u8
                },
            ),
            r is Err ==> final(self).table() == old(self).table(),
    {
        self.mmap_store.delete(key)
    }

    fn flush(&self) -> (r: OperationResult<()>)
        ensures
            r is Ok,
    {
        Ok(())
    }

    fn score_points<M: Metric>(
        &self,
        vector: &Vec<VectorElementType>,
        points: &[PointOffsetType],
        top: usize,
        metric: &M,
    ) -> (r: Vec<ScoredPointOffset>) {
        let scorer = self.raw_scorer(vector, metric);
        let scores = scorer.score_points(points);
        let out = peek_top_scores(&scores, top);
        proof {
            assert(is_scoring(
                live_set(self@),
                ratings_of(self@, metric, scorer.query()),
                points@,
                scores@,
            ));
            lemma_top_scoring(self@, metric, vector@, points@, top as nat, out@);
        }
        out
    }

    fn score_all<M: Metric>(&self, vector: &Vec<VectorElementType>, top: usize, metric: &M) -> (r:
        Vec<ScoredPointOffset>) {
        let ids = self.iter_ids();
        self.score_points(vector, ids.as_slice(), top, metric)
    }

    fn score_internal<M: Metric>(
        &self,
        point: PointOffsetType,
        points: &[PointOffsetType],
        top: usize,
        metric: &M,
    ) -> (r: OperationResult<Vec<ScoredPointOffset>>) {
        match self.mmap_store.deleted(point) {
            Some(false) => {
                let vector = self.mmap_store.raw_vector(point).unwrap();
                Ok(self.score_points(&vector, points, top, metric))
            },
            _ => Err(OperationError::NotFound),
        }
    }
}

} // verus!
