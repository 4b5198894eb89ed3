//! Scoring of candidate points against one query.

use crate::types::{PointOffsetType, ScoreType, ScoredPointOffset};
use vstd::prelude::*;

verus! {

/// The offsets of scored points, in their order.
pub open spec fn offsets_of(scored: Seq<ScoredPointOffset>) -> Seq<PointOffsetType> {
    Seq::new(scored.len(), |j: int| scored[j].idx)
}

/// The points among `points` that are in `live`, in their order.
pub open spec fn live_points(live: Set<PointOffsetType>, points: Seq<PointOffsetType>) -> Seq<
    PointOffsetType,
> {
    points.filter(|p: PointOffsetType| live.contains(p))
}

/// `out` is a scoring of `points`: one entry for each point that is in
/// `live`, in the order of the points, each with a score that `ratings`
/// allows for it.
pub open spec fn is_scoring(
    live: Set<PointOffsetType>,
    ratings: Set<(PointOffsetType, ScoreType)>,
    points: Seq<PointOffsetType>,
    out: Seq<ScoredPointOffset>,
) -> bool {
    &&& offsets_of(out) == live_points(live, points)
    &&& forall|j: int|
        0 <= j < out.len() ==> ratings.contains((#[trigger] out[j].idx, out[j].score))
}

/// Scores points of one storage against one query.
pub trait RawScorer {
    /// The scorer is bound to a well-formed storage.
    spec fn wf(&self) -> bool;

    /// The points that can be scored: those that the storage holds and that
    /// are not deleted.
    spec fn live(&self) -> Set<PointOffsetType>;

    /// The scores that the metric may give: a point of the storage paired
    /// with a score of its vector against the query.
    spec fn ratings(&self) -> Set<(PointOffsetType, ScoreType)>;

    /// Whether the point can be scored.
    fn check_point(&self, point: PointOffsetType) -> (r: bool)
        requires
            self.wf(),
        ensures
            r == self.live().contains(point),
    ;

    /// Scores one point; a point that is deleted or absent gives nothing.
    fn score_point(&self, point: PointOffsetType) -> (r: Option<ScoredPointOffset>)
        requires
            self.wf(),
        ensures
            match r {
                Some(scored) => {
                    &&& self.live().contains(point)
                    &&& scored.idx == point
                    &&& self.ratings().contains((point, scored.score))
                },
                None => !self.live().contains(point),
            },
    ;

    /// Scores the points in their order, passing over those that are
    /// deleted or absent.
    fn score_points(&self, points: &[PointOffsetType]) -> (r: Vec<ScoredPointOffset>)
        requires
            self.wf(),
        ensures
            is_scoring(self.live(), self.ratings(), points@, r@),
    ;
}

/// Nothing has been scored when no point has been looked at.
pub proof fn lemma_scoring_start(
    live: Set<PointOffsetType>,
    ratings: Set<(PointOffsetType, ScoreType)>,
    points: Seq<PointOffsetType>,
)
    ensures
        is_scoring(live, ratings, points.take(0), Seq::empty()),
{
    reveal(Seq::filter);
    assert(offsets_of(Seq::empty()) =~= live_points(live, points.take(0)));
}

/// One more point has been looked at: it adds an entry if it is live, and
/// nothing if it is not.
pub proof fn lemma_scoring_step(
    live: Set<PointOffsetType>,
    ratings: Set<(PointOffsetType, ScoreType)>,
    points: Seq<PointOffsetType>,
    i: int,
    out: Seq<ScoredPointOffset>,
    next: Option<ScoredPointOffset>,
)
    requires
        0 <= i < points.len(),
        is_scoring(live, ratings, points.take(i), out),
        match next {
            Some(scored) => {
                &&& live.contains(points[i])
                &&& scored.idx == points[i]
                &&& ratings.contains((points[i], scored.score))
            },
            None => !live.contains(points[i]),
        },
    ensures
        is_scoring(
            live,
            ratings,
            points.take(i + 1),
            match next {
                Some(scored) => out.push(scored),
                None => out,
            },
        ),
{
    reveal(Seq::filter);
    assert(points.take(i + 1).drop_last() =~= points.take(i));
    match next {
        Some(scored) => {
            assert(offsets_of(out.push(scored)) =~= offsets_of(out).push(scored.idx));
        },
        None => {},
    }
}

/// Every scored point is one of the candidates and is live, and the scored
/// points come in the order of the candidates.
pub proof fn lemma_scoring_offsets(
    live: Set<PointOffsetType>,
    ratings: Set<(PointOffsetType, ScoreType)>,
    points: Seq<PointOffsetType>,
    out: Seq<ScoredPointOffset>,
)
    requires
        is_scoring(live, ratings, points, out),
    ensures
        out.len() <= points.len(),
        forall|j: int|
            0 <= j < out.len() ==> live.contains(#[trigger] out[j].idx) && points.contains(
                out[j].idx,
            ),
        forall|i: int|
            0 <= i < points.len() && live.contains(points[i]) ==> exists|j: int|
                0 <= j < out.len() && #[trigger] out[j].idx == points[i],
{
    let keep = |p: PointOffsetType| live.contains(p);
    let kept = points.filter(keep);
    points.lemma_filter_len(keep);
    assert(offsets_of(out).len() == kept.len());
    assert forall|j: int| 0 <= j < out.len() implies live.contains(#[trigger] out[j].idx)
        && points.contains(out[j].idx) by {
        assert(offsets_of(out)[j] == out[j].idx);
        points.lemma_filter_pred(keep, j);
        assert(kept.contains(kept[j]));
        points.lemma_filter_contains_rev(keep, kept[j]);
    }
    assert forall|i: int| 0 <= i < points.len() && live.contains(points[i]) implies exists|j: int|
        0 <= j < out.len() && #[trigger] out[j].idx == points[i] by {
        points.lemma_filter_contains(keep, i);
        let j = choose|j: int| 0 <= j < kept.len() && kept[j] == points[i];
        assert(offsets_of(out)[j] == out[j].idx);
    }
}

} // verus!
