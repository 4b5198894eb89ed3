//! Scoring with a filter: only points that an outside condition admits are
//! handed on to the raw scorer.

use crate::raw_scorer::{
    is_scoring,
    lemma_scoring_offsets,
    lemma_scoring_start,
    lemma_scoring_step,
    offsets_of,
    RawScorer,
};
use crate::types::{PointOffsetType, ScoreType, ScoredPointOffset};
use vstd::prelude::*;
use vstd::std_specs::iter::IteratorSpec;

verus! {

/// Tells whether a point meets a condition on what is stored with it.
pub trait ConditionChecker {
    /// The condition that points are checked against.
    type Filter;

    /// Whether the point meets the condition.
    fn check(&self, point_id: PointOffsetType, query: &Self::Filter) -> bool;
}

/// `verdict` is an answer that the checker may give for the point.
pub open spec fn answers<C: ConditionChecker>(
    checker: &C,
    filter: &C::Filter,
    point: PointOffsetType,
    verdict: bool,
) -> bool {
    call_ensures(C::check, (checker, point, filter), verdict)
}

/// `verdicts` holds, for each point in turn, an answer that the checker may
/// give for it.
pub open spec fn answers_all<C: ConditionChecker>(
    checker: &C,
    filter: &C::Filter,
    points: Seq<PointOffsetType>,
    verdicts: Seq<bool>,
) -> bool {
    &&& verdicts.len() == points.len()
    &&& forall|i: int|
        0 <= i < points.len() ==> answers(checker, filter, points[i], #[trigger] verdicts[i])
}

/// The points whose verdict is `true`, in their order.
pub open spec fn admitted(points: Seq<PointOffsetType>, verdicts: Seq<bool>) -> Seq<
    PointOffsetType,
>
    decreases points.len(),
{
    if points.len() == 0 || verdicts.len() != points.len() {
        Seq::empty()
    } else if verdicts.last() {
        admitted(points.drop_last(), verdicts.drop_last()).push(points.last())
    } else {
        admitted(points.drop_last(), verdicts.drop_last())
    }
}

/// A raw scorer behind an optional filter.
pub struct FilteredScorer<'a, C: ConditionChecker> {
    pub raw_scorer: &'a dyn RawScorer,
    pub condition_checker: &'a C,
    pub filter: Option<&'a C::Filter>,
}

impl<'a, C: ConditionChecker> FilteredScorer<'a, C> {
    /// `out` is a filtered scoring of `points`. Without a filter it is a
    /// scoring of the points by the raw scorer. With a filter, the checker
    /// answers for every point, and the points that it admits are scored by
    /// the raw scorer: a point is scored if it is admitted and live.
    pub open spec fn is_filtered_scoring(
        &self,
        points: Seq<PointOffsetType>,
        out: Seq<ScoredPointOffset>,
    ) -> bool {
        match self.filter {
            None => is_scoring(self.raw_scorer.live(), self.raw_scorer.ratings(), points, out),
            Some(f) => exists|verdicts: Seq<bool>|
                {
                    &&& answers_all(self.condition_checker, f, points, verdicts)
                    &&& #[trigger] is_scoring(
                        self.raw_scorer.live(),
                        self.raw_scorer.ratings(),
                        admitted(points, verdicts),
                        out,
                    )
                },
        }
    }

    /// Whether the point would be scored: the filter, if there is one,
    /// admits it, and the raw scorer can score it.
    pub fn check_point(&self, point_id: PointOffsetType) -> (r: bool)
        requires
            self.raw_scorer.wf(),
        ensures
            match self.filter {
                None => r == self.raw_scorer.live().contains(point_id),
                Some(f) => exists|verdict: bool|
                    {
                        &&& #[trigger] answers(self.condition_checker, f, point_id, verdict)
                        &&& r == (verdict && self.raw_scorer.live().contains(point_id))
                    },
            },
    {
        match self.filter {
            None => self.raw_scorer.check_point(point_id),
            Some(f) => {
                let verdict = self.condition_checker.check(point_id, f);
                assert(answers(self.condition_checker, f, point_id, verdict));
                verdict && self.raw_scorer.check_point(point_id)
            },
        }
    }

    /// Scores one candidate: a point that the filter turns away, or that
    /// the raw scorer cannot score, gives nothing.
    pub fn score_point(&self, point_id: PointOffsetType) -> (r: Option<ScoredPointOffset>)
        requires
            self.raw_scorer.wf(),
        ensures
            match r {
                Some(scored) => {
                    &&& scored.idx == point_id
                    &&& self.raw_scorer.live().contains(point_id)
                    &&& self.raw_scorer.ratings().contains((point_id, scored.score))
                    &&& self.filter matches Some(f) ==> answers(
                        self.condition_checker,
                        f,
                        point_id,
                        true,
                    )
                },
                None => {
                    ||| !self.raw_scorer.live().contains(point_id)
                    ||| self.filter matches Some(f) && answers(
                        self.condition_checker,
                        f,
                        point_id,
                        false,
                    )
                },
            },
            self.is_filtered_scoring(
                seq![point_id],
                match r {
                    Some(scored) => seq![scored],
                    None => Seq::empty(),
                },
            ),
    {
        let ghost live = self.raw_scorer.live();
        let ghost ratings = self.raw_scorer.ratings();
        let ghost one = seq![point_id];
        proof {
            lemma_scoring_start(live, ratings, one);
            assert(one.take(1) =~= one);
            assert(one.take(0) =~= Seq::<PointOffsetType>::empty());
        }
        match self.filter {
            None => {
                let next = self.raw_scorer.score_point(point_id);
                proof {
                    lemma_scoring_step(live, ratings, one, 0, Seq::empty(), next);
                    assert(Seq::<ScoredPointOffset>::empty().push(next->0) =~= seq![next->0]);
                }
                next
            },
            Some(f) => {
                let verdict = self.condition_checker.check(point_id, f);
                let ghost verdicts = seq![verdict];
                proof {
                    assert(answers(self.condition_checker, f, point_id, verdict));
                    assert(answers_all(self.condition_checker, f, one, verdicts));
                    assert(one.drop_last() =~= Seq::<PointOffsetType>::empty());
                    assert(verdicts.drop_last() =~= Seq::<bool>::empty());
                    assert(admitted(one.drop_last(), verdicts.drop_last()) =~= Seq::empty());
                }
                if verdict {
                    let next = self.raw_scorer.score_point(point_id);
                    proof {
                        assert(admitted(one, verdicts) =~= one);
                        lemma_scoring_step(live, ratings, one, 0, Seq::empty(), next);
                        assert(Seq::<ScoredPointOffset>::empty().push(next->0) =~= seq![next->0]);
                    }
                    next
                } else {
                    proof {
                        assert(admitted(one, verdicts) =~= one.take(0));
                    }
                    None
                }
            },
        }
    }

    /// Scores the candidates that the iterator hands out, in its order.
    pub fn score_iterable_points<I: Iterator<Item = PointOffsetType>>(
        &self,
        points_iterator: I,
    ) -> (r: Vec<ScoredPointOffset>)
        requires
            self.raw_scorer.wf(),
            points_iterator.obeys_prophetic_iter_laws(),
            points_iterator.decrease() is Some,
        ensures
            self.is_filtered_scoring(points_iterator.remaining(), r@),
            self.filter matches Some(f) ==> forall|j: int|
                0 <= j < r.len() ==> answers(
                    self.condition_checker,
                    f,
                    (#[trigger] r[j]).idx,
                    true,
                ),
    {
        let mut out: Vec<ScoredPointOffset> = Vec::new();
        let mut points = points_iterator;
        let ghost all = points_iterator.remaining();
        let ghost mut seen: Seq<PointOffsetType> = Seq::empty();
        proof {
            self.lemma_filtered_start();
        }
        loop
            invariant
                self.raw_scorer.wf(),
                points.obeys_prophetic_iter_laws(),
                points.decrease() is Some,
                all == points_iterator.remaining(),
                all == seen + points.remaining(),
                self.is_filtered_scoring(seen, out@),
            decreases points.decrease()->0,
        {
            let ghost before = points.remaining();
            match points.next() {
                Some(point_id) => {
                    let next = self.score_point(point_id);
                    proof {
                        self.lemma_filtered_step(seen, out@, point_id, next);
                        assert(seen.push(point_id) + points.remaining() =~= seen + before);
                        seen = seen.push(point_id);
                    }
                    if let Some(scored) = next {
                        out.push(scored);
                    }
                },
                None => {
                    proof {
                        assert(seen + before =~= seen);
                        self.lemma_filtered_scoring_admits(all, out@);
                    }
                    return out;
                },
            }
        }
    }

    /// Scores the candidates in their order.
    pub fn score_points(&self, ids: &[PointOffsetType]) -> (r: Vec<ScoredPointOffset>)
        requires
            self.raw_scorer.wf(),
        ensures
            self.is_filtered_scoring(ids@, r@),
            self.filter matches Some(f) ==> forall|j: int|
                0 <= j < r.len() ==> answers(
                    self.condition_checker,
                    f,
                    (#[trigger] r[j]).idx,
                    true,
                ),
    {
        let mut out: Vec<ScoredPointOffset> = Vec::new();
        let mut i: usize = 0;
        proof {
            self.lemma_filtered_start();
            assert(ids@.take(0) =~= Seq::empty());
        }
        while i < ids.len()
            invariant
                i <= ids.len(),
                self.raw_scorer.wf(),
                self.is_filtered_scoring(ids@.take(i as int), out@),
            decreases ids.len() - i,
        {
            let next = self.score_point(ids[i]);
            proof {
                self.lemma_filtered_step(ids@.take(i as int), out@, ids[i as int], next);
                assert(ids@.take(i as int).push(ids[i as int]) =~= ids@.take(i + 1));
            }
            if let Some(scored) = next {
                out.push(scored);
            }
            i += 1;
        }
        proof {
            assert(ids@.take(ids.len() as int) =~= ids@);
            self.lemma_filtered_scoring_admits(ids@, out@);
        }
        out
    }

    /// Every point of a filtered scoring is a live candidate, and with a
    /// filter it is one that the checker has admitted.
    pub proof fn lemma_filtered_scoring_admits(
        &self,
        points: Seq<PointOffsetType>,
        out: Seq<ScoredPointOffset>,
    )
        requires
            self.is_filtered_scoring(points, out),
        ensures
            forall|j: int|
                0 <= j < out.len() ==> self.raw_scorer.live().contains((#[trigger] out[j]).idx)
                    && points.contains(out[j].idx),
            self.filter matches Some(f) ==> forall|j: int|
                0 <= j < out.len() ==> answers(
                    self.condition_checker,
                    f,
                    (#[trigger] out[j]).idx,
                    true,
                ),
    {
        let live = self.raw_scorer.live();
        let ratings = self.raw_scorer.ratings();
        match self.filter {
            None => {
                lemma_scoring_offsets(live, ratings, points, out);
            },
            Some(f) => {
                let verdicts = choose|verdicts: Seq<bool>|
                    {
                        &&& answers_all(self.condition_checker, f, points, verdicts)
                        &&& #[trigger] is_scoring(live, ratings, admitted(points, verdicts), out)
                    };
                let passed = admitted(points, verdicts);
                lemma_admitted(points, verdicts);
                lemma_scoring_offsets(live, ratings, passed, out);
                assert forall|j: int| 0 <= j < out.len() implies live.contains(
                    (#[trigger] out[j]).idx,
                ) && points.contains(out[j].idx) && answers(
                    self.condition_checker,
                    f,
                    out[j].idx,
                    true,
                ) by {
                    let p = out[j].idx;
                    assert(passed.contains(p));
                    let t = choose|t: int| 0 <= t < passed.len() && passed[t] == p;
                    let i = choose|i: int|
                        0 <= i < points.len() && #[trigger] verdicts[i] && points[i]
                            == #[trigger] passed[t];
                    assert(answers(self.condition_checker, f, points[i], verdicts[i]));
                }
            },
        }
    }

    /// No candidates give no scores.
    pub proof fn lemma_filtered_start(&self)
        ensures
            self.is_filtered_scoring(Seq::empty(), Seq::empty()),
    {
        let none = Seq::<PointOffsetType>::empty();
        lemma_scoring_start(self.raw_scorer.live(), self.raw_scorer.ratings(), none);
        assert(none.take(0) =~= none);
        match self.filter {
            None => {},
            Some(f) => {
                let verdicts = Seq::<bool>::empty();
                assert(answers_all(self.condition_checker, f, none, verdicts));
                assert(admitted(none, verdicts) =~= none);
            },
        }
    }

    /// A filtered scoring goes on candidate by candidate: what one more
    /// candidate gives comes after what those before it gave.
    pub proof fn lemma_filtered_step(
        &self,
        points: Seq<PointOffsetType>,
        out: Seq<ScoredPointOffset>,
        point_id: PointOffsetType,
        next: Option<ScoredPointOffset>,
    )
        requires
            self.is_filtered_scoring(points, out),
            self.is_filtered_scoring(
                seq![point_id],
                match next {
                    Some(scored) => seq![scored],
                    None => Seq::empty(),
                },
            ),
        ensures
            self.is_filtered_scoring(
                points.push(point_id),
                match next {
                    Some(scored) => out.push(scored),
                    None => out,
                },
            ),
    {
        let live = self.raw_scorer.live();
        let ratings = self.raw_scorer.ratings();
        let one = seq![point_id];
        let got = match next {
            Some(scored) => seq![scored],
            None => Seq::empty(),
        };
        let all = match next {
            Some(scored) => out.push(scored),
            None => out,
        };
        assert(all =~= out + got);
        assert(points.push(point_id) =~= points + one);
        match self.filter {
            None => {
                lemma_scoring_concat(live, ratings, points, out, one, got);
            },
            Some(f) => {
                let v1 = choose|verdicts: Seq<bool>|
                    {
                        &&& answers_all(self.condition_checker, f, points, verdicts)
                        &&& #[trigger] is_scoring(live, ratings, admitted(points, verdicts), out)
                    };
                let v2 = choose|verdicts: Seq<bool>|
                    {
                        &&& answers_all(self.condition_checker, f, one, verdicts)
                        &&& #[trigger] is_scoring(live, ratings, admitted(one, verdicts), got)
                    };
                let verdicts = v1 + v2;
                assert(answers_all(self.condition_checker, f, points + one, verdicts)) by {
                    assert forall|i: int| 0 <= i < (points + one).len() implies answers(
                        self.condition_checker,
                        f,
                        (points + one)[i],
                        #[trigger] verdicts[i],
                    ) by {
                        if i < points.len() {
                            assert(verdicts[i] == v1[i]);
                        } else {
                            assert(verdicts[i] == v2[i - points.len()]);
                        }
                    }
                }
                lemma_admitted_concat(points, v1, one, v2);
                lemma_scoring_concat(
                    live,
                    ratings,
                    admitted(points, v1),
                    out,
                    admitted(one, v2),
                    got,
                );
            },
        }
    }
}

/// No point has two scores.
pub open spec fn is_functional(ratings: Set<(PointOffsetType, ScoreType)>) -> bool {
    forall|p: PointOffsetType, s1: ScoreType, s2: ScoreType|
        #![trigger ratings.contains((p, s1)), ratings.contains((p, s2))]
        ratings.contains((p, s1)) && ratings.contains((p, s2)) ==> s1 == s2
}

/// Every admitted point is a candidate with the verdict `true`.
pub proof fn lemma_admitted(points: Seq<PointOffsetType>, verdicts: Seq<bool>)
    requires
        verdicts.len() == points.len(),
    ensures
        forall|j: int|
            0 <= j < admitted(points, verdicts).len() ==> exists|i: int|
                0 <= i < points.len() && #[trigger] verdicts[i] && points[i] == #[trigger] admitted(
                    points,
                    verdicts,
                )[j],
    decreases points.len(),
{
    if points.len() > 0 {
        let rest = admitted(points.drop_last(), verdicts.drop_last());
        lemma_admitted(points.drop_last(), verdicts.drop_last());
        assert forall|j: int| 0 <= j < admitted(points, verdicts).len() implies exists|i: int|
            0 <= i < points.len() && #[trigger] verdicts[i] && points[i] == #[trigger] admitted(
                points,
                verdicts,
            )[j] by {
            if j < rest.len() {
                let i = choose|i: int|
                    0 <= i < points.drop_last().len() && #[trigger] verdicts.drop_last()[i]
                        && points.drop_last()[i] == rest[j];
                assert(verdicts[i] && points[i] == rest[j]);
            } else {
                let i = points.len() - 1;
                assert(verdicts[i] && points[i] == admitted(points, verdicts)[j]);
            }
        }
    }
}

/// What scoring behind a filter returns is part of what scoring without
/// the filter returns for the same candidates, and the checker has admitted
/// every point of it. The points are part of it in any case; the entries,
/// score and all, wherever the metric gives a point one score only.
pub proof fn lemma_filtered_within_unfiltered<C: ConditionChecker>(
    scorer: FilteredScorer<C>,
    points: Seq<PointOffsetType>,
    out: Seq<ScoredPointOffset>,
    full: Seq<ScoredPointOffset>,
)
    requires
        scorer.filter is Some,
        scorer.is_filtered_scoring(points, out),
        is_scoring(scorer.raw_scorer.live(), scorer.raw_scorer.ratings(), points, full),
    ensures
        forall|j: int|
            0 <= j < out.len() ==> answers(
                scorer.condition_checker,
                scorer.filter->0,
                (#[trigger] out[j]).idx,
                true,
            ),
        forall|j: int|
            0 <= j < out.len() ==> offsets_of(full).contains(
                (#[trigger] out[j]).idx,
            ),
        is_functional(scorer.raw_scorer.ratings()) ==> forall|j: int|
            0 <= j < out.len() ==> full.contains(#[trigger] out[j]),
{
    let live = scorer.raw_scorer.live();
    let ratings = scorer.raw_scorer.ratings();
    let f = scorer.filter->0;
    let verdicts = choose|verdicts: Seq<bool>|
        {
            &&& answers_all(scorer.condition_checker, f, points, verdicts)
            &&& #[trigger] is_scoring(live, ratings, admitted(points, verdicts), out)
        };
    let passed = admitted(points, verdicts);
    lemma_admitted(points, verdicts);
    lemma_scoring_offsets(live, ratings, passed, out);
    lemma_scoring_offsets(live, ratings, points, full);
    assert forall|j: int| 0 <= j < out.len() implies answers(
        scorer.condition_checker,
        f,
        (#[trigger] out[j]).idx,
        true,
    ) && offsets_of(full).contains(out[j].idx) && (is_functional(ratings)
        ==> full.contains(out[j])) by {
        let p = out[j].idx;
        assert(passed.contains(p));
        let t = choose|t: int| 0 <= t < passed.len() && passed[t] == p;
        let i = choose|i: int|
            0 <= i < points.len() && #[trigger] verdicts[i] && points[i] == #[trigger] passed[t];
        assert(answers(scorer.condition_checker, f, points[i], verdicts[i]));
        assert(live.contains(points[i]));
        let u = choose|u: int| 0 <= u < full.len() && #[trigger] full[u].idx == points[i];
        assert(offsets_of(full)[u] == p);
        if is_functional(ratings) {
            assert(ratings.contains((full[u].idx, full[u].score)));
            assert(ratings.contains((out[j].idx, out[j].score)));
            assert(full[u] == out[j]);
        }
    }
}

/// Scorings of two runs of candidates, laid end to end, are a scoring of
/// the candidates laid end to end.
pub proof fn lemma_scoring_concat(
    live: Set<PointOffsetType>,
    ratings: Set<(PointOffsetType, ScoreType)>,
    a: Seq<PointOffsetType>,
    out_a: Seq<ScoredPointOffset>,
    b: Seq<PointOffsetType>,
    out_b: Seq<ScoredPointOffset>,
)
    requires
        is_scoring(live, ratings, a, out_a),
        is_scoring(live, ratings, b, out_b),
    ensures
        is_scoring(live, ratings, a + b, out_a + out_b),
{
    let keep = |p: PointOffsetType| live.contains(p);
    Seq::filter_distributes_over_add(a, b, keep);
    assert(offsets_of(out_a + out_b) =~= offsets_of(out_a)
        + offsets_of(out_b));
    assert forall|j: int| 0 <= j < (out_a + out_b).len() implies ratings.contains(
        (#[trigger] (out_a + out_b)[j].idx, (out_a + out_b)[j].score),
    ) by {
        if j < out_a.len() {
            assert((out_a + out_b)[j] == out_a[j]);
        } else {
            assert((out_a + out_b)[j] == out_b[j - out_a.len()]);
        }
    }
}

/// The points admitted among two runs of candidates are those admitted in
/// the first followed by those admitted in the second.
pub proof fn lemma_admitted_concat(
    a: Seq<PointOffsetType>,
    va: Seq<bool>,
    b: Seq<PointOffsetType>,
    vb: Seq<bool>,
)
    requires
        va.len() == a.len(),
        vb.len() == b.len(),
    ensures
        admitted(a + b, va + vb) == admitted(a, va) + admitted(b, vb),
    decreases b.len(),
{
    if b.len() == 0 {
        assert(a + b =~= a);
        assert(va + vb =~= va);
        assert(admitted(a, va) + admitted(b, vb) =~= admitted(a, va));
    } else {
        assert((a + b).drop_last() =~= a + b.drop_last());
        assert((va + vb).drop_last() =~= va + vb.drop_last());
        lemma_admitted_concat(a, va, b.drop_last(), vb.drop_last());
        assert(admitted(a + b, va + vb) =~= admitted(a, va) + admitted(b, vb));
    }
}

} // verus!
