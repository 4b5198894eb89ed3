use segment::memmap_vector_storage::MemmapVectorStorage;
use segment::metric::Metric;
use segment::point_scorer::{ConditionChecker, FilteredScorer};
use segment::types::{PointOffsetType, ScoredPointOffset, VectorElementType};
use segment::vector_storage::VectorStorage;

struct DotProductMetric;

impl Metric for DotProductMetric {
    fn preprocess(&self, vector: Vec<VectorElementType>) -> Vec<VectorElementType> {
        vector
    }

    fn similarity(&self, v1: &Vec<VectorElementType>, v2: &Vec<VectorElementType>) -> u32 {
        let dot: f32 = v1
            .iter()
            .zip(v2.iter())
            .map(|(a, b)| f32::from_bits(*a) * f32::from_bits(*b))
            .sum();
        dot.to_bits()
    }
}

/// Admits the points whose offset leaves the wanted rest when divided.
struct RestChecker {
    divisor: usize,
}

impl ConditionChecker for RestChecker {
    type Filter = usize;

    fn check(&self, point_id: PointOffsetType, query: &usize) -> bool {
        point_id % self.divisor == *query
    }
}

fn floats(vector: &[f32]) -> Vec<VectorElementType> {
    vector.iter().map(|x| x.to_bits()).collect()
}

fn storage_of_six() -> MemmapVectorStorage {
    let mut storage = MemmapVectorStorage::open(Vec::new(), Vec::new(), 2).unwrap();
    for i in 0..6 {
        storage.put_vector(&floats(&[i as f32, 1.0])).unwrap();
    }
    storage.delete(4).unwrap();
    storage
}

fn offsets(out: &[ScoredPointOffset]) -> Vec<PointOffsetType> {
    out.iter().map(|s| s.idx).collect()
}

fn scores(out: &[ScoredPointOffset]) -> Vec<f32> {
    out.iter().map(|s| f32::from_bits(s.score)).collect()
}

#[test]
fn without_a_filter_every_live_candidate_is_scored() {
    let storage = storage_of_six();
    let metric = DotProductMetric;
    let raw = storage.raw_scorer(&floats(&[1.0, 10.0]), &metric);
    let checker = RestChecker { divisor: 2 };
    let scorer = FilteredScorer { raw_scorer: &raw, condition_checker: &checker, filter: None };

    let out = scorer.score_points(&[5, 4, 0, 7, 1]);
    assert_eq!(offsets(&out), vec![5, 0, 1]);
    assert_eq!(scores(&out), vec![15.0, 10.0, 11.0]);
    assert!(scorer.check_point(1));
    assert!(!scorer.check_point(4));
    assert!(!scorer.check_point(6));
}

#[test]
fn with_a_filter_a_candidate_must_be_admitted_and_live() {
    let storage = storage_of_six();
    let metric = DotProductMetric;
    let raw = storage.raw_scorer(&floats(&[1.0, 10.0]), &metric);
    let checker = RestChecker { divisor: 2 };
    let even = 0usize;
    let scorer =
        FilteredScorer { raw_scorer: &raw, condition_checker: &checker, filter: Some(&even) };

    let out = scorer.score_points(&[5, 4, 2, 8, 0, 1, 2]);
    assert_eq!(offsets(&out), vec![2, 0, 2]);
    assert_eq!(scores(&out), vec![12.0, 10.0, 12.0]);

    assert!(scorer.check_point(0));
    assert!(scorer.check_point(2));
    assert!(!scorer.check_point(1));
    assert!(!scorer.check_point(4));
    assert!(!scorer.check_point(8));
}

#[test]
fn score_point_is_one_step_of_the_stream() {
    let storage = storage_of_six();
    let metric = DotProductMetric;
    let raw = storage.raw_scorer(&floats(&[2.0, 0.0]), &metric);
    let checker = RestChecker { divisor: 3 };
    let rest = 2usize;
    let scorer =
        FilteredScorer { raw_scorer: &raw, condition_checker: &checker, filter: Some(&rest) };

    assert_eq!(scorer.score_point(2), Some(ScoredPointOffset { idx: 2, score: 4.0f32.to_bits() }));
    assert_eq!(scorer.score_point(5), Some(ScoredPointOffset { idx: 5, score: 10.0f32.to_bits() }));
    assert_eq!(scorer.score_point(3), None);
    assert_eq!(scorer.score_point(8), None);

    let lazily: Vec<ScoredPointOffset> =
        (0..).filter_map(|id| scorer.score_point(id)).take(2).collect();
    assert_eq!(offsets(&lazily), vec![2, 5]);
}

#[test]
fn an_iterator_is_scored_in_its_order() {
    let storage = storage_of_six();
    let metric = DotProductMetric;
    let raw = storage.raw_scorer(&floats(&[1.0, 0.0]), &metric);
    let checker = RestChecker { divisor: 2 };
    let odd = 1usize;
    let filtered =
        FilteredScorer { raw_scorer: &raw, condition_checker: &checker, filter: Some(&odd) };
    let plain = FilteredScorer { raw_scorer: &raw, condition_checker: &checker, filter: None };

    let candidates = vec![5usize, 3, 4, 1, 0, 9];
    let out = filtered.score_iterable_points(candidates.iter().cloned());
    assert_eq!(offsets(&out), vec![5, 3, 1]);
    assert_eq!(scores(&out), vec![5.0, 3.0, 1.0]);

    let mut rest = candidates.iter().cloned();
    assert_eq!(rest.next(), Some(5));
    let out = plain.score_iterable_points(&mut rest);
    assert_eq!(offsets(&out), vec![3, 1, 0]);
    assert_eq!(rest.next(), None);

    assert!(plain.score_iterable_points(std::iter::empty()).is_empty());
    assert_eq!(out, plain.score_points(&[3, 4, 1, 0, 9]));
}

#[test]
fn filtered_scores_are_part_of_the_unfiltered_scores() {
    let storage = storage_of_six();
    let metric = DotProductMetric;
    let raw = storage.raw_scorer(&floats(&[1.0, 1.0]), &metric);
    let candidates: Vec<PointOffsetType> = vec![7, 5, 4, 3, 2, 1, 0, 3];
    for divisor in 1..4 {
        let checker = RestChecker { divisor };
        let plain = FilteredScorer { raw_scorer: &raw, condition_checker: &checker, filter: None };
        let full = plain.score_points(&candidates);
        for rest in 0..divisor {
            let filtered = FilteredScorer {
                raw_scorer: &raw,
                condition_checker: &checker,
                filter: Some(&rest),
            };
            let out = filtered.score_points(&candidates);
            for scored in out.iter() {
                assert!(checker.check(scored.idx, &rest));
                assert!(full.contains(scored));
            }
            let expected: Vec<ScoredPointOffset> =
                full.iter().filter(|s| checker.check(s.idx, &rest)).cloned().collect();
            assert_eq!(out, expected);
        }
    }
}
