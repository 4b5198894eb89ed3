use segment::memmap_vector_storage::MemmapVectorStorage;
use segment::metric::Metric;
use segment::raw_scorer::RawScorer;
use segment::types::{OperationError, PointOffsetType, ScoredPointOffset, VectorElementType};
use segment::vector_storage::{VectorSource, VectorStorage};

struct DotProductMetric;

impl Metric for DotProductMetric {
    fn preprocess(&self, vector: Vec<VectorElementType>) -> Vec<VectorElementType> {
        vector
    }

    fn similarity(&self, v1: &Vec<VectorElementType>, v2: &Vec<VectorElementType>) -> u32 {
        let dot: f32 = v1
            .iter()
            .zip(v2.iter())
            .map(|(a, b)| f32::from_bits(*a) * f32::from_bits(*b))
            .sum();
        dot.to_bits()
    }
}

/// Scores by the negated sum of the differences, after halving the query.
struct HalvingMetric;

impl Metric for HalvingMetric {
    fn preprocess(&self, vector: Vec<VectorElementType>) -> Vec<VectorElementType> {
        vector.iter().map(|x| (f32::from_bits(*x) / 2.0).to_bits()).collect()
    }

    fn similarity(&self, v1: &Vec<VectorElementType>, v2: &Vec<VectorElementType>) -> u32 {
        let distance: f32 = v1
            .iter()
            .zip(v2.iter())
            .map(|(a, b)| (f32::from_bits(*a) - f32::from_bits(*b)).abs())
            .sum();
        (-distance).to_bits()
    }
}

fn floats(vector: &[f32]) -> Vec<VectorElementType> {
    vector.iter().map(|x| x.to_bits()).collect()
}

fn empty_storage(dim: usize) -> MemmapVectorStorage {
    MemmapVectorStorage::open(Vec::new(), Vec::new(), dim).unwrap()
}

fn five_vectors() -> Vec<Vec<VectorElementType>> {
    vec![
        floats(&[1.0, 0.0, 1.0, 1.0]),
        floats(&[1.0, 0.0, 1.0, 0.0]),
        floats(&[1.0, 1.0, 1.0, 1.0]),
        floats(&[1.0, 1.0, 0.0, 1.0]),
        floats(&[1.0, 0.0, 0.0, 0.0]),
    ]
}

fn storage_of_five() -> MemmapVectorStorage {
    let mut storage = empty_storage(4);
    for (i, vector) in five_vectors().iter().enumerate() {
        assert_eq!(storage.put_vector(vector), Ok(i));
    }
    storage
}

fn offsets(out: &[ScoredPointOffset]) -> Vec<PointOffsetType> {
    out.iter().map(|s| s.idx).collect()
}

fn scores(out: &[ScoredPointOffset]) -> Vec<f32> {
    out.iter().map(|s| f32::from_bits(s.score)).collect()
}

#[test]
fn a_new_storage_is_empty() {
    let storage = empty_storage(3);
    assert_eq!(storage.vector_dim(), 3);
    assert_eq!(storage.vector_count(), 0);
    assert_eq!(storage.deleted_count(), 0);
    assert_eq!(storage.get_vector(0), None);
    assert!(storage.iter_ids().is_empty());
    assert!(storage.vectors_image().is_empty());
    assert!(storage.deleted_image().is_empty());
}

#[test]
fn puts_are_counted_and_handed_back_unchanged() {
    for dim in 1..6usize {
        let mut storage = empty_storage(dim);
        let vectors: Vec<Vec<VectorElementType>> = (0..9)
            .map(|i| (0..dim).map(|j| ((i * 10 + j) as f32 - 3.5).to_bits()).collect())
            .collect();
        for (n, vector) in vectors.iter().enumerate() {
            assert_eq!(storage.put_vector(vector), Ok(n));
            assert_eq!(storage.vector_count(), n + 1);
            for i in 0..=n {
                assert_eq!(storage.get_vector(i).as_ref(), Some(&vectors[i]));
            }
            assert_eq!(storage.get_vector(n + 1), None);
        }
    }
}

#[test]
fn put_refuses_a_vector_of_another_length() {
    let mut storage = empty_storage(4);
    assert_eq!(
        storage.put_vector(&floats(&[1.0, 2.0, 3.0])),
        Err(OperationError::DimensionMismatch)
    );
    assert_eq!(
        storage.put_vector(&floats(&[1.0, 2.0, 3.0, 4.0, 5.0])),
        Err(OperationError::DimensionMismatch)
    );
    assert_eq!(storage.put_vector(&Vec::new()), Err(OperationError::DimensionMismatch));
    assert_eq!(storage.vector_count(), 0);
    assert!(storage.vectors_image().is_empty());
}

#[test]
fn update_is_not_supported() {
    let mut storage = storage_of_five();
    let before = storage.vectors_image().clone();
    assert_eq!(
        storage.update_vector(0, &floats(&[9.0, 9.0, 9.0, 9.0])),
        Err(OperationError::Unsupported)
    );
    assert_eq!(storage.update_vector(0, &floats(&[9.0])), Err(OperationError::Unsupported));
    assert_eq!(
        storage.update_vector(77, &floats(&[9.0, 9.0, 9.0, 9.0])),
        Err(OperationError::Unsupported)
    );
    assert_eq!(storage.vectors_image(), &before);
}

#[test]
fn delete_hides_the_slot_and_keeps_its_vector() {
    let mut storage = storage_of_five();
    assert_eq!(storage.delete(2), Ok(()));
    assert_eq!(storage.iter_ids(), vec![0, 1, 3, 4]);
    assert_eq!(storage.get_vector(2), Some(floats(&[1.0, 1.0, 1.0, 1.0])));

    let query = floats(&[1.0, 1.0, 1.0, 1.0]);
    for top in 0..7 {
        let all = storage.score_all(&query, top, &DotProductMetric);
        assert!(all.iter().all(|s| s.idx != 2));
        let some = storage.score_points(&query, &[2, 0, 2, 4], top, &DotProductMetric);
        assert!(some.iter().all(|s| s.idx != 2));
    }
    let scorer_metric = DotProductMetric;
    let scorer = storage.raw_scorer(&query, &scorer_metric);
    assert!(!scorer.check_point(2));
    assert_eq!(scorer.score_point(2), None);
    assert_eq!(offsets(&scorer.score_points(&[2, 3, 2])), vec![3]);
}

#[test]
fn live_and_deleted_slots_are_all_the_slots() {
    let mut storage = storage_of_five();
    assert_eq!(storage.vector_count() + storage.deleted_count(), 5);
    storage.delete(0).unwrap();
    storage.delete(3).unwrap();
    assert_eq!(storage.vector_count(), 3);
    assert_eq!(storage.deleted_count(), 2);
    storage.put_vector(&floats(&[0.0, 0.0, 0.0, 0.0])).unwrap();
    assert_eq!(storage.vector_count(), 4);
    assert_eq!(storage.deleted_count(), 2);
    assert_eq!(storage.vector_count() + storage.deleted_count(), 6);
    let mut other = empty_storage(4);
    other.update_from(&storage).unwrap();
    assert_eq!(other.vector_count() + other.deleted_count(), 4);
}

#[test]
fn deleting_twice_is_deleting_once() {
    let mut once = storage_of_five();
    let mut twice = storage_of_five();
    assert_eq!(once.delete(1), Ok(()));
    assert_eq!(twice.delete(1), Ok(()));
    assert_eq!(twice.delete(1), Ok(()));
    assert_eq!(once.vector_count(), twice.vector_count());
    assert_eq!(once.deleted_count(), twice.deleted_count());
    assert_eq!(once.iter_ids(), twice.iter_ids());
    assert_eq!(once.deleted_image(), twice.deleted_image());
    assert_eq!(once.vectors_image(), twice.vectors_image());
}

#[test]
fn storage_delete_beyond_the_last_slot_is_out_of_range() {
    let mut storage = storage_of_five();
    assert_eq!(storage.delete(5), Err(OperationError::OutOfRange));
    assert_eq!(storage.vector_count(), 5);
    assert_eq!(empty_storage(4).delete(0), Err(OperationError::OutOfRange));
}

#[test]
fn update_from_appends_the_live_vectors_in_order() {
    let mut source = storage_of_five();
    source.delete(1).unwrap();
    source.delete(4).unwrap();

    let mut storage = empty_storage(4);
    storage.put_vector(&floats(&[7.0, 7.0, 7.0, 7.0])).unwrap();
    let range = storage.update_from(&source).unwrap();

    assert_eq!(range, 1..4);
    assert_eq!(range.len(), source.vector_count());
    let live = source.iter_ids();
    for (i, offset) in range.enumerate() {
        assert_eq!(storage.get_vector(offset), source.get_vector(live[i]));
    }
    assert_eq!(storage.get_vector(0), Some(floats(&[7.0, 7.0, 7.0, 7.0])));
    assert_eq!(storage.vector_count(), 4);
    assert_eq!(storage.deleted_count(), 0);
    assert_eq!(storage.iter_ids(), vec![0, 1, 2, 3]);
    assert_eq!(storage.deleted_image().len() * 16, storage.vectors_image().len());
}

#[test]
fn update_from_an_empty_storage_adds_nothing() {
    let mut storage = storage_of_five();
    let range = storage.update_from(&empty_storage(4)).unwrap();
    assert_eq!(range, 5..5);
    assert_eq!(storage.vector_count(), 5);
}

#[test]
fn update_from_refuses_another_dimension() {
    let mut storage = storage_of_five();
    let mut source = empty_storage(3);
    source.put_vector(&floats(&[1.0, 2.0, 3.0])).unwrap();
    let before = storage.vectors_image().clone();
    assert_eq!(storage.update_from(&source).err(), Some(OperationError::DimensionMismatch));
    assert_eq!(storage.vector_count(), 5);
    assert_eq!(storage.vectors_image(), &before);
}

#[test]
fn reopening_the_images_gives_the_same_storage() {
    let mut storage = storage_of_five();
    storage.delete(2).unwrap();
    storage.delete(4).unwrap();
    assert_eq!(storage.flush(), Ok(()));

    let reopened = MemmapVectorStorage::open(
        storage.vectors_image().clone(),
        storage.deleted_image().clone(),
        storage.vector_dim(),
    )
    .unwrap();

    assert_eq!(reopened.vector_dim(), storage.vector_dim());
    assert_eq!(reopened.vector_count(), storage.vector_count());
    assert_eq!(reopened.deleted_count(), storage.deleted_count());
    assert_eq!(reopened.iter_ids(), storage.iter_ids());
    for offset in 0..6 {
        assert_eq!(reopened.get_vector(offset), storage.get_vector(offset));
    }
}

#[test]
fn open_refuses_images_that_do_not_fit() {
    let storage = storage_of_five();
    let mut vectors = storage.vectors_image().clone();
    let deleted = storage.deleted_image().clone();
    assert_eq!(
        MemmapVectorStorage::open(vectors.clone(), deleted.clone(), 3).err(),
        Some(OperationError::Corruption)
    );
    assert_eq!(
        MemmapVectorStorage::open(vectors.clone(), deleted.clone(), 0).err(),
        Some(OperationError::DimensionMismatch)
    );
    vectors.pop();
    assert_eq!(
        MemmapVectorStorage::open(vectors, deleted, 4).err(),
        Some(OperationError::Corruption)
    );
}

#[test]
fn the_images_have_the_layout_of_the_files() {
    let mut storage = empty_storage(2);
    storage.put_vector(&floats(&[1.0, -2.0])).unwrap();
    storage.put_vector(&floats(&[0.5, 0.0])).unwrap();
    storage.delete(0).unwrap();
    let mut expected = Vec::new();
    for x in [1.0f32, -2.0, 0.5, 0.0] {
        expected.extend_from_slice(&x.to_le_bytes());
    }
    assert_eq!(storage.vectors_image(), &expected);
    assert_eq!(storage.deleted_image(), &vec![1u8, 0]);
}

#[test]
fn scenario_delete_then_score_all_with_dot_product() {
    let mut storage = storage_of_five();
    storage.delete(2).unwrap();
    assert_eq!(storage.iter_ids(), vec![0, 1, 3, 4]);

    let query = floats(&[1.0, 1.0, 1.0, 1.0]);
    let res = storage.score_all(&query, 2, &DotProductMetric);
    assert_eq!(res.len(), 2);
    assert!(res.iter().all(|s| s.idx != 2));
    assert_eq!(offsets(&res), vec![0, 3]);
    assert_eq!(scores(&res), vec![3.0, 3.0]);
}

#[test]
fn scenario_raw_scores_keep_the_order_of_the_candidates() {
    let storage = storage_of_five();
    let query = floats(&[-1.0, -1.0, -1.0, -1.0]);
    let metric = DotProductMetric;
    let scorer = storage.raw_scorer(&query, &metric);
    let res = scorer.score_points(&[0, 2, 4]);
    assert_eq!(offsets(&res), vec![0, 2, 4]);
    assert_eq!(scores(&res), vec![-3.0, -4.0, -1.0]);
    assert_eq!(f32::from_bits(res[2].score), -1.0);
}

#[test]
fn score_points_selects_the_best_of_the_live_candidates() {
    let mut storage = storage_of_five();
    storage.delete(0).unwrap();
    let query = floats(&[1.0, 1.0, 1.0, 1.0]);
    let res = storage.score_points(&query, &[4, 0, 1, 9, 2, 3], 3, &DotProductMetric);
    assert_eq!(offsets(&res), vec![2, 3, 1]);
    assert_eq!(scores(&res), vec![4.0, 3.0, 2.0]);
    let all = storage.score_points(&query, &[4, 0, 1, 9, 2, 3], 10, &DotProductMetric);
    assert_eq!(offsets(&all), vec![2, 3, 1, 4]);
    assert!(storage.score_points(&query, &[], 3, &DotProductMetric).is_empty());
    assert!(storage.score_points(&query, &[0, 9], 3, &DotProductMetric).is_empty());
}

#[test]
fn scoring_prepares_the_query_once_with_the_metric() {
    let mut storage = empty_storage(1);
    storage.put_vector(&floats(&[1.0])).unwrap();
    storage.put_vector(&floats(&[2.0])).unwrap();
    storage.put_vector(&floats(&[4.0])).unwrap();
    // the query 4 is halved to 2, so slot 1 is the nearest
    let res = storage.score_all(&floats(&[4.0]), 3, &HalvingMetric);
    assert_eq!(offsets(&res), vec![1, 0, 2]);
    assert_eq!(scores(&res), vec![-0.0, -1.0, -2.0]);
}

#[test]
fn score_internal_scores_against_a_stored_vector() {
    let storage = storage_of_five();
    let res = storage.score_internal(2, &[0, 1, 4], 2, &DotProductMetric).unwrap();
    assert_eq!(offsets(&res), vec![0, 1]);
    assert_eq!(scores(&res), vec![3.0, 2.0]);
}

#[test]
fn score_internal_does_not_find_a_deleted_or_absent_point() {
    let mut storage = storage_of_five();
    storage.delete(2).unwrap();
    assert_eq!(
        storage.score_internal(2, &[0, 1, 4], 2, &DotProductMetric),
        Err(OperationError::NotFound)
    );
    assert_eq!(
        storage.score_internal(5, &[0, 1, 4], 2, &DotProductMetric),
        Err(OperationError::NotFound)
    );
}

#[test]
fn raw_scorer_passes_over_deleted_and_absent_points() {
    let mut storage = storage_of_five();
    storage.delete(3).unwrap();
    let query = floats(&[1.0, 0.0, 0.0, 0.0]);
    let metric = DotProductMetric;
    let scorer = storage.raw_scorer(&query, &metric);
    assert!(scorer.check_point(0));
    assert!(!scorer.check_point(3));
    assert!(!scorer.check_point(5));
    assert_eq!(scorer.score_point(1), Some(ScoredPointOffset { idx: 1, score: 1.0f32.to_bits() }));
    assert_eq!(scorer.score_point(3), None);
    assert_eq!(scorer.score_point(5), None);
    assert_eq!(offsets(&scorer.score_points(&[5, 4, 3, 3, 0, 4])), vec![4, 0, 4]);
}
