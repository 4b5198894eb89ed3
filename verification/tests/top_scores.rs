use segment::top_scores::{order_key, peek_top_scores};
use segment::types::{PointOffsetType, ScoredPointOffset};

fn scored(idx: PointOffsetType, score: f32) -> ScoredPointOffset {
    ScoredPointOffset { idx, score: score.to_bits() }
}

fn offsets(out: &[ScoredPointOffset]) -> Vec<PointOffsetType> {
    out.iter().map(|s| s.idx).collect()
}

fn scores(out: &[ScoredPointOffset]) -> Vec<f32> {
    out.iter().map(|s| f32::from_bits(s.score)).collect()
}

#[test]
fn top_scores_come_best_first() {
    let input = vec![scored(0, 0.5), scored(1, 2.0), scored(2, -1.0), scored(3, 1.5)];
    let out = peek_top_scores(&input, 3);
    assert_eq!(offsets(&out), vec![1, 3, 0]);
    assert_eq!(scores(&out), vec![2.0, 1.5, 0.5]);
}

#[test]
fn top_scores_keep_input_order_among_equal_scores() {
    let input = vec![scored(5, 1.0), scored(6, 2.0), scored(7, 1.0), scored(8, 1.0)];
    let out = peek_top_scores(&input, 3);
    assert_eq!(offsets(&out), vec![6, 5, 7]);
}

#[test]
fn top_scores_prefer_the_earlier_of_equal_entries_at_the_cut() {
    let input = vec![scored(9, 3.0), scored(4, 3.0), scored(1, 3.0)];
    let out = peek_top_scores(&input, 2);
    assert_eq!(offsets(&out), vec![9, 4]);
}

#[test]
fn top_larger_than_input_returns_everything_sorted() {
    let input = vec![scored(0, -2.0), scored(1, 7.0), scored(2, 0.0)];
    let out = peek_top_scores(&input, 10);
    assert_eq!(out.len(), 3);
    assert_eq!(offsets(&out), vec![1, 2, 0]);
}

#[test]
fn top_zero_returns_nothing() {
    let input = vec![scored(0, 1.0), scored(1, 2.0)];
    assert!(peek_top_scores(&input, 0).is_empty());
}

#[test]
fn top_of_nothing_is_nothing() {
    let input: Vec<ScoredPointOffset> = Vec::new();
    assert!(peek_top_scores(&input, 5).is_empty());
}

#[test]
fn top_scores_order_negative_scores() {
    let input = vec![scored(0, -1.0), scored(1, -3.0), scored(2, -2.0)];
    let out = peek_top_scores(&input, 2);
    assert_eq!(scores(&out), vec![-1.0, -2.0]);
    assert_eq!(offsets(&out), vec![0, 2]);
}

#[test]
fn top_scores_length_is_the_smaller_of_top_and_input() {
    let input: Vec<ScoredPointOffset> = (0..7).map(|i| scored(i, (i % 3) as f32)).collect();
    for top in 0..10 {
        let out = peek_top_scores(&input, top);
        assert_eq!(out.len(), top.min(input.len()));
        for pair in out.windows(2) {
            assert!(f32::from_bits(pair[0].score) >= f32::from_bits(pair[1].score));
        }
    }
}

#[test]
fn top_scores_do_not_change_the_input() {
    let input = vec![scored(0, 0.5), scored(1, 2.0)];
    let copy = input.clone();
    let first = peek_top_scores(&input, 1);
    let second = peek_top_scores(&input, 1);
    assert_eq!(input, copy);
    assert_eq!(first, second);
}

#[test]
fn order_key_follows_the_order_of_the_numbers() {
    let ascending = [
        f32::NEG_INFINITY,
        -100500.0,
        -333.1,
        -1.0,
        -0.069,
        -0.0,
        0.0,
        1e-10,
        0.42,
        1.0,
        333.1,
        f32::INFINITY,
    ];
    for pair in ascending.windows(2) {
        assert!(order_key(pair[0].to_bits()) < order_key(pair[1].to_bits()));
    }
}

#[test]
fn order_key_has_the_documented_values() {
    assert_eq!(order_key(0.0f32.to_bits()), 0x8000_0000);
    assert_eq!(order_key(1.0f32.to_bits()), 0xbf80_0000);
    assert_eq!(order_key((-1.0f32).to_bits()), 0x407f_ffff);
    assert_eq!(order_key((-0.0f32).to_bits()), 0x7fff_ffff);
}
