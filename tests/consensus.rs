use akaze::color::{blend, random_color};
use akaze::consensus::{
    best_model, draw_samples, sample_indices, select_inliers, support, MIN_SAMPLE_SIZE,
};
use akaze::matching::Match;

fn m(i: usize) -> Match {
    Match { index_0: i, index_1: i + 100, distance: i }
}

#[test]
fn sample_is_distinct_and_in_range() {
    let draws: Vec<u64> = vec![3, 13, 23, 4, 5, 6, 7, 8, 9, 10, 11, 12];
    let s = sample_indices(&draws, 10).unwrap();
    assert_eq!(s, vec![3, 4, 5, 6, 7, 8, 9, 0]);
    assert_eq!(s.len(), MIN_SAMPLE_SIZE);
}

#[test]
fn sample_needs_enough_candidates_and_draws() {
    let draws: Vec<u64> = (0..100).collect();
    assert_eq!(sample_indices(&draws, 7), None);
    let few: Vec<u64> = vec![1, 2, 3, 1, 2, 3, 4, 5, 6];
    assert_eq!(sample_indices(&few, 20), None);
}

#[test]
fn support_counts_inliers() {
    assert_eq!(support(&vec![true, false, true, true]), 3);
    assert_eq!(support(&vec![]), 0);
}

#[test]
fn best_model_takes_greatest_support_earliest_on_ties() {
    let small = vec![true; 9];
    let mut large = vec![true; 12];
    large[0] = false;
    let masks = vec![small.clone(), vec![true; 11], large.clone(), vec![true; 10]];
    // Supports are 9, 11, 11 and 10: the first model with 11 wins.
    assert_eq!(best_model(&masks), Some(1));
}

#[test]
fn best_model_needs_more_than_a_sample() {
    let masks = vec![vec![true; MIN_SAMPLE_SIZE], vec![false; 20]];
    assert_eq!(best_model(&masks), None);
    assert_eq!(best_model(&Vec::new()), None);
}

#[test]
fn inliers_are_a_subset_of_candidates() {
    let candidates = vec![m(0), m(1), m(2), m(3), m(4)];
    let mask = vec![true, false, false, true, true];
    let inliers = select_inliers(&candidates, &mask);
    assert_eq!(inliers, vec![m(0), m(3), m(4)]);
    for x in inliers.iter() {
        assert!(candidates.contains(x));
    }
    assert_eq!(select_inliers(&candidates, &mask), inliers);
}

#[test]
fn blend_averages_channels() {
    assert_eq!(blend((255, 0, 10), (255, 1, 21)), (255, 0, 15));
    assert_eq!(blend((0, 100, 7), (200, 50, 8)), (100, 75, 7));
}

#[test]
fn seeded_samples_are_reproducible() {
    let first = draw_samples(42, 69, 20, 5, 64);
    let again = draw_samples(42, 69, 20, 5, 64);
    assert_eq!(first.len(), 5);
    assert_eq!(first, again);
    for s in first.iter() {
        let s = s.as_ref().unwrap();
        assert_eq!(s.len(), MIN_SAMPLE_SIZE);
        for (k, x) in s.iter().enumerate() {
            assert!(*x < 20);
            assert!(!s[k + 1..].contains(x));
        }
    }
    assert_ne!(first[0], first[1]);
    let other = draw_samples(7, 11, 20, 5, 64);
    assert_ne!(first, other);
}

#[test]
fn seeded_samples_need_enough_candidates() {
    let samples = draw_samples(42, 69, 7, 3, 64);
    assert_eq!(samples, vec![None, None, None]);
    // Too few numbers per attempt to hold a full sample.
    let short = draw_samples(42, 69, 100, 2, 4);
    assert_eq!(short, vec![None, None]);
}

#[test]
fn seeded_samples_follow_the_generator() {
    // The first Xorshift128+ outputs for seed (42, 69) are 352324404,
    // 1283466974, 2955488539098172, ...; reduced modulo 20 with repeats skipped.
    let samples = draw_samples(42, 69, 20, 2, 64);
    assert_eq!(
        samples,
        vec![Some(vec![4, 14, 12, 16, 1, 15, 11, 10]), Some(vec![6, 7, 16, 4, 0, 17, 10, 19])]
    );
}

#[test]
fn keypoint_color_comes_from_the_seeded_generator() {
    // Low bytes of 352324404, 1283466974 and 2955488539098172.
    assert_eq!(random_color(), (52, 222, 60));
    assert_eq!(random_color(), random_color());
}
