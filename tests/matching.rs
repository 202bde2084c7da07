use akaze::descriptor::{hamming_distance, Descriptor};
use akaze::matching::{
    descriptor_match, descriptor_match_with_stats, LowesRatio, Match, RANSAC_DISTANCE_THRESHOLD,
    RANSAC_RATIO_DENOMINATOR, RANSAC_RATIO_NUMERATOR,
};

fn bits(pattern: &[u8]) -> Descriptor {
    Descriptor::new(pattern.iter().map(|&b| b == 1).collect())
}

fn zeros(len: usize) -> Vec<bool> {
    vec![false; len]
}

fn ratio(numerator: u64, denominator: u64) -> LowesRatio {
    LowesRatio { numerator, denominator }
}

#[test]
fn hamming_counts_differing_bits() {
    let d0 = bits(&[0, 1, 0, 0, 1, 0, 0]);
    let d1 = bits(&[0, 1, 0, 0, 0, 0, 0]);
    assert_eq!(hamming_distance(&d0, &d1, 100), 1);
    let d2 = bits(&[1, 0, 1, 1, 0, 1, 1]);
    assert_eq!(hamming_distance(&d0, &d2, 100), 7);
}

#[test]
fn hamming_is_symmetric() {
    let d0 = bits(&[1, 0, 1, 1, 0, 0, 1, 0]);
    let d1 = bits(&[0, 0, 1, 0, 1, 0, 1, 1]);
    assert_eq!(hamming_distance(&d0, &d1, 100), hamming_distance(&d1, &d0, 100));
    assert_eq!(hamming_distance(&d0, &d1, 100), 4);
}

#[test]
fn hamming_to_self_is_zero() {
    let d = bits(&[1, 0, 1, 1, 0, 0, 1, 0]);
    assert_eq!(hamming_distance(&d, &d, 0), 0);
}

#[test]
fn hamming_bailout_stops_above_bound() {
    let d0 = Descriptor::new(zeros(16));
    let mut first_four = zeros(16);
    for k in 0..4 {
        first_four[k] = true;
    }
    let d1 = Descriptor::new(first_four);
    // The true distance is 4. With bound 1 the walk stops after two differing
    // bits and counts the fourteen bits not compared: 2 + 14.
    let r = hamming_distance(&d0, &d1, 1);
    assert_eq!(r, 16);
    assert!(r > 1 && r >= 4);
    // A bound at or above the true distance gives the exact distance.
    assert_eq!(hamming_distance(&d0, &d1, 4), 4);
    // Two 2-bit descriptors differing everywhere, bound 0: never below 2.
    let a = bits(&[0, 0]);
    let b = bits(&[1, 1]);
    assert_eq!(hamming_distance(&a, &b, 0), 2);
}

#[test]
fn single_all_zero_pair_matches_against_threshold() {
    let a = vec![Descriptor::new(zeros(256))];
    let b = vec![Descriptor::new(zeros(256))];
    // The second-best distance stays at the threshold, so 0 < 50 * 0.7 holds.
    let m = descriptor_match(&a, &b, 50, ratio(7, 10));
    assert_eq!(m, vec![Match { index_0: 0, index_1: 0, distance: 0 }]);
    // With a zero threshold there is no second-best bound to beat.
    let none = descriptor_match(&a, &b, 0, ratio(7, 10));
    assert!(none.is_empty());
}

#[test]
fn identical_candidate_wins_over_near_one() {
    let d0 = zeros(256);
    let mut near = zeros(256);
    near[17] = true;
    let far = vec![true; 256];
    let mut b = Vec::new();
    for j in 0..10 {
        if j == 3 {
            b.push(Descriptor::new(d0.clone()));
        } else if j == 7 {
            b.push(Descriptor::new(near.clone()));
        } else {
            b.push(Descriptor::new(far.clone()));
        }
    }
    let a = vec![Descriptor::new(d0)];
    let m = descriptor_match(&a, &b, 50, ratio(7, 10));
    assert_eq!(m, vec![Match { index_0: 0, index_1: 3, distance: 0 }]);
}

#[test]
fn empty_collections_give_no_matches() {
    let a = vec![bits(&[1, 0, 1])];
    let empty: Vec<Descriptor> = Vec::new();
    let (m, stats) = descriptor_match_with_stats(&a, &empty, 50, ratio(7, 10));
    assert!(m.is_empty());
    assert_eq!(stats.accepted, 0);
    assert_eq!(stats.filtered_by_threshold, 0);
    assert_eq!(stats.min_distance, None);
    assert_eq!(stats.max_distance, None);
    assert!(descriptor_match(&empty, &a, 50, ratio(7, 10)).is_empty());
}

#[test]
fn ambiguous_best_is_rejected_by_ratio() {
    let a = vec![bits(&[0, 0, 0, 0])];
    let b = vec![bits(&[1, 0, 0, 0]), bits(&[0, 1, 0, 0])];
    assert!(descriptor_match(&a, &b, 50, ratio(7, 10)).is_empty());
}

#[test]
fn matching_is_one_directional() {
    let a = vec![bits(&[0, 0, 0, 0])];
    let b = vec![bits(&[1, 0, 0, 0]), bits(&[0, 1, 0, 0])];
    assert!(descriptor_match(&a, &b, 50, ratio(7, 10)).is_empty());
    let back = descriptor_match(&b, &a, 50, ratio(7, 10));
    assert_eq!(
        back,
        vec![
            Match { index_0: 0, index_1: 0, distance: 1 },
            Match { index_0: 1, index_1: 0, distance: 1 },
        ]
    );
}

#[test]
fn matches_respect_bounds_and_are_unique_per_source() {
    let a = vec![
        bits(&[0, 0, 0, 0, 0, 0, 0, 0]),
        bits(&[1, 1, 1, 1, 0, 0, 0, 0]),
        bits(&[1, 0, 1, 0, 1, 0, 1, 0]),
        bits(&[0, 0, 0, 0, 1, 1, 1, 1]),
    ];
    let b = vec![
        bits(&[1, 1, 1, 1, 0, 0, 0, 1]),
        bits(&[0, 0, 0, 0, 0, 0, 0, 0]),
        bits(&[0, 0, 0, 0, 1, 1, 1, 1]),
        bits(&[1, 0, 1, 0, 1, 0, 1, 1]),
    ];
    let threshold = 3;
    let m = descriptor_match(&a, &b, threshold, ratio(7, 10));
    assert_eq!(
        m,
        vec![
            Match { index_0: 0, index_1: 1, distance: 0 },
            Match { index_0: 1, index_1: 0, distance: 1 },
            Match { index_0: 2, index_1: 3, distance: 1 },
            Match { index_0: 3, index_1: 2, distance: 0 },
        ]
    );
    for (k, x) in m.iter().enumerate() {
        assert!(x.index_0 < a.len() && x.index_1 < b.len() && x.distance < threshold);
        for y in m.iter().skip(k + 1) {
            assert_ne!(x.index_0, y.index_0);
        }
    }
}

#[test]
fn statistics_summarise_the_matches() {
    let a = vec![
        bits(&[0, 0, 0, 0, 0, 0, 0, 0]),
        bits(&[1, 1, 1, 1, 0, 0, 0, 0]),
        bits(&[1, 0, 1, 0, 1, 0, 1, 0]),
    ];
    let b = vec![
        bits(&[0, 0, 0, 0, 0, 0, 0, 0]),
        bits(&[1, 1, 1, 1, 0, 0, 1, 1]),
        bits(&[0, 1, 0, 1, 0, 1, 0, 1]),
    ];
    let (m, stats) = descriptor_match_with_stats(&a, &b, 5, ratio(7, 10));
    assert_eq!(
        m,
        vec![
            Match { index_0: 0, index_1: 0, distance: 0 },
            Match { index_0: 1, index_1: 1, distance: 2 },
        ]
    );
    assert_eq!(stats.accepted, 2);
    assert_eq!(stats.filtered_by_threshold, 0);
    assert_eq!(stats.distance_sum, 2);
    assert_eq!(stats.min_distance, Some(0));
    assert_eq!(stats.max_distance, Some(2));
}

#[test]
fn raising_ratio_accepts_more() {
    // Best 2 and second-best 3 for the only source descriptor.
    let a = vec![bits(&[0, 0, 0, 0, 0, 0])];
    let b = vec![bits(&[1, 1, 0, 0, 0, 0]), bits(&[0, 0, 1, 1, 1, 0])];
    let strict = descriptor_match(&a, &b, 50, ratio(1, 2));
    let loose = descriptor_match(&a, &b, 50, ratio(9, 10));
    assert!(strict.is_empty());
    assert_eq!(loose, vec![Match { index_0: 0, index_1: 0, distance: 2 }]);
    assert!(strict.len() <= loose.len());
}

#[test]
fn fixed_policy_values() {
    assert_eq!(RANSAC_DISTANCE_THRESHOLD, usize::MAX);
    assert_eq!((RANSAC_RATIO_NUMERATOR, RANSAC_RATIO_DENOMINATOR), (7, 10));
}

#[test]
fn permissive_threshold_keeps_distant_matches() {
    // The best candidate lies 60 bits away, the second 200.
    let a = vec![Descriptor::new(zeros(256))];
    let mut sixty = zeros(256);
    for k in 0..60 {
        sixty[k] = true;
    }
    let mut two_hundred = zeros(256);
    for k in 0..200 {
        two_hundred[k] = true;
    }
    let b = vec![Descriptor::new(two_hundred), Descriptor::new(sixty)];
    let policy = ratio(RANSAC_RATIO_NUMERATOR, RANSAC_RATIO_DENOMINATOR);
    let m = descriptor_match(&a, &b, RANSAC_DISTANCE_THRESHOLD, policy);
    assert_eq!(m, vec![Match { index_0: 0, index_1: 1, distance: 60 }]);
    assert!(descriptor_match(&a, &b, 50, policy).is_empty());
}
