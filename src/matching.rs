use vstd::prelude::*;

use crate::descriptor::{hamming, hamming_distance, Descriptor};

verus! {

/// A correspondence: a position in the first descriptor collection, a position
/// in the second, and the Hamming distance between the two descriptors.
#[derive(Debug, Clone, Copy, PartialEq, Eq, Structural)]
pub struct Match {
    pub index_0: usize,
    pub index_1: usize,
    pub distance: usize,
}

/// Lowe's ratio as a fraction `numerator / denominator`.
#[derive(Debug, Clone, Copy, PartialEq, Eq, Structural)]
pub struct LowesRatio {
    pub numerator: u64,
    pub denominator: u64,
}

impl LowesRatio {
    /// The ratio lies strictly between zero and one.
    pub open spec fn valid(self) -> bool {
        0 < self.numerator < self.denominator
    }
}

/// Distance threshold of the fixed two-stage policy: above every distance that
/// two descriptors held in memory can have, so that no candidate is rejected
/// by it and only the ratio test prunes.
pub const RANSAC_DISTANCE_THRESHOLD: usize = usize::MAX;

/// Numerator of Lowe's ratio of the fixed two-stage policy, 7 / 10.
pub const RANSAC_RATIO_NUMERATOR: u64 = 7;

/// Denominator of Lowe's ratio of the fixed two-stage policy, 7 / 10.
pub const RANSAC_RATIO_DENOMINATOR: u64 = 10;

/// Every descriptor of the collection has `len` bits.
pub open spec fn all_of_len(ds: Seq<Seq<bool>>, len: nat) -> bool {
    forall|i: int| 0 <= i < ds.len() ==> #[trigger] ds[i].len() == len
}

/// The views of a descriptor collection.
pub open spec fn views(ds: Seq<Descriptor>) -> Seq<Seq<bool>> {
    ds.map_values(|d: Descriptor| d@)
}

/// Best distance, index of the best, and second-best distance after scanning
/// the first `n` descriptors of `bs` for `a`, with both bounds starting at `t`.
/// A candidate replaces the best only when strictly closer.
pub open spec fn scan(a: Seq<bool>, bs: Seq<Seq<bool>>, t: nat, n: int) -> (nat, nat, nat)
    decreases n,
{
    if n <= 0 {
        (t, 0, t)
    } else {
        let prev = scan(a, bs, t, n - 1);
        let d = hamming(a, bs[n - 1]);
        if d < prev.0 {
            (d, (n - 1) as nat, prev.0)
        } else if d < prev.2 {
            (prev.0, prev.1, d)
        } else {
            prev
        }
    }
}

/// Lowe's ratio test: `best < second * numerator / denominator`.
pub open spec fn passes_ratio(best: nat, second: nat, ratio: LowesRatio) -> bool {
    best * ratio.denominator < second * ratio.numerator
}

/// The outcome of the full scan of `bs` for `a`.
pub open spec fn best_two(a: Seq<bool>, bs: Seq<Seq<bool>>, t: nat) -> (nat, nat, nat) {
    scan(a, bs, t, bs.len() as int)
}

/// `a` passes the ratio test against `bs`.
pub open spec fn ratio_accepts(a: Seq<bool>, bs: Seq<Seq<bool>>, t: nat, ratio: LowesRatio) -> bool {
    let s = best_two(a, bs, t);
    passes_ratio(s.0, s.2, ratio)
}

/// `a` passes the ratio test and its best distance lies below the threshold.
pub open spec fn emits(a: Seq<bool>, bs: Seq<Seq<bool>>, t: nat, ratio: LowesRatio) -> bool {
    ratio_accepts(a, bs, t, ratio) && best_two(a, bs, t).0 < t
}

/// The matches emitted for the first `n` descriptors of `as_`.
pub open spec fn matches_upto(
    as_: Seq<Seq<bool>>,
    bs: Seq<Seq<bool>>,
    t: nat,
    ratio: LowesRatio,
    n: int,
) -> Seq<Match>
    decreases n,
{
    if n <= 0 {
        Seq::empty()
    } else {
        let prev = matches_upto(as_, bs, t, ratio, n - 1);
        if emits(as_[n - 1], bs, t, ratio) {
            let s = best_two(as_[n - 1], bs, t);
            prev.push(Match { index_0: (n - 1) as usize, index_1: s.1 as usize, distance: s.0 as usize })
        } else {
            prev
        }
    }
}

/// The matches of the brute-force matcher on whole collections.
pub open spec fn matches_of(as_: Seq<Seq<bool>>, bs: Seq<Seq<bool>>, t: nat, ratio: LowesRatio) -> Seq<Match> {
    matches_upto(as_, bs, t, ratio, as_.len() as int)
}

/// Number of descriptors among the first `n` that pass the ratio test but not
/// the threshold.
pub open spec fn filtered_upto(
    as_: Seq<Seq<bool>>,
    bs: Seq<Seq<bool>>,
    t: nat,
    ratio: LowesRatio,
    n: int,
) -> nat
    decreases n,
{
    if n <= 0 {
        0
    } else {
        filtered_upto(as_, bs, t, ratio, n - 1) + if ratio_accepts(as_[n - 1], bs, t, ratio)
            && best_two(as_[n - 1], bs, t).0 >= t {
            1nat
        } else {
            0nat
        }
    }
}

proof fn lemma_scan_bounds(a: Seq<bool>, bs: Seq<Seq<bool>>, t: nat, n: int)
    requires
        0 <= n <= bs.len(),
    ensures
        scan(a, bs, t, n).0 <= scan(a, bs, t, n).2,
        scan(a, bs, t, n).2 <= t,
        scan(a, bs, t, n).1 < bs.len() || (n == 0 && scan(a, bs, t, n).1 == 0),
        scan(a, bs, t, n).0 < t ==> scan(a, bs, t, n).1 < n,
        scan(a, bs, t, n).1 == 0 || scan(a, bs, t, n).1 < n,
    decreases n,
{
    if n > 0 {
        lemma_scan_bounds(a, bs, t, n - 1);
    }
}

/// The scan finds the closest candidate, the earliest one on ties, when any
/// lies below the threshold; the second-best distance is at most the distance
/// of every other candidate, and neither exceeds the threshold.
pub proof fn lemma_best_two_is_closest(a: Seq<bool>, bs: Seq<Seq<bool>>, t: nat, n: int)
    requires
        0 <= n <= bs.len(),
    ensures
        scan(a, bs, t, n).0 <= scan(a, bs, t, n).2 <= t,
        forall|j: int| 0 <= j < n ==> scan(a, bs, t, n).0 <= #[trigger] hamming(a, bs[j]),
        forall|j: int|
            0 <= j < n && j != scan(a, bs, t, n).1 ==> scan(a, bs, t, n).2 <= #[trigger] hamming(
                a,
                bs[j],
            ),
        scan(a, bs, t, n).0 < t ==> {
            &&& scan(a, bs, t, n).1 < n
            &&& hamming(a, bs[scan(a, bs, t, n).1 as int]) == scan(a, bs, t, n).0
            &&& forall|j: int|
                0 <= j < scan(a, bs, t, n).1 ==> scan(a, bs, t, n).0 < #[trigger] hamming(a, bs[j])
        },
    decreases n,
{
    if n > 0 {
        lemma_best_two_is_closest(a, bs, t, n - 1);
    }
}

/// Scans `descriptors_1` for the closest and second-closest descriptor to `d0`,
/// using the current second-best distance as the bailout bound of each evaluation.
fn scan_best_two(d0: &Descriptor, descriptors_1: &Vec<Descriptor>, distance_threshold: usize) -> (r: (
    usize,
    usize,
    usize,
))
    requires
        all_of_len(views(descriptors_1@), d0@.len()),
    ensures
        r.0 == best_two(d0@, views(descriptors_1@), distance_threshold as nat).0,
        r.1 == best_two(d0@, views(descriptors_1@), distance_threshold as nat).1,
        r.2 == best_two(d0@, views(descriptors_1@), distance_threshold as nat).2,
        r.0 <= r.2 <= distance_threshold,
        r.0 < distance_threshold ==> r.1 < descriptors_1@.len(),
{
    let ghost bs = views(descriptors_1@);
    let ghost t = distance_threshold as nat;
    let mut min_distance = distance_threshold;
    let mut min_j: usize = 0;
    let mut second_to_min_distance = distance_threshold;
    let mut j: usize = 0;
    while j < descriptors_1.len()
        invariant
            bs == views(descriptors_1@),
            t == distance_threshold,
            all_of_len(bs, d0@.len()),
            j <= descriptors_1@.len(),
            min_distance == scan(d0@, bs, t, j as int).0,
            min_j == scan(d0@, bs, t, j as int).1,
            second_to_min_distance == scan(d0@, bs, t, j as int).2,
        decreases descriptors_1@.len() - j,
    {
        proof {
            lemma_scan_bounds(d0@, bs, t, j as int);
            assert(bs[j as int] == descriptors_1@[j as int]@);
            assert(bs[j as int].len() == d0@.len());
        }
        let distance = hamming_distance(d0, &descriptors_1[j], second_to_min_distance);
        if distance < min_distance {
            second_to_min_distance = min_distance;
            min_distance = distance;
            min_j = j;
        } else if distance < second_to_min_distance {
            second_to_min_distance = distance;
        }
        j = j + 1;
    }
    proof {
        lemma_scan_bounds(d0@, bs, t, j as int);
    }
    (min_distance, min_j, second_to_min_distance)
}

} // verus!

verus! {

/// Summary of one matching call, for observability.
#[derive(Debug, Clone, Copy, PartialEq, Eq, Structural)]
pub struct MatchStats {
    /// Number of emitted matches.
    pub accepted: usize,
    /// Number of descriptors that passed the ratio test but not the threshold.
    pub filtered_by_threshold: usize,
    /// Sum of the distances of the emitted matches.
    pub distance_sum: u128,
    /// Smallest distance among the emitted matches.
    pub min_distance: Option<usize>,
    /// Largest distance among the emitted matches.
    pub max_distance: Option<usize>,
}

/// Sum of the distances of a sequence of matches.
pub open spec fn sum_distances(ms: Seq<Match>) -> nat
    decreases ms.len(),
{
    if ms.len() == 0 {
        0
    } else {
        sum_distances(ms.drop_last()) + ms.last().distance as nat
    }
}

/// `m` is the least distance of `ms`.
pub open spec fn is_min_distance(ms: Seq<Match>, m: usize) -> bool {
    (exists|k: int| 0 <= k < ms.len() && #[trigger] ms[k].distance == m) && forall|k: int|
        0 <= k < ms.len() ==> m <= #[trigger] ms[k].distance
}

/// `m` is the greatest distance of `ms`.
pub open spec fn is_max_distance(ms: Seq<Match>, m: usize) -> bool {
    (exists|k: int| 0 <= k < ms.len() && #[trigger] ms[k].distance == m) && forall|k: int|
        0 <= k < ms.len() ==> #[trigger] ms[k].distance <= m
}

/// Every descriptor of one collection has the length of every descriptor of the other.
pub open spec fn lengths_agree(as_: Seq<Seq<bool>>, bs: Seq<Seq<bool>>) -> bool {
    forall|i: int, j: int|
        0 <= i < as_.len() && 0 <= j < bs.len() ==> #[trigger] as_[i].len() == #[trigger] bs[j].len()
}

/// All descriptors of the collection share one bit length.
pub open spec fn one_length(ds: Seq<Seq<bool>>) -> bool {
    forall|i: int, j: int| 0 <= i < ds.len() && 0 <= j < ds.len() ==> #[trigger] ds[i].len() == #[trigger] ds[j].len()
}

proof fn lemma_one_length_agrees(as_: Seq<Seq<bool>>, bs: Seq<Seq<bool>>)
    requires
        one_length(as_ + bs),
    ensures
        lengths_agree(as_, bs),
{
    let all = as_ + bs;
    assert forall|i: int, j: int| 0 <= i < as_.len() && 0 <= j < bs.len() implies #[trigger] as_[i].len()
        == #[trigger] bs[j].len() by {
        assert(all[i] == as_[i]);
        assert(all[as_.len() + j] == bs[j]);
        assert(all[i].len() == all[as_.len() + j].len());
    }
}

/// The statistics agree with the matches `ms` and the filtered count `filtered`.
pub open spec fn stats_of(st: MatchStats, ms: Seq<Match>, filtered: nat) -> bool {
    &&& st.accepted == ms.len()
    &&& st.filtered_by_threshold == filtered
    &&& st.distance_sum == sum_distances(ms)
    &&& (ms.len() == 0 <==> st.min_distance is None)
    &&& (ms.len() == 0 <==> st.max_distance is None)
    &&& (st.min_distance matches Some(m) ==> is_min_distance(ms, m))
    &&& (st.max_distance matches Some(m) ==> is_max_distance(ms, m))
}

proof fn lemma_sum_bound(ms: Seq<Match>, t: nat)
    requires
        forall|k: int| 0 <= k < ms.len() ==> (#[trigger] ms[k]).distance < t,
    ensures
        sum_distances(ms) <= ms.len() * t,
    decreases ms.len(),
{
    if ms.len() > 0 {
        let p = ms.drop_last();
        assert forall|k: int| 0 <= k < p.len() implies (#[trigger] p[k]).distance < t by {
            assert(p[k] == ms[k]);
        }
        lemma_sum_bound(p, t);
        assert(ms.last() == ms[ms.len() - 1]);
        assert(sum_distances(ms) <= p.len() * t + t);
        assert(p.len() * t + t == ms.len() * t) by (nonlinear_arith)
            requires
                p.len() + 1 == ms.len(),
        ;
    }
}

proof fn lemma_matches_upto_props(
    as_: Seq<Seq<bool>>,
    bs: Seq<Seq<bool>>,
    t: nat,
    ratio: LowesRatio,
    n: int,
)
    requires
        0 <= n <= as_.len(),
        as_.len() <= usize::MAX,
        bs.len() <= usize::MAX,
        t <= usize::MAX,
    ensures
        matches_upto(as_, bs, t, ratio, n).len() <= n,
        forall|k: int|
            0 <= k < matches_upto(as_, bs, t, ratio, n).len() ==> {
                let m = #[trigger] matches_upto(as_, bs, t, ratio, n)[k];
                &&& m.index_0 < n
                &&& m.index_1 < bs.len()
                &&& m.distance < t
                &&& m.distance as nat == best_two(as_[m.index_0 as int], bs, t).0
                &&& m.index_1 as nat == best_two(as_[m.index_0 as int], bs, t).1
            },
        forall|k: int, l: int|
            0 <= k < l < matches_upto(as_, bs, t, ratio, n).len() ==> (#[trigger] matches_upto(
                as_,
                bs,
                t,
                ratio,
                n,
            )[k]).index_0 < (#[trigger] matches_upto(as_, bs, t, ratio, n)[l]).index_0,
    decreases n,
{
    if n > 0 {
        lemma_matches_upto_props(as_, bs, t, ratio, n - 1);
        lemma_scan_bounds(as_[n - 1], bs, t, bs.len() as int);
    }
}

/// Brute-force matching with statistics: for each descriptor of `descriptors_0`,
/// the closest descriptor of `descriptors_1` is matched when it passes Lowe's
/// ratio test against the second closest and lies below `distance_threshold`.
pub fn descriptor_match_with_stats(
    descriptors_0: &Vec<Descriptor>,
    descriptors_1: &Vec<Descriptor>,
    distance_threshold: usize,
    lowes_ratio: LowesRatio,
) -> (r: (Vec<Match>, MatchStats))
    requires
        one_length(views(descriptors_0@) + views(descriptors_1@)),
        lowes_ratio.valid(),
    ensures
        r.0@ == matches_of(
            views(descriptors_0@),
            views(descriptors_1@),
            distance_threshold as nat,
            lowes_ratio,
        ),
        stats_of(
            r.1,
            r.0@,
            filtered_upto(
                views(descriptors_0@),
                views(descriptors_1@),
                distance_threshold as nat,
                lowes_ratio,
                descriptors_0@.len() as int,
            ),
        ),
{
    let ghost as_ = views(descriptors_0@);
    let ghost bs = views(descriptors_1@);
    let ghost t = distance_threshold as nat;
    assert(as_.len() == descriptors_0@.len() && bs.len() == descriptors_1@.len());
    proof {
        lemma_one_length_agrees(as_, bs);
    }
    let mut output: Vec<Match> = Vec::new();
    let mut filtered_by_threshold: usize = 0;
    let mut distance_sum: u128 = 0;
    let mut min_distance: Option<usize> = None;
    let mut max_distance: Option<usize> = None;
    let n0 = descriptors_0.len();
    let n1 = descriptors_1.len();
    let mut i: usize = 0;
    while i < n0
        invariant
            n0 == descriptors_0@.len(),
            n1 == descriptors_1@.len(),
            as_.len() == n0,
            bs.len() == n1,
            as_ == views(descriptors_0@),
            bs == views(descriptors_1@),
            t == distance_threshold,
            lengths_agree(as_, bs),
            i <= descriptors_0@.len(),
            output@ == matches_upto(as_, bs, t, lowes_ratio, i as int),
            filtered_by_threshold == filtered_upto(as_, bs, t, lowes_ratio, i as int),
            filtered_by_threshold <= i,
            stats_of(
                MatchStats {
                    accepted: output.len(),
                    filtered_by_threshold,
                    distance_sum,
                    min_distance,
                    max_distance,
                },
                output@,
                filtered_by_threshold as nat,
            ),
        decreases descriptors_0@.len() - i,
    {
        proof {
            lemma_matches_upto_props(as_, bs, t, lowes_ratio, i as int);
            assert(as_[i as int] == descriptors_0@[i as int]@);
            assert forall|j: int| 0 <= j < bs.len() implies #[trigger] bs[j].len() == descriptors_0@[i as int]@.len() by {
                assert(as_[i as int].len() == bs[j].len());
            }
        }
        let (best, best_j, second) = scan_best_two(&descriptors_0[i], descriptors_1, distance_threshold);
        proof {
            assert((best as nat) * (lowes_ratio.denominator as nat) <= u128::MAX) by (nonlinear_arith)
                requires
                    best <= u64::MAX,
                    lowes_ratio.denominator <= u64::MAX,
            ;
            assert((second as nat) * (lowes_ratio.numerator as nat) <= u128::MAX) by (nonlinear_arith)
                requires
                    second <= u64::MAX,
                    lowes_ratio.numerator <= u64::MAX,
            ;
        }
        let ratio_ok = (best as u128) * (lowes_ratio.denominator as u128) < (second as u128) * (
        lowes_ratio.numerator as u128);
        if ratio_ok {
            if best < distance_threshold {
                let m = Match { index_0: i, index_1: best_j, distance: best };
                proof {
                    lemma_sum_bound(output@, t);
                    let len = output@.len();
                    assert(len < n0);
                    assert(len * t + t <= u128::MAX) by (nonlinear_arith)
                        requires
                            len < usize::MAX,
                            t <= usize::MAX,
                            usize::MAX <= u64::MAX,
                    ;
                }
                let ghost prev = output@;
                let ghost old_min = min_distance;
                let ghost old_max = max_distance;
                output.push(m);
                distance_sum = distance_sum + best as u128;
                proof {
                    assert(output@.drop_last() == prev);
                }
                match min_distance {
                    None => {
                        min_distance = Some(best);
                    },
                    Some(v) => {
                        if best < v {
                            min_distance = Some(best);
                        }
                    },
                }
                match max_distance {
                    None => {
                        max_distance = Some(best);
                    },
                    Some(v) => {
                        if best > v {
                            max_distance = Some(best);
                        }
                    },
                }
                proof {
                    let ms = output@;
                    assert(ms[ms.len() - 1] == m);
                    assert forall|k: int| 0 <= k < prev.len() implies ms[k] == prev[k] by {}
                    let last = ms.len() - 1;
                    if let Some(v) = min_distance {
                        if let Some(w) = old_min {
                            let k = choose|k: int| 0 <= k < prev.len() && #[trigger] prev[k].distance == w;
                            if v == w {
                                assert(ms[k].distance == v);
                            } else {
                                assert(ms[last].distance == v);
                            }
                        } else {
                            assert(ms[last].distance == v);
                        }
                        assert(is_min_distance(ms, v));
                    }
                    if let Some(v) = max_distance {
                        if let Some(w) = old_max {
                            let k = choose|k: int| 0 <= k < prev.len() && #[trigger] prev[k].distance == w;
                            if v == w {
                                assert(ms[k].distance == v);
                            } else {
                                assert(ms[last].distance == v);
                            }
                        } else {
                            assert(ms[last].distance == v);
                        }
                        assert(is_max_distance(ms, v));
                    }
                }
            } else {
                filtered_by_threshold = filtered_by_threshold + 1;
            }
        }
        i = i + 1;
    }
    let stats = MatchStats {
        accepted: output.len(),
        filtered_by_threshold,
        distance_sum,
        min_distance,
        max_distance,
    };
    (output, stats)
}

/// Brute-force matching: for each descriptor of `descriptors_0`, the closest
/// descriptor of `descriptors_1` is matched when it passes Lowe's ratio test
/// against the second closest and lies below `distance_threshold`.
pub fn descriptor_match(
    descriptors_0: &Vec<Descriptor>,
    descriptors_1: &Vec<Descriptor>,
    distance_threshold: usize,
    lowes_ratio: LowesRatio,
) -> (r: Vec<Match>)
    requires
        one_length(views(descriptors_0@) + views(descriptors_1@)),
        lowes_ratio.valid(),
    ensures
        r@ == matches_of(
            views(descriptors_0@),
            views(descriptors_1@),
            distance_threshold as nat,
            lowes_ratio,
        ),
        forall|k: int|
            0 <= k < r@.len() ==> {
                &&& (#[trigger] r@[k]).index_0 < descriptors_0@.len()
                &&& r@[k].index_1 < descriptors_1@.len()
                &&& r@[k].distance < distance_threshold
            },
        forall|k: int, l: int|
            0 <= k < l < r@.len() ==> (#[trigger] r@[k]).index_0 < (#[trigger] r@[l]).index_0,
{
    let n0 = descriptors_0.len();
    let n1 = descriptors_1.len();
    let (output, _stats) = descriptor_match_with_stats(
        descriptors_0,
        descriptors_1,
        distance_threshold,
        lowes_ratio,
    );
    proof {
        assert(views(descriptors_0@).len() == n0 && views(descriptors_1@).len() == n1);
        lemma_matches_upto_props(
            views(descriptors_0@),
            views(descriptors_1@),
            distance_threshold as nat,
            lowes_ratio,
            descriptors_0@.len() as int,
        );
    }
    output
}

} // verus!

verus! {

/// `r1` is at most `r2`.
pub open spec fn ratio_le(r1: LowesRatio, r2: LowesRatio) -> bool {
    r1.numerator * r2.denominator <= r2.numerator * r1.denominator
}

proof fn lemma_passes_ratio_monotone(best: nat, second: nat, r1: LowesRatio, r2: LowesRatio)
    requires
        r1.valid(),
        r2.valid(),
        ratio_le(r1, r2),
        passes_ratio(best, second, r1),
    ensures
        passes_ratio(best, second, r2),
{
    let (n1, d1, n2, d2) = (
        r1.numerator as int,
        r1.denominator as int,
        r2.numerator as int,
        r2.denominator as int,
    );
    let (b, s) = (best as int, second as int);
    assert(b * d2 < s * n2) by (nonlinear_arith)
        requires
            b >= 0,
            s >= 0,
            d1 > 0,
            d2 > 0,
            b * d1 < s * n1,
            n1 * d2 <= n2 * d1,
    {
        assert(b * d1 * d2 < s * n1 * d2);
        assert(s * n1 * d2 <= s * n2 * d1);
        assert((b * d2) * d1 < (s * n2) * d1);
    }
}

/// Raising Lowe's ratio never removes a match nor lowers the number of
/// descriptors that pass the ratio test.
pub proof fn lemma_raising_ratio_keeps_matches(
    as_: Seq<Seq<bool>>,
    bs: Seq<Seq<bool>>,
    t: nat,
    r1: LowesRatio,
    r2: LowesRatio,
)
    requires
        r1.valid(),
        r2.valid(),
        ratio_le(r1, r2),
    ensures
        matches_of(as_, bs, t, r1).len() <= matches_of(as_, bs, t, r2).len(),
        matches_of(as_, bs, t, r1).len() + filtered_upto(as_, bs, t, r1, as_.len() as int)
            <= matches_of(as_, bs, t, r2).len() + filtered_upto(as_, bs, t, r2, as_.len() as int),
        forall|k: int|
            0 <= k < matches_of(as_, bs, t, r1).len() ==> matches_of(as_, bs, t, r2).contains(
                #[trigger] matches_of(as_, bs, t, r1)[k],
            ),
{
    lemma_raising_ratio_upto(as_, bs, t, r1, r2, as_.len() as int);
}

proof fn lemma_raising_ratio_upto(
    as_: Seq<Seq<bool>>,
    bs: Seq<Seq<bool>>,
    t: nat,
    r1: LowesRatio,
    r2: LowesRatio,
    n: int,
)
    requires
        r1.valid(),
        r2.valid(),
        ratio_le(r1, r2),
    ensures
        matches_upto(as_, bs, t, r1, n).len() <= matches_upto(as_, bs, t, r2, n).len(),
        matches_upto(as_, bs, t, r1, n).len() + filtered_upto(as_, bs, t, r1, n)
            <= matches_upto(as_, bs, t, r2, n).len() + filtered_upto(as_, bs, t, r2, n),
        forall|k: int|
            0 <= k < matches_upto(as_, bs, t, r1, n).len() ==> matches_upto(
                as_,
                bs,
                t,
                r2,
                n,
            ).contains(#[trigger] matches_upto(as_, bs, t, r1, n)[k]),
    decreases n,
{
    if n > 0 {
        lemma_raising_ratio_upto(as_, bs, t, r1, r2, n - 1);
        let s = best_two(as_[n - 1], bs, t);
        if passes_ratio(s.0, s.2, r1) {
            lemma_passes_ratio_monotone(s.0, s.2, r1, r2);
        }
        let p1 = matches_upto(as_, bs, t, r1, n - 1);
        let p2 = matches_upto(as_, bs, t, r2, n - 1);
        let c1 = matches_upto(as_, bs, t, r1, n);
        let c2 = matches_upto(as_, bs, t, r2, n);
        assert forall|k: int| 0 <= k < c1.len() implies c2.contains(#[trigger] c1[k]) by {
            if k < p1.len() {
                assert(c1[k] == p1[k]);
                assert(p2.contains(p1[k]));
                let w = choose|w: int| 0 <= w < p2.len() && p2[w] == p1[k];
                assert(c2[w] == p2[w]);
            } else {
                assert(c2[c2.len() - 1] == c1[k]);
            }
        }
    }
}

} // verus!
