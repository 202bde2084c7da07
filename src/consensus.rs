use vstd::prelude::*;

use random::Source;

use crate::matching::Match;

verus! {

/// Number of correspondences that one model fit consumes. A model counts as
/// supported only when more candidates than this agree with it.
pub const MIN_SAMPLE_SIZE: usize = 8;

/// Number of `true` entries of a mask.
pub open spec fn count_true(mask: Seq<bool>) -> nat
    decreases mask.len(),
{
    if mask.len() == 0 {
        0
    } else {
        count_true(mask.drop_last()) + if mask.last() { 1nat } else { 0nat }
    }
}

/// The candidates whose mask entry is `true`, in their order.
pub open spec fn selected(candidates: Seq<Match>, mask: Seq<bool>) -> Seq<Match>
    decreases candidates.len(),
{
    if candidates.len() == 0 {
        Seq::empty()
    } else {
        let prev = selected(candidates.drop_last(), mask);
        if mask[candidates.len() - 1] {
            prev.push(candidates.last())
        } else {
            prev
        }
    }
}

/// The distinct indices below `n` drawn from the first `k` random numbers:
/// each number is reduced modulo `n`, repeats are skipped, and drawing stops
/// once a full sample is held.
pub open spec fn picked(draws: Seq<u64>, n: nat, k: int) -> Seq<usize>
    decreases k,
{
    if k <= 0 {
        Seq::empty()
    } else {
        let p = picked(draws, n, k - 1);
        let idx = (draws[k - 1] % (n as u64)) as usize;
        if p.len() < MIN_SAMPLE_SIZE && !p.contains(idx) {
            p.push(idx)
        } else {
            p
        }
    }
}

/// The sample drawn from `draws` over `n` candidates, if one can be drawn.
pub open spec fn sample_of(draws: Seq<u64>, n: nat) -> Option<Seq<usize>> {
    if n >= MIN_SAMPLE_SIZE && picked(draws, n, draws.len() as int).len() == MIN_SAMPLE_SIZE {
        Some(picked(draws, n, draws.len() as int))
    } else {
        None
    }
}

proof fn lemma_picked_props(draws: Seq<u64>, n: nat, k: int)
    requires
        0 < n <= u64::MAX,
        0 <= k <= draws.len(),
    ensures
        picked(draws, n, k).len() <= MIN_SAMPLE_SIZE,
        picked(draws, n, k).no_duplicates(),
        forall|i: int| 0 <= i < picked(draws, n, k).len() ==> #[trigger] picked(draws, n, k)[i] < n,
    decreases k,
{
    if k > 0 {
        lemma_picked_props(draws, n, k - 1);
    }
}

fn contains_index(v: &Vec<usize>, x: usize) -> (r: bool)
    ensures
        r == v@.contains(x),
{
    let mut i: usize = 0;
    while i < v.len()
        invariant
            i <= v@.len(),
            forall|j: int| 0 <= j < i ==> v@[j] != x,
        decreases v@.len() - i,
    {
        if v[i] == x {
            return true;
        }
        i = i + 1;
    }
    false
}

/// Draws a minimal sample of distinct candidate positions below `n` from the
/// random numbers `draws`. There is none when fewer than a full sample of
/// candidates exist, or when the numbers run out before a full sample is held.
pub fn sample_indices(draws: &Vec<u64>, n: usize) -> (r: Option<Vec<usize>>)
    ensures
        r matches Some(v) <==> sample_of(draws@, n as nat) matches Some(s),
        r matches Some(v) ==> sample_of(draws@, n as nat) == Some(v@),
        r matches Some(v) ==> {
            &&& v@.len() == MIN_SAMPLE_SIZE
            &&& v@.no_duplicates()
            &&& forall|i: int| 0 <= i < v@.len() ==> #[trigger] v@[i] < n
        },
        n < MIN_SAMPLE_SIZE ==> r is None,
{
    proof {
        assert(draws@.subrange(0, draws@.len() as int) == draws@);
    }
    sample_in_range(draws, 0, draws.len(), n)
}

/// The sample drawn from `draws[lo..hi]`.
fn sample_in_range(draws: &Vec<u64>, lo: usize, hi: usize, n: usize) -> (r: Option<Vec<usize>>)
    requires
        lo <= hi <= draws@.len(),
    ensures
        r matches Some(v) <==> sample_of(draws@.subrange(lo as int, hi as int), n as nat) matches Some(
            s,
        ),
        r matches Some(v) ==> sample_of(draws@.subrange(lo as int, hi as int), n as nat) == Some(v@),
        r matches Some(v) ==> {
            &&& v@.len() == MIN_SAMPLE_SIZE
            &&& v@.no_duplicates()
            &&& forall|i: int| 0 <= i < v@.len() ==> #[trigger] v@[i] < n
        },
        n < MIN_SAMPLE_SIZE ==> r is None,
{
    if n < MIN_SAMPLE_SIZE {
        return None;
    }
    let ghost ds = draws@.subrange(lo as int, hi as int);
    let m = n as u64;
    let mut sample: Vec<usize> = Vec::new();
    let mut k: usize = lo;
    while k < hi
        invariant
            ds == draws@.subrange(lo as int, hi as int),
            n >= MIN_SAMPLE_SIZE,
            m == n,
            lo <= k <= hi,
            hi <= draws@.len(),
            sample@ == picked(ds, n as nat, k - lo),
        decreases hi - k,
    {
        proof {
            lemma_picked_props(ds, n as nat, k - lo);
            assert(ds[k - lo] == draws@[k as int]);
        }
        let idx = (draws[k] % m) as usize;
        if sample.len() < MIN_SAMPLE_SIZE && !contains_index(&sample, idx) {
            sample.push(idx);
        }
        k = k + 1;
    }
    proof {
        lemma_picked_props(ds, n as nat, k - lo);
    }
    if sample.len() == MIN_SAMPLE_SIZE {
        Some(sample)
    } else {
        None
    }
}

/// One step of the Xorshift128+ generator from state `(s0, s1)`: the next
/// state and the number produced.
pub open spec fn xorshift_step(s0: u64, s1: u64) -> (u64, u64, u64) {
    let x1 = s0 ^ (s0 << 23u64);
    let x2 = x1 ^ (x1 >> 17u64);
    let x3 = x2 ^ s1 ^ (s1 >> 26u64);
    (s1, x3, ((x3 as nat + s1 as nat) % 0x1_0000_0000_0000_0000) as u64)
}

/// The first `count` outputs of the Xorshift128+ generator seeded with
/// `(seed_0, seed_1)`.
pub open spec fn xorshift_numbers(seed_0: u64, seed_1: u64, count: nat) -> Seq<u64>
    decreases count,
{
    if count == 0 {
        Seq::empty()
    } else {
        let next = xorshift_step(seed_0, seed_1);
        seq![next.2] + xorshift_numbers(next.0, next.1, (count - 1) as nat)
    }
}

/// Relies on `random::Xorshift128Plus::new` and its `Source::read_u64`: `count`
/// successive outputs of the generator, each one Xorshift128+ step from the
/// state the seed sets. `new` asserts that the seed is not all zero.
#[verifier::external_body]
pub(crate) fn seeded_numbers(seed_0: u64, seed_1: u64, count: usize) -> (r: Vec<u64>)
    requires
        seed_0 != 0 || seed_1 != 0,
    ensures
        r@ == xorshift_numbers(seed_0, seed_1, count as nat),
        r@.len() == count,
{
    let mut source = random::Xorshift128Plus::new([seed_0, seed_1]);
    let mut r = Vec::with_capacity(count);
    for _ in 0..count {
        r.push(source.read_u64());
    }
    r
}

/// The view of an optional sample.
pub open spec fn sample_view(s: Option<Vec<usize>>) -> Option<Seq<usize>> {
    match s {
        Some(v) => Some(v@),
        None => None,
    }
}

/// One sampling attempt per iteration, each from its own run of
/// `draws_per_sample` numbers of the generator seeded with `(seed_0, seed_1)`.
/// The same seed always gives the same samples.
pub fn draw_samples(
    seed_0: u64,
    seed_1: u64,
    n: usize,
    iterations: usize,
    draws_per_sample: usize,
) -> (r: Vec<Option<Vec<usize>>>)
    requires
        seed_0 != 0 || seed_1 != 0,
        iterations * draws_per_sample <= usize::MAX,
    ensures
        r@.len() == iterations,
        forall|k: int|
            0 <= k < iterations ==> sample_view(#[trigger] r@[k]) == sample_of(
                xorshift_numbers(
                    seed_0,
                    seed_1,
                    (iterations * draws_per_sample) as nat,
                ).subrange(k * draws_per_sample, k * draws_per_sample + draws_per_sample),
                n as nat,
            ),
{
    let total = iterations * draws_per_sample;
    let numbers = seeded_numbers(seed_0, seed_1, total);
    let mut samples: Vec<Option<Vec<usize>>> = Vec::new();
    let mut k: usize = 0;
    while k < iterations
        invariant
            total == iterations * draws_per_sample,
            total <= usize::MAX,
            numbers@ == xorshift_numbers(seed_0, seed_1, total as nat),
            numbers@.len() == total,
            k <= iterations,
            samples@.len() == k,
            forall|j: int|
                0 <= j < k ==> sample_view(#[trigger] samples@[j]) == sample_of(
                    numbers@.subrange(j * draws_per_sample, j * draws_per_sample + draws_per_sample),
                    n as nat,
                ),
        decreases iterations - k,
    {
        proof {
            assert(k * draws_per_sample + draws_per_sample <= iterations * draws_per_sample)
                by (nonlinear_arith)
                requires
                    k < iterations,
            ;
        }
        let lo = k * draws_per_sample;
        let s = sample_in_range(&numbers, lo, lo + draws_per_sample, n);
        samples.push(s);
        k = k + 1;
    }
    samples
}

/// The number of `true` entries of `mask`: the support of a model.
pub fn support(mask: &Vec<bool>) -> (r: usize)
    ensures
        r == count_true(mask@),
{
    let mut count: usize = 0;
    let mut i: usize = 0;
    while i < mask.len()
        invariant
            i <= mask@.len(),
            count == count_true(mask@.subrange(0, i as int)),
            count <= i,
        decreases mask@.len() - i,
    {
        proof {
            assert(mask@.subrange(0, i + 1).drop_last() == mask@.subrange(0, i as int));
        }
        if mask[i] {
            count = count + 1;
        }
        i = i + 1;
    }
    proof {
        assert(mask@.subrange(0, i as int) == mask@);
    }
    count
}

/// The position of the model with the greatest support among `masks`, the
/// earliest one on ties; none when no model is supported by more candidates
/// than a minimal sample holds.
pub fn best_model(masks: &Vec<Vec<bool>>) -> (r: Option<usize>)
    ensures
        r is None <==> forall|k: int|
            0 <= k < masks@.len() ==> count_true(#[trigger] masks@[k]@) <= MIN_SAMPLE_SIZE,
        r matches Some(b) ==> {
            &&& b < masks@.len()
            &&& count_true(masks@[b as int]@) > MIN_SAMPLE_SIZE
            &&& forall|k: int|
                0 <= k < masks@.len() ==> count_true(#[trigger] masks@[k]@) <= count_true(
                    masks@[b as int]@,
                )
            &&& forall|k: int| 0 <= k < b ==> count_true(#[trigger] masks@[k]@) < count_true(
                masks@[b as int]@,
            )
        },
{
    let mut best: usize = 0;
    let mut best_support: usize = 0;
    let mut i: usize = 0;
    while i < masks.len()
        invariant
            i <= masks@.len(),
            best <= i,
            best < i ==> best_support == count_true(masks@[best as int]@),
            best == i ==> best_support == 0,
            i > 0 && best_support == 0 ==> best == 0,
            forall|k: int| 0 <= k < i ==> count_true(#[trigger] masks@[k]@) <= best_support,
            forall|k: int| 0 <= k < best ==> count_true(#[trigger] masks@[k]@) < best_support,
        decreases masks@.len() - i,
    {
        let s = support(&masks[i]);
        if s > best_support || i == 0 {
            best = i;
            best_support = s;
        }
        i = i + 1;
    }
    if best_support > MIN_SAMPLE_SIZE {
        Some(best)
    } else {
        None
    }
}

/// The candidates that the model's mask marks as inliers, in their order.
pub fn select_inliers(candidates: &Vec<Match>, mask: &Vec<bool>) -> (r: Vec<Match>)
    requires
        candidates@.len() == mask@.len(),
    ensures
        r@ == selected(candidates@, mask@),
{
    let mut output: Vec<Match> = Vec::new();
    let mut i: usize = 0;
    while i < candidates.len()
        invariant
            candidates@.len() == mask@.len(),
            i <= candidates@.len(),
            output@ == selected(candidates@.subrange(0, i as int), mask@),
        decreases candidates@.len() - i,
    {
        proof {
            assert(candidates@.subrange(0, i + 1).drop_last() == candidates@.subrange(0, i as int));
        }
        if mask[i] {
            output.push(candidates[i]);
        }
        i = i + 1;
    }
    proof {
        assert(candidates@.subrange(0, i as int) == candidates@);
    }
    output
}

/// The inliers kept by a model are a subsequence of the candidates: each is one
/// of the candidates, and there are no more of them.
pub proof fn lemma_inliers_are_candidates(candidates: Seq<Match>, mask: Seq<bool>)
    requires
        candidates.len() == mask.len(),
    ensures
        selected(candidates, mask).len() <= candidates.len(),
        forall|k: int|
            0 <= k < selected(candidates, mask).len() ==> candidates.contains(
                #[trigger] selected(candidates, mask)[k],
            ),
{
    lemma_selected_within(candidates, mask);
}

proof fn lemma_selected_within(candidates: Seq<Match>, mask: Seq<bool>)
    requires
        candidates.len() <= mask.len(),
    ensures
        selected(candidates, mask).len() <= candidates.len(),
        forall|k: int|
            0 <= k < selected(candidates, mask).len() ==> candidates.contains(
                #[trigger] selected(candidates, mask)[k],
            ),
    decreases candidates.len(),
{
    if candidates.len() > 0 {
        let p = candidates.drop_last();
        lemma_selected_within(p, mask);
        let s = selected(candidates, mask);
        let ps = selected(p, mask);
        assert forall|k: int| 0 <= k < s.len() implies candidates.contains(#[trigger] s[k]) by {
            if k < ps.len() {
                assert(s[k] == ps[k]);
                assert(p.contains(ps[k]));
                let w = choose|w: int| 0 <= w < p.len() && p[w] == ps[k];
                assert(candidates[w] == p[w]);
            } else {
                assert(candidates[candidates.len() - 1] == s[k]);
            }
        }
    }
}

} // verus!
