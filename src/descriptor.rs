use vstd::prelude::*;

verus! {

/// A binary feature descriptor: one bit per dimension.
#[derive(Debug, Clone)]
pub struct Descriptor {
    vector: Vec<bool>,
}

impl View for Descriptor {
    type V = Seq<bool>;

    closed spec fn view(&self) -> Seq<bool> {
        self.vector@
    }
}

/// Number of positions below `k` at which `a` and `b` differ.
pub open spec fn diff_count(a: Seq<bool>, b: Seq<bool>, k: int) -> nat
    decreases k,
{
    if k <= 0 {
        0
    } else {
        diff_count(a, b, k - 1) + if a[k - 1] != b[k - 1] { 1nat } else { 0nat }
    }
}

/// The Hamming distance: the number of positions at which two equal-length bit vectors differ.
pub open spec fn hamming(a: Seq<bool>, b: Seq<bool>) -> nat {
    diff_count(a, b, a.len() as int)
}

impl Descriptor {
    /// A descriptor holding the given bits.
    pub fn new(vector: Vec<bool>) -> (d: Descriptor)
        ensures
            d@ == vector@,
    {
        Descriptor { vector }
    }

    /// The number of bits in the descriptor.
    pub fn len(&self) -> (n: usize)
        ensures
            n == self@.len(),
    {
        self.vector.len()
    }

    /// The bit at position `i`.
    pub fn bit(&self, i: usize) -> (b: bool)
        requires
            i < self@.len(),
        ensures
            b == self@[i as int],
    {
        self.vector[i]
    }
}

pub proof fn lemma_diff_count_bounds(a: Seq<bool>, b: Seq<bool>, j: int, k: int)
    requires
        0 <= j <= k,
    ensures
        diff_count(a, b, j) <= diff_count(a, b, k),
        diff_count(a, b, k) <= diff_count(a, b, j) + (k - j),
    decreases k - j,
{
    if j < k {
        lemma_diff_count_bounds(a, b, j, k - 1);
    }
}

/// The Hamming distance between two descriptors, walked bit by bit in parallel.
/// Once the running count exceeds `bailout_distance` the walk stops and counts
/// every bit not yet compared as differing: the value returned then lies above
/// the bound and is an upper bound on the true distance.
pub fn hamming_distance(d0: &Descriptor, d1: &Descriptor, bailout_distance: usize) -> (r: usize)
    requires
        d0@.len() == d1@.len(),
    ensures
        r >= hamming(d0@, d1@),
        r <= d0@.len(),
        hamming(d0@, d1@) <= bailout_distance ==> r == hamming(d0@, d1@),
        r == hamming(d0@, d1@) || r > bailout_distance,
{
    let n = d0.vector.len();
    let mut distance: usize = 0;
    let mut i: usize = 0;
    while i < n
        invariant
            n == d0@.len(),
            n == d1@.len(),
            i <= n,
            distance == diff_count(d0@, d1@, i as int),
            distance <= bailout_distance,
            distance <= i,
        decreases n - i,
    {
        proof {
            lemma_diff_count_bounds(d0@, d1@, i as int, i + 1);
            lemma_diff_count_bounds(d0@, d1@, 0, i as int);
        }
        if d0.vector[i] != d1.vector[i] {
            distance = distance + 1;
        }
        i = i + 1;
        if distance > bailout_distance {
            proof {
                lemma_diff_count_bounds(d0@, d1@, i as int, n as int);
            }
            return distance + (n - i);
        }
    }
    distance
}

/// Hamming distance does not depend on the order of its arguments.
pub proof fn lemma_hamming_symmetric(a: Seq<bool>, b: Seq<bool>)
    requires
        a.len() == b.len(),
    ensures
        hamming(a, b) == hamming(b, a),
{
    lemma_diff_count_symmetric(a, b, a.len() as int);
}

proof fn lemma_diff_count_symmetric(a: Seq<bool>, b: Seq<bool>, k: int)
    ensures
        diff_count(a, b, k) == diff_count(b, a, k),
    decreases k,
{
    if k > 0 {
        lemma_diff_count_symmetric(a, b, k - 1);
    }
}

/// A descriptor is at distance zero from itself.
pub proof fn lemma_hamming_self_zero(a: Seq<bool>)
    ensures
        hamming(a, a) == 0,
{
    lemma_diff_count_self_zero(a, a.len() as int);
}

proof fn lemma_diff_count_self_zero(a: Seq<bool>, k: int)
    ensures
        diff_count(a, a, k) == 0,
    decreases k,
{
    if k > 0 {
        lemma_diff_count_self_zero(a, k - 1);
    }
}

} // verus!
