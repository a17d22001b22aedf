//! Statistics over the latencies that a benchmark collects. A latency is a
//! number of nanoseconds.

use vstd::prelude::*;

verus! {

/// The summary of a series of latencies, in nanoseconds.
#[derive(Debug, Clone, Copy)]
pub struct LatencySummary {
    pub count: usize,
    pub min: u128,
    pub max: u128,
    pub mean: u128,
    pub p50: u128,
    pub p90: u128,
    pub p99: u128,
    pub p999: u128,
}

/// The sum of a series.
pub open spec fn sum(s: Seq<u128>) -> nat
    decreases s.len(),
{
    if s.len() == 0 {
        0
    } else {
        sum(s.drop_last()) + s.last() as nat
    }
}

/// No later sample is smaller than an earlier one.
pub open spec fn ascending(s: Seq<u128>) -> bool {
    forall|i: int, j: int| 0 <= i <= j < s.len() ==> s[i] <= s[j]
}

/// The rank, from 1 to `n`, of a percentile by the nearest-rank method: the
/// smallest whole number that is at least `permille` thousandths of `n`.
pub open spec fn rank(n: nat, permille: nat) -> nat {
    let up = (permille * n + 999) / 1000;
    if up < 1 {
        1
    } else if up > n {
        n
    } else {
        up as nat
    }
}

/// The sample of a percentile in a series that ascends. Nothing is
/// interpolated.
pub open spec fn percentile_of(sorted: Seq<u128>, permille: nat) -> u128 {
    sorted[rank(sorted.len(), permille) - 1]
}

/// The summary of a series that ascends. The mean is rounded down.
pub open spec fn summary_of(sorted: Seq<u128>) -> LatencySummary {
    LatencySummary {
        count: sorted.len() as usize,
        min: sorted[0],
        max: sorted.last(),
        mean: (sum(sorted) / sorted.len()) as u128,
        p50: percentile_of(sorted, 500),
        p90: percentile_of(sorted, 900),
        p99: percentile_of(sorted, 990),
        p999: percentile_of(sorted, 999),
    }
}

/// `<[u128]>::sort_unstable`: the samples in ascending order, each as often as
/// before.
#[verifier::external_body]
fn sort_samples(samples: &mut [u128])
    ensures
        ascending(final(samples)@),
        final(samples)@.to_multiset() == old(samples)@.to_multiset(),
{
    samples.sort_unstable();
}

/// The sample of a percentile, given in thousandths, in a series that ascends.
fn percentile(sorted: &[u128], permille: u16) -> (sample: u128)
    requires
        sorted@.len() > 0,
    ensures
        sample == percentile_of(sorted@, permille as nat),
{
    let n: u128 = sorted.len() as u128;
    let p: u128 = permille as u128;
    assert(p * n <= 0xffff * 0xffff_ffff_ffff_ffff) by (nonlinear_arith)
        requires
            0 <= p <= 0xffff,
            0 <= n <= 0xffff_ffff_ffff_ffff,
    ;
    let up: u128 = (p * n + 999) / 1000;
    let rank: u128 = if up < 1 {
        1
    } else if up > n {
        n
    } else {
        up
    };
    sorted[(rank - 1) as usize]
}

/// The sum of the samples.
fn total(samples: &[u128]) -> (t: u128)
    requires
        sum(samples@) <= u128::MAX,
    ensures
        t == sum(samples@),
{
    let mut t: u128 = 0;
    let mut i: usize = 0;
    while i < samples.len()
        invariant
            i <= samples@.len(),
            t == sum(samples@.take(i as int)),
            sum(samples@) <= u128::MAX,
        decreases samples@.len() - i,
    {
        proof {
            assert(samples@.take(i + 1).drop_last() == samples@.take(i as int));
            lemma_sum_of_prefix(samples@, i + 1);
        }
        t = t + samples[i];
        i = i + 1;
    }
    assert(samples@.take(samples@.len() as int) == samples@);
    t
}

proof fn lemma_sum_of_prefix(s: Seq<u128>, i: int)
    requires
        0 <= i <= s.len(),
    ensures
        sum(s.take(i)) <= sum(s),
    decreases s.len() - i,
{
    if i < s.len() {
        lemma_sum_of_prefix(s, i + 1);
        assert(s.take(i + 1).drop_last() == s.take(i));
    } else {
        assert(s.take(i) == s);
    }
}

impl LatencySummary {
    /// Sorts the samples and sums them up; `None` where there are none. Their
    /// total has to fit into 128 bits.
    pub fn from_samples(samples: &mut [u128]) -> (r: Option<LatencySummary>)
        requires
            sum(old(samples)@) <= u128::MAX,
        ensures
            ascending(final(samples)@),
            final(samples)@.to_multiset() == old(samples)@.to_multiset(),
            r == (if old(samples)@.len() == 0 {
                None
            } else {
                Some(summary_of(final(samples)@))
            }),
    {
        if samples.len() == 0 {
            return None;
        }
        sort_samples(samples);
        proof {
            lemma_same_samples(old(samples)@, samples@);
        }
        let count: usize = samples.len();
        let sum_ns: u128 = total(samples);
        let mean: u128 = sum_ns / count as u128;
        Some(
            LatencySummary {
                count,
                min: samples[0],
                max: samples[count - 1],
                mean,
                p50: percentile(samples, 500),
                p90: percentile(samples, 900),
                p99: percentile(samples, 990),
                p999: percentile(samples, 999),
            },
        )
    }
}

/// The sum depends on which samples there are, not on their order.
proof fn lemma_sum_is_fold(s: Seq<u128>)
    ensures
        sum(s) == s.fold_left(0nat, |acc: nat, x: u128| acc + x as nat),
    decreases s.len(),
{
    let f = |acc: nat, x: u128| acc + x as nat;
    reveal_with_fuel(Seq::fold_left, 2);
    if s.len() > 0 {
        lemma_sum_is_fold(s.drop_last());
    }
}

proof fn lemma_same_samples(a: Seq<u128>, b: Seq<u128>)
    requires
        a.to_multiset() == b.to_multiset(),
    ensures
        a.len() == b.len(),
        sum(a) == sum(b),
{
    a.to_multiset_ensures();
    b.to_multiset_ensures();
    lemma_sum_is_fold(a);
    lemma_sum_is_fold(b);
    let f = |acc: nat, x: u128| acc + x as nat;
    assert(vstd::seq_lib::commutative_foldl(f));
    vstd::seq_lib::lemma_fold_left_permutation(a, b, f, 0nat);
}

} // verus!
