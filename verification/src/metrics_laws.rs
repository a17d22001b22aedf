//! What holds of every summary.

use vstd::prelude::*;

use crate::metrics;

verus! {

/// The percentiles lie between the extremes, in their order.
pub proof fn law_percentiles_ascend(sorted: Seq<u128>)
    requires
        sorted.len() > 0,
        metrics::ascending(sorted),
    ensures
        ({
            let s = metrics::summary_of(sorted);
            s.min <= s.p50 <= s.p90 <= s.p99 <= s.p999 <= s.max
        }),
{
    let n = sorted.len();
    assert(1 <= metrics::rank(n, 500) <= metrics::rank(n, 900) <= metrics::rank(n, 990)
        <= metrics::rank(n, 999) <= n);
}

/// The mean lies between the extremes.
pub proof fn law_mean_is_between(sorted: Seq<u128>)
    requires
        sorted.len() > 0,
        metrics::ascending(sorted),
    ensures
        ({
            let s = metrics::summary_of(sorted);
            s.min <= s.mean <= s.max
        }),
{
    let n = sorted.len() as int;
    let total = metrics::sum(sorted) as int;
    let min = sorted[0] as int;
    let max = sorted.last() as int;
    lemma_sum_bounds(sorted, min, max);
    assert(min <= total / n <= max) by (nonlinear_arith)
        requires
            n > 0,
            min * n <= total <= max * n,
    ;
}

proof fn lemma_sum_bounds(s: Seq<u128>, min: int, max: int)
    requires
        forall|i: int| 0 <= i < s.len() ==> min <= #[trigger] s[i] <= max,
    ensures
        min * s.len() <= metrics::sum(s) <= max * s.len(),
    decreases s.len(),
{
    if s.len() > 0 {
        lemma_sum_bounds(s.drop_last(), min, max);
        let n = s.len() as int;
        assert(min * (n - 1) + min == min * n && max * (n - 1) + max == max * n)
            by (nonlinear_arith);
        assert(min <= s[n - 1] <= max);
    } else {
        assert(min * 0 == 0 && max * 0 == 0);
    }
}

/// The order in which the samples came has no part in the summary: series of
/// the same samples have the same ascending order.
pub proof fn law_order_does_not_matter(a: Seq<u128>, b: Seq<u128>)
    requires
        metrics::ascending(a),
        metrics::ascending(b),
        a.to_multiset() == b.to_multiset(),
    ensures
        a == b,
        metrics::summary_of(a) == metrics::summary_of(b),
{
    let leq = |x: u128, y: u128| x <= y;
    assert(vstd::relations::total_ordering(leq));
    assert(vstd::relations::sorted_by(a, leq));
    assert(vstd::relations::sorted_by(b, leq));
    vstd::seq_lib::lemma_sorted_unique(a, b, leq);
}

/// All there is to know of a single sample is the sample.
pub proof fn law_single_sample(x: u128)
    ensures
        ({
            let s = metrics::summary_of(seq![x]);
            &&& s.count == 1
            &&& s.min == x && s.max == x && s.mean == x
            &&& s.p50 == x && s.p90 == x && s.p99 == x && s.p999 == x
        }),
{
    assert(seq![x].drop_last() == Seq::<u128>::empty());
    reveal_with_fuel(metrics::sum, 2);
    assert(metrics::sum(seq![x]) == x);
}

/// How many samples are at most `x`.
pub open spec fn count_up_to(s: Seq<u128>, x: u128) -> nat
    decreases s.len(),
{
    if s.len() == 0 {
        0
    } else {
        count_up_to(s.drop_last(), x) + if s.last() <= x {
            1nat
        } else {
            0nat
        }
    }
}

/// How many samples are less than `x`.
pub open spec fn count_below(s: Seq<u128>, x: u128) -> nat
    decreases s.len(),
{
    if s.len() == 0 {
        0
    } else {
        count_below(s.drop_last(), x) + if s.last() < x {
            1nat
        } else {
            0nat
        }
    }
}

/// The nearest rank: at least the given share of the samples is no greater than
/// the percentile, and less than that share is smaller.
pub proof fn law_nearest_rank(sorted: Seq<u128>, permille: nat)
    requires
        sorted.len() > 0,
        metrics::ascending(sorted),
        0 < permille <= 1000,
    ensures
        ({
            let x = metrics::percentile_of(sorted, permille);
            &&& 1000 * count_up_to(sorted, x) >= permille * sorted.len()
            &&& 1000 * count_below(sorted, x) < permille * sorted.len()
        }),
{
    let n = sorted.len() as int;
    let p = permille as int;
    let r = metrics::rank(sorted.len(), permille) as int;
    let x = metrics::percentile_of(sorted, permille);
    assert(0 < p * n <= 1000 * n) by (nonlinear_arith)
        requires
            0 < p <= 1000,
            n > 0,
    ;
    assert(r == (p * n + 999) / 1000);
    lemma_count_up_to(sorted, r - 1);
    lemma_count_below(sorted, r - 1);
}

proof fn lemma_count_up_to(s: Seq<u128>, k: int)
    requires
        0 <= k < s.len(),
        metrics::ascending(s),
    ensures
        count_up_to(s, s[k]) >= k + 1,
    decreases s.len(),
{
    let init = s.drop_last();
    if k < init.len() {
        assert(metrics::ascending(init));
        lemma_count_up_to(init, k);
        assert(init[k] == s[k]);
    } else if k > 0 {
        assert(metrics::ascending(init));
        lemma_count_all(init, s[k]);
    }
}

proof fn lemma_count_all(s: Seq<u128>, x: u128)
    requires
        forall|i: int| 0 <= i < s.len() ==> #[trigger] s[i] <= x,
    ensures
        count_up_to(s, x) == s.len(),
    decreases s.len(),
{
    if s.len() > 0 {
        lemma_count_all(s.drop_last(), x);
        assert(s[s.len() - 1] <= x);
    }
}

proof fn lemma_count_below(s: Seq<u128>, k: int)
    requires
        0 <= k < s.len(),
        metrics::ascending(s),
    ensures
        count_below(s, s[k]) <= k,
    decreases s.len(),
{
    let init = s.drop_last();
    if k < init.len() {
        assert(metrics::ascending(init));
        lemma_count_below(init, k);
        assert(init[k] == s[k]);
        assert(s[k] <= s.last());
    } else {
        lemma_count_at_most_all(init, s[k]);
    }
}

proof fn lemma_count_at_most_all(s: Seq<u128>, x: u128)
    ensures
        count_below(s, x) <= s.len(),
    decreases s.len(),
{
    if s.len() > 0 {
        lemma_count_at_most_all(s.drop_last(), x);
    }
}

/// The share of the samples that a percentile stands for: at least `permille`
/// thousandths are no greater than it, less than that are smaller, and it is one
/// of the samples.
pub open spec fn is_percentile(s: Seq<u128>, permille: int, x: u128) -> bool {
    &&& s.contains(x)
    &&& 1000 * count_up_to(s, x) >= permille * s.len()
    &&& 1000 * count_below(s, x) < permille * s.len()
}

/// What a summary says of a series that ascends, whatever its length: how many
/// samples there are, the smallest and the greatest of them, their mean rounded
/// down, and the percentiles by nearest rank.
pub proof fn law_summary(sorted: Seq<u128>)
    requires
        0 < sorted.len() <= usize::MAX,
        metrics::ascending(sorted),
    ensures
        ({
            let s = metrics::summary_of(sorted);
            &&& s.count == sorted.len()
            &&& sorted.contains(s.min) && forall|i: int|
                0 <= i < sorted.len() ==> s.min <= #[trigger] sorted[i]
            &&& sorted.contains(s.max) && forall|i: int|
                0 <= i < sorted.len() ==> #[trigger] sorted[i] <= s.max
            &&& s.mean * sorted.len() <= metrics::sum(sorted) < (s.mean + 1) * sorted.len()
            &&& is_percentile(sorted, 500, s.p50)
            &&& is_percentile(sorted, 900, s.p90)
            &&& is_percentile(sorted, 990, s.p99)
            &&& is_percentile(sorted, 999, s.p999)
        }),
{
    let n = sorted.len() as int;
    let total = metrics::sum(sorted) as int;
    let s = metrics::summary_of(sorted);
    assert(sorted[0] == s.min && sorted[n - 1] == s.max);
    law_nearest_rank(sorted, 500);
    law_nearest_rank(sorted, 900);
    law_nearest_rank(sorted, 990);
    law_nearest_rank(sorted, 999);
    lemma_percentile_is_sample(sorted, 500);
    lemma_percentile_is_sample(sorted, 900);
    lemma_percentile_is_sample(sorted, 990);
    lemma_percentile_is_sample(sorted, 999);
    let max = sorted.last() as int;
    lemma_sum_bounds(sorted, sorted[0] as int, max);
    assert(0 <= total / n <= max) by (nonlinear_arith)
        requires
            n > 0,
            0 <= total <= max * n,
    ;
    let mean = total / n;
    assert(mean * n <= total < (mean + 1) * n) by (nonlinear_arith)
        requires
            n > 0,
            mean == total / n,
    ;
    assert(s.mean == mean);
}

proof fn lemma_percentile_is_sample(sorted: Seq<u128>, permille: nat)
    requires
        sorted.len() > 0,
    ensures
        sorted.contains(metrics::percentile_of(sorted, permille)),
{
    let i = metrics::rank(sorted.len(), permille) - 1;
    assert(sorted[i] == metrics::percentile_of(sorted, permille));
}

/// A sum starts at nothing, and each sample adds itself.
pub proof fn law_sum(s: Seq<u128>, x: u128)
    ensures
        metrics::sum(Seq::<u128>::empty()) == 0,
        metrics::sum(s.push(x)) == metrics::sum(s) + x,
{
    assert(s.push(x).drop_last() == s);
}

/// A series ascends exactly when no later sample is smaller.
pub proof fn law_ascending(s: Seq<u128>)
    ensures
        metrics::ascending(s) <==> forall|i: int, j: int|
            0 <= i < j < s.len() ==> #[trigger] s[i] <= #[trigger] s[j],
{
}

} // verus!
