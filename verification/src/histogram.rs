//! Histograms of the values that a sensor recorded in one channel of one
//! exposure, and the matching of two of them quantile by quantile.

use vstd::assert_by_contradiction;
use vstd::prelude::*;
use crate::fixed::magnitude;

verus! {

/// The greatest number of samples that a histogram may count: two to the
/// sixty-second, so that two totals can be multiplied.
pub const POPULATION_LIMIT: u64 = 4611686018427387904;

/// The sum of the first `n` buckets.
pub open spec fn prefix_total(buckets: Seq<u64>, n: int) -> int
    decreases n,
{
    if n <= 0 {
        0
    } else {
        prefix_total(buckets, n - 1) + buckets[n - 1]
    }
}

/// The sum of all buckets.
pub open spec fn total_of(buckets: Seq<u64>) -> int {
    prefix_total(buckets, buckets.len() as int)
}

/// How many of the first `n` buckets hold at least one sample.
pub open spec fn populated_upto(buckets: Seq<u64>, n: int) -> int
    decreases n,
{
    if n <= 0 {
        0
    } else {
        populated_upto(buckets, n - 1) + if buckets[n - 1] > 0 {
            1int
        } else {
            0int
        }
    }
}

/// How many buckets hold at least one sample.
pub open spec fn populated(buckets: Seq<u64>) -> int {
    populated_upto(buckets, buckets.len() as int)
}

/// Whether buckets can serve as a histogram: there are at least two, and
/// they count no more than `POPULATION_LIMIT` samples.
pub open spec fn countable(buckets: Seq<u64>) -> bool {
    buckets.len() >= 2 && total_of(buckets) <= POPULATION_LIMIT
}

/// A sum of buckets is not negative and grows with the number of buckets
/// summed.
pub proof fn lemma_prefix_total_ascends(buckets: Seq<u64>, m: int, n: int)
    requires
        0 <= m <= n,
    ensures
        0 <= prefix_total(buckets, m) <= prefix_total(buckets, n),
    decreases n,
{
    if n > 0 {
        if m < n {
            lemma_prefix_total_ascends(buckets, m, n - 1);
        } else {
            lemma_prefix_total_ascends(buckets, m - 1, n - 1);
        }
    }
}

/// The counts of one channel of one exposure, bucket by bucket over the
/// range of recorded values.
#[derive(Debug, Clone)]
pub struct Histogram {
    pub buckets: Vec<u64>,
}

impl Histogram {
    /// The buckets are countable.
    pub open spec fn wf(&self) -> bool {
        countable(self.buckets@)
    }

    /// Takes buckets as a histogram where they are countable.
    pub fn new(buckets: Vec<u64>) -> (r: Option<Histogram>)
        ensures
            r.is_some() <==> countable(buckets@),
            r.is_some() ==> r.unwrap().buckets == buckets && r.unwrap().wf(),
    {
        let n: usize = buckets.len();
        if n < 2 {
            return None;
        }
        let mut sum: u64 = 0;
        let mut i: usize = 0;
        while i < n
            invariant
                0 <= i <= n,
                n == buckets.len(),
                sum == prefix_total(buckets@, i as int),
                sum <= POPULATION_LIMIT,
            decreases n - i,
        {
            let b: u64 = buckets[i];
            if b > POPULATION_LIMIT - sum {
                proof {
                    lemma_prefix_total_ascends(buckets@, i + 1, n as int);
                }
                return None;
            }
            sum = sum + b;
            i = i + 1;
        }
        Some(Histogram { buckets })
    }

    /// The running sums of the buckets: entry `i` counts the samples in
    /// buckets `0` to `i`.
    pub fn cumulative_counts(&self) -> (sums: Vec<u64>)
        requires
            self.wf(),
        ensures
            sums.len() == self.buckets.len(),
            forall|i: int|
                0 <= i < sums.len() ==> #[trigger] sums[i] == prefix_total(self.buckets@, i + 1),
            forall|i: int| 0 <= i < sums.len() ==> #[trigger] sums[i] <= POPULATION_LIMIT,
    {
        let n: usize = self.buckets.len();
        let mut sums: Vec<u64> = Vec::new();
        let mut sum: u64 = 0;
        let mut i: usize = 0;
        while i < n
            invariant
                0 <= i <= n,
                n == self.buckets.len(),
                self.wf(),
                sums.len() == i,
                sum == prefix_total(self.buckets@, i as int),
                forall|k: int|
                    0 <= k < i ==> #[trigger] sums[k] == prefix_total(self.buckets@, k + 1),
                forall|k: int| 0 <= k < i ==> #[trigger] sums[k] <= POPULATION_LIMIT,
            decreases n - i,
        {
            proof {
                lemma_prefix_total_ascends(self.buckets@, i + 1, n as int);
            }
            sum = sum + self.buckets[i];
            sums.push(sum);
            i = i + 1;
        }
        sums
    }

    /// A histogram of the same counts.
    pub fn duplicate(&self) -> (copy: Histogram)
        ensures
            copy.buckets@ == self.buckets@,
    {
        let mut buckets: Vec<u64> = Vec::new();
        let mut i: usize = 0;
        while i < self.buckets.len()
            invariant
                0 <= i <= self.buckets.len(),
                buckets.len() == i,
                forall|k: int| 0 <= k < i ==> buckets[k] == self.buckets[k],
            decreases self.buckets.len() - i,
        {
            buckets.push(self.buckets[i]);
            i = i + 1;
        }
        assert(buckets@ =~= self.buckets@);
        Histogram { buckets }
    }

    /// How many buckets hold at least one sample.
    pub fn populated_buckets(&self) -> (count: usize)
        ensures
            count == populated(self.buckets@),
    {
        let n: usize = self.buckets.len();
        let mut count: usize = 0;
        let mut i: usize = 0;
        while i < n
            invariant
                0 <= i <= n,
                n == self.buckets.len(),
                count == populated_upto(self.buckets@, i as int),
                count <= i,
            decreases n - i,
        {
            if self.buckets[i] > 0 {
                count = count + 1;
            }
            i = i + 1;
        }
        count
    }
}

/// How far the share of the second histogram's samples in its buckets
/// `0` to `j` is from the share of the first histogram's samples in its
/// buckets `0` to `i`, both shares brought to the common denominator of
/// the two totals.
pub open spec fn deviation(first: Seq<u64>, second: Seq<u64>, i: int, j: int) -> int {
    magnitude(
        prefix_total(second, j + 1) * total_of(first) - prefix_total(first, i + 1) * total_of(
            second,
        ),
    )
}

/// Among the first `n` buckets of the second histogram, the earliest one
/// whose share is nearest to that of bucket `i` of the first.
pub open spec fn matched_upto(first: Seq<u64>, second: Seq<u64>, i: int, n: int) -> int
    decreases n,
{
    if n <= 1 {
        0
    } else {
        let best = matched_upto(first, second, i, n - 1);
        if deviation(first, second, i, n - 1) < deviation(first, second, i, best) {
            n - 1
        } else {
            best
        }
    }
}

/// The bucket of the second histogram that matches bucket `i` of the
/// first.
pub open spec fn matched(first: Seq<u64>, second: Seq<u64>, i: int) -> int {
    matched_upto(first, second, i, second.len() as int)
}

/// The match among the first `n` buckets is one of them, no bucket among
/// them deviates less, and every earlier one deviates more.
pub proof fn lemma_matched_is_least_minimum(first: Seq<u64>, second: Seq<u64>, i: int, n: int)
    requires
        n >= 1,
    ensures
        0 <= matched_upto(first, second, i, n) < n,
        forall|j: int|
            0 <= j < n ==> deviation(first, second, i, matched_upto(first, second, i, n))
                <= #[trigger] deviation(first, second, i, j),
        forall|j: int|
            0 <= j < matched_upto(first, second, i, n) ==> deviation(
                first,
                second,
                i,
                matched_upto(first, second, i, n),
            ) < #[trigger] deviation(first, second, i, j),
    decreases n,
{
    if n > 1 {
        lemma_matched_is_least_minimum(first, second, i, n - 1);
    }
}

/// A later bucket of the first histogram is matched by no earlier bucket
/// of the second: the matched points never fall.
pub proof fn lemma_matched_ascends(first: Seq<u64>, second: Seq<u64>, i: int, k: int)
    requires
        0 <= i <= k,
        second.len() >= 1,
    ensures
        matched(first, second, i) <= matched(first, second, k),
{
    let n = second.len() as int;
    let a = matched(first, second, i);
    let b = matched(first, second, k);
    lemma_matched_is_least_minimum(first, second, i, n);
    lemma_matched_is_least_minimum(first, second, k, n);
    assert_by_contradiction!(a <= b, {
        let t1 = total_of(first);
        let t2 = total_of(second);
        lemma_prefix_total_ascends(second, b + 1, a + 1);
        lemma_prefix_total_ascends(first, i + 1, k + 1);
        lemma_prefix_total_ascends(first, 0, first.len() as int);
        lemma_prefix_total_ascends(second, 0, second.len() as int);
        let level_b = prefix_total(second, b + 1) * t1;
        let level_a = prefix_total(second, a + 1) * t1;
        let target_i = prefix_total(first, i + 1) * t2;
        let target_k = prefix_total(first, k + 1) * t2;
        assert(level_b <= level_a) by (nonlinear_arith)
            requires
                level_b == prefix_total(second, b + 1) * t1,
                level_a == prefix_total(second, a + 1) * t1,
                prefix_total(second, b + 1) <= prefix_total(second, a + 1),
                t1 >= 0,
        ;
        assert(target_i <= target_k) by (nonlinear_arith)
            requires
                target_i == prefix_total(first, i + 1) * t2,
                target_k == prefix_total(first, k + 1) * t2,
                prefix_total(first, i + 1) <= prefix_total(first, k + 1),
                t2 >= 0,
        ;
        assert(deviation(first, second, i, a) < deviation(first, second, i, b));
        assert(deviation(first, second, k, b) <= deviation(first, second, k, a));
        assert(deviation(first, second, i, a) == magnitude(level_a - target_i));
        assert(deviation(first, second, i, b) == magnitude(level_b - target_i));
        assert(deviation(first, second, k, a) == magnitude(level_a - target_k));
        assert(deviation(first, second, k, b) == magnitude(level_b - target_k));
    });
}

/// Every bucket holds at least one sample.
pub open spec fn all_populated(buckets: Seq<u64>) -> bool {
    forall|k: int| 0 <= k < buckets.len() ==> #[trigger] buckets[k] > 0
}

/// `second` counts the samples of `first` after their values were
/// doubled and cut at the top: below the last bucket, the buckets `0`
/// to `j` of `second` hold what the buckets `0` to `j / 2` of `first`
/// hold, and both hold as many samples in all. This is what a sensor
/// that records light as it is shows of one scene at twice the light.
pub open spec fn doubled(first: Seq<u64>, second: Seq<u64>) -> bool {
    &&& first.len() == second.len()
    &&& total_of(first) == total_of(second)
    &&& forall|j: int|
        0 <= j < second.len() - 1 ==> #[trigger] prefix_total(second, j + 1) == prefix_total(
            first,
            j / 2 + 1,
        )
}

/// Where every bucket is populated, a sum of more buckets is greater.
pub proof fn lemma_prefix_total_strict(buckets: Seq<u64>, m: int, n: int)
    requires
        all_populated(buckets),
        0 <= m < n <= buckets.len(),
    ensures
        prefix_total(buckets, m) < prefix_total(buckets, n),
    decreases n,
{
    assert(buckets[n - 1] > 0);
    if m < n - 1 {
        lemma_prefix_total_strict(buckets, m, n - 1);
    }
}

/// The deviation between two shares of one total is the total times
/// the difference of the counts.
pub proof fn lemma_deviation_of_equal_totals(first: Seq<u64>, second: Seq<u64>, i: int, j: int)
    requires
        total_of(first) == total_of(second),
    ensures
        deviation(first, second, i, j) == total_of(first) * magnitude(
            prefix_total(second, j + 1) - prefix_total(first, i + 1),
        ),
{
    let t = total_of(first);
    let a = prefix_total(second, j + 1);
    let b = prefix_total(first, i + 1);
    lemma_prefix_total_ascends(first, 0, first.len() as int);
    assert(a * t - b * t == t * (a - b)) by (nonlinear_arith);
    assert(t * (a - b) >= 0 <==> a - b >= 0 || t == 0) by (nonlinear_arith)
        requires
            t >= 0,
    ;
    assert(t * (-(a - b)) == -(t * (a - b))) by (nonlinear_arith);
}

/// A count of populated buckets never falls as more buckets are
/// counted, and a populated bucket adds one to it.
pub proof fn lemma_populated_ascends(buckets: Seq<u64>, m: int, n: int)
    requires
        0 <= m <= n <= buckets.len(),
    ensures
        0 <= populated_upto(buckets, m) <= populated_upto(buckets, n),
        m < n && buckets[m] > 0 ==> populated_upto(buckets, m) + 1 <= populated_upto(buckets, n),
    decreases n,
{
    if n > 0 {
        if m < n - 1 {
            lemma_populated_ascends(buckets, m, n - 1);
        } else if m == n - 1 {
            lemma_populated_ascends(buckets, m, n - 1);
        } else {
            lemma_populated_ascends(buckets, m - 1, n - 1);
        }
    }
}

/// Doubling keeps a scene spread out: where every value of the shorter
/// exposure occurs, the longer exposure has samples in its first and in
/// its last bucket, and so in two buckets at least, as the shorter has.
pub proof fn lemma_doubled_is_populated(first: Seq<u64>, second: Seq<u64>)
    requires
        first.len() >= 2,
        all_populated(first),
        doubled(first, second),
    ensures
        populated(first) >= 2,
        populated(second) >= 2,
{
    let n = first.len() as int;
    assert(first[0] > 0 && first[1] > 0);
    lemma_populated_ascends(first, 0, 1);
    lemma_populated_ascends(first, 1, n);
    // The first bucket of the longer exposure holds what the first of
    // the shorter holds.
    let zero: int = 0;
    assert(prefix_total(second, zero + 1) == prefix_total(first, zero / 2 + 1));
    assert(prefix_total(second, 1) == prefix_total(second, 0) + second[0]);
    assert(prefix_total(first, 1) == prefix_total(first, 0) + first[0]);
    assert(second[0] > 0);
    // The last bucket holds what lies above the rest.
    assert(prefix_total(second, (n - 2) + 1) == prefix_total(first, (n - 2) / 2 + 1));
    lemma_prefix_total_strict(first, (n - 2) / 2 + 1, n);
    assert(prefix_total(second, n) == prefix_total(second, n - 1) + second[n - 1]);
    assert(second[n - 1] > 0);
    lemma_populated_ascends(second, 0, n - 1);
    lemma_populated_ascends(second, n - 1, n);
    lemma_populated_ascends(second, 0, 0);
}

/// The mapping of a known response. Where every value of the shorter
/// exposure occurs and the longer exposure shows the same scene at twice
/// the light, a bucket is matched by the bucket of twice its index,
/// exactly, as long as that lies below the top; and above, where the
/// longer exposure is cut, by one of the three topmost buckets.
pub proof fn lemma_doubled_is_matched(first: Seq<u64>, second: Seq<u64>, i: int)
    requires
        first.len() >= 2,
        all_populated(first),
        doubled(first, second),
        0 <= i < first.len(),
    ensures
        2 * i < first.len() - 1 ==> matched(first, second, i) == 2 * i,
        2 * i >= first.len() - 1 ==> first.len() - 3 <= matched(first, second, i) <= first.len()
            - 1,
{
    let n = first.len() as int;
    let t = total_of(first);
    let m = matched(first, second, i);
    let target = prefix_total(first, i + 1);
    lemma_matched_is_least_minimum(first, second, i, n);
    lemma_prefix_total_strict(first, 0, n);
    assert(t > 0);
    lemma_deviation_of_equal_totals(first, second, i, m);
    let gap_m = magnitude(prefix_total(second, m + 1) - target);
    if 2 * i < n - 1 {
        let j = 2 * i;
        assert(prefix_total(second, j + 1) == prefix_total(first, j / 2 + 1));
        lemma_deviation_of_equal_totals(first, second, i, j);
        assert(deviation(first, second, i, j) == 0) by (nonlinear_arith)
            requires
                deviation(first, second, i, j) == t * magnitude(
                    prefix_total(second, j + 1) - target,
                ),
                prefix_total(second, j + 1) == target,
                magnitude(0) == 0,
        ;
        assert(deviation(first, second, i, m) <= 0);
        assert(gap_m == 0) by (nonlinear_arith)
            requires
                t * gap_m <= 0,
                t > 0,
                gap_m >= 0,
        ;
        assert(prefix_total(second, m + 1) == target);
        if m == n - 1 {
            if i + 1 < n {
                lemma_prefix_total_strict(first, i + 1, n);
            }
        } else {
            assert(prefix_total(second, m + 1) == prefix_total(first, m / 2 + 1));
            if m / 2 < i {
                lemma_prefix_total_strict(first, m / 2 + 1, i + 1);
            }
            if m / 2 > i {
                lemma_prefix_total_strict(first, i + 1, m / 2 + 1);
            }
            assert(m / 2 == i);
            assert(m == 2 * i || m == 2 * i + 1);
            if m == 2 * i + 1 {
                assert(deviation(first, second, i, m) < deviation(first, second, i, j));
            }
        }
    } else {
        if m < n - 3 {
            let j = n - 2;
            assert(prefix_total(second, j + 1) == prefix_total(first, j / 2 + 1));
            assert(prefix_total(second, m + 1) == prefix_total(first, m / 2 + 1));
            assert(m / 2 < j / 2);
            assert(j / 2 < i);
            lemma_prefix_total_strict(first, m / 2 + 1, j / 2 + 1);
            lemma_prefix_total_strict(first, j / 2 + 1, i + 1);
            lemma_deviation_of_equal_totals(first, second, i, j);
            let gap_j = magnitude(prefix_total(second, j + 1) - target);
            assert(gap_j < gap_m);
            assert(t * gap_j < t * gap_m) by (nonlinear_arith)
                requires
                    gap_j < gap_m,
                    t > 0,
            ;
            assert(deviation(first, second, i, m) <= deviation(first, second, i, j));
        }
    }
}

} // verus!
