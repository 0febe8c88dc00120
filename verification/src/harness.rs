//! The benchmark harness: accumulates per-iteration results and
//! durations, checks that every iteration produced the same result,
//! and computes summary statistics of the recorded durations.

use vstd::prelude::*;
use vstd::relations::sorted_by;
use vstd::relations::total_ordering;
use vstd::seq_lib::lemma_sorted_unique;
use vstd::arithmetic::div_mod::lemma_div_is_ordered;
use vstd::arithmetic::div_mod::lemma_div_by_multiple;
use vstd::arithmetic::mul::lemma_mul_inequality;
use vstd::arithmetic::mul::lemma_mul_is_commutative;
use vstd::arithmetic::mul::lemma_mul_is_distributive_add_other_way;

verus! {

/// The order by which durations are sorted before taking statistics.
pub open spec fn dur_leq() -> spec_fn(u64, u64) -> bool {
    |x: u64, y: u64| x <= y
}

/// `s` is in non-decreasing order.
pub open spec fn is_sorted(s: Seq<u64>) -> bool {
    forall|i: int, j: int| 0 <= i < j < s.len() ==> s[i] <= s[j]
}

/// The recorded durations, in ascending order.
pub open spec fn sorted_durations(s: Seq<u64>) -> Seq<u64> {
    s.sort_by(dur_leq())
}

/// Sum of all recorded durations.
pub open spec fn sum_durations(s: Seq<u64>) -> int
    decreases s.len(),
{
    if s.len() == 0 {
        0
    } else {
        sum_durations(s.drop_last()) + s.last()
    }
}

/// Every recorded result equals the first one.
pub open spec fn all_equal(s: Seq<u32>) -> bool {
    forall|i: int| 0 <= i < s.len() ==> #[trigger] s[i] == s[0]
}

/// Summary statistics of one workload's recorded durations, in the
/// same nanosecond unit as the recordings. `avg` is the integer mean,
/// `mid` the upper-middle element of the sorted durations.
#[derive(Clone, Copy, Debug, PartialEq, Eq, Structural)]
pub struct Stats {
    pub avg: u64,
    pub mid: u64,
    pub min: u64,
    pub max: u64,
}

/// The two fatal conditions a report can raise. Neither is
/// recoverable: both mean the measurement run must be discarded.
#[derive(Clone, Copy, Debug, PartialEq, Eq, Structural)]
pub enum BenchmarkError {
    /// Zero iterations were recorded; there is no data to average.
    EmptyDataset,
    /// Two recorded results differ: the measured workload itself
    /// misbehaved, and statistics over it would be misleading.
    CorrectnessViolation,
}

/// Default number of timed iterations per workload.
pub const ITERATIONS: usize = 9;

/// Accumulates one (result, duration) record per completed iteration.
/// Durations are in nanoseconds; `results` and `durations` are parallel
/// sequences (same index, same iteration).
pub struct Benchmark {
    name: &'static str,
    results: Vec<u32>,
    durations: Vec<u64>,
}

impl Benchmark {
    /// The two sequences always stay in lockstep.
    pub closed spec fn wf(&self) -> bool {
        self.results@.len() == self.durations@.len()
    }

    pub closed spec fn spec_name(&self) -> &'static str {
        self.name
    }

    pub closed spec fn spec_results(&self) -> Seq<u32> {
        self.results@
    }

    pub closed spec fn spec_durations(&self) -> Seq<u64> {
        self.durations@
    }

    pub fn new(name: &'static str) -> (b: Benchmark)
        ensures
            b.wf(),
            b.spec_name() == name,
            b.spec_results() == Seq::<u32>::empty(),
            b.spec_durations() == Seq::<u64>::empty(),
    {
        Benchmark { name, results: Vec::new(), durations: Vec::new() }
    }

    pub fn add(&mut self, result: u32, duration: u64)
        requires
            old(self).wf(),
        ensures
            final(self).wf(),
            final(self).spec_name() == old(self).spec_name(),
            final(self).spec_results() == old(self).spec_results().push(result),
            final(self).spec_durations() == old(self).spec_durations().push(duration),
    {
        self.results.push(result);
        self.durations.push(duration);
    }

    pub fn name(&self) -> (n: &'static str)
        ensures
            n == self.spec_name(),
    {
        self.name
    }

    /// Validates the recorded data and computes its summary
    /// statistics. Fails with `EmptyDataset` when nothing was
    /// recorded, with `CorrectnessViolation` when two recorded
    /// results differ; otherwise the statistics are exactly those of
    /// the sorted duration sequence, and the mean and the median both
    /// lie between the minimum and the maximum.
    pub fn report(&self) -> (r: Result<Stats, BenchmarkError>)
        requires
            self.wf(),
        ensures
            match r {
                Result::Ok(stats) => {
                    let d = self.spec_durations();
                    let t = sorted_durations(d);
                    &&& d.len() > 0
                    &&& all_equal(self.spec_results())
                    &&& stats.min == t[0]
                    &&& stats.mid == t[d.len() as int / 2]
                    &&& stats.max == t[d.len() - 1]
                    &&& stats.avg == sum_durations(d) / (d.len() as int)
                    &&& stats.min <= stats.mid <= stats.max
                    &&& stats.min <= stats.avg <= stats.max
                },
                Result::Err(BenchmarkError::EmptyDataset) => self.spec_durations().len() == 0,
                Result::Err(BenchmarkError::CorrectnessViolation) => self.spec_durations().len()
                    > 0 && !all_equal(self.spec_results()),
            },
    {
        let len = self.durations.len();
        if len == 0 {
            return Err(BenchmarkError::EmptyDataset);
        }
        if !results_all_equal(&self.results) {
            return Err(BenchmarkError::CorrectnessViolation);
        }
        let ghost d = self.durations@;
        let sorted = sorted_copy(&self.durations);
        proof {
            let leq = dur_leq();
            assert(total_ordering(leq));
            d.lemma_sort_by_ensures(leq);
            assert(sorted_by(sorted@, leq));
            assert(sorted_by(sorted_durations(d), leq));
            lemma_sorted_unique(sorted@, sorted_durations(d), leq);
            assert(sorted@ =~= sorted_durations(d));
        }
        let min = sorted[0];
        let mid = sorted[len / 2];
        let max = sorted[len - 1];
        let mut sum: u128 = 0;
        for i in 0..len
            invariant
                len == d.len(),
                d == self.spec_durations(),
                self.durations@ == d,
                sum == sum_durations(d.subrange(0, i as int)),
                sum <= i * (u64::MAX as int),
        {
            proof {
                assert(d.subrange(0, i + 1).drop_last() =~= d.subrange(0, i as int));
                assert(d.subrange(0, i + 1).last() == d[i as int]);
                lemma_mul_is_distributive_add_other_way(u64::MAX as int, i as int, 1);
                lemma_mul_inequality((i + 1) as int, 0x1_0000_0000_0000_0000, u64::MAX as int);
            }
            sum = sum + self.durations[i] as u128;
        }
        proof {
            assert(d.subrange(0, len as int) =~= d);
            lemma_perm_element_bounds(d, sorted@);
            lemma_sum_durations_bounds(d, min as int, max as int);
            lemma_div_is_ordered(
                d.len() as int * (min as int),
                sum_durations(d),
                d.len() as int,
            );
            lemma_div_is_ordered(
                sum_durations(d),
                d.len() as int * (max as int),
                d.len() as int,
            );
            lemma_mul_is_commutative(d.len() as int, min as int);
            lemma_mul_is_commutative(d.len() as int, max as int);
            lemma_div_by_multiple(min as int, d.len() as int);
            lemma_div_by_multiple(max as int, d.len() as int);
        }
        let avg_wide: u128 = sum / (len as u128);
        let avg: u64 = avg_wide as u64;
        Ok(Stats { avg, mid, min, max })
    }
}

/// True exactly when every element of `v` equals its first element.
fn results_all_equal(v: &Vec<u32>) -> (r: bool)
    ensures
        r == all_equal(v@),
{
    let mut i: usize = 1;
    while i < v.len()
        invariant
            1 <= i,
            forall|j: int| 0 <= j < i && j < v@.len() ==> #[trigger] v@[j] == v@[0],
        decreases v@.len() - i,
    {
        if v[i] != v[0] {
            return false;
        }
        i = i + 1;
    }
    true
}

/// Returns a copy of `v` sorted in ascending order, by insertion sort.
fn sorted_copy(v: &Vec<u64>) -> (r: Vec<u64>)
    ensures
        is_sorted(r@),
        r@.len() == v@.len(),
        r@.to_multiset() == v@.to_multiset(),
{
    let mut r: Vec<u64> = Vec::new();
    proof {
        assert(v@.subrange(0, 0) =~= Seq::<u64>::empty());
        assert(r@.to_multiset() =~= v@.subrange(0, 0).to_multiset());
    }
    for i in 0..v.len()
        invariant
            is_sorted(r@),
            r@.to_multiset() == v@.subrange(0, i as int).to_multiset(),
            r@.len() == i as int,
    {
        broadcast use vstd::seq_lib::group_to_multiset_ensures;

        let x = v[i];
        let mut j: usize = 0;
        while j < r.len() && r[j] <= x
            invariant
                j <= r@.len(),
                forall|k: int| 0 <= k < j ==> r@[k] <= x,
            decreases r@.len() - j,
        {
            j = j + 1;
        }
        proof {
            let inserted = r@.insert(j as int, x);
            r@.insert_ensures(j as int, x);
            assert forall|a: int, b: int| 0 <= a < b < inserted.len() implies inserted[a]
                <= inserted[b] by {
                if b < j {
                    assert(inserted[a] == r@[a] && inserted[b] == r@[b]);
                } else if a > j {
                    assert(inserted[a] == r@[a - 1] && inserted[b] == r@[b - 1]);
                } else if a < j && b == j {
                    assert(inserted[a] == r@[a] && inserted[b] == x);
                } else if a == j && b > j {
                    assert(inserted[a] == x && inserted[b] == r@[b - 1]);
                    assert(j < r@.len() ==> x < r@[j as int]);
                } else if a < j && b > j {
                    assert(inserted[a] == r@[a] && inserted[b] == r@[b - 1]);
                    assert(j < r@.len() ==> x < r@[j as int]);
                }
            }
            vstd::seq_lib::to_multiset_insert(r@, j as int, x);
            assert(v@.subrange(0, i + 1).drop_last() =~= v@.subrange(0, i as int));
            assert(v@.subrange(0, i + 1) =~= v@.subrange(0, i as int).push(v@[i as int]));
        }
        r.insert(j, x);
    }
    proof {
        assert(v@.subrange(0, v@.len() as int) =~= v@);
    }
    r
}

/// A sum of durations that all lie in `[lo, hi]` lies between
/// `len * lo` and `len * hi`.
proof fn lemma_sum_durations_bounds(s: Seq<u64>, lo: int, hi: int)
    requires
        forall|i: int| 0 <= i < s.len() ==> lo <= #[trigger] s[i] <= hi,
    ensures
        s.len() * lo <= sum_durations(s) <= s.len() * hi,
    decreases s.len(),
{
    if s.len() == 0 {
    } else {
        lemma_sum_durations_bounds(s.drop_last(), lo, hi);
        lemma_mul_is_distributive_add_other_way(lo, s.len() - 1, 1);
        lemma_mul_is_distributive_add_other_way(hi, s.len() - 1, 1);
    }
}

/// Every element of `d` lies between the first and last element of a
/// sorted rearrangement `t` of `d`.
proof fn lemma_perm_element_bounds(d: Seq<u64>, t: Seq<u64>)
    requires
        d.len() > 0,
        t.to_multiset() == d.to_multiset(),
        is_sorted(t),
    ensures
        t.len() == d.len(),
        forall|i: int| 0 <= i < d.len() ==> t[0] <= #[trigger] d[i] <= t[t.len() - 1],
{
    broadcast use vstd::seq_lib::group_to_multiset_ensures;

    assert(t.len() == t.to_multiset().len());
    assert(d.len() == d.to_multiset().len());
    assert forall|i: int| 0 <= i < d.len() implies t[0] <= #[trigger] d[i] <= t[t.len() - 1] by {
        assert(d.contains(d[i]));
        assert(d.to_multiset().count(d[i]) > 0);
        assert(t.contains(d[i]));
        let k = choose|k: int| 0 <= k < t.len() && t[k] == d[i];
    }
}

} // verus!
