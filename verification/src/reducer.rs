//! The chunked reducer: partitions the index space `[0, n)` into `p`
//! contiguous ranges, counts odd bytes over a range, and combines the
//! per-worker partial counts.

use vstd::prelude::*;
use vstd::arithmetic::div_mod::lemma_fundamental_div_mod;
use vstd::arithmetic::mul::lemma_mul_inequality;
use vstd::arithmetic::mul::lemma_mul_is_distributive_add;
use vstd::arithmetic::mul::lemma_mul_is_commutative;
use vstd::arithmetic::mul::lemma_mul_is_distributive_add_other_way;

verus! {

/// Ceiling of `n / p`: the number of indices each worker is assigned,
/// so that `p` workers cover all of `[0, n)`.
pub open spec fn chunk_size(n: int, p: int) -> int
    recommends
        0 <= n,
        1 <= p,
{
    if n % p == 0 {
        n / p
    } else {
        n / p + 1
    }
}

/// Start of worker `i`'s range: `i * chunk_size`, clamped to `n`.
/// Worker `i`'s range is `[range_start(n, p, i), range_start(n, p, i + 1))`.
pub open spec fn range_start(n: int, p: int, i: int) -> int
    recommends
        0 <= n,
        1 <= p,
        0 <= i,
{
    if i * chunk_size(n, p) <= n {
        i * chunk_size(n, p)
    } else {
        n
    }
}

/// `p` workers assigned `chunk_size(n, p)` indices each cover `[0, n)`.
proof fn lemma_chunks_cover(n: int, p: int)
    requires
        0 <= n,
        1 <= p,
    ensures
        n <= p * chunk_size(n, p),
{
    lemma_fundamental_div_mod(n, p);
    if n % p == 0 {
        assert(n == p * (n / p));
    } else {
        lemma_mul_is_distributive_add(p, n / p, 1);
        assert(p * (n / p + 1) == p * (n / p) + p);
    }
}

/// Range starts never decrease as the worker index grows.
proof fn lemma_range_start_monotonic(n: int, p: int, i: int, j: int)
    requires
        0 <= n,
        1 <= p,
        0 <= i <= j,
    ensures
        range_start(n, p, i) <= range_start(n, p, j),
{
    lemma_div_chunk_nonneg(n, p);
    lemma_mul_inequality(i, j, chunk_size(n, p));
}

/// The chunk size is never negative.
proof fn lemma_div_chunk_nonneg(n: int, p: int)
    requires
        0 <= n,
        1 <= p,
    ensures
        0 <= chunk_size(n, p),
        n == 0 ==> chunk_size(n, p) == 0,
{
    lemma_fundamental_div_mod(n, p);
}

/// Law: the `p` partition ranges tile `[0, n)`. They begin at 0, end at
/// `n`, each range ends where the next begins, and every index in
/// `[0, n)` lies in exactly one range.
pub proof fn lemma_partition_covers(n: int, p: int)
    requires
        0 <= n,
        1 <= p,
    ensures
        range_start(n, p, 0) == 0,
        range_start(n, p, p) == n,
        forall|i: int, j: int|
            #![trigger range_start(n, p, i), range_start(n, p, j)]
            0 <= i <= j ==> range_start(n, p, i) <= range_start(n, p, j),
{
    let c = chunk_size(n, p);
    lemma_div_chunk_nonneg(n, p);
    lemma_chunks_cover(n, p);
    assert(range_start(n, p, p) == n) by {
        lemma_mul_inequality(0, p, c);
    }
    assert forall|i: int, j: int|
        #![trigger range_start(n, p, i), range_start(n, p, j)]
        0 <= i <= j implies range_start(n, p, i) <= range_start(n, p, j) by {
        lemma_range_start_monotonic(n, p, i, j);
    }
}

/// Law: every index `k` in `[0, n)` falls in one of the `p` partition
/// ranges.
pub proof fn lemma_partition_member(n: int, p: int, k: int)
    requires
        1 <= p,
        0 <= k < n,
    ensures
        exists|i: int|
            #![trigger range_start(n, p, i)]
            0 <= i < p && range_start(n, p, i) <= k < range_start(n, p, i + 1),
{
    let c = chunk_size(n, p);
    lemma_div_chunk_nonneg(n, p);
    lemma_chunks_cover(n, p);
    lemma_fundamental_div_mod(n, p);
    vstd::arithmetic::div_mod::lemma_div_pos_is_pos(n, p);
    assert(c >= 1) by {
        if n % p == 0 && n / p <= 0 {
            lemma_mul_inequality(n / p, 0, p);
            lemma_mul_is_commutative(n / p, p);
            assert(p * (n / p) <= 0);
        }
    }
    let i = k / c;
    lemma_fundamental_div_mod(k, c);
    vstd::arithmetic::div_mod::lemma_div_pos_is_pos(k, c);
    lemma_mul_is_commutative(i, c);
    lemma_mul_is_distributive_add(c, i, 1);
    assert(i * c <= k < (i + 1) * c);
    assert(i < p) by {
        if i >= p {
            lemma_mul_inequality(p, i, c);
            assert(k >= i * c >= p * c >= n);
        }
    }
    assert(range_start(n, p, i) == i * c);
    assert(range_start(n, p, i + 1) > k);
    assert(range_start(n, p, i) <= k < range_start(n, p, i + 1));
}

/// Law: the partition ranges are pairwise disjoint. No index lies in
/// two distinct ranges.
pub proof fn lemma_partition_disjoint(n: int, p: int, k: int, i: int, j: int)
    requires
        0 <= n,
        1 <= p,
        0 <= i < p,
        0 <= j < p,
        range_start(n, p, i) <= k < range_start(n, p, i + 1),
        range_start(n, p, j) <= k < range_start(n, p, j + 1),
    ensures
        i == j,
{
    if i < j {
        lemma_range_start_monotonic(n, p, i + 1, j);
    } else if j < i {
        lemma_range_start_monotonic(n, p, j + 1, i);
    }
}

/// Law: partitioning is deterministic. Any two range sequences that
/// satisfy `partition`'s contract for the same `n` and `p` are equal.
pub proof fn lemma_partition_deterministic(
    a: Seq<(usize, usize)>,
    b: Seq<(usize, usize)>,
    n: usize,
    p: usize,
)
    requires
        1 <= p,
        a.len() == p as int,
        b.len() == p as int,
        forall|i: int|
            0 <= i < p ==> (#[trigger] a[i]).0 == range_start(n as int, p as int, i) && a[i].1
                == range_start(n as int, p as int, i + 1),
        forall|i: int|
            0 <= i < p ==> (#[trigger] b[i]).0 == range_start(n as int, p as int, i) && b[i].1
                == range_start(n as int, p as int, i + 1),
    ensures
        a == b,
{
    assert(a =~= b);
}

/// Splits `[0, n)` into `p` contiguous ranges: entry `i` is
/// `[range_start(n, p, i), range_start(n, p, i + 1))`. The same inputs
/// always yield the same ranges.
pub fn partition(n: usize, p: usize) -> (ranges: Vec<(usize, usize)>)
    requires
        1 <= p,
    ensures
        ranges@.len() == p as int,
        forall|i: int|
            0 <= i < p ==> (#[trigger] ranges@[i]).0 == range_start(n as int, p as int, i),
        forall|i: int|
            0 <= i < p ==> (#[trigger] ranges@[i]).1 == range_start(n as int, p as int, i + 1),
{
    let chunk: usize = if n % p == 0 {
        n / p
    } else {
        proof {
            vstd::arithmetic::div_mod::lemma_div_is_ordered_by_denominator(n as int, 2, p as int);
        }
        n / p + 1
    };
    let mut ranges: Vec<(usize, usize)> = Vec::new();
    let mut start: usize = 0;
    proof {
        assert(range_start(n as int, p as int, 0) == 0);
    }
    for i in 0..p
        invariant
            1 <= p,
            chunk == chunk_size(n as int, p as int),
            ranges@.len() == i as int,
            start == range_start(n as int, p as int, i as int),
            start <= n,
            forall|j: int|
                0 <= j < i ==> (#[trigger] ranges@[j]).0 == range_start(n as int, p as int, j),
            forall|j: int|
                0 <= j < i ==> (#[trigger] ranges@[j]).1 == range_start(n as int, p as int, j + 1),
    {
        let end: usize = if n - start >= chunk {
            start + chunk
        } else {
            n
        };
        proof {
            let ni = n as int;
            let pi = p as int;
            let ii = i as int;
            let c = chunk_size(ni, pi);
            lemma_div_chunk_nonneg(ni, pi);
            lemma_mul_is_distributive_add_other_way(c, ii, 1);
            assert((ii + 1) * c == ii * c + c);
            if ii * c > ni {
                lemma_mul_inequality(ii, ii + 1, c);
            }
            assert(end == range_start(ni, pi, ii + 1));
        }
        ranges.push((start, end));
        start = end;
    }
    ranges
}

/// Sums the per-worker partial results sequentially.
pub fn combine(parts: &Vec<usize>) -> (total: usize)
    requires
        sum_usize(parts@) <= usize::MAX,
    ensures
        total == sum_usize(parts@),
{
    let mut total: usize = 0;
    proof {
        lemma_sum_usize_nonneg(parts@);
    }
    for i in 0..parts.len()
        invariant
            sum_usize(parts@) <= usize::MAX,
            total == sum_usize(parts@.subrange(0, i as int)),
            total <= sum_usize(parts@),
    {
        proof {
            assert(parts@.subrange(0, i + 1).drop_last() =~= parts@.subrange(0, i as int));
            lemma_sum_usize_prefix(parts@, i + 1);
        }
        total = total + parts[i];
    }
    proof {
        assert(parts@.subrange(0, parts@.len() as int) =~= parts@);
    }
    total
}

/// Sum of a sequence of partial results.
pub open spec fn sum_usize(s: Seq<usize>) -> int
    decreases s.len(),
{
    if s.len() == 0 {
        0
    } else {
        sum_usize(s.drop_last()) + s.last()
    }
}

/// A sum of non-negative entries is non-negative.
proof fn lemma_sum_usize_nonneg(s: Seq<usize>)
    ensures
        0 <= sum_usize(s),
    decreases s.len(),
{
    if s.len() > 0 {
        lemma_sum_usize_nonneg(s.drop_last());
    }
}

/// A prefix sum of non-negative entries never exceeds the whole sum.
proof fn lemma_sum_usize_prefix(s: Seq<usize>, k: int)
    requires
        0 <= k <= s.len(),
    ensures
        sum_usize(s.subrange(0, k)) <= sum_usize(s),
    decreases s.len() - k,
{
    if k == s.len() {
        assert(s.subrange(0, k) =~= s);
    } else {
        assert(s.subrange(0, k + 1).drop_last() =~= s.subrange(0, k));
        lemma_sum_usize_prefix(s, k + 1);
    }
}

/// Number of odd bytes in `s`.
pub open spec fn count_odds(s: Seq<u8>) -> int
    decreases s.len(),
{
    if s.len() == 0 {
        0
    } else {
        count_odds(s.drop_last()) + if s.last() % 2 != 0 {
            1int
        } else {
            0int
        }
    }
}

/// Counts the odd bytes of `buf` in the index range `[start, end)`.
pub fn count_odds_in(buf: &[u8], start: usize, end: usize) -> (c: usize)
    requires
        start <= end <= buf@.len(),
    ensures
        c == count_odds(buf@.subrange(start as int, end as int)),
        c <= end - start,
{
    let mut c: usize = 0;
    for j in start..end
        invariant
            start <= j <= end <= buf@.len(),
            c == count_odds(buf@.subrange(start as int, j as int)),
            c <= j - start,
    {
        let x = buf[j];
        proof {
            assert(buf@.subrange(start as int, j + 1).drop_last() =~= buf@.subrange(
                start as int,
                j as int,
            ));
            assert(buf@.subrange(start as int, j + 1).last() == buf@[j as int]);
        }
        if x % 2 != 0 {
            c = c + 1;
        }
    }
    c
}

/// Single-threaded sequential reduction over the whole buffer.
pub fn count_odds_all(buf: &[u8]) -> (c: usize)
    ensures
        c == count_odds(buf@),
{
    let c = count_odds_in(buf, 0, buf.len());
    proof {
        assert(buf@.subrange(0, buf@.len() as int) =~= buf@);
    }
    c
}

/// Odd counts add over concatenation.
proof fn lemma_count_odds_concat(a: Seq<u8>, b: Seq<u8>)
    ensures
        count_odds(a + b) == count_odds(a) + count_odds(b),
    decreases b.len(),
{
    if b.len() == 0 {
        assert(a + b =~= a);
    } else {
        assert((a + b).drop_last() =~= a + b.drop_last());
        lemma_count_odds_concat(a, b.drop_last());
    }
}

/// Odd counts over adjacent index ranges add up.
pub proof fn lemma_count_odds_split(s: Seq<u8>, a: int, b: int, c: int)
    requires
        0 <= a <= b <= c <= s.len(),
    ensures
        count_odds(s.subrange(a, b)) + count_odds(s.subrange(b, c)) == count_odds(s.subrange(a, c)),
{
    assert(s.subrange(a, b) + s.subrange(b, c) =~= s.subrange(a, c));
    lemma_count_odds_concat(s.subrange(a, b), s.subrange(b, c));
}

/// Sum of the odd counts of the first `i` partition ranges of `s`
/// split among `p` workers.
pub open spec fn chunk_counts_sum(s: Seq<u8>, p: int, i: int) -> int
    recommends
        1 <= p,
        0 <= i,
    decreases i,
{
    if i <= 0 {
        0
    } else {
        chunk_counts_sum(s, p, i - 1) + count_odds(
            s.subrange(
                range_start(s.len() as int, p, i - 1),
                range_start(s.len() as int, p, i),
            ),
        )
    }
}

/// The first `i` partition ranges together count the odds of the
/// prefix they tile.
proof fn lemma_chunk_counts_prefix(s: Seq<u8>, p: int, i: int)
    requires
        1 <= p,
        0 <= i,
    ensures
        chunk_counts_sum(s, p, i) == count_odds(
            s.subrange(0, range_start(s.len() as int, p, i)),
        ),
    decreases i,
{
    let n = s.len() as int;
    if i == 0 {
        assert(s.subrange(0, 0) =~= Seq::<u8>::empty());
    } else {
        lemma_chunk_counts_prefix(s, p, i - 1);
        lemma_range_start_monotonic(n, p, 0, i - 1);
        lemma_range_start_monotonic(n, p, i - 1, i);
        lemma_count_odds_split(s, 0, range_start(n, p, i - 1), range_start(n, p, i));
    }
}

/// Law: a partitioned reduction equals the sequential one. Summing the
/// odd counts of the `p` partition ranges of `[0, s.len())` gives the
/// odd count of all of `s`, for every buffer and every worker count.
pub proof fn lemma_partitioned_count_is_sequential(s: Seq<u8>, p: int)
    requires
        1 <= p,
    ensures
        chunk_counts_sum(s, p, p) == count_odds(s),
{
    let n = s.len() as int;
    lemma_chunk_counts_prefix(s, p, p);
    lemma_partition_covers(n, p);
    assert(s.subrange(0, n) =~= s);
}

/// Counts the odd bytes of `buf` by partitioning its index space among
/// `p` workers, reducing each range independently into its own slot,
/// and combining the partial counts. Equals the sequential count.
pub fn count_odds_partitioned(buf: &[u8], p: usize) -> (c: usize)
    requires
        1 <= p,
    ensures
        c == count_odds(buf@),
{
    let n = buf.len();
    let ni = Ghost(n as int);
    let pi = Ghost(p as int);
    let ranges = partition(n, p);
    proof {
        lemma_partition_covers(ni@, pi@);
    }
    let mut parts: Vec<usize> = Vec::new();
    for k in 0..p
        invariant
            1 <= p,
            ni@ == n as int,
            pi@ == p as int,
            n == buf@.len(),
            ranges@.len() == pi@,
            forall|i: int| 0 <= i < p ==> (#[trigger] ranges@[i]).0 == range_start(ni@, pi@, i),
            forall|i: int| 0 <= i < p ==> (#[trigger] ranges@[i]).1 == range_start(ni@, pi@, i + 1),
            parts@.len() == k as int,
            sum_usize(parts@) == chunk_counts_sum(buf@, pi@, k as int),
            sum_usize(parts@) <= range_start(ni@, pi@, k as int),
            range_start(ni@, pi@, k as int) <= n,
    {
        let (start, end) = (ranges[k].0, ranges[k].1);
        proof {
            lemma_range_start_monotonic(ni@, pi@, k as int, k + 1);
        }
        let part = count_odds_in(buf, start, end);
        proof {
            assert(parts@.push(part).drop_last() =~= parts@);
        }
        parts.push(part);
    }
    let total = combine(&parts);
    proof {
        lemma_partitioned_count_is_sequential(buf@, pi@);
    }
    total
}

} // verus!
