//! The statistics engine: raw trial durations are reduced to an
//! outlier-trimmed mean, a standard deviation and the share of outliers.

use vstd::prelude::*;
use vstd::relations::{sorted_by, total_ordering};

verus! {

broadcast use vstd::seq_lib::group_to_multiset_ensures;

/// The order in which samples are sorted.
pub open spec fn le(a: u32, b: u32) -> bool {
    a <= b
}

/// The samples in ascending order.
pub open spec fn sorted_samples(s: Seq<u32>) -> Seq<u32> {
    s.sort_by(|a: u32, b: u32| le(a, b))
}

proof fn lemma_le_total()
    ensures
        total_ordering(|a: u32, b: u32| le(a, b)),
{
}

/// A copy of `v` in ascending order.
fn sort_copy(v: &Vec<u32>) -> (r: Vec<u32>)
    ensures
        r@ == sorted_samples(v@),
{
    let n = v.len();
    let mut out: Vec<u32> = Vec::new();
    let mut i: usize = 0;
    while i < n
        invariant
            n == v@.len(),
            i <= n,
            out@.len() == i,
            forall|a: int, b: int| 0 <= a < b < out@.len() ==> out@[a] <= out@[b],
            out@.to_multiset() == v@.take(i as int).to_multiset(),
        decreases n - i,
    {
        let x = v[i];
        let mut p: usize = 0;
        let mut q: usize = out.len();
        while p < q
            invariant
                p <= q <= out@.len(),
                forall|a: int, b: int| 0 <= a < b < out@.len() ==> out@[a] <= out@[b],
                forall|k: int| 0 <= k < p ==> out@[k] <= x,
                forall|k: int| q <= k < out@.len() ==> out@[k] > x,
            decreases q - p,
        {
            let mid = p + (q - p) / 2;
            if out[mid] <= x {
                p = mid + 1;
            } else {
                q = mid;
            }
        }
        let ghost before = out@;
        out.insert(p, x);
        proof {
            assert(before.insert(p as int, x).remove(p as int) =~= before);
            assert(v@.take(i + 1) =~= v@.take(i as int).push(x));
            assert(out@.to_multiset() =~= before.to_multiset().insert(x));
            assert forall|a: int, b: int| 0 <= a < b < out@.len() implies out@[a] <= out@[b] by {
                if b < p {
                    assert(before[a] <= before[b]);
                } else if a < p && b == p {
                } else if a < p {
                    assert(before[a] <= before[b - 1]);
                } else if a == p {
                    assert(before[b - 1] >= before[p as int]);
                } else {
                    assert(before[a - 1] <= before[b - 1]);
                }
            }
        }
        i = i + 1;
    }
    proof {
        assert(v@.take(n as int) =~= v@);
        lemma_le_total();
        assert(sorted_by(out@, |a: u32, b: u32| le(a, b)));
        v@.lemma_sort_by_ensures(|a: u32, b: u32| le(a, b));
        vstd::seq_lib::lemma_sorted_unique(out@, sorted_samples(v@), |a: u32, b: u32| le(a, b));
    }
    out
}

/// The reduced timings of one fragment: mean and standard deviation in whole
/// microseconds, and the share of trimmed samples in whole percent.
#[derive(Debug, Clone, Copy, PartialEq, Eq)]
pub struct Stats {
    pub mean: u64,
    pub std: u64,
    pub outliers: u64,
}

/// Position of the lower reference sample: floor(n / 4).
pub open spec fn bot_index(n: int) -> int {
    n / 4
}

/// Position of the upper reference sample: ceil(3n / 4).
pub open spec fn top_index(n: int) -> int {
    (3 * n + 3) / 4
}

/// Whether `v` lies within one and a half times `hi - lo` of `[lo, hi]`
/// (stated doubled, to stay in whole numbers).
pub open spec fn keeps(lo: int, hi: int, v: int) -> bool {
    2 * lo - 3 * (hi - lo) <= 2 * v && 2 * v <= 2 * hi + 3 * (hi - lo)
}

/// How many samples are kept.
pub open spec fn kept_count(s: Seq<u32>, lo: int, hi: int) -> int
    decreases s.len(),
{
    if s.len() == 0 {
        0
    } else {
        kept_count(s.drop_last(), lo, hi) + if keeps(lo, hi, s.last() as int) {
            1int
        } else {
            0
        }
    }
}

/// The sum of the kept samples.
pub open spec fn kept_sum(s: Seq<u32>, lo: int, hi: int) -> int
    decreases s.len(),
{
    if s.len() == 0 {
        0
    } else {
        kept_sum(s.drop_last(), lo, hi) + if keeps(lo, hi, s.last() as int) {
            s.last() as int
        } else {
            0
        }
    }
}

/// The sum, over the kept samples `v`, of `(k * v - sum)^2`: `k^3` times their
/// variance, when `k` and `sum` are their count and sum.
pub open spec fn kept_spread(s: Seq<u32>, lo: int, hi: int, k: int, sum: int) -> int
    decreases s.len(),
{
    if s.len() == 0 {
        0
    } else {
        kept_spread(s.drop_last(), lo, hi, k, sum) + if keeps(lo, hi, s.last() as int) {
            (k * s.last() - sum) * (k * s.last() - sum)
        } else {
            0
        }
    }
}

/// `sum / k` nanoseconds in microseconds, rounded half up.
pub open spec fn rounded_mean(sum: int, k: int) -> int {
    (2 * sum + 1000 * k) / (2000 * k)
}

/// `r` is the square root of `v` nanoseconds squared, in microseconds rounded
/// half up: `r - 1/2 <= sqrt(v) / 1000 < r + 1/2`.
pub open spec fn is_rounded_root(r: int, v: int) -> bool {
    r >= 0 && (r == 0 || (2 * r - 1) * (2 * r - 1) * 250000 <= v) && v < (2 * r + 1) * (2 * r
        + 1) * 250000
}

/// `100 - 100 k / n`, rounded half up.
pub open spec fn outlier_percent(n: int, k: int) -> int {
    (201 * n - 200 * k) / (2 * n)
}

/// The reduction of `s`: samples are sorted, the reference samples `lo` and
/// `hi` taken at positions floor(n/4) and ceil(3n/4), the samples outside
/// `[lo - 1.5 (hi - lo), hi + 1.5 (hi - lo)]` trimmed, and the mean, standard
/// deviation and outlier share of the rest reported.
pub open spec fn reduces_to(s: Seq<u32>, r: Stats) -> bool {
    let n = s.len() as int;
    let lo = sorted_samples(s)[bot_index(n)] as int;
    let hi = sorted_samples(s)[top_index(n)] as int;
    let k = kept_count(s, lo, hi);
    let sum = kept_sum(s, lo, hi);
    &&& r.mean == rounded_mean(sum, k)
    &&& is_rounded_root(r.std as int, kept_spread(s, lo, hi, k, sum) / (k * k * k))
    &&& r.outliers == outlier_percent(n, k)
}

proof fn lemma_kept_positive(s: Seq<u32>, lo: int, hi: int, j: int)
    requires
        0 <= j < s.len(),
        keeps(lo, hi, s[j] as int),
    ensures
        kept_count(s, lo, hi) > 0,
    decreases s.len(),
{
    lemma_kept_nonneg(s.drop_last(), lo, hi);
    if j < s.len() - 1 {
        assert(s.drop_last()[j] == s[j]);
        lemma_kept_positive(s.drop_last(), lo, hi, j);
    }
}

proof fn lemma_kept_nonneg(s: Seq<u32>, lo: int, hi: int)
    ensures
        0 <= kept_count(s, lo, hi) <= s.len(),
    decreases s.len(),
{
    if s.len() > 0 {
        lemma_kept_nonneg(s.drop_last(), lo, hi);
    }
}

/// The largest `r` below `2^48` with `r == 0` or `(2r - 1)^2 * 250000 <= v`.
fn rounded_root(v: u128) -> (r: u64)
    requires
        v < 0x1_0000_0000_0000_0000_0000_0000_0000,
    ensures
        is_rounded_root(r as int, v as int),
{
    let mut lo: u64 = 0;
    let mut hi: u64 = 0x1_0000_0000_0000;
    assert(v < (2 * hi - 1) * (2 * hi - 1) * 250000) by (nonlinear_arith)
        requires
            v < 0x1_0000_0000_0000_0000_0000_0000_0000,
            hi == 0x1_0000_0000_0000,
    ;
    while hi - lo > 1
        invariant
            lo < hi <= 0x1_0000_0000_0000,
            lo == 0 || (2 * lo - 1) * (2 * lo - 1) * 250000 <= v,
            v < (2 * hi - 1) * (2 * hi - 1) * 250000,
        decreases hi - lo,
    {
        let mid: u64 = lo + (hi - lo) / 2;
        let d: u128 = 2 * (mid as u128) - 1;
        assert(d * d * 250000 <= 0x4_0000_0000_0000_0000_0000_0000int * 250000) by (nonlinear_arith)
            requires
                d < 0x2_0000_0000_0000,
        ;
        if d * d * 250000 <= v {
            lo = mid;
        } else {
            hi = mid;
        }
    }
    lo
}

/// The sum of the squares of the kept samples.
pub open spec fn kept_sq(s: Seq<u32>, lo: int, hi: int) -> int
    decreases s.len(),
{
    if s.len() == 0 {
        0
    } else {
        kept_sq(s.drop_last(), lo, hi) + if keeps(lo, hi, s.last() as int) {
            s.last() as int * s.last() as int
        } else {
            0
        }
    }
}

proof fn lemma_spread_expand(s: Seq<u32>, lo: int, hi: int, k: int, sum: int)
    ensures
        kept_spread(s, lo, hi, k, sum) == k * k * kept_sq(s, lo, hi) - 2 * k * sum * kept_sum(
            s,
            lo,
            hi,
        ) + kept_count(s, lo, hi) * sum * sum,
        kept_spread(s, lo, hi, k, sum) >= 0,
    decreases s.len(),
{
    if s.len() > 0 {
        let init = s.drop_last();
        lemma_spread_expand(init, lo, hi, k, sum);
        let v = s.last() as int;
        assert((k * v - sum) * (k * v - sum) == k * k * (v * v) - 2 * k * sum * v + sum * sum)
            by (nonlinear_arith);
        assert((k * v - sum) * (k * v - sum) >= 0) by (nonlinear_arith);
        let q0 = kept_sq(init, lo, hi);
        let t0 = kept_sum(init, lo, hi);
        let c0 = kept_count(init, lo, hi);
        if keeps(lo, hi, v) {
            assert(k * k * (q0 + v * v) == k * k * q0 + k * k * (v * v)) by (nonlinear_arith);
            assert(2 * k * sum * (t0 + v) == 2 * k * sum * t0 + 2 * k * sum * v) by (nonlinear_arith);
            assert((c0 + 1) * sum * sum == c0 * sum * sum + sum * sum) by (nonlinear_arith);
        }
    }
}

/// Reduces the durations of one fragment's trials, in nanoseconds, to its
/// statistics. There are none below four samples, where the upper reference
/// position lies past the end.
///
/// A sample is a `u32` of nanoseconds (a trial of at most about 4.29 s), and
/// the count fits in a `u32`, as the configured sample count does.
pub fn reduce(samples: &Vec<u32>) -> (r: Option<Stats>)
    requires
        samples@.len() <= 0xffff_ffff,
    ensures
        r is None <==> samples@.len() < 4,
        r matches Some(st) ==> reduces_to(samples@, st),
{
    let n = samples.len();
    if n < 4 {
        return None;
    }
    let t = sort_copy(samples);
    proof {
        lemma_le_total();
        samples@.lemma_sort_by_ensures(|a: u32, b: u32| le(a, b));
        assert(t@.len() == t@.to_multiset().len());
        assert(samples@.len() == samples@.to_multiset().len());
        assert((3 * n + 3) / 4 < n);
    }
    let lo: i64 = t[n / 4] as i64;
    let top: u64 = (3 * (n as u64) + 3) / 4;
    let hi: i64 = t[top as usize] as i64;
    let ghost s = samples@;
    let mut k: u64 = 0;
    let mut sum: u128 = 0;
    let mut sq: u128 = 0;
    let mut i: usize = 0;
    while i < n
        invariant
            s == samples@,
            n == s.len(),
            n <= 0xffff_ffff,
            i <= n,
            0 <= lo <= 0xffff_ffff,
            0 <= hi <= 0xffff_ffff,
            k == kept_count(s.take(i as int), lo as int, hi as int),
            sum == kept_sum(s.take(i as int), lo as int, hi as int),
            sq == kept_sq(s.take(i as int), lo as int, hi as int),
            k <= i,
            sum <= k * 0xffff_ffff,
            sq <= k * 0xffff_fffe_0000_0001,
        decreases n - i,
    {
        let v: i64 = samples[i] as i64;
        assert(s.take(i + 1).drop_last() =~= s.take(i as int));
        if 2 * lo - 3 * (hi - lo) <= 2 * v && 2 * v <= 2 * hi + 3 * (hi - lo) {
            let vv: u128 = v as u128;
            assert(vv * vv <= 0xffff_fffe_0000_0001) by (nonlinear_arith)
                requires
                    vv <= 0xffff_ffff,
            ;
            k = k + 1;
            sum = sum + vv;
            sq = sq + vv * vv;
        }
        i = i + 1;
    }
    proof {
        assert(s.take(n as int) =~= s);
        let leq = |a: u32, b: u32| le(a, b);
        s.lemma_sort_by_ensures(leq);
        let b = bot_index(n as int);
        assert(leq(t@[b], t@[top_index(n as int)]));
        assert(t@.contains(t@[b]));
        let j = choose|j: int| 0 <= j < s.len() && s[j] == t@[b];
        lemma_kept_positive(s, lo as int, hi as int, j);
        lemma_kept_nonneg(s, lo as int, hi as int);
        lemma_spread_expand(s, lo as int, hi as int, k as int, sum as int);
    }
    let kk: u128 = k as u128;
    assert(kk * sq <= 0xffff_fffe_0000_0001 * 0xffff_fffe_0000_0001 && sum * sum
        <= 0xffff_fffe_0000_0001 * 0xffff_fffe_0000_0001 && 1 <= kk * kk <= 0xffff_fffe_0000_0001)
        by (nonlinear_arith)
        requires
            1 <= kk <= 0xffff_ffff,
            sum <= kk * 0xffff_ffff,
            sq <= kk * 0xffff_fffe_0000_0001,
    ;
    let ghost spread = kept_spread(s, lo as int, hi as int, k as int, sum as int);
    assert(spread == kk * (kk * sq - sum * sum)) by (nonlinear_arith)
        requires
            spread == kk * kk * sq - 2 * kk * sum * sum + kk * sum * sum,
    ;
    assert(kk * sq - sum * sum >= 0) by (nonlinear_arith)
        requires
            spread == kk * (kk * sq - sum * sum),
            spread >= 0,
            kk >= 1,
    ;
    let x: u128 = kk * sq - sum * sum;
    let d: u128 = kk * kk;
    let v: u128 = x / d;
    proof {
        let r = x % d;
        vstd::arithmetic::div_mod::lemma_fundamental_div_mod(x as int, d as int);
        assert(spread == (v as int) * (kk * d) + kk * r) by (nonlinear_arith)
            requires
                spread == kk * x,
                x == d * v + r,
        ;
        assert(0 <= kk * r < kk * d) by (nonlinear_arith)
            requires
                0 <= r < d,
                kk >= 1,
        ;
        assert(kk * d == k * k * k) by (nonlinear_arith)
            requires
                d == kk * kk,
                kk == k,
        ;
        vstd::arithmetic::div_mod::lemma_fundamental_div_mod_converse(
            spread,
            kk * d,
            v as int,
            kk * r,
        );
        assert(v <= 0xffff_fffe_0000_0001) by (nonlinear_arith)
            requires
                x == d * v + r,
                0 <= r,
                x <= kk * sq,
                sq <= kk * 0xffff_fffe_0000_0001,
                d == kk * kk,
                d >= 1,
        ;
    }
    let m: u128 = (2 * sum + 1000 * kk) / (2000 * kk);
    proof {
        let num = 2 * sum + 1000 * kk;
        vstd::arithmetic::div_mod::lemma_fundamental_div_mod(num as int, 2000 * kk as int);
        assert(m <= 0xffff_ffff) by (nonlinear_arith)
            requires
                num == (2000 * kk) * m + num % (2000 * kk),
                num % (2000 * kk) >= 0,
                num == 2 * sum + 1000 * kk,
                sum <= kk * 0xffff_ffff,
                kk >= 1,
        ;
    }
    let mean: u64 = m as u64;
    let std: u64 = rounded_root(v);
    let outliers: u64 = (201 * n as u64 - 200 * k) / (2 * n as u64);
    Some(Stats { mean, std, outliers })
}

/// Every sample of `s` equals `x`.
pub open spec fn uniform(s: Seq<u32>, x: u32) -> bool {
    forall|i: int| 0 <= i < s.len() ==> s[i] == x
}

proof fn lemma_uniform_kept(s: Seq<u32>, x: u32, k: int)
    requires
        uniform(s, x),
    ensures
        kept_count(s, x as int, x as int) == s.len(),
        kept_sum(s, x as int, x as int) == s.len() * x,
        kept_spread(s, x as int, x as int, k, k * x) == 0,
    decreases s.len(),
{
    if s.len() > 0 {
        let init = s.drop_last();
        assert(uniform(init, x)) by {
            assert forall|i: int| 0 <= i < init.len() implies init[i] == x by {
                assert(init[i] == s[i]);
            }
        }
        lemma_uniform_kept(init, x, k);
        assert(s.last() == s[s.len() - 1]);
        assert(s.len() * x == init.len() * x + x) by (nonlinear_arith)
            requires
                s.len() == init.len() + 1,
        ;
    }
}

/// When all samples are equal, none is trimmed: the standard deviation and
/// the outlier share are zero, and the mean is that value.
pub proof fn lemma_uniform_samples(s: Seq<u32>, r: Stats)
    requires
        s.len() >= 4,
        uniform(s, s[0]),
        reduces_to(s, r),
    ensures
        r.std == 0,
        r.outliers == 0,
        r.mean == rounded_mean(s.len() * s[0], s.len() as int),
{
    let x = s[0];
    let n = s.len() as int;
    let t = sorted_samples(s);
    lemma_le_total();
    s.lemma_sort_by_ensures(|a: u32, b: u32| le(a, b));
    assert(t.len() == t.to_multiset().len());
    assert(s.len() == s.to_multiset().len());
    assert forall|i: int| 0 <= i < t.len() implies t[i] == x by {
        assert(t.contains(t[i]));
        let j = choose|j: int| 0 <= j < s.len() && s[j] == t[i];
    }
    assert(top_index(n) < n);
    assert(t[bot_index(n)] == x);
    assert(t[top_index(n)] == x);
    lemma_uniform_kept(s, x, n);
    assert(kept_spread(s, x as int, x as int, n, n * x) / (n * n * n) == 0) by (nonlinear_arith)
        requires
            kept_spread(s, x as int, x as int, n, n * x) == 0,
            n >= 4,
    ;
    assert(201 * n - 200 * n == n);
    vstd::arithmetic::div_mod::lemma_basic_div(n, 2 * n);
    let st = r.std as int;
    if st >= 1 {
        assert((2 * st - 1) * (2 * st - 1) * 250000 > 0) by (nonlinear_arith)
            requires
                st >= 1,
        ;
    }
}

proof fn lemma_kept_remove(t: Seq<u32>, lo: int, hi: int, j: int)
    requires
        0 <= j < t.len(),
    ensures
        kept_count(t, lo, hi) == kept_count(t.remove(j), lo, hi) + if keeps(
            lo,
            hi,
            t[j] as int,
        ) {
            1int
        } else {
            0
        },
    decreases t.len(),
{
    if j < t.len() - 1 {
        lemma_kept_remove(t.drop_last(), lo, hi, j);
        assert(t.remove(j).drop_last() =~= t.drop_last().remove(j));
        assert(t.remove(j).last() == t.last());
        assert(t.drop_last()[j] == t[j]);
    } else {
        assert(t.remove(j) =~= t.drop_last());
        assert(t.last() == t[j]);
    }
}

proof fn lemma_kept_permutation(s: Seq<u32>, t: Seq<u32>, lo: int, hi: int)
    requires
        s.to_multiset() == t.to_multiset(),
    ensures
        kept_count(s, lo, hi) == kept_count(t, lo, hi),
    decreases s.len(),
{
    assert(s.len() == s.to_multiset().len());
    assert(t.len() == t.to_multiset().len());
    if s.len() > 0 {
        let x = s.last();
        assert(s =~= s.drop_last().push(x));
        assert(s.to_multiset() == s.drop_last().to_multiset().insert(x));
        assert(t.to_multiset().count(x) > 0);
        assert(t.contains(x));
        let j = choose|j: int| 0 <= j < t.len() && t[j] == x;
        assert(t.remove(j).to_multiset() == t.to_multiset().remove(x));
        assert(s.drop_last().to_multiset() =~= t.remove(j).to_multiset());
        lemma_kept_permutation(s.drop_last(), t.remove(j), lo, hi);
        lemma_kept_remove(t, lo, hi, j);
    }
}

proof fn lemma_kept_range(t: Seq<u32>, lo: int, hi: int, a: int, b: int)
    requires
        0 <= a <= b < t.len(),
        forall|i: int| a <= i <= b ==> keeps(lo, hi, #[trigger] t[i] as int),
    ensures
        kept_count(t, lo, hi) >= b - a + 1,
    decreases t.len(),
{
    let init = t.drop_last();
    lemma_kept_nonneg(init, lo, hi);
    if b == t.len() - 1 {
        assert(keeps(lo, hi, t[b] as int));
        assert(t.last() == t[b]);
        if a < b {
            assert forall|i: int| a <= i <= b - 1 implies keeps(lo, hi, #[trigger] init[i] as int) by {
                assert(init[i] == t[i]);
            }
            lemma_kept_range(init, lo, hi, a, b - 1);
        }
    } else {
        assert forall|i: int| a <= i <= b implies keeps(lo, hi, #[trigger] init[i] as int) by {
            assert(init[i] == t[i]);
        }
        lemma_kept_range(init, lo, hi, a, b);
    }
}

/// At most half of the samples are ever trimmed: every sample between the two
/// reference values is kept, and those are more than half of all samples.
pub proof fn lemma_at_most_half_trimmed(s: Seq<u32>, r: Stats)
    requires
        s.len() >= 4,
        reduces_to(s, r),
    ensures
        r.outliers <= 50,
{
    let n = s.len() as int;
    let t = sorted_samples(s);
    let leq = |a: u32, b: u32| le(a, b);
    lemma_le_total();
    s.lemma_sort_by_ensures(leq);
    assert(t.len() == t.to_multiset().len());
    assert(s.len() == s.to_multiset().len());
    let b = bot_index(n);
    let top = top_index(n);
    assert(b < top < n);
    let lo = t[b] as int;
    let hi = t[top] as int;
    assert(leq(t[b], t[top]));
    assert forall|i: int| b <= i <= top implies keeps(lo, hi, #[trigger] t[i] as int) by {
        if b < i {
            assert(leq(t[b], t[i]));
        }
        if i < top {
            assert(leq(t[i], t[top]));
        }
    }
    lemma_kept_range(t, lo, hi, b, top);
    lemma_kept_permutation(s, t, lo, hi);
    let k = kept_count(s, lo, hi);
    assert(200 * k > 99 * n);
    let num = 201 * n - 200 * k;
    vstd::arithmetic::div_mod::lemma_fundamental_div_mod(num, 2 * n);
    assert(num / (2 * n) <= 50) by (nonlinear_arith)
        requires
            num == (2 * n) * (num / (2 * n)) + num % (2 * n),
            num % (2 * n) >= 0,
            num < 102 * n,
            n >= 4,
    ;
}

} // verus!
