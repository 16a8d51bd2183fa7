//! Mean and population standard deviation of run durations, in whole nanoseconds.
use vstd::prelude::*;

verus! {

pub open spec fn sum(s: Seq<u64>) -> int
    decreases s.len(),
{
    if s.len() == 0 {
        0
    } else {
        sum(s.drop_last()) + s.last()
    }
}

/// The mean, rounded down; zero for no durations.
pub open spec fn mean_of(s: Seq<u64>) -> int {
    if s.len() == 0 {
        0
    } else {
        sum(s) / (s.len() as int)
    }
}

/// The sum of the squared distances of the durations from `m`.
pub open spec fn sum_sq_dev(s: Seq<u64>, m: int) -> int
    decreases s.len(),
{
    if s.len() == 0 {
        0
    } else {
        sum_sq_dev(s.drop_last(), m) + (s.last() - m) * (s.last() - m)
    }
}

/// The population variance about the rounded mean, divided by the count (not
/// the count less one) and rounded down; zero for no durations.
pub open spec fn variance_of(s: Seq<u64>) -> int {
    if s.len() == 0 {
        0
    } else {
        sum_sq_dev(s, mean_of(s)) / (s.len() as int)
    }
}

/// `r` is the square root of `v`, rounded down.
pub open spec fn is_floor_sqrt(r: int, v: int) -> bool {
    0 <= r && r * r <= v < (r + 1) * (r + 1)
}

proof fn lemma_sum_bound(s: Seq<u64>)
    ensures
        0 <= sum(s) <= s.len() * (u64::MAX as int),
    decreases s.len(),
{
    if s.len() > 0 {
        lemma_sum_bound(s.drop_last());
    }
}

proof fn lemma_sq_dev_bound(s: Seq<u64>, m: int)
    requires
        0 <= m <= u64::MAX,
    ensures
        0 <= sum_sq_dev(s, m) <= s.len() * (u128::MAX as int),
    decreases s.len(),
{
    if s.len() > 0 {
        lemma_sq_dev_bound(s.drop_last(), m);
        let d = s.last() - m;
        assert(d * d <= u128::MAX) by (nonlinear_arith)
            requires
                -(u64::MAX as int) <= d <= u64::MAX,
        ;
        assert(d * d >= 0) by (nonlinear_arith);
    }
}

/// The rounded-down square root of `v`.
pub fn floor_sqrt(v: u128) -> (r: u64)
    ensures
        is_floor_sqrt(r as int, v as int),
{
    // lo * lo <= v < hi * hi throughout
    let mut lo: u128 = 0;
    let mut hi: u128 = 0x1_0000_0000_0000_0000;
    assert(v < hi * hi) by (nonlinear_arith)
        requires
            hi == 0x1_0000_0000_0000_0000u128,
            v <= u128::MAX,
    ;
    while hi - lo > 1
        invariant
            lo < hi <= 0x1_0000_0000_0000_0000,
            lo * lo <= v,
            v < hi * hi,
        decreases hi - lo,
    {
        let mid = lo + (hi - lo) / 2;
        assert(mid * mid <= u128::MAX) by (nonlinear_arith)
            requires
                mid < 0x1_0000_0000_0000_0000,
        ;
        if mid * mid <= v {
            lo = mid;
        } else {
            hi = mid;
        }
    }
    assert(hi == lo + 1);
    lo as u64
}

/// Mean and population standard deviation of `durations`, in nanoseconds,
/// rounded down; both zero for no durations.
pub fn statistics(durations: &Vec<u64>) -> (r: (u64, u64))
    ensures
        r.0 == mean_of(durations@),
        is_floor_sqrt(r.1 as int, variance_of(durations@)),
{
    let n = durations.len();
    if n == 0 {
        assert(is_floor_sqrt(0, 0));
        return (0, 0);
    }
    let ghost s = durations@;
    let mut total: u128 = 0;
    let mut i: usize = 0;
    while i < n
        invariant
            n == s.len(),
            s == durations@,
            i <= n,
            total == sum(s.take(i as int)),
        decreases n - i,
    {
        assert(s.take(i + 1).drop_last() == s.take(i as int));
        proof {
            lemma_sum_bound(s.take(i + 1));
        }
        assert((i + 1) * (u64::MAX as int) <= u128::MAX) by (nonlinear_arith)
            requires
                i < n,
                n <= usize::MAX,
        ;
        total = total + durations[i] as u128;
        i = i + 1;
    }
    assert(s.take(n as int) == s);
    proof {
        lemma_sum_bound(s);
    }
    let mean_wide = total / (n as u128);
    assert(mean_wide <= u64::MAX) by (nonlinear_arith)
        requires
            mean_wide == total / (n as u128),
            total <= n * (u64::MAX as int),
            n > 0,
    ;
    let mean = mean_wide as u64;
    // sum of squared deviations, kept as quotient and remainder by n
    let mut q: u128 = 0;
    let mut rem: u128 = 0;
    let mut j: usize = 0;
    while j < n
        invariant
            n == s.len(),
            s == durations@,
            n > 0,
            j <= n,
            mean == mean_of(s),
            q * n + rem == sum_sq_dev(s.take(j as int), mean as int),
            rem < n,
        decreases n - j,
    {
        let d = durations[j];
        let dev: u64 = if d >= mean {
            d - mean
        } else {
            mean - d
        };
        assert((dev as u128) * (dev as u128) <= u128::MAX) by (nonlinear_arith)
            requires
                dev <= u64::MAX,
        ;
        let sq: u128 = (dev as u128) * (dev as u128);
        assert(s.take(j + 1).drop_last() == s.take(j as int));
        assert(sq == (d - mean) * (d - mean)) by (nonlinear_arith)
            requires
                sq == dev * dev,
                dev == d - mean || dev == mean - d,
        ;
        proof {
            lemma_sq_dev_bound(s.take(j + 1), mean as int);
        }
        let ghost total_next = sum_sq_dev(s.take(j + 1), mean as int);
        assert(total_next == q * n + rem + sq);
        let sq_q = sq / (n as u128);
        let sq_r = sq % (n as u128);
        let carry: u128 = if rem + sq_r >= n as u128 {
            1
        } else {
            0
        };
        let new_rem = rem + sq_r - carry * (n as u128);
        assert(sq == sq_q * n + sq_r) by (nonlinear_arith)
            requires
                sq_q == sq / (n as u128),
                sq_r == sq % (n as u128),
                n > 0,
        ;
        let ghost new_q = q + sq_q + carry;
        assert(new_q * n + new_rem == total_next) by (nonlinear_arith)
            requires
                new_q == q + sq_q + carry,
                new_rem == rem + sq_r - carry * n,
                total_next == q * n + rem + sq,
                sq == sq_q * n + sq_r,
        ;
        assert(new_q <= u128::MAX) by (nonlinear_arith)
            requires
                new_q * n + new_rem == total_next,
                total_next <= (j + 1) * (u128::MAX as int),
                j + 1 <= n,
                new_rem >= 0,
                n > 0,
        ;
        q = q + sq_q + carry;
        rem = new_rem;
        j = j + 1;
    }
    assert(s.take(n as int) == s);
    assert(q == sum_sq_dev(s, mean as int) / (n as int)) by (nonlinear_arith)
        requires
            q * n + rem == sum_sq_dev(s, mean as int),
            0 <= rem < n,
    ;
    (mean, floor_sqrt(q))
}

/// Equal durations have that duration as their mean and no spread; no
/// durations have both zero.
pub proof fn lemma_constant_durations(s: Seq<u64>, d: u64)
    requires
        forall|i: int| 0 <= i < s.len() ==> s[i] == d,
    ensures
        s.len() > 0 ==> mean_of(s) == d,
        s.len() == 0 ==> mean_of(s) == 0,
        variance_of(s) == 0,
        forall|r: int| is_floor_sqrt(r, variance_of(s)) ==> r == 0,
{
    lemma_sum_constant(s, d);
    if s.len() > 0 {
        assert(sum(s) / (s.len() as int) == d) by (nonlinear_arith)
            requires
                sum(s) == s.len() * d,
                s.len() > 0,
        ;
        lemma_sq_dev_constant(s, d);
    }
    assert forall|r: int| is_floor_sqrt(r, variance_of(s)) implies r == 0 by {
        if r >= 1 {
            assert(r * r >= 1) by (nonlinear_arith)
                requires
                    r >= 1,
            ;
        }
    }
}

proof fn lemma_sum_constant(s: Seq<u64>, d: u64)
    requires
        forall|i: int| 0 <= i < s.len() ==> s[i] == d,
    ensures
        sum(s) == s.len() * d,
    decreases s.len(),
{
    if s.len() > 0 {
        lemma_sum_constant(s.drop_last(), d);
        assert(sum(s) == (s.len() - 1) * d + d);
        assert((s.len() - 1) * d + d == s.len() * d) by (nonlinear_arith);
    }
}

proof fn lemma_sq_dev_constant(s: Seq<u64>, d: u64)
    requires
        forall|i: int| 0 <= i < s.len() ==> s[i] == d,
    ensures
        sum_sq_dev(s, d as int) == 0,
    decreases s.len(),
{
    if s.len() > 0 {
        lemma_sq_dev_constant(s.drop_last(), d);
        assert(s.last() == d);
    }
}

} // verus!
