//! The quantile of the Beta(a, b) posterior with integer shapes, computed
//! exactly. For integer shapes the CDF at `x` is the binomial tail
//! `sum over j in a..=n of C(n, j) x^j (1 - x)^(n - j)`, `n = a + b - 1`, so
//! on the grid `x = k / 2^L` it is a ratio of integers, and bisection over
//! the grid finds the quantile with no rounding error.
use vstd::prelude::*;
use vstd::arithmetic::power::{lemma_pow0, lemma_pow1, pow};
use vstd::arithmetic::power2::{lemma2_to64, lemma2_to64_rest, lemma_pow2_strictly_increases, lemma_pow2_unfold, pow2};
use vstd::arithmetic::div_mod::lemma_fundamental_div_mod_converse;
use crate::bignum::{add_big, div_small, from_u64, le, mul_small, normal, val};
use crate::thompson::{ThompsonInfo, DRAW_STEPS};

verus! {

/// The binomial coefficient, by Pascal's rule.
pub open spec fn binom(n: nat, j: nat) -> nat
    decreases n,
{
    if j == 0 {
        1
    } else if n == 0 {
        0
    } else {
        binom((n - 1) as nat, (j - 1) as nat) + binom((n - 1) as nat, j)
    }
}

/// `sum over i in a..=j of C(n, i) * k^i * m^(j - i)`.
pub open spec fn binomial_tail(n: nat, a: nat, k: int, m: int, j: nat) -> int
    decreases j,
{
    let term = if j >= a { binom(n, j) * pow(k, j) } else { 0 };
    if j == 0 {
        term
    } else {
        binomial_tail(n, a, k, m, (j - 1) as nat) * m + term
    }
}

/// Shapes of an arm's posterior: `a = interesting + 1`, and `n = a + b - 1`
/// trials in all.
pub open spec fn shape_a(info: ThompsonInfo) -> nat {
    (info.interesting + 1) as nat
}

pub open spec fn trials(info: ThompsonInfo) -> nat {
    (info.interesting + info.uninteresting + 1) as nat
}

/// The posterior CDF at `x / 2^l` is at most `percentile / DRAW_STEPS`.
pub open spec fn cdf_at_most(info: ThompsonInfo, x: nat, l: nat, percentile: nat) -> bool {
    let scale = pow2(l) as int;
    let n = trials(info);
    binomial_tail(n, shape_a(info), x as int, scale - x, n) * DRAW_STEPS <= percentile * pow(scale, n)
}

/// `r / 2^bits` is the quantile at `percentile / DRAW_STEPS`, rounded to
/// the nearest multiple of `2^-bits`: the CDF passes the percentile between
/// the half steps `x` and `x + 1` of the finer grid, and `r` is the nearest
/// multiple of `2^-bits` to that interval.
pub open spec fn is_rounded_quantile(info: ThompsonInfo, percentile: nat, bits: nat, r: nat) -> bool {
    exists|x: nat|
        x < pow2(bits + 1) && r == (x + 1) / 2 && #[trigger] cdf_at_most(info, x, bits + 1, percentile)
            && !cdf_at_most(info, x + 1, bits + 1, percentile)
}

proof fn lemma_binom_above(n: nat, j: nat)
    requires
        j > n,
    ensures
        binom(n, j) == 0,
    decreases n,
{
    if n > 0 {
        lemma_binom_above((n - 1) as nat, (j - 1) as nat);
        lemma_binom_above((n - 1) as nat, j);
    }
}

proof fn lemma_binom_top(n: nat)
    ensures
        binom(n, n) == 1,
    decreases n,
{
    if n > 0 {
        lemma_binom_top((n - 1) as nat);
        lemma_binom_above((n - 1) as nat, n);
    }
}

/// `(j + 1) C(n + 1, j + 1) == (n + 1) C(n, j)`.
proof fn lemma_binom_absorb(n: nat, j: nat)
    ensures
        (j + 1) * binom(n + 1, j + 1) == (n + 1) * binom(n, j),
    decreases n,
{
    if n == 0 {
        if j > 0 {
            lemma_binom_above(0, j);
            lemma_binom_above(1, j + 1);
            assert((j + 1) * binom(1, j + 1) == 1 * binom(0, j));
        } else {
            assert(binom(0, 0) == 1);
            assert(binom(0, 1) == 0);
            assert(binom(1, 1) == binom(0, 0) + binom(0, 1));
            assert((j + 1) * binom(n + 1, j + 1) == (n + 1) * binom(n, j));
        }
    } else {
        let m = (n - 1) as nat;
        lemma_binom_absorb(m, j);
        assert(binom(n + 1, j + 1) == binom(n, j) + binom(n, j + 1));
        if j == 0 {
            assert(binom(n, 0) == 1);
            assert(binom(m, 0) == 1);
            assert(1 * binom(n, 1) == n * binom(m, 0));
            assert(binom(n, 1) == n) by (nonlinear_arith)
                requires
                    1 * binom(n, 1) == n * binom(m, 0),
                    binom(m, 0) == 1,
            ;
            assert(binom(n + 1, 1) == binom(n, 0) + binom(n, 1));
            assert(binom(n + 1, 1) == n + 1);
            assert((j + 1) * binom(n + 1, j + 1) == (n + 1) * binom(n, j));
        } else {
            let i = (j - 1) as nat;
            lemma_binom_absorb(m, i);
            assert(binom(n, j) == binom(m, i) + binom(m, j));
            let (c, d, e) = (binom(n, j) as int, binom(m, i) as int, binom(m, j) as int);
            let f = binom(n, j + 1) as int;
            assert((j + 1) * (c + f) == (n + 1) * c) by (nonlinear_arith)
                requires
                    (j + 1) * f == n * e,
                    j * c == n * d,
                    c == d + e,
            ;
        }
    }
}

/// `(j + 1) C(n, j + 1) == (n - j) C(n, j)` for `j < n`.
proof fn lemma_binom_step(n: nat, j: nat)
    requires
        j < n,
    ensures
        (j + 1) * binom(n, j + 1) == (n - j) * binom(n, j),
{
    let m = (n - 1) as nat;
    lemma_binom_absorb(m, j);
    if j > 0 {
        let i = (j - 1) as nat;
        lemma_binom_absorb(m, i);
        assert(binom(n, j) == binom(m, i) + binom(m, j));
        let (c, d, e) = (binom(n, j) as int, binom(m, i) as int, binom(m, j) as int);
        assert(n * e == (n - j) * c) by (nonlinear_arith)
            requires
                j * c == n * d,
                c == d + e,
        ;
    }
}

proof fn lemma_tail_at_zero(n: nat, a: nat, m: int, j: nat)
    requires
        a >= 1,
    ensures
        binomial_tail(n, a, 0, m, j) == 0,
    decreases j,
{
    if j >= a {
        vstd::arithmetic::power::lemma0_pow(j);
    }
    if j > 0 {
        lemma_tail_at_zero(n, a, m, (j - 1) as nat);
    }
}

proof fn lemma_tail_at_full(n: nat, a: nat, k: int, j: nat)
    requires
        1 <= a <= j,
    ensures
        binomial_tail(n, a, k, 0, j) == binom(n, j) * pow(k, j),
{
}

/// `binomial_tail(n, a, k, m, n)` as limbs. `C(n, j) * k^j` is carried from
/// one index to the next, and the sum is folded in Horner's way in `m`.
fn binomial_tail_limbs(n: u64, a: u64, k: u64, m: u64) -> (r: Vec<u64>)
    requires
        n < u64::MAX,
    ensures
        val(r@) == binomial_tail(n as nat, a as nat, k as int, m as int, n as nat),
        normal(r@),
{
    let mut v = from_u64(1);
    let mut acc: Vec<u64> = Vec::new();
    let mut j: u64 = 0;
    proof {
        lemma_pow0(k as int);
    }
    loop
        invariant_except_break
            val(acc@) == (if j == 0 { 0 } else { binomial_tail(n as nat, a as nat, k as int, m as int, (j - 1) as nat) }),
        invariant
            n < u64::MAX,
            j <= n,
            val(v@) == binom(n as nat, j as nat) * pow(k as int, j as nat),
            normal(v@),
            normal(acc@),
        ensures
            val(acc@) == binomial_tail(n as nat, a as nat, k as int, m as int, n as nat),
            normal(acc@),
        decreases n - j,
    {
        let scaled = mul_small(&acc, m);
        acc = if j >= a { add_big(&scaled, &v) } else { scaled };
        proof {
            let t = binomial_tail(n as nat, a as nat, k as int, m as int, j as nat);
            if j == 0 {
                assert(0 * (m as int) == 0);
            }
            assert(val(acc@) == t);
        }
        if j == n {
            break;
        }
        let w = mul_small(&v, k);
        let w = mul_small(&w, n - j);
        let (q, rem) = div_small(&w, j + 1);
        proof {
            let (nn, jj) = (n as nat, j as nat);
            lemma_binom_step(nn, jj);
            let (bb, b1, pp) = (binom(nn, jj) as int, binom(nn, jj + 1) as int, pow(k as int, jj));
            let x = b1 * pow(k as int, jj + 1);
            assert(pow(k as int, jj + 1) == k * pp) by {
                reveal(pow);
            }
            let vw = val(w@);
            assert(vw == bb * pp * k * (n - j));
            assert(vw == (j + 1) * x) by (nonlinear_arith)
                requires
                    vw == bb * pp * k * (n - j),
                    (j + 1) * b1 == (n - j) * bb,
                    x == b1 * (k * pp),
            ;
            lemma_fundamental_div_mod_converse(val(w@), (j + 1) as int, x, 0);
            lemma_fundamental_div_mod_converse(val(w@), (j + 1) as int, val(q@), rem as int);
        }
        v = q;
        j += 1;
    }
    acc
}

/// `2^e`.
fn power_of_two(e: u64) -> (r: u64)
    requires
        e <= 63,
    ensures
        r == pow2(e as nat),
{
    let mut r: u64 = 1;
    let mut i: u64 = 0;
    proof {
        lemma2_to64();
    }
    while i < e
        invariant
            i <= e <= 63,
            r == pow2(i as nat),
        decreases e - i,
    {
        proof {
            lemma2_to64_rest();
            lemma_pow2_unfold((i + 1) as nat);
            if i + 1 < 63 {
                lemma_pow2_strictly_increases((i + 1) as nat, 63);
            }
            assert(r * 2 == pow2((i + 1) as nat));
            if i + 1 == 63 {
                assert(pow2(63) == 0x8000_0000_0000_0000);
            } else {
                assert(pow2((i + 1) as nat) < pow2(63));
            }
        }
        r = r * 2;
        i += 1;
    }
    r
}


/// `percentile * scale^n`.
fn scaled_percentile(percentile: u64, scale: u64, n: u64) -> (r: Vec<u64>)
    ensures
        val(r@) == percentile * pow(scale as int, n as nat),
        normal(r@),
{
    let mut r = from_u64(percentile);
    let mut i: u64 = 0;
    proof {
        lemma_pow0(scale as int);
    }
    while i < n
        invariant
            i <= n,
            val(r@) == percentile * pow(scale as int, i as nat),
            normal(r@),
        decreases n - i,
    {
        let ghost before = val(r@);
        r = mul_small(&r, scale);
        proof {
            let p = pow(scale as int, i as nat);
            assert(pow(scale as int, (i + 1) as nat) == scale * p) by {
                reveal(pow);
            }
            assert(before * scale == percentile * (scale * p)) by (nonlinear_arith)
                requires
                    before == percentile * p,
            ;
        }
        i += 1;
    }
    r
}

/// Whether the CDF of Beta(a, n + 1 - a) at `x / scale` is at most
/// `val(rhs) / (DRAW_STEPS * scale^n)`.
fn tail_at_most(n: u64, a: u64, x: u64, scale: u64, rhs: &Vec<u64>) -> (r: bool)
    requires
        x <= scale,
        n < u64::MAX,
        normal(rhs@),
    ensures
        r == (binomial_tail(n as nat, a as nat, x as int, scale - x, n as nat) * DRAW_STEPS <= val(rhs@)),
{
    let t = binomial_tail_limbs(n, a, x, scale - x);
    let lhs = mul_small(&t, DRAW_STEPS);
    le(&lhs, rhs)
}

/// The quantile of the posterior Beta(interesting + 1, uninteresting + 1) of
/// `entry` at `area / DRAW_STEPS`, as a multiple of `2^-bits`, rounded to the
/// nearest (see `is_rounded_quantile`); at `area == DRAW_STEPS`, the top of
/// the support, 1. It is exact: no floating point is
/// involved.
pub fn dist_area_at_percentile(entry: &ThompsonInfo, area: u64, bits: u64) -> (r: u64)
    requires
        area <= DRAW_STEPS,
        1 <= bits <= 53,
        entry.interesting + entry.uninteresting + 2 <= u64::MAX,
    ensures
        r <= pow2(bits as nat),
        area < DRAW_STEPS ==> is_rounded_quantile(*entry, area as nat, bits as nat, r as nat),
        area == DRAW_STEPS ==> r == pow2(bits as nat),
{
    if area == DRAW_STEPS {
        return power_of_two(bits);
    }
    let l = bits + 1;
    let scale = power_of_two(l);
    let n = entry.interesting + entry.uninteresting + 1;
    let a = entry.interesting + 1;
    let rhs = scaled_percentile(area, scale, n);
    let ghost info = *entry;
    proof {
        lemma_pow2_unfold(l as nat);
        lemma_pow2_strictly_increases(0, l as nat);
        lemma2_to64();
        assert(trials(info) == n && shape_a(info) == a);
        vstd::arithmetic::power::lemma_pow_positive(scale as int, n as nat);
        let ps = pow(scale as int, n as nat);
        lemma_tail_at_zero(n as nat, a as nat, scale as int, n as nat);
        assert(0 * DRAW_STEPS <= area * ps) by (nonlinear_arith)
            requires
                ps > 0,
                area >= 0,
        ;
        assert(cdf_at_most(info, 0, l as nat, area as nat));
        lemma_binom_top(n as nat);
        lemma_tail_at_full(n as nat, a as nat, scale as int, n as nat);
        assert(!(ps * DRAW_STEPS <= area * ps)) by (nonlinear_arith)
            requires
                ps > 0,
                area < DRAW_STEPS,
        ;
        assert(binomial_tail(n as nat, a as nat, scale as int, 0, n as nat) == ps);
        assert(!cdf_at_most(info, scale as nat, l as nat, area as nat));
    }
    let mut lo: u64 = 0;
    let mut hi: u64 = scale;
    while hi - lo > 1
        invariant
            lo < hi <= scale,
            scale == pow2(l as nat),
            n == trials(info),
            a == shape_a(info),
            n < u64::MAX,
            normal(rhs@),
            val(rhs@) == area * pow(scale as int, n as nat),
            cdf_at_most(info, lo as nat, l as nat, area as nat),
            !cdf_at_most(info, hi as nat, l as nat, area as nat),
        decreases hi - lo,
    {
        let mid = lo + (hi - lo) / 2;
        if tail_at_most(n, a, mid, scale, &rhs) {
            lo = mid;
        } else {
            hi = mid;
        }
    }
    proof {
        assert(hi == lo + 1);
        assert(pow2((bits + 1) as nat) == 2 * pow2(bits as nat));
    }
    (lo + 1) / 2
}


/// The median of the uniform prior Beta(1, 1) is exactly 1/2, at every precision.
pub proof fn lemma_uniform_median(bits: nat, r: nat)
    requires
        bits >= 1,
        is_rounded_quantile(ThompsonInfo { interesting: 0, uninteresting: 0 }, pow2(51), bits, r),
    ensures
        r == pow2((bits - 1) as nat),
{
    let info = ThompsonInfo { interesting: 0, uninteresting: 0 };
    let x = choose|x: nat|
        x < pow2(bits + 1) && r == (x + 1) / 2 && #[trigger] cdf_at_most(info, x, bits + 1, pow2(51))
            && !cdf_at_most(info, x + 1, bits + 1, pow2(51));
    let scale = pow2(bits + 1) as int;
    let half = pow2(bits) as int;
    lemma_pow2_unfold(bits + 1);
    lemma_pow2_unfold(bits);
    lemma2_to64();
    lemma2_to64_rest();
    assert(pow2(52) == 2 * pow2(51));
    lemma_pow1(scale);
    assert(trials(info) == 1 && shape_a(info) == 1);
    assert(binom(0, 0) == 1);
    assert(binom(0, 1) == 0);
    assert(binom(1, 1) == binom(0, 0) + binom(0, 1));
    assert(binom(1, 1) == 1);
    assert forall|y: int| #[trigger] binomial_tail(1, 1, y, scale - y, 1) == y by {
        lemma_pow1(y);
        let t0 = binomial_tail(1, 1, y, scale - y, 0);
        assert(t0 == 0);
        assert(t0 * (scale - y) == 0);
        assert(binomial_tail(1, 1, y, scale - y, 1) == t0 * (scale - y) + binom(1, 1) * pow(y, 1));
    }
    let p = pow2(51) as int;
    assert(DRAW_STEPS == 2 * p);
    assert(x * (2 * p) <= p * scale);
    assert(!((x + 1) * (2 * p) <= p * scale));
    assert(x <= half && x + 1 > half) by (nonlinear_arith)
        requires
            x * (2 * p) <= p * scale,
            (x + 1) * (2 * p) > p * scale,
            scale == 2 * half,
            p > 0,
    ;
}

} // verus!
