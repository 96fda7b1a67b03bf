use vstd::prelude::*;
use vstd::arithmetic::power2::lemma2_to64;
use crate::quantile::{dist_area_at_percentile, is_rounded_quantile};

verus! {

/// A posterior sample (a Beta quantile in `[0, 1]`) is held as a fraction of this value.
pub const QUANTILE_ONE: u64 = 4294967296;

/// A bias of 1.0, in thousandths.
pub const BIAS_ONE: i32 = 1000;

/// The runtime assumed for an arm that has never run: 0.01 ms, in microseconds.
pub const UNMEASURED_RUNTIME_US: u64 = 10;

/// Outcome counts of one arm; the posterior is `Beta(interesting + 1, uninteresting + 1)`.
#[derive(Debug, Clone, Copy, PartialEq, Eq, Structural)]
pub struct ThompsonInfo {
    pub interesting: u64,
    pub uninteresting: u64,
}

/// A comparable score, the rational number `num / den`.
///
/// The real score `quantile * (100 / runtime_ms) * bias` of an arm is
/// `num / den` times the positive constant `100 / QUANTILE_ONE`, so scores
/// compare as the real ones do.
#[derive(Debug, Clone, Copy, PartialEq, Eq, Structural)]
pub struct Score {
    pub num: i128,
    pub den: u64,
}

impl Score {
    pub open spec fn wf(self) -> bool {
        &&& -0x8000_0000_0000_0000 <= self.num <= 0x8000_0000_0000_0000
        &&& self.den >= 1
    }
}

/// `a < b` as rational numbers.
pub open spec fn below(a: Score, b: Score) -> bool {
    a.num * b.den < b.num * a.den
}

proof fn lemma_cross_bounds(n: int, d: int)
    requires
        -0x8000_0000_0000_0000 <= n <= 0x8000_0000_0000_0000,
        1 <= d <= 0xffff_ffff_ffff_ffff,
    ensures
        -0x7fff_ffff_ffff_ffff_ffff_ffff_ffff_ffff <= n * d <= 0x7fff_ffff_ffff_ffff_ffff_ffff_ffff_ffff,
{
    assert(-0x8000_0000_0000_0000 * d <= n * d <= 0x8000_0000_0000_0000 * d) by (nonlinear_arith)
        requires
            -0x8000_0000_0000_0000 <= n <= 0x8000_0000_0000_0000,
            1 <= d,
    ;
}

/// Whether `a` is strictly smaller than `b`.
pub fn score_below(a: &Score, b: &Score) -> (r: bool)
    requires
        a.wf(),
        b.wf(),
    ensures
        r == below(*a, *b),
{
    proof {
        lemma_cross_bounds(a.num as int, b.den as int);
        lemma_cross_bounds(b.num as int, a.den as int);
    }
    a.num * (b.den as i128) < b.num * (a.den as i128)
}

/// The runtime, in microseconds, that divides an arm's score: the measured
/// average in whole microseconds, or `UNMEASURED_RUNTIME_US` for an arm without one. A measured
/// average of 0 counts as 1, the resolution of the measurement.
pub open spec fn effective_runtime(runtime: Option<u64>) -> u64 {
    match runtime {
        Some(r) => if r == 0 { 1 } else { r },
        None => UNMEASURED_RUNTIME_US,
    }
}

/// The score of a sample weighted by bias only.
pub open spec fn plain_spec(sampled_point: u64, user_bias: i32) -> Score {
    Score { num: (sampled_point * user_bias) as i128, den: 1 }
}

/// The score of a sample weighted by bias and runtime.
pub open spec fn skew_spec(sampled_point: u64, runtime: Option<u64>, user_bias: i32) -> Score {
    Score { num: (sampled_point * user_bias) as i128, den: effective_runtime(runtime) }
}

proof fn lemma_product_bounds(q: int, b: int)
    requires
        0 <= q <= QUANTILE_ONE,
        -0x8000_0000 <= b < 0x8000_0000,
    ensures
        -0x8000_0000_0000_0000 <= q * b <= 0x8000_0000_0000_0000,
{
    assert(q * -0x8000_0000 <= q * b <= q * 0x8000_0000) by (nonlinear_arith)
        requires
            0 <= q,
            -0x8000_0000 <= b < 0x8000_0000,
    ;
    assert(0 <= q * 0x8000_0000 <= 0x8000_0000_0000_0000) by (nonlinear_arith)
        requires
            0 <= q <= 0x1_0000_0000,
    ;
}

/// Score of a sample weighted by bias only: `quantile * bias`.
pub fn plain_score(sampled_point: u64, user_bias: i32) -> (r: Score)
    requires
        sampled_point <= QUANTILE_ONE,
    ensures
        r.wf(),
        r.num == sampled_point * user_bias,
        r.den == 1,
        r == plain_spec(sampled_point, user_bias),
{
    proof {
        lemma_product_bounds(sampled_point as int, user_bias as int);
    }
    Score { num: (sampled_point as i128) * (user_bias as i128), den: 1 }
}

/// The skew transform: `quantile * bias / effective_runtime(runtime)`.
pub fn skew_percentile(sampled_point: u64, runtime: &Option<u64>, user_bias: i32) -> (r: Score)
    requires
        sampled_point <= QUANTILE_ONE,
    ensures
        r.wf(),
        r.num == sampled_point * user_bias,
        r.den == effective_runtime(*runtime),
        r == skew_spec(sampled_point, *runtime, user_bias),
{
    proof {
        lemma_product_bounds(sampled_point as int, user_bias as int);
    }
    let den: u64 = match runtime {
        Some(r) => if *r == 0 { 1 } else { *r },
        None => UNMEASURED_RUNTIME_US,
    };
    Score { num: (sampled_point as i128) * (user_bias as i128), den }
}


/// `below` is transitive on well-formed scores.
pub proof fn lemma_below_trans(a: Score, b: Score, c: Score)
    requires
        a.wf(),
        b.wf(),
        c.wf(),
        below(a, b),
        below(b, c),
    ensures
        below(a, c),
{
    let (an, ad, bn, bd, cn, cd) = (a.num as int, a.den as int, b.num as int, b.den as int, c.num as int, c.den as int);
    assert(an * cd < cn * ad) by (nonlinear_arith)
        requires
            ad > 0,
            bd > 0,
            cd > 0,
            an * bd < bn * ad,
            bn * cd < cn * bd,
    {
        assert(an * bd * cd < bn * ad * cd);
        assert(bn * cd * ad < cn * bd * ad);
        assert(an * cd * bd < cn * ad * bd);
    }
}

/// Not above and below gives below.
pub proof fn lemma_le_below_trans(a: Score, b: Score, c: Score)
    requires
        a.wf(),
        b.wf(),
        c.wf(),
        !below(b, a),
        below(b, c),
    ensures
        below(a, c),
{
    let (an, ad, bn, bd, cn, cd) = (a.num as int, a.den as int, b.num as int, b.den as int, c.num as int, c.den as int);
    assert(an * cd < cn * ad) by (nonlinear_arith)
        requires
            ad > 0,
            bd > 0,
            cd > 0,
            an * bd <= bn * ad,
            bn * cd < cn * bd,
    {
        assert(an * bd * cd <= bn * ad * cd);
        assert(bn * cd * ad < cn * bd * ad);
        assert(an * cd * bd < cn * ad * bd);
    }
}

/// Below and not above gives below.
pub proof fn lemma_below_le_trans(a: Score, b: Score, c: Score)
    requires
        a.wf(),
        b.wf(),
        c.wf(),
        below(a, b),
        !below(c, b),
    ensures
        below(a, c),
{
    let (an, ad, bn, bd, cn, cd) = (a.num as int, a.den as int, b.num as int, b.den as int, c.num as int, c.den as int);
    assert(an * cd < cn * ad) by (nonlinear_arith)
        requires
            ad > 0,
            bd > 0,
            cd > 0,
            an * bd < bn * ad,
            bn * cd <= cn * bd,
    {
        assert(an * bd * cd < bn * ad * cd);
        assert(bn * cd * ad <= cn * bd * ad);
        assert(an * cd * bd < cn * ad * bd);
    }
}

/// Neither above nor below is transitive.
pub proof fn lemma_le_trans(a: Score, b: Score, c: Score)
    requires
        a.wf(),
        b.wf(),
        c.wf(),
        !below(b, a),
        !below(c, b),
    ensures
        !below(c, a),
{
    let (an, ad, bn, bd, cn, cd) = (a.num as int, a.den as int, b.num as int, b.den as int, c.num as int, c.den as int);
    assert(an * cd <= cn * ad) by (nonlinear_arith)
        requires
            ad > 0,
            bd > 0,
            cd > 0,
            an * bd <= bn * ad,
            bn * cd <= cn * bd,
    {
        assert(an * bd * cd <= bn * ad * cd);
        assert(bn * cd * ad <= cn * bd * ad);
        assert(an * cd * bd <= cn * ad * bd);
    }
}

pub open spec fn all_wf(s: Seq<Score>) -> bool {
    forall|i: int| 0 <= i < s.len() ==> (#[trigger] s[i]).wf()
}

/// Index `k` holds the greatest score of `s`, and no earlier index holds one as great.
pub open spec fn is_first_max(s: Seq<Score>, k: int) -> bool {
    &&& 0 <= k < s.len()
    &&& forall|j: int| 0 <= j < k ==> below(#[trigger] s[j], s[k])
    &&& forall|j: int| k < j < s.len() ==> !below(s[k], #[trigger] s[j])
}

/// Index of the first greatest score; `None` for no scores.
pub fn select_max(scores: &Vec<Score>) -> (r: Option<usize>)
    requires
        all_wf(scores@),
    ensures
        r is None <==> scores@.len() == 0,
        r matches Some(k) ==> is_first_max(scores@, k as int),
{
    if scores.len() == 0 {
        return None;
    }
    let mut best: usize = 0;
    let mut i: usize = 1;
    while i < scores.len()
        invariant
            all_wf(scores@),
            best < i <= scores@.len(),
            forall|j: int| 0 <= j < best ==> below(#[trigger] scores@[j], scores@[best as int]),
            forall|j: int| best < j < i ==> !below(scores@[best as int], #[trigger] scores@[j]),
        decreases scores@.len() - i,
    {
        if score_below(&scores[best], &scores[i]) {
            proof {
                let s = scores@;
                assert forall|j: int| 0 <= j < i implies below(#[trigger] s[j], s[i as int]) by {
                    if j < best {
                        lemma_below_trans(s[j], s[best as int], s[i as int]);
                    } else if j > best {
                        lemma_le_below_trans(s[j], s[best as int], s[i as int]);
                    }
                }
            }
            best = i;
        }
        i += 1;
    }
    Some(best)
}

/// Arm `x` comes before arm `y` in a ranking: it has the greater score, or an
/// equal score and the greater index (an ascending stable sort, reversed).
pub open spec fn ranks_before(s: Seq<Score>, x: int, y: int) -> bool {
    below(s[y], s[x]) || (!below(s[x], s[y]) && x > y)
}

/// `r` lists every index of `s` once, best first.
pub open spec fn is_ranking(s: Seq<Score>, r: Seq<usize>) -> bool {
    &&& r.len() == s.len()
    &&& forall|i: int| 0 <= i < r.len() ==> #[trigger] r[i] < s.len()
    &&& forall|j: usize| j < s.len() ==> #[trigger] r.contains(j)
    &&& forall|i: int, j: int| 0 <= i < j < r.len() ==> ranks_before(s, #[trigger] r[i] as int, #[trigger] r[j] as int)
}

proof fn lemma_ranks_before_trans(s: Seq<Score>, x: int, y: int, z: int)
    requires
        all_wf(s),
        0 <= x < s.len(),
        0 <= y < s.len(),
        0 <= z < s.len(),
        ranks_before(s, x, y),
        ranks_before(s, y, z),
    ensures
        ranks_before(s, x, z),
{
    if below(s[y], s[x]) {
        if below(s[z], s[y]) {
            lemma_below_trans(s[z], s[y], s[x]);
        } else {
            lemma_le_below_trans(s[z], s[y], s[x]);
        }
    } else {
        if below(s[z], s[y]) {
            lemma_below_le_trans(s[z], s[y], s[x]);
        } else {
            lemma_le_trans(s[x], s[y], s[z]);
            lemma_le_trans(s[z], s[y], s[x]);
        }
    }
}

/// Indices of `scores`, best first; equal scores come in descending index order.
pub fn rank_scores(scores: &Vec<Score>) -> (r: Vec<usize>)
    requires
        all_wf(scores@),
    ensures
        is_ranking(scores@, r@),
{
    let ghost s = scores@;
    let mut r: Vec<usize> = Vec::new();
    let mut i: usize = 0;
    while i < scores.len()
        invariant
            s == scores@,
            all_wf(s),
            i <= s.len(),
            r@.len() == i,
            forall|k: int| 0 <= k < r@.len() ==> #[trigger] r@[k] < i,
            forall|j: usize| j < i ==> #[trigger] r@.contains(j),
            forall|a: int, b: int| 0 <= a < b < r@.len() ==> ranks_before(s, #[trigger] r@[a] as int, #[trigger] r@[b] as int),
        decreases s.len() - i,
    {
        let mut p: usize = 0;
        while p < r.len() && score_below(&scores[i], &scores[r[p]])
            invariant
                s == scores@,
                all_wf(s),
                i < s.len(),
                p <= r@.len(),
                forall|k: int| 0 <= k < r@.len() ==> #[trigger] r@[k] < i,
                forall|k: int| 0 <= k < p ==> ranks_before(s, #[trigger] r@[k] as int, i as int),
            decreases r@.len() - p,
        {
            assert(r@[p as int] < i);
            p += 1;
        }
        let ghost old_r = r@;
        proof {
            assert forall|k: int| p <= k < old_r.len() implies ranks_before(s, i as int, #[trigger] old_r[k] as int) by {
                assert(!below(s[i as int], s[old_r[p as int] as int]));
                if k > p {
                    assert(ranks_before(s, old_r[p as int] as int, old_r[k] as int));
                    lemma_ranks_before_trans(s, i as int, old_r[p as int] as int, old_r[k] as int);
                }
            }
        }
        r.insert(p, i);
        proof {
            let nr = r@;
            assert(nr == old_r.insert(p as int, i));
            assert forall|k: int| 0 <= k < nr.len() implies #[trigger] nr[k] < i + 1 by {
                if k < p { assert(nr[k] == old_r[k]); } else if k > p { assert(nr[k] == old_r[k - 1]); }
            }
            assert forall|j: usize| j < i + 1 implies #[trigger] nr.contains(j) by {
                if j == i {
                    assert(nr[p as int] == i);
                } else {
                    assert(old_r.contains(j));
                    let k = choose|k: int| 0 <= k < old_r.len() && old_r[k] == j;
                    if k < p {
                        assert(nr[k] == j);
                    } else {
                        assert(nr[k + 1] == j);
                    }
                }
            }
            assert forall|a: int, b: int| 0 <= a < b < nr.len() implies ranks_before(s, #[trigger] nr[a] as int, #[trigger] nr[b] as int) by {
                if b < p {
                    assert(nr[a] == old_r[a] && nr[b] == old_r[b]);
                } else if b == p {
                    assert(nr[a] == old_r[a]);
                } else if a < p {
                    assert(nr[a] == old_r[a] && nr[b] == old_r[b - 1]);
                } else if a == p {
                    assert(nr[b] == old_r[b - 1]);
                } else {
                    assert(nr[a] == old_r[a - 1] && nr[b] == old_r[b - 1]);
                }
            }
        }
        i += 1;
    }
    r
}


pub open spec fn samples_valid(samples: Seq<u64>) -> bool {
    forall|i: int| 0 <= i < samples.len() ==> #[trigger] samples[i] <= QUANTILE_ONE
}

/// Scores of the runtime-agnostic policy: each sample times its arm's bias.
pub open spec fn plain_scores(samples: Seq<u64>, user_biases: Seq<i32>) -> Seq<Score> {
    Seq::new(samples.len(), |i: int| plain_spec(samples[i], user_biases[i]))
}

/// Scores of the runtime-aware policy: each sample through the skew transform.
pub open spec fn skewed_scores(
    samples: Seq<u64>,
    runtimes: Seq<Option<u64>>,
    user_biases: Seq<i32>,
) -> Seq<Score> {
    Seq::new(samples.len(), |i: int| skew_spec(samples[i], runtimes[i], user_biases[i]))
}

fn collect_plain_scores(samples: &[u64], user_biases: &[i32]) -> (r: Vec<Score>)
    requires
        samples_valid(samples@),
        user_biases@.len() >= samples@.len(),
    ensures
        r@ == plain_scores(samples@, user_biases@),
        all_wf(r@),
{
    let mut r: Vec<Score> = Vec::new();
    let mut i: usize = 0;
    while i < samples.len()
        invariant
            samples_valid(samples@),
            user_biases@.len() >= samples@.len(),
            i <= samples@.len(),
            r@ == plain_scores(samples@, user_biases@).take(i as int),
            all_wf(r@),
        decreases samples@.len() - i,
    {
        let sc = plain_score(samples[i], user_biases[i]);
        r.push(sc);
        i += 1;
        assert(r@ =~= plain_scores(samples@, user_biases@).take(i as int));
    }
    assert(r@ =~= plain_scores(samples@, user_biases@));
    r
}

fn collect_skewed_scores(samples: &[u64], runtimes: &[Option<u64>], user_biases: &[i32]) -> (r: Vec<Score>)
    requires
        samples_valid(samples@),
        runtimes@.len() >= samples@.len(),
        user_biases@.len() >= samples@.len(),
    ensures
        r@ == skewed_scores(samples@, runtimes@, user_biases@),
        all_wf(r@),
{
    let mut r: Vec<Score> = Vec::new();
    let mut i: usize = 0;
    while i < samples.len()
        invariant
            samples_valid(samples@),
            runtimes@.len() >= samples@.len(),
            user_biases@.len() >= samples@.len(),
            i <= samples@.len(),
            r@ == skewed_scores(samples@, runtimes@, user_biases@).take(i as int),
            all_wf(r@),
        decreases samples@.len() - i,
    {
        let sc = skew_percentile(samples[i], &runtimes[i], user_biases[i]);
        r.push(sc);
        i += 1;
        assert(r@ =~= skewed_scores(samples@, runtimes@, user_biases@).take(i as int));
    }
    assert(r@ =~= skewed_scores(samples@, runtimes@, user_biases@));
    r
}

/// Runtime-agnostic selection from given samples: `samples[i]` is a posterior
/// sample of arm `i`; the arm whose sample times bias is strictly greatest wins, the
/// first one on a tie.
pub fn select_sampled(samples: &[u64], user_biases: &[i32]) -> (r: Option<usize>)
    requires
        samples_valid(samples@),
        user_biases@.len() >= samples@.len(),
    ensures
        r is None <==> samples@.len() == 0,
        r matches Some(k) ==> is_first_max(plain_scores(samples@, user_biases@), k as int),
{
    let scores = collect_plain_scores(samples, user_biases);
    select_max(&scores)
}

/// Runtime-aware selection: as `select_sampled`, on skewed scores. Arms
/// without a measured runtime get the smallest one, so they run first.
pub fn select_sampled_bias_runtime(
    samples: &[u64],
    runtimes: &[Option<u64>],
    user_biases: &[i32],
) -> (r: Option<usize>)
    requires
        samples_valid(samples@),
        runtimes@.len() >= samples@.len(),
        user_biases@.len() >= samples@.len(),
    ensures
        r is None <==> samples@.len() == 0,
        r matches Some(k) ==> is_first_max(skewed_scores(samples@, runtimes@, user_biases@), k as int),
{
    let scores = collect_skewed_scores(samples, runtimes, user_biases);
    select_max(&scores)
}

/// Runtime-agnostic ranking: every arm, by descending sample times bias.
pub fn rank_sampled(samples: &[u64], user_biases: &[i32]) -> (r: Vec<usize>)
    requires
        samples_valid(samples@),
        user_biases@.len() >= samples@.len(),
    ensures
        is_ranking(plain_scores(samples@, user_biases@), r@),
{
    let scores = collect_plain_scores(samples, user_biases);
    rank_scores(&scores)
}

/// Runtime-aware ranking: every arm, by descending skewed score.
pub fn rank_sampled_bias_runtime(
    samples: &[u64],
    runtimes: &[Option<u64>],
    user_biases: &[i32],
) -> (r: Vec<usize>)
    requires
        samples_valid(samples@),
        runtimes@.len() >= samples@.len(),
        user_biases@.len() >= samples@.len(),
    ensures
        is_ranking(skewed_scores(samples@, runtimes@, user_biases@), r@),
{
    let scores = collect_skewed_scores(samples, runtimes, user_biases);
    rank_scores(&scores)
}


/// Between two arms of equal positive bias, runtime-agnostic selection picks
/// the one whose posterior sample is greater.
pub proof fn lemma_greater_sample_selected(samples: Seq<u64>, user_biases: Seq<i32>, k: int)
    requires
        samples.len() == 2,
        user_biases.len() >= 2,
        samples_valid(samples),
        user_biases[0] == user_biases[1],
        user_biases[0] > 0,
        samples[0] != samples[1],
        is_first_max(plain_scores(samples, user_biases), k),
    ensures
        k == (if samples[0] > samples[1] { 0int } else { 1int }),
{
    let s = plain_scores(samples, user_biases);
    let b = user_biases[0] as int;
    let (q0, q1) = (samples[0] as int, samples[1] as int);
    lemma_product_bounds(q0, b);
    lemma_product_bounds(q1, b);
    assert(s[0].num == q0 * b && s[1].num == q1 * b);
    assert(s[0].den == 1 && s[1].den == 1);
    assert(s[0].num * s[1].den == q0 * b);
    assert(s[1].num * s[0].den == q1 * b);
    if q0 > q1 {
        assert(q1 * b < q0 * b) by (nonlinear_arith)
            requires
                q1 < q0,
                b > 0,
        ;
        assert(below(s[1], s[0]));
    } else {
        assert(q0 * b < q1 * b) by (nonlinear_arith)
            requires
                q0 < q1,
                b > 0,
        ;
        assert(below(s[0], s[1]));
    }
}

/// Between two arms of equal positive bias, runtime-aware selection picks the
/// faster arm 0 unless arm 1's sample exceeds arm 0's by at least the ratio
/// of their runtimes; with equal samples the faster arm always wins.
pub proof fn lemma_faster_arm_selected(
    samples: Seq<u64>,
    runtimes: Seq<Option<u64>>,
    user_biases: Seq<i32>,
    k: int,
)
    requires
        samples.len() == 2,
        runtimes.len() >= 2,
        user_biases.len() >= 2,
        samples_valid(samples),
        user_biases[0] == user_biases[1],
        user_biases[0] > 0,
        samples[1] * effective_runtime(runtimes[0]) < samples[0] * effective_runtime(runtimes[1]),
        is_first_max(skewed_scores(samples, runtimes, user_biases), k),
    ensures
        k == 0,
{
    let s = skewed_scores(samples, runtimes, user_biases);
    let b = user_biases[0] as int;
    let (q0, q1) = (samples[0] as int, samples[1] as int);
    let (d0, d1) = (effective_runtime(runtimes[0]) as int, effective_runtime(runtimes[1]) as int);
    lemma_product_bounds(q0, b);
    lemma_product_bounds(q1, b);
    assert(s[0].num == q0 * b && s[1].num == q1 * b);
    assert(s[0].den == d0 && s[1].den == d1);
    assert((q1 * b) * d0 < (q0 * b) * d1) by (nonlinear_arith)
        requires
            q1 * d0 < q0 * d1,
            b > 0,
    ;
    assert(below(s[1], s[0]));
}

/// A ranking lists no index twice.
pub proof fn lemma_ranking_distinct(n: int, r: Seq<usize>)
    requires
        exists|s: Seq<Score>| s.len() == n && #[trigger] is_ranking(s, r),
    ensures
        forall|a: int, b: int| 0 <= a < b < r.len() ==> #[trigger] r[a] != #[trigger] r[b],
{
    let s = choose|s: Seq<Score>| s.len() == n && #[trigger] is_ranking(s, r);
    assert forall|a: int, b: int| 0 <= a < b < r.len() implies #[trigger] r[a] != #[trigger] r[b] by {
        assert(ranks_before(s, r[a] as int, r[b] as int));
    }
}

/// With a single arm, the ranking is that arm.
pub proof fn lemma_single_ranking(s: Seq<Score>, r: Seq<usize>)
    requires
        s.len() == 1,
        is_ranking(s, r),
    ensures
        r == seq![0usize],
{
    assert(r.contains(0usize));
    assert(r =~= seq![0usize]);
}


/// A uniform draw in `[0, 1)` is held as a multiple of `1 / DRAW_STEPS`.
pub const DRAW_STEPS: u64 = 4503599627370496;

/// Relies on rand::Rng::gen_range on rand::thread_rng: a value in `0..bound`
/// (it panics on an empty range, hence `bound > 0`).
#[verifier::external_body]
fn uniform_below(bound: u64) -> (r: u64)
    requires
        bound > 0,
    ensures
        r < bound,
{
    rand::Rng::gen_range(&mut rand::thread_rng(), 0..bound)
}

/// The counts of an arm leave room for the posterior's shapes.
pub open spec fn counts_fit(info: ThompsonInfo) -> bool {
    info.interesting + info.uninteresting + 2 <= u64::MAX
}

pub open spec fn all_counts_fit(entries: Seq<ThompsonInfo>) -> bool {
    forall|i: int| 0 <= i < entries.len() ==> counts_fit(#[trigger] entries[i])
}

/// `q` is a posterior sample of `info`: its quantile, on the `QUANTILE_ONE`
/// grid, at some uniform draw.
pub open spec fn is_posterior_sample(info: ThompsonInfo, q: u64) -> bool {
    exists|d: nat| d < DRAW_STEPS && #[trigger] is_rounded_quantile(info, d, 32, q as nat)
}

/// `samples` holds one posterior sample of each entry.
pub open spec fn are_posterior_samples(entries: Seq<ThompsonInfo>, samples: Seq<u64>) -> bool {
    &&& samples.len() == entries.len()
    &&& forall|i: int| 0 <= i < entries.len() ==> is_posterior_sample(entries[i], #[trigger] samples[i])
}

/// One fresh posterior sample of an arm: a uniform draw through the quantile
/// function of Beta(interesting + 1, uninteresting + 1).
pub fn thompson_step(interesting: u64, uninteresting: u64) -> (r: u64)
    requires
        interesting + uninteresting + 2 <= u64::MAX,
    ensures
        r <= QUANTILE_ONE,
        is_posterior_sample(ThompsonInfo { interesting, uninteresting }, r),
{
    let draw = uniform_below(DRAW_STEPS);
    let info = ThompsonInfo { interesting, uninteresting };
    proof {
        lemma2_to64();
    }
    dist_area_at_percentile(&info, draw, 32)
}

/// One fresh posterior sample of an arm, through the skew transform.
pub fn thompson_step_bias_runtime(
    interesting: u64,
    uninteresting: u64,
    runtime: &Option<u64>,
    user_bias: i32,
) -> (r: Score)
    requires
        interesting + uninteresting + 2 <= u64::MAX,
    ensures
        r.wf(),
        exists|q: u64|
            q <= QUANTILE_ONE && #[trigger] is_posterior_sample(ThompsonInfo { interesting, uninteresting }, q)
                && r == skew_spec(q, *runtime, user_bias),
{
    let q = thompson_step(interesting, uninteresting);
    skew_percentile(q, runtime, user_bias)
}

/// One fresh posterior sample of each entry.
pub fn posterior_samples(entries: &[ThompsonInfo]) -> (r: Vec<u64>)
    requires
        all_counts_fit(entries@),
    ensures
        are_posterior_samples(entries@, r@),
        samples_valid(r@),
{
    let mut r: Vec<u64> = Vec::new();
    let mut i: usize = 0;
    while i < entries.len()
        invariant
            all_counts_fit(entries@),
            i <= entries@.len(),
            r@.len() == i,
            forall|k: int| 0 <= k < i ==> is_posterior_sample(entries@[k], #[trigger] r@[k]),
            samples_valid(r@),
        decreases entries@.len() - i,
    {
        let e = entries[i];
        assert(counts_fit(entries@[i as int]));
        r.push(thompson_step(e.interesting, e.uninteresting));
        i += 1;
    }
    r
}

/// Runtime-agnostic Thompson sampling: draws one posterior sample per entry
/// and picks the entry whose sample times bias is greatest (the first on a
/// tie); `None` for no entries.
pub fn thompson_sampling(entries: &[ThompsonInfo], user_biases: &[i32]) -> (r: Option<usize>)
    requires
        all_counts_fit(entries@),
        user_biases@.len() >= entries@.len(),
    ensures
        r is None <==> entries@.len() == 0,
        r matches Some(k) ==> k < entries@.len() && exists|samples: Seq<u64>|
            #[trigger] are_posterior_samples(entries@, samples)
                && is_first_max(plain_scores(samples, user_biases@), k as int),
{
    let samples = posterior_samples(entries);
    select_sampled(samples.as_slice(), user_biases)
}

/// Runtime-aware Thompson sampling: as `thompson_sampling`, with each sample
/// through the skew transform.
pub fn thompson_sampling_bias_runtime(
    entries: &[ThompsonInfo],
    runtimes: &[Option<u64>],
    user_biases: &[i32],
) -> (r: Option<usize>)
    requires
        all_counts_fit(entries@),
        runtimes@.len() >= entries@.len(),
        user_biases@.len() >= entries@.len(),
    ensures
        r is None <==> entries@.len() == 0,
        r matches Some(k) ==> k < entries@.len() && exists|samples: Seq<u64>|
            #[trigger] are_posterior_samples(entries@, samples)
                && is_first_max(skewed_scores(samples, runtimes@, user_biases@), k as int),
{
    let samples = posterior_samples(entries);
    select_sampled_bias_runtime(samples.as_slice(), runtimes, user_biases)
}

/// Runtime-agnostic ranking of all entries by one fresh posterior sample each.
pub fn thompson_ranking(entries: &[ThompsonInfo], user_biases: &[i32]) -> (r: Vec<usize>)
    requires
        all_counts_fit(entries@),
        user_biases@.len() >= entries@.len(),
    ensures
        r@.len() == entries@.len(),
        forall|k: int| 0 <= k < r@.len() ==> #[trigger] r@[k] < entries@.len(),
        forall|j: usize| j < entries@.len() ==> #[trigger] r@.contains(j),
        forall|a: int, b: int| 0 <= a < b < r@.len() ==> #[trigger] r@[a] != #[trigger] r@[b],
        exists|samples: Seq<u64>|
            #[trigger] are_posterior_samples(entries@, samples)
                && is_ranking(plain_scores(samples, user_biases@), r@),
{
    let samples = posterior_samples(entries);
    let r = rank_sampled(samples.as_slice(), user_biases);
    proof {
        lemma_ranking_distinct(samples@.len() as int, r@);
    }
    r
}

/// Runtime-aware ranking of all entries by one fresh posterior sample each.
pub fn thompson_ranking_bias_runtime(
    entries: &[ThompsonInfo],
    runtimes: &[Option<u64>],
    user_biases: &[i32],
) -> (r: Vec<usize>)
    requires
        all_counts_fit(entries@),
        runtimes@.len() >= entries@.len(),
        user_biases@.len() >= entries@.len(),
    ensures
        r@.len() == entries@.len(),
        forall|k: int| 0 <= k < r@.len() ==> #[trigger] r@[k] < entries@.len(),
        forall|j: usize| j < entries@.len() ==> #[trigger] r@.contains(j),
        forall|a: int, b: int| 0 <= a < b < r@.len() ==> #[trigger] r@[a] != #[trigger] r@[b],
        exists|samples: Seq<u64>|
            #[trigger] are_posterior_samples(entries@, samples)
                && is_ranking(skewed_scores(samples, runtimes@, user_biases@), r@),
{
    let samples = posterior_samples(entries);
    let r = rank_sampled_bias_runtime(samples.as_slice(), runtimes, user_biases);
    proof {
        lemma_ranking_distinct(samples@.len() as int, r@);
    }
    r
}

} // verus!
