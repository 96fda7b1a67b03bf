use bts::quantile::dist_area_at_percentile;
use bts::thompson::{
    plain_score, posterior_samples, rank_sampled, rank_sampled_bias_runtime, score_below,
    select_sampled, select_sampled_bias_runtime, skew_percentile, thompson_ranking,
    thompson_ranking_bias_runtime, thompson_sampling, thompson_sampling_bias_runtime,
    thompson_step, thompson_step_bias_runtime, Score, ThompsonInfo, BIAS_ONE, DRAW_STEPS,
    QUANTILE_ONE,
};

const GRID_53: f64 = 9007199254740992.0;

/// The Beta(a, b) quantile at `p`, at full double precision.
fn quantile(a: u64, b: u64, p: f64) -> f64 {
    let info = ThompsonInfo { interesting: a - 1, uninteresting: b - 1 };
    let area = (p * DRAW_STEPS as f64) as u64;
    dist_area_at_percentile(&info, area, 53) as f64 / GRID_53
}

#[test]
fn beta_inverse() {
    let a = 2;
    let b = 1;
    let p = 0.5;
    let result = quantile(a, b, p);
    assert_eq!(result, 0.7071067811865476);
}

#[test]
fn beta_inverse_half() {
    let a = 1000;
    let b = 1000;
    let p = 0.5;
    let result = quantile(a + 1, b + 1, p);
    assert_eq!(result, 0.5);
}

#[test]
fn uniform_prior_median() {
    let info = ThompsonInfo { interesting: 0, uninteresting: 0 };
    assert_eq!(dist_area_at_percentile(&info, DRAW_STEPS / 2, 53), 1u64 << 52);
    assert_eq!(dist_area_at_percentile(&info, DRAW_STEPS / 2, 32), QUANTILE_ONE / 2);
}

#[test]
fn uniform_prior_quantile_is_identity() {
    // Beta(1, 1) has CDF x: the quantile at 1/4 is 1/4
    let info = ThompsonInfo { interesting: 0, uninteresting: 0 };
    assert_eq!(dist_area_at_percentile(&info, DRAW_STEPS / 4, 32), QUANTILE_ONE / 4);
}

#[test]
fn quantile_of_one_sided_posteriors() {
    // Beta(1, 2) has CDF 1 - (1 - x)^2: the median is 1 - sqrt(1/2)
    assert_eq!(quantile(1, 2, 0.5), 1.0 - 0.7071067811865476);
    // Beta(3, 1) has CDF x^3: the quantile at 1/8 is 1/2
    assert_eq!(quantile(3, 1, 0.125), 0.5);
}

#[test]
fn quantile_edges() {
    let info = ThompsonInfo { interesting: 4, uninteresting: 7 };
    assert_eq!(dist_area_at_percentile(&info, 0, 32), 0);
    assert!(dist_area_at_percentile(&info, DRAW_STEPS - 1, 32) <= QUANTILE_ONE);
    assert_eq!(dist_area_at_percentile(&info, DRAW_STEPS, 32), QUANTILE_ONE);
    assert_eq!(quantile(5, 8, 1.0), 1.0);
}

#[test]
fn test_thompson_sampling_none() {
    assert_eq!(thompson_sampling(&vec![], &vec![]), None);
}

#[test]
fn test_thompson_sampling_one() {
    assert_eq!(
        thompson_sampling(&[ThompsonInfo { interesting: 0, uninteresting: 0 }], &[BIAS_ONE, BIAS_ONE]),
        Some(0)
    );
}

#[test]
fn test_thompson_sampling_prefer_interesting() {
    assert_eq!(
        thompson_sampling(
            &[
                ThompsonInfo { interesting: 0, uninteresting: 100 },
                ThompsonInfo { interesting: 100, uninteresting: 0 },
            ],
            &[BIAS_ONE, BIAS_ONE]
        ),
        Some(1)
    );
}

#[test]
fn test_thompson_sampling_bias_prefer_fast() {
    assert_eq!(
        thompson_sampling_bias_runtime(
            &[
                ThompsonInfo { interesting: 100, uninteresting: 100 },
                ThompsonInfo { interesting: 100, uninteresting: 100 },
            ],
            &[Some(1_000), Some(100_000)],
            &[BIAS_ONE, BIAS_ONE]
        ),
        Some(0)
    );
}

#[test]
fn test_thompson_sampling_bias_prefer_unknown() {
    assert_eq!(
        thompson_sampling_bias_runtime(
            &[
                ThompsonInfo { interesting: 100, uninteresting: 0 },
                ThompsonInfo { interesting: 0, uninteresting: 0 },
            ],
            &[Some(1_000), None],
            &[BIAS_ONE, BIAS_ONE]
        ),
        Some(1)
    );
}

#[test]
fn interesting_arm_wins_most_draws() {
    let entries = [
        ThompsonInfo { interesting: 100, uninteresting: 0 },
        ThompsonInfo { interesting: 0, uninteresting: 100 },
    ];
    let wins = (0..50).filter(|_| thompson_sampling(&entries, &[BIAS_ONE, BIAS_ONE]) == Some(0)).count();
    assert_eq!(wins, 50);
}

#[test]
fn ranking_draws_cover_every_entry() {
    let entries = [
        ThompsonInfo { interesting: 3, uninteresting: 1 },
        ThompsonInfo { interesting: 0, uninteresting: 9 },
        ThompsonInfo { interesting: 5, uninteresting: 5 },
    ];
    let mut r = thompson_ranking(&entries, &[BIAS_ONE; 3]);
    assert_eq!(r.len(), 3);
    r.sort();
    assert_eq!(r, vec![0, 1, 2]);
    let mut r = thompson_ranking_bias_runtime(&entries, &[None, Some(5), Some(9)], &[BIAS_ONE; 3]);
    r.sort();
    assert_eq!(r, vec![0, 1, 2]);
}

#[test]
fn samples_are_random_quantiles() {
    let samples: Vec<u64> = (0..200).map(|_| thompson_step(0, 0)).collect();
    assert!(samples.iter().all(|q| *q <= QUANTILE_ONE));
    // uniform draws are not all the same
    assert!(samples.iter().any(|q| *q != samples[0]));
    let s = posterior_samples(&[ThompsonInfo { interesting: 2, uninteresting: 2 }; 4]);
    assert_eq!(s.len(), 4);
}

#[test]
fn skewed_step_divides_by_runtime() {
    let s = thompson_step_bias_runtime(3, 4, &Some(250), BIAS_ONE);
    assert_eq!(s.den, 250);
    assert_eq!(s.num % 1000, 0);
    assert!(s.num <= QUANTILE_ONE as i128 * 1000);
}

#[test]
fn skew_of_unmeasured_arm() {
    let s = skew_percentile(QUANTILE_ONE / 2, &None, BIAS_ONE);
    assert_eq!(s, Score { num: (QUANTILE_ONE / 2) as i128 * 1000, den: 10 });
}

#[test]
fn skew_of_measured_arm() {
    let s = skew_percentile(1000, &Some(2_500), 500);
    assert_eq!(s, Score { num: 500_000, den: 2_500 });
    // a recorded mean of 0 counts as one microsecond
    let z = skew_percentile(1000, &Some(0), 500);
    assert_eq!(z.den, 1);
}

#[test]
fn zero_bias_scores_zero() {
    let s = skew_percentile(QUANTILE_ONE, &Some(7), 0);
    assert_eq!(s.num, 0);
    assert_eq!(plain_score(QUANTILE_ONE, 0).num, 0);
}

#[test]
fn score_order_is_rational() {
    // 1/2 < 2/3, and 2/4 is not below 1/2
    let a = Score { num: 1, den: 2 };
    let b = Score { num: 2, den: 3 };
    let c = Score { num: 2, den: 4 };
    assert!(score_below(&a, &b));
    assert!(!score_below(&b, &a));
    assert!(!score_below(&c, &a));
    assert!(!score_below(&a, &c));
}

#[test]
fn sampling_takes_first_of_equal_maxima() {
    let samples = [5, 9, 9, 3];
    assert_eq!(select_sampled(&samples, &[1, 1, 1, 1]), Some(1));
}

#[test]
fn sampling_weighs_bias() {
    // 5 * 3 beats 9 * 1
    let samples = [5, 9];
    assert_eq!(select_sampled(&samples, &[3, 1]), Some(0));
}

#[test]
fn sampling_with_negative_bias_still_selects() {
    assert_eq!(select_sampled(&[10, 20], &[-1000, -1000]), Some(0));
}

#[test]
fn runtime_aware_sampling_prefers_fast_equal_samples() {
    let samples = [QUANTILE_ONE / 3, QUANTILE_ONE / 3];
    assert_eq!(
        select_sampled_bias_runtime(&samples, &[Some(100_000), Some(1_000)], &[BIAS_ONE, BIAS_ONE]),
        Some(1)
    );
}

#[test]
fn ranking_orders_by_descending_score() {
    let samples = [10, 30, 20];
    assert_eq!(rank_sampled(&samples, &[1, 1, 1]), vec![1, 2, 0]);
}

#[test]
fn ranking_ties_come_in_reverse_index_order() {
    let samples = [7, 7, 3, 7];
    assert_eq!(rank_sampled(&samples, &[1, 1, 1, 1]), vec![3, 1, 0, 2]);
}

#[test]
fn ranking_empty_and_single() {
    assert_eq!(rank_sampled(&[], &[]), Vec::<usize>::new());
    assert_eq!(rank_sampled(&[42], &[1]), vec![0]);
}

#[test]
fn runtime_aware_ranking() {
    // scores 100/1000, 100/10, 300/2000
    let samples = [100, 100, 300];
    assert_eq!(
        rank_sampled_bias_runtime(&samples, &[Some(1000), None, Some(2000)], &[1, 1, 1]),
        vec![1, 2, 0]
    );
}
