use bts::config::{
    choose_script, choose_script_sampled, eligible_indices, most_run_order, new_config, rank_scripts, record_result,
    rank_scripts_sampled, reset_state, update_state, Config, Script, ScriptResult,
};
use bts::lint::{lint_config, LintFinding};
use bts::mapping::parse_mapping;
use bts::thompson::{ThompsonInfo, BIAS_ONE, QUANTILE_ONE};

fn script(name: &str, interesting: u64, runcount: u64, bias: i32, limit: Option<u64>) -> Script {
    Script {
        name: name.to_string(),
        command: format!("./{}.sh", name),
        results: ThompsonInfo { interesting, uninteresting: runcount - interesting },
        runcount,
        avgruntime_us: if runcount == 0 { None } else { Some(1_000) },
        avgruntime_rem: 0,
        bias,
        limit,
    }
}

#[test]
fn update_averages_runtimes() {
    let mut s = script("a", 0, 0, BIAS_ONE, None);
    for ms in [10u64, 20, 30] {
        update_state(&mut s, ScriptResult::from_exit(true, ms * 1000));
    }
    assert_eq!(s.avgruntime_us, Some(20_000));
    assert_eq!(s.runcount, 3);
    assert_eq!(s.results, ThompsonInfo { interesting: 0, uninteresting: 3 });
}

#[test]
fn update_keeps_exact_mean() {
    let mut s = script("a", 0, 0, BIAS_ONE, None);
    update_state(&mut s, ScriptResult::from_exit(false, 1));
    update_state(&mut s, ScriptResult::from_exit(false, 2));
    // (1 + 2) / 2 = 1 + 1/2
    assert_eq!((s.avgruntime_us, s.avgruntime_rem), (Some(1), 1));
    assert_eq!(s.results, ThompsonInfo { interesting: 2, uninteresting: 0 });
    for us in [4u64, 5, 6] {
        update_state(&mut s, ScriptResult::from_exit(true, us));
    }
    // (1 + 2 + 4 + 5 + 6) / 5 = 3 + 3/5
    assert_eq!((s.avgruntime_us, s.avgruntime_rem, s.runcount), (Some(3), 3, 5));
}

#[test]
fn update_order_does_not_matter() {
    let runs = [(true, 7u64), (false, 30), (true, 1), (true, 12)];
    let mut a = script("a", 0, 0, BIAS_ONE, None);
    let mut b = script("a", 0, 0, BIAS_ONE, None);
    for &(ok, us) in runs.iter() {
        update_state(&mut a, ScriptResult::from_exit(ok, us));
    }
    for &(ok, us) in runs.iter().rev() {
        update_state(&mut b, ScriptResult::from_exit(ok, us));
    }
    assert_eq!(a, b);
    // 50 / 4 = 12 + 2/4
    assert_eq!((a.avgruntime_us, a.avgruntime_rem), (Some(12), 2));
}

#[test]
fn outcome_of_exit_status() {
    let ok = ScriptResult::from_exit(true, 5);
    let failed = ScriptResult::from_exit(false, 6);
    assert_eq!((ok.interesting, ok.uninteresting, ok.runtime_us), (0, 1, 5));
    assert_eq!((failed.interesting, failed.uninteresting, failed.runtime_us), (1, 0, 6));
}

#[test]
fn record_result_touches_one_arm() {
    let mut c = Config { scripts: vec![script("a", 1, 2, BIAS_ONE, None), script("b", 0, 0, 200, Some(3))] };
    let before = c.clone();
    record_result(&mut c, 1, ScriptResult::from_exit(false, 4_000));
    assert_eq!(c.scripts[0], before.scripts[0]);
    assert_eq!(c.scripts[1].results, ThompsonInfo { interesting: 1, uninteresting: 0 });
    assert_eq!(c.scripts[1].runcount, 1);
    assert_eq!(c.scripts[1].avgruntime_us, Some(4_000));
    assert_eq!(c.scripts[1].avgruntime_rem, 0);
    assert_eq!(c.scripts[1].limit, Some(3));
}

#[test]
fn reset_keeps_identity() {
    let mut c = Config { scripts: vec![script("a", 3, 9, 200, Some(7)), script("b", 0, 4, -5, None)] };
    reset_state(&mut c);
    assert_eq!(c.scripts.len(), 2);
    assert_eq!(c.scripts[0].name, "a");
    assert_eq!(c.scripts[0].command, "./a.sh");
    assert_eq!(c.scripts[0].bias, 200);
    assert_eq!(c.scripts[0].limit, Some(7));
    assert_eq!(c.scripts[1].bias, -5);
    for s in &c.scripts {
        assert_eq!(s.results, ThompsonInfo { interesting: 0, uninteresting: 0 });
        assert_eq!(s.runcount, 0);
        assert_eq!(s.avgruntime_us, None);
        assert_eq!(s.avgruntime_rem, 0);
    }
}

#[test]
fn new_roster_defaults() {
    let c = new_config(&vec![("t1".to_string(), "run 1".to_string()), ("t2".to_string(), "run 2".to_string())]);
    assert_eq!(c.scripts.len(), 2);
    assert_eq!(c.scripts[1].name, "t2");
    assert_eq!(c.scripts[1].command, "run 2");
    assert_eq!(c.scripts[0].bias, 1000);
    assert_eq!(c.scripts[0].limit, None);
    assert_eq!(c.scripts[0].runcount, 0);
    assert_eq!(c.scripts[0].avgruntime_us, None);
}

#[test]
fn eligibility_follows_limits() {
    let c = Config {
        scripts: vec![
            script("free", 0, 0, BIAS_ONE, None),
            script("capped", 2, 5, BIAS_ONE, Some(2)),
            script("past", 3, 5, BIAS_ONE, Some(2)),
            script("below", 1, 5, BIAS_ONE, Some(2)),
        ],
    };
    // "capped" has reached its limit and "past" has passed it; "below" has not
    assert_eq!(eligible_indices(&c), vec![0, 3]);
}

#[test]
fn choose_never_picks_capped_arm() {
    let c = Config {
        scripts: vec![script("capped", 4, 4, BIAS_ONE, Some(4)), script("free", 0, 4, BIAS_ONE, None)],
    };
    // one sample, for the one eligible arm
    assert_eq!(choose_script_sampled(&c, &[0], false), Some(1));
    assert_eq!(choose_script_sampled(&c, &[0], true), Some(1));
}

#[test]
fn choose_with_nothing_eligible() {
    let c = Config { scripts: vec![script("capped", 0, 0, BIAS_ONE, Some(0))] };
    assert_eq!(choose_script_sampled(&c, &[], false), None);
    assert_eq!(rank_scripts_sampled(&c, &[], false), Vec::<usize>::new());
}

#[test]
fn choose_uses_each_arms_own_bias() {
    let c = Config {
        scripts: vec![
            script("capped", 1, 1, 9000, Some(1)),
            script("low", 0, 1, 100, None),
            script("high", 0, 1, 900, None),
        ],
    };
    let half = QUANTILE_ONE / 2;
    assert_eq!(choose_script_sampled(&c, &[half, half], true), Some(2));
    assert_eq!(choose_script_sampled(&c, &[half, half], false), Some(2));
}

#[test]
fn rank_returns_roster_indices() {
    let c = Config {
        scripts: vec![
            script("a", 0, 1, BIAS_ONE, None),
            script("capped", 2, 2, BIAS_ONE, Some(2)),
            script("b", 0, 1, BIAS_ONE, None),
            script("c", 0, 1, BIAS_ONE, None),
        ],
    };
    assert_eq!(rank_scripts_sampled(&c, &[10, 30, 20], true), vec![2, 3, 0]);
}

#[test]
fn rank_single_eligible_arm() {
    let c = Config {
        scripts: vec![script("capped", 2, 2, BIAS_ONE, Some(2)), script("only", 0, 3, BIAS_ONE, None)],
    };
    assert_eq!(rank_scripts_sampled(&c, &[77], false), vec![1]);
}

#[test]
fn rank_prefers_unmeasured_arm() {
    let c = Config { scripts: vec![script("ran", 0, 1, BIAS_ONE, None), script("new", 0, 0, BIAS_ONE, None)] };
    let q = QUANTILE_ONE / 2;
    assert_eq!(rank_scripts_sampled(&c, &[q, q], false), vec![1, 0]);
}

#[test]
fn most_run_first_stable() {
    let scripts = vec![
        script("a", 0, 3, BIAS_ONE, None),
        script("b", 0, 5, BIAS_ONE, None),
        script("c", 0, 3, BIAS_ONE, None),
        script("d", 0, 0, BIAS_ONE, None),
    ];
    assert_eq!(most_run_order(&scripts), vec![1, 0, 2, 3]);
}

#[test]
fn lint_reports_each_problem() {
    let c = Config {
        scripts: vec![
            script("zero", 0, 0, 0, None),
            script("negative", 0, 0, -1000, Some(0)),
            script("zero_again", 0, 0, 0, None),
            script("fine", 0, 0, BIAS_ONE, Some(3)),
        ],
    };
    assert_eq!(
        lint_config(&c),
        vec![
            LintFinding::ZeroBias(0),
            LintFinding::NegativeBias(1),
            LintFinding::ZeroLimit(1),
            LintFinding::ZeroBias(2),
            LintFinding::RepeatedZeroBias(2),
        ]
    );
}

#[test]
fn lint_clean_roster() {
    let c = Config { scripts: vec![script("fine", 0, 0, BIAS_ONE, None)] };
    assert_eq!(lint_config(&c), vec![]);
}

#[test]
fn mapping_splits_at_equals() {
    assert_eq!(parse_mapping("fuzz=./fuzz.sh --fast"), Ok(("fuzz".to_string(), "./fuzz.sh --fast".to_string())));
    assert_eq!(parse_mapping("=x"), Ok(("".to_string(), "x".to_string())));
    assert_eq!(parse_mapping("é=ü"), Ok(("é".to_string(), "ü".to_string())));
}

#[test]
fn mapping_needs_one_equals() {
    let err = Err("Mapping should be in the format key=value".to_string());
    assert_eq!(parse_mapping("noequals"), err);
    assert_eq!(parse_mapping("a=b=c"), err);
    assert_eq!(parse_mapping(""), err);
}

#[test]
fn drawn_choice_skips_capped_arms() {
    let c = Config {
        scripts: vec![
            script("capped", 4, 4, 9000, Some(4)),
            script("free", 0, 4, BIAS_ONE, None),
            script("zero_limit", 0, 0, BIAS_ONE, Some(0)),
        ],
    };
    for _ in 0..20 {
        assert_eq!(choose_script(&c, false), Some(1));
        assert_eq!(choose_script(&c, true), Some(1));
        assert_eq!(rank_scripts(&c, false), vec![1]);
    }
}

#[test]
fn drawn_ranking_is_a_permutation_of_eligible_arms() {
    let c = Config {
        scripts: vec![
            script("a", 1, 3, BIAS_ONE, None),
            script("capped", 2, 2, BIAS_ONE, Some(2)),
            script("b", 0, 2, 500, None),
            script("c", 3, 3, 2000, Some(1)),
        ],
    };
    // "c" has passed its limit
    let mut r = rank_scripts(&c, true);
    assert_eq!(r.len(), 2);
    r.sort();
    assert_eq!(r, vec![0, 2]);
    assert_eq!(choose_script(&Config { scripts: vec![] }, false), None);
}

#[test]
fn limit_stops_arm_once_reached() {
    let mut c = Config { scripts: vec![script("capped", 0, 0, BIAS_ONE, Some(2)), script("free", 0, 0, 1, None)] };
    let q = QUANTILE_ONE / 2;
    // the capped arm has the higher bias, so it wins while eligible
    assert_eq!(choose_script_sampled(&c, &[q, q], true), Some(0));
    record_result(&mut c, 0, ScriptResult::from_exit(false, 10));
    assert_eq!(choose_script_sampled(&c, &[q, q], true), Some(0));
    record_result(&mut c, 0, ScriptResult::from_exit(false, 10));
    assert_eq!(eligible_indices(&c), vec![1]);
    assert_eq!(choose_script(&c, true), Some(1));
}
