use vstd::prelude::*;
use crate::thompson::{
    are_posterior_samples, counts_fit, is_first_max, is_ranking, lemma_single_ranking,
    plain_scores, posterior_samples, rank_sampled, rank_sampled_bias_runtime, samples_valid,
    select_sampled, select_sampled_bias_runtime, skewed_scores, Score, ThompsonInfo, BIAS_ONE,
};

verus! {

/// One arm: a script, its outcome counts and its weighting.
#[derive(Debug, Clone, PartialEq)]
pub struct Script {
    pub name: String,
    pub command: String,
    pub results: ThompsonInfo,
    pub runcount: u64,
    /// Mean runtime in whole microseconds, rounded down; `None` until the first run.
    pub avgruntime_us: Option<u64>,
    /// The rest of the mean: it is exactly `avgruntime_us + avgruntime_rem / runcount` µs.
    pub avgruntime_rem: u64,
    /// User preference weight, in thousandths; negative values are invalid and flagged by `lint_config`.
    pub bias: i32,
    pub limit: Option<u64>,
}

impl Script {
    /// A mean runtime exists exactly when the script has run, and the rest
    /// of the mean is a proper fraction of the run count.
    pub open spec fn wf(self) -> bool {
        &&& (self.avgruntime_us is None) == (self.runcount == 0)
        &&& if self.runcount == 0 { self.avgruntime_rem == 0 } else { self.avgruntime_rem < self.runcount }
    }

    /// The sum of all recorded runtimes: the mean times the run count.
    pub open spec fn total_runtime(self) -> int {
        let whole: int = match self.avgruntime_us {
            Some(a) => a as int,
            None => 0,
        };
        whole * self.runcount + self.avgruntime_rem
    }
}

/// The roster of arms.
#[derive(Debug, Clone, PartialEq)]
pub struct Config {
    pub scripts: Vec<Script>,
}

/// An arm takes part in selection and ranking until its interesting count
/// reaches its limit, if it has one.
pub open spec fn eligible(s: Script) -> bool {
    match s.limit {
        None => true,
        Some(l) => s.results.interesting < l,
    }
}

/// Indices, in order, of the eligible arms among the first `n`.
pub open spec fn eligible_upto(scripts: Seq<Script>, n: int) -> Seq<usize>
    decreases n,
{
    if n <= 0 {
        Seq::empty()
    } else if eligible(scripts[n - 1]) {
        eligible_upto(scripts, n - 1).push((n - 1) as usize)
    } else {
        eligible_upto(scripts, n - 1)
    }
}

/// Indices, in order, of the eligible arms of a roster.
pub open spec fn eligible_seq(scripts: Seq<Script>) -> Seq<usize> {
    eligible_upto(scripts, scripts.len() as int)
}

/// The eligible indices are increasing, in range, and exactly the eligible arms.
pub proof fn lemma_eligible_upto(scripts: Seq<Script>, n: int)
    requires
        0 <= n <= scripts.len() <= usize::MAX,
    ensures
        eligible_upto(scripts, n).len() <= n,
        forall|k: int| 0 <= k < eligible_upto(scripts, n).len() ==> {
            let i = #[trigger] eligible_upto(scripts, n)[k];
            &&& i < n
            &&& eligible(scripts[i as int])
        },
        forall|a: int, b: int| 0 <= a < b < eligible_upto(scripts, n).len() ==>
            #[trigger] eligible_upto(scripts, n)[a] < #[trigger] eligible_upto(scripts, n)[b],
        forall|i: usize| i < n && eligible(scripts[i as int]) ==> #[trigger] eligible_upto(scripts, n).contains(i),
    decreases n,
{
    if n > 0 {
        lemma_eligible_upto(scripts, n - 1);
        let e = eligible_upto(scripts, n - 1);
        if eligible(scripts[n - 1]) {
            let f = e.push((n - 1) as usize);
            assert forall|i: usize| i < n && eligible(scripts[i as int]) implies #[trigger] f.contains(i) by {
                if i < n - 1 {
                    assert(e.contains(i));
                    let k = choose|k: int| 0 <= k < e.len() && e[k] == i;
                    assert(f[k] == i);
                } else {
                    assert(f[e.len() as int] == i);
                }
            }
        }
    }
}

/// Indices of the arms that selection and ranking consider, in roster order.
pub fn eligible_indices(config: &Config) -> (r: Vec<usize>)
    ensures
        r@ == eligible_seq(config.scripts@),
{
    let mut r: Vec<usize> = Vec::new();
    let mut i: usize = 0;
    while i < config.scripts.len()
        invariant
            i <= config.scripts@.len(),
            r@ == eligible_upto(config.scripts@, i as int),
        decreases config.scripts@.len() - i,
    {
        let s = &config.scripts[i];
        let ok = match s.limit {
            None => true,
            Some(l) => s.results.interesting < l,
        };
        if ok {
            r.push(i);
        }
        i += 1;
    }
    r
}

/// Scores of the eligible arms `e`, from one sample each.
pub open spec fn roster_scores(
    scripts: Seq<Script>,
    e: Seq<usize>,
    samples: Seq<u64>,
    ignore_runtime: bool,
) -> Seq<Score> {
    let runtimes = e.map_values(|i: usize| scripts[i as int].avgruntime_us);
    let biases = e.map_values(|i: usize| scripts[i as int].bias);
    if ignore_runtime {
        plain_scores(samples, biases)
    } else {
        skewed_scores(samples, runtimes, biases)
    }
}

/// Outcome counts of the arms `e`.
pub open spec fn entries_of(scripts: Seq<Script>, e: Seq<usize>) -> Seq<ThompsonInfo> {
    e.map_values(|i: usize| scripts[i as int].results)
}

/// Every arm's counts leave room for its posterior's shapes.
pub open spec fn roster_counts_fit(scripts: Seq<Script>) -> bool {
    forall|i: int| 0 <= i < scripts.len() ==> counts_fit(#[trigger] scripts[i].results)
}

fn eligible_entries(config: &Config, e: &Vec<usize>) -> (r: Vec<ThompsonInfo>)
    requires
        forall|k: int| 0 <= k < e@.len() ==> #[trigger] e@[k] < config.scripts@.len(),
    ensures
        r@ == entries_of(config.scripts@, e@),
{
    let mut r: Vec<ThompsonInfo> = Vec::new();
    let mut k: usize = 0;
    while k < e.len()
        invariant
            forall|k: int| 0 <= k < e@.len() ==> #[trigger] e@[k] < config.scripts@.len(),
            k <= e@.len(),
            r@ == entries_of(config.scripts@, e@).take(k as int),
        decreases e@.len() - k,
    {
        r.push(config.scripts[e[k]].results);
        k += 1;
        assert(r@ =~= entries_of(config.scripts@, e@).take(k as int));
    }
    assert(r@ =~= entries_of(config.scripts@, e@));
    r
}

fn eligible_weights(config: &Config, e: &Vec<usize>) -> (r: (Vec<Option<u64>>, Vec<i32>))
    requires
        forall|k: int| 0 <= k < e@.len() ==> #[trigger] e@[k] < config.scripts@.len(),
    ensures
        r.0@ == e@.map_values(|i: usize| config.scripts@[i as int].avgruntime_us),
        r.1@ == e@.map_values(|i: usize| config.scripts@[i as int].bias),
{
    let mut runtimes: Vec<Option<u64>> = Vec::new();
    let mut biases: Vec<i32> = Vec::new();
    let mut k: usize = 0;
    while k < e.len()
        invariant
            forall|k: int| 0 <= k < e@.len() ==> #[trigger] e@[k] < config.scripts@.len(),
            k <= e@.len(),
            runtimes@ == e@.map_values(|i: usize| config.scripts@[i as int].avgruntime_us).take(k as int),
            biases@ == e@.map_values(|i: usize| config.scripts@[i as int].bias).take(k as int),
        decreases e@.len() - k,
    {
        let s = &config.scripts[e[k]];
        runtimes.push(s.avgruntime_us);
        biases.push(s.bias);
        k += 1;
        assert(runtimes@ =~= e@.map_values(|i: usize| config.scripts@[i as int].avgruntime_us).take(k as int));
        assert(biases@ =~= e@.map_values(|i: usize| config.scripts@[i as int].bias).take(k as int));
    }
    assert(runtimes@ =~= e@.map_values(|i: usize| config.scripts@[i as int].avgruntime_us));
    assert(biases@ =~= e@.map_values(|i: usize| config.scripts@[i as int].bias));
    (runtimes, biases)
}

/// Picks the arm to run next from given samples: `samples[k]` is a posterior
/// sample of the `k`-th eligible arm (see `eligible_indices`); the result is
/// that arm's index in the roster, `None` when no arm is eligible.
pub fn choose_script_sampled(config: &Config, samples: &[u64], ignore_runtime: bool) -> (r: Option<usize>)
    requires
        samples@.len() == eligible_seq(config.scripts@).len(),
        samples_valid(samples@),
    ensures
        r is None <==> eligible_seq(config.scripts@).len() == 0,
        r matches Some(i) ==> {
            &&& i < config.scripts@.len()
            &&& eligible(config.scripts@[i as int])
            &&& exists|k: int| #[trigger] eligible_seq(config.scripts@)[k] == i
                && is_first_max(roster_scores(config.scripts@, eligible_seq(config.scripts@), samples@, ignore_runtime), k)
        },
{
    let e = eligible_indices(config);
    let total = config.scripts.len();
    proof {
        lemma_eligible_upto(config.scripts@, total as int);
    }
    let (runtimes, biases) = eligible_weights(config, &e);
    let picked = if ignore_runtime {
        select_sampled(samples, biases.as_slice())
    } else {
        select_sampled_bias_runtime(samples, runtimes.as_slice(), biases.as_slice())
    };
    match picked {
        None => None,
        Some(k) => {
            proof {
                assert(eligible_seq(config.scripts@)[k as int] == e@[k as int]);
            }
            Some(e[k])
        },
    }
}

/// Ranks the eligible arms, best first, by given samples (`samples[k]` for
/// the `k`-th eligible arm); the result holds roster indices.
pub fn rank_scripts_sampled(config: &Config, samples: &[u64], ignore_runtime: bool) -> (r: Vec<usize>)
    requires
        samples@.len() == eligible_seq(config.scripts@).len(),
        samples_valid(samples@),
    ensures
        r@.len() == eligible_seq(config.scripts@).len(),
        forall|k: int| 0 <= k < r@.len() ==> {
            &&& #[trigger] r@[k] < config.scripts@.len()
            &&& eligible(config.scripts@[r@[k] as int])
        },
        forall|i: usize| #[trigger] r@.contains(i) <==> eligible_seq(config.scripts@).contains(i),
        eligible_seq(config.scripts@).len() == 1 ==> r@ == eligible_seq(config.scripts@),
        exists|ks: Seq<usize>| {
            &&& is_ranking(roster_scores(config.scripts@, eligible_seq(config.scripts@), samples@, ignore_runtime), ks)
            &&& r@ == ks.map_values(|k: usize| eligible_seq(config.scripts@)[k as int])
        },
{
    let e = eligible_indices(config);
    let total = config.scripts.len();
    proof {
        lemma_eligible_upto(config.scripts@, total as int);
    }
    let (runtimes, biases) = eligible_weights(config, &e);
    let ks = if ignore_runtime {
        rank_sampled(samples, biases.as_slice())
    } else {
        rank_sampled_bias_runtime(samples, runtimes.as_slice(), biases.as_slice())
    };
    let ghost sc = roster_scores(config.scripts@, e@, samples@, ignore_runtime);
    assert(is_ranking(sc, ks@));
    let mut r: Vec<usize> = Vec::new();
    let mut j: usize = 0;
    while j < ks.len()
        invariant
            is_ranking(sc, ks@),
            sc.len() == e@.len(),
            forall|k: int| 0 <= k < e@.len() ==> #[trigger] e@[k] < config.scripts@.len(),
            j <= ks@.len(),
            r@ == ks@.map_values(|k: usize| e@[k as int]).take(j as int),
        decreases ks@.len() - j,
    {
        r.push(e[ks[j]]);
        j += 1;
        assert(r@ =~= ks@.map_values(|k: usize| e@[k as int]).take(j as int));
    }
    assert(r@ =~= ks@.map_values(|k: usize| e@[k as int]));
    proof {
        if e@.len() == 1 {
            lemma_single_ranking(sc, ks@);
            assert(r@ =~= e@);
        }
        assert forall|i: usize| #[trigger] r@.contains(i) <==> e@.contains(i) by {
            if r@.contains(i) {
                let k = choose|k: int| 0 <= k < r@.len() && r@[k] == i;
                assert(e@[ks@[k] as int] == i);
            }
            if e@.contains(i) {
                let m = choose|m: int| 0 <= m < e@.len() && e@[m] == i;
                assert(ks@.contains(m as usize));
                let k = choose|k: int| 0 <= k < ks@.len() && ks@[k] == m as usize;
                assert(r@[k] == i);
            }
        }
    }
    r
}


/// The outcome of one run: which count grows, and the runtime in microseconds.
#[derive(Debug, Clone, Copy, PartialEq, Eq, Structural)]
pub struct ScriptResult {
    pub interesting: u64,
    pub uninteresting: u64,
    pub runtime_us: u64,
}

impl ScriptResult {
    /// A script that succeeded is uninteresting; a failure is what is searched for.
    pub fn from_exit(succeeded: bool, runtime_us: u64) -> (r: ScriptResult)
        ensures
            r.interesting == (if succeeded { 0u64 } else { 1u64 }),
            r.uninteresting == (if succeeded { 1u64 } else { 0u64 }),
            r.runtime_us == runtime_us,
    {
        if succeeded {
            ScriptResult { interesting: 0, uninteresting: 1, runtime_us }
        } else {
            ScriptResult { interesting: 1, uninteresting: 0, runtime_us }
        }
    }
}

/// The arm after one more result: counts grow by the result's, the run
/// count by one, and the mean becomes `(mean * runs + runtime) / (runs + 1)`
/// exactly, held as whole microseconds and a rest over the new run count.
pub open spec fn updated(s: Script, result: ScriptResult) -> Script {
    let total = s.total_runtime() + result.runtime_us;
    let n = s.runcount + 1;
    Script {
        name: s.name,
        command: s.command,
        results: ThompsonInfo {
            interesting: (s.results.interesting + result.interesting) as u64,
            uninteresting: (s.results.uninteresting + result.uninteresting) as u64,
        },
        runcount: n as u64,
        avgruntime_us: Some((total / n) as u64),
        avgruntime_rem: (total % n) as u64,
        bias: s.bias,
        limit: s.limit,
    }
}

/// Whether one more result can be counted without overflow.
pub open spec fn can_record(s: Script, result: ScriptResult) -> bool {
    &&& s.wf()
    &&& s.runcount < u64::MAX
    &&& s.results.interesting + result.interesting <= u64::MAX
    &&& s.results.uninteresting + result.uninteresting <= u64::MAX
}

proof fn lemma_total_bounds(s: Script, rt: int)
    requires
        s.wf(),
        s.runcount < u64::MAX,
        0 <= rt <= u64::MAX,
    ensures
        0 <= s.total_runtime() + rt <= u128::MAX,
        (s.total_runtime() + rt) / (s.runcount + 1) <= u64::MAX,
        0 <= (s.total_runtime() + rt) % (s.runcount + 1) < s.runcount + 1,
{
    let n = s.runcount as int;
    let a: int = match s.avgruntime_us {
        Some(a) => a as int,
        None => 0,
    };
    let r = s.avgruntime_rem as int;
    let total = a * n + r + rt;
    let m: int = if a > rt { a } else { rt };
    assert(0 <= a * n <= m * n) by (nonlinear_arith)
        requires
            0 <= a <= m,
            0 <= n,
    ;
    assert(a * n <= u64::MAX * u64::MAX) by (nonlinear_arith)
        requires
            0 <= a <= u64::MAX,
            0 <= n <= u64::MAX,
    ;
    assert(r <= n);
    vstd::arithmetic::div_mod::lemma_fundamental_div_mod(total, n + 1);
    vstd::arithmetic::div_mod::lemma_mod_bound(total, n + 1);
    let q = total / (n + 1);
    assert(q <= m) by (nonlinear_arith)
        requires
            total == (n + 1) * q + total % (n + 1),
            0 <= total % (n + 1),
            total <= m * n + n + m,
            n >= 0,
    {
        assert(total < (m + 1) * (n + 1));
        if q > m {
            assert((n + 1) * q >= (n + 1) * (m + 1));
        }
    }
}

/// The sum of runtimes grows by the result's runtime.
pub proof fn lemma_updated_total(s: Script, result: ScriptResult)
    requires
        can_record(s, result),
    ensures
        updated(s, result).total_runtime() == s.total_runtime() + result.runtime_us,
        updated(s, result).wf(),
{
    let total = s.total_runtime() + result.runtime_us;
    let n = s.runcount + 1;
    lemma_total_bounds(s, result.runtime_us as int);
    vstd::arithmetic::div_mod::lemma_fundamental_div_mod(total, n);
    assert((total / n) * n == n * (total / n)) by (nonlinear_arith);
}

/// Results can be recorded in any order: two results give the same arm
/// either way, mean included.
pub proof fn lemma_update_order(s: Script, r1: ScriptResult, r2: ScriptResult)
    requires
        s.wf(),
        s.runcount + 2 <= u64::MAX,
        s.results.interesting + r1.interesting + r2.interesting <= u64::MAX,
        s.results.uninteresting + r1.uninteresting + r2.uninteresting <= u64::MAX,
    ensures
        updated(updated(s, r1), r2) == updated(updated(s, r2), r1),
{
    lemma_updated_total(s, r1);
    lemma_updated_total(s, r2);
}

/// Folds one result into an arm (see `updated`).
pub fn update_state(existing_results: &mut Script, result: ScriptResult)
    requires
        can_record(*old(existing_results), result),
    ensures
        *final(existing_results) == updated(*old(existing_results), result),
        final(existing_results).total_runtime() == old(existing_results).total_runtime() + result.runtime_us,
        final(existing_results).wf(),
{
    let ghost before = *existing_results;
    let prev: u64 = match existing_results.avgruntime_us {
        Some(a) => a,
        None => 0,
    };
    let n: u64 = existing_results.runcount;
    proof {
        lemma_total_bounds(before, result.runtime_us as int);
        lemma_updated_total(before, result);
        assert((prev as int) * (n as int) <= u64::MAX * u64::MAX) by (nonlinear_arith)
            requires
                0 <= prev <= u64::MAX,
                0 <= n <= u64::MAX,
        ;
    }
    let total: u128 = (prev as u128) * (n as u128) + (existing_results.avgruntime_rem as u128)
        + (result.runtime_us as u128);
    let avg: u128 = total / ((n as u128) + 1);
    let rem: u128 = total % ((n as u128) + 1);
    existing_results.results = ThompsonInfo {
        interesting: existing_results.results.interesting + result.interesting,
        uninteresting: existing_results.results.uninteresting + result.uninteresting,
    };
    existing_results.runcount = n + 1;
    existing_results.avgruntime_us = Some(avg as u64);
    existing_results.avgruntime_rem = rem as u64;
}

/// Folds one result into the arm at `index` of the roster; the other arms stay as they were.
pub fn record_result(config: &mut Config, index: usize, result: ScriptResult)
    requires
        index < old(config).scripts@.len(),
        can_record(old(config).scripts@[index as int], result),
    ensures
        final(config).scripts@.len() == old(config).scripts@.len(),
        forall|i: int| 0 <= i < old(config).scripts@.len() && i != index
            ==> #[trigger] final(config).scripts@[i] == old(config).scripts@[i],
        final(config).scripts@[index as int] == updated(old(config).scripts@[index as int], result),
{
    let mut s = placeholder();
    config.scripts.set_and_swap(index, &mut s);
    update_state(&mut s, result);
    config.scripts.set_and_swap(index, &mut s);
}

fn placeholder() -> (r: Script) {
    Script {
        name: String::new(),
        command: String::new(),
        results: ThompsonInfo { interesting: 0, uninteresting: 0 },
        runcount: 0,
        avgruntime_us: None,
        avgruntime_rem: 0,
        bias: 0,
        limit: None,
    }
}

/// Zeroes the counts, run count and mean runtime of every arm, and keeps
/// names, commands, biases and limits.
pub fn reset_state(config: &mut Config)
    ensures
        final(config).scripts@.len() == old(config).scripts@.len(),
        forall|i: int| 0 <= i < final(config).scripts@.len() ==> {
            let (o, n) = (old(config).scripts@[i], #[trigger] final(config).scripts@[i]);
            &&& n.results.interesting == 0
            &&& n.results.uninteresting == 0
            &&& n.runcount == 0
            &&& n.avgruntime_us is None
            &&& n.avgruntime_rem == 0
            &&& n.name == o.name
            &&& n.command == o.command
            &&& n.bias == o.bias
            &&& n.limit == o.limit
        },
{
    let ghost orig = config.scripts@;
    let n = config.scripts.len();
    let mut i: usize = 0;
    while i < n
        invariant
            n == orig.len(),
            config.scripts@.len() == n,
            i <= n,
            forall|k: int| i <= k < n ==> #[trigger] config.scripts@[k] == orig[k],
            forall|k: int| 0 <= k < i ==> {
                let (o, c) = (orig[k], #[trigger] config.scripts@[k]);
                &&& c.results.interesting == 0
                &&& c.results.uninteresting == 0
                &&& c.runcount == 0
                &&& c.avgruntime_us is None
                &&& c.avgruntime_rem == 0
                &&& c.name == o.name
                &&& c.command == o.command
                &&& c.bias == o.bias
                &&& c.limit == o.limit
            },
        decreases n - i,
    {
        let mut s = placeholder();
        config.scripts.set_and_swap(i, &mut s);
        s.results = ThompsonInfo { interesting: 0, uninteresting: 0 };
        s.runcount = 0;
        s.avgruntime_us = None;
        s.avgruntime_rem = 0;
        config.scripts.set_and_swap(i, &mut s);
        i += 1;
    }
}

/// A new roster from `(name, command)` pairs: no runs yet, bias 1.0, no limit.
pub fn new_config(tests: &Vec<(String, String)>) -> (r: Config)
    ensures
        r.scripts@.len() == tests@.len(),
        forall|i: int| 0 <= i < tests@.len() ==> {
            let s = #[trigger] r.scripts@[i];
            &&& s.name == tests@[i].0
            &&& s.command == tests@[i].1
            &&& s.results.interesting == 0
            &&& s.results.uninteresting == 0
            &&& s.runcount == 0
            &&& s.avgruntime_us is None
            &&& s.avgruntime_rem == 0
            &&& s.bias == BIAS_ONE
            &&& s.limit is None
            &&& s.wf()
        },
{
    let mut scripts: Vec<Script> = Vec::new();
    let mut i: usize = 0;
    while i < tests.len()
        invariant
            i <= tests@.len(),
            scripts@.len() == i,
            forall|k: int| 0 <= k < i ==> {
                let s = #[trigger] scripts@[k];
                &&& s.name == tests@[k].0
                &&& s.command == tests@[k].1
                &&& s.results.interesting == 0
                &&& s.results.uninteresting == 0
                &&& s.runcount == 0
                &&& s.avgruntime_us is None
                &&& s.avgruntime_rem == 0
                &&& s.bias == BIAS_ONE
                &&& s.limit is None
            },
        decreases tests@.len() - i,
    {
        let name = tests[i].0.clone();
        let command = tests[i].1.clone();
        scripts.push(Script {
            name,
            command,
            results: ThompsonInfo { interesting: 0, uninteresting: 0 },
            runcount: 0,
            avgruntime_us: None,
            avgruntime_rem: 0,
            bias: BIAS_ONE,
            limit: None,
        });
        i += 1;
    }
    Config { scripts }
}


/// An arm whose interesting count has reached or passed its limit takes no
/// part in selection or ranking: it is not among the eligible indices, from
/// which `choose_script` and `rank_scripts` draw their results.
pub proof fn lemma_capped_arm_excluded(scripts: Seq<Script>, i: int, l: u64)
    requires
        0 <= i < scripts.len() <= usize::MAX,
        scripts[i].limit == Some(l),
        scripts[i].results.interesting >= l,
    ensures
        !eligible(scripts[i]),
        !eligible_seq(scripts).contains(i as usize),
{
    lemma_eligible_upto(scripts, scripts.len() as int);
    let e = eligible_seq(scripts);
    if e.contains(i as usize) {
        let k = choose|k: int| 0 <= k < e.len() && e[k] == i as usize;
        assert(eligible(scripts[e[k] as int]));
    }
}


/// Arm `x` comes before arm `y` when ordering by run count: it has run more
/// often, or as often and stands earlier in the roster.
pub open spec fn runs_before(scripts: Seq<Script>, x: int, y: int) -> bool {
    scripts[x].runcount > scripts[y].runcount || (scripts[x].runcount == scripts[y].runcount && x < y)
}

/// Roster indices of all arms, most run first; arms that ran equally often
/// keep their roster order. The summary plots show the first three.
pub fn most_run_order(scripts: &Vec<Script>) -> (r: Vec<usize>)
    ensures
        r@.len() == scripts@.len(),
        forall|k: int| 0 <= k < r@.len() ==> #[trigger] r@[k] < scripts@.len(),
        forall|j: usize| j < scripts@.len() ==> #[trigger] r@.contains(j),
        forall|a: int, b: int| 0 <= a < b < r@.len() ==> runs_before(scripts@, #[trigger] r@[a] as int, #[trigger] r@[b] as int),
{
    let ghost s = scripts@;
    let mut r: Vec<usize> = Vec::new();
    let mut i: usize = 0;
    while i < scripts.len()
        invariant
            s == scripts@,
            i <= s.len(),
            r@.len() == i,
            forall|k: int| 0 <= k < r@.len() ==> #[trigger] r@[k] < i,
            forall|j: usize| j < i ==> #[trigger] r@.contains(j),
            forall|a: int, b: int| 0 <= a < b < r@.len() ==> runs_before(s, #[trigger] r@[a] as int, #[trigger] r@[b] as int),
        decreases s.len() - i,
    {
        let mut p: usize = 0;
        while p < r.len() && scripts[r[p]].runcount >= scripts[i].runcount
            invariant
                s == scripts@,
                i < s.len(),
                p <= r@.len(),
                forall|k: int| 0 <= k < r@.len() ==> #[trigger] r@[k] < i,
                forall|k: int| 0 <= k < p ==> runs_before(s, #[trigger] r@[k] as int, i as int),
            decreases r@.len() - p,
        {
            assert(r@[p as int] < i);
            p += 1;
        }
        let ghost old_r = r@;
        proof {
            assert forall|k: int| p <= k < old_r.len() implies runs_before(s, i as int, #[trigger] old_r[k] as int) by {
                if k > p {
                    assert(runs_before(s, old_r[p as int] as int, old_r[k] as int));
                }
            }
        }
        r.insert(p, i);
        proof {
            let nr = r@;
            assert(nr == old_r.insert(p as int, i));
            assert forall|k: int| 0 <= k < nr.len() implies #[trigger] nr[k] < i + 1 by {
                if k < p { assert(nr[k] == old_r[k]); } else if k > p { assert(nr[k] == old_r[k - 1]); }
            }
            assert forall|j: usize| j < i + 1 implies #[trigger] nr.contains(j) by {
                if j == i {
                    assert(nr[p as int] == i);
                } else {
                    assert(old_r.contains(j));
                    let k = choose|k: int| 0 <= k < old_r.len() && old_r[k] == j;
                    if k < p {
                        assert(nr[k] == j);
                    } else {
                        assert(nr[k + 1] == j);
                    }
                }
            }
            assert forall|a: int, b: int| 0 <= a < b < nr.len() implies runs_before(s, #[trigger] nr[a] as int, #[trigger] nr[b] as int) by {
                if b < p {
                    assert(nr[a] == old_r[a] && nr[b] == old_r[b]);
                } else if b == p {
                    assert(nr[a] == old_r[a]);
                } else if a < p {
                    assert(nr[a] == old_r[a] && nr[b] == old_r[b - 1]);
                } else if a == p {
                    assert(nr[b] == old_r[b - 1]);
                } else {
                    assert(nr[a] == old_r[a - 1] && nr[b] == old_r[b - 1]);
                }
            }
        }
        i += 1;
    }
    r
}


fn draw_eligible_samples(config: &Config) -> (r: Vec<u64>)
    requires
        roster_counts_fit(config.scripts@),
    ensures
        are_posterior_samples(entries_of(config.scripts@, eligible_seq(config.scripts@)), r@),
        samples_valid(r@),
{
    let e = eligible_indices(config);
    let total = config.scripts.len();
    proof {
        lemma_eligible_upto(config.scripts@, total as int);
    }
    let entries = eligible_entries(config, &e);
    proof {
        assert forall|k: int| 0 <= k < entries@.len() implies counts_fit(#[trigger] entries@[k]) by {
            assert(entries@[k] == config.scripts@[e@[k] as int].results);
        }
    }
    posterior_samples(entries.as_slice())
}

/// Picks the arm to run next: one fresh posterior sample per eligible arm,
/// and the arm with the greatest score (first on a tie) wins. The result is a
/// roster index, `None` when no arm is eligible.
pub fn choose_script(config: &Config, ignore_runtime: bool) -> (r: Option<usize>)
    requires
        roster_counts_fit(config.scripts@),
    ensures
        r is None <==> eligible_seq(config.scripts@).len() == 0,
        r matches Some(i) ==> {
            &&& i < config.scripts@.len()
            &&& eligible(config.scripts@[i as int])
            &&& exists|samples: Seq<u64>, k: int|
                are_posterior_samples(entries_of(config.scripts@, eligible_seq(config.scripts@)), samples)
                && eligible_seq(config.scripts@)[k] == i
                && #[trigger] is_first_max(roster_scores(config.scripts@, eligible_seq(config.scripts@), samples, ignore_runtime), k)
        },
{
    let samples = draw_eligible_samples(config);
    choose_script_sampled(config, samples.as_slice(), ignore_runtime)
}

/// Ranks the eligible arms, best first, by one fresh posterior sample each;
/// the result holds roster indices.
pub fn rank_scripts(config: &Config, ignore_runtime: bool) -> (r: Vec<usize>)
    requires
        roster_counts_fit(config.scripts@),
    ensures
        r@.len() == eligible_seq(config.scripts@).len(),
        forall|k: int| 0 <= k < r@.len() ==> {
            &&& #[trigger] r@[k] < config.scripts@.len()
            &&& eligible(config.scripts@[r@[k] as int])
        },
        forall|i: usize| #[trigger] r@.contains(i) <==> eligible_seq(config.scripts@).contains(i),
        eligible_seq(config.scripts@).len() == 1 ==> r@ == eligible_seq(config.scripts@),
        exists|samples: Seq<u64>, ks: Seq<usize>| {
            &&& are_posterior_samples(entries_of(config.scripts@, eligible_seq(config.scripts@)), samples)
            &&& #[trigger] is_ranking(roster_scores(config.scripts@, eligible_seq(config.scripts@), samples, ignore_runtime), ks)
            &&& r@ == ks.map_values(|k: usize| eligible_seq(config.scripts@)[k as int])
        },
{
    let samples = draw_eligible_samples(config);
    rank_scripts_sampled(config, samples.as_slice(), ignore_runtime)
}

} // verus!
