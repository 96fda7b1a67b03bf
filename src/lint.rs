use vstd::prelude::*;
use crate::config::{Config, Script};

verus! {

/// A problem with one arm of a roster, by roster index.
#[derive(Debug, Clone, Copy, PartialEq, Eq, Structural)]
pub enum LintFinding {
    /// Bias 0: the arm only runs once every other arm has reached its limit.
    ZeroBias(usize),
    /// Another arm before this one also has bias 0: such arms are not ranked
    /// against each other and run at random.
    RepeatedZeroBias(usize),
    /// A negative bias rewards arms that take longer to find an interesting case.
    NegativeBias(usize),
    /// A limit of 0 stops the arm from ever running.
    ZeroLimit(usize),
}

pub open spec fn zero_bias_before(scripts: Seq<Script>, i: int) -> bool {
    exists|j: int| 0 <= j < i && (#[trigger] scripts[j]).bias == 0
}

/// The findings for arm `i`, in the order they are reported.
pub open spec fn findings_of(scripts: Seq<Script>, i: int) -> Seq<LintFinding> {
    let s = scripts[i];
    let zero: Seq<LintFinding> = if s.bias == 0 {
        if zero_bias_before(scripts, i) {
            seq![LintFinding::ZeroBias(i as usize), LintFinding::RepeatedZeroBias(i as usize)]
        } else {
            seq![LintFinding::ZeroBias(i as usize)]
        }
    } else {
        Seq::empty()
    };
    let negative: Seq<LintFinding> = if s.bias < 0 {
        seq![LintFinding::NegativeBias(i as usize)]
    } else {
        Seq::empty()
    };
    let limit: Seq<LintFinding> = if s.limit == Some(0u64) {
        seq![LintFinding::ZeroLimit(i as usize)]
    } else {
        Seq::empty()
    };
    zero + negative + limit
}

/// The findings for the first `n` arms, arm by arm.
pub open spec fn lint_upto(scripts: Seq<Script>, n: int) -> Seq<LintFinding>
    decreases n,
{
    if n <= 0 {
        Seq::empty()
    } else {
        lint_upto(scripts, n - 1) + findings_of(scripts, n - 1)
    }
}

/// Checks a roster for biases and limits that make the scheduler degenerate.
pub fn lint_config(config: &Config) -> (r: Vec<LintFinding>)
    ensures
        r@ == lint_upto(config.scripts@, config.scripts@.len() as int),
{
    let ghost sc = config.scripts@;
    let mut r: Vec<LintFinding> = Vec::new();
    let mut seen_zero = false;
    let mut i: usize = 0;
    while i < config.scripts.len()
        invariant
            sc == config.scripts@,
            i <= sc.len(),
            r@ == lint_upto(sc, i as int),
            seen_zero == zero_bias_before(sc, i as int),
        decreases sc.len() - i,
    {
        let s = &config.scripts[i];
        let ghost before = r@;
        if s.bias == 0 {
            r.push(LintFinding::ZeroBias(i));
            if seen_zero {
                r.push(LintFinding::RepeatedZeroBias(i));
            }
            seen_zero = true;
        }
        if s.bias < 0 {
            r.push(LintFinding::NegativeBias(i));
        }
        if s.limit == Some(0u64) {
            r.push(LintFinding::ZeroLimit(i));
        }
        assert(r@ =~= before + findings_of(sc, i as int));
        proof {
            if sc[i as int].bias == 0 {
                assert(zero_bias_before(sc, i + 1));
            } else if !seen_zero {
                assert forall|j: int| 0 <= j < i + 1 implies (#[trigger] sc[j]).bias != 0 by {
                    if j < i {
                        assert(!zero_bias_before(sc, i as int));
                    }
                }
            }
        }
        i += 1;
    }
    r
}

} // verus!
