//! The escape evaluator's decisions: one per step of the orbit
//! `z <- z * z + c`, starting from `z = 0`.
use vstd::prelude::*;

verus! {

/// The iteration budget: an orbit that has not broken out after this many
/// steps is taken to be bounded.
pub const NUM_LOOPS: usize = 256;

/// What follows one step of an orbit.
#[derive(Debug, Clone, Copy, PartialEq, Eq, Structural)]
pub enum Step {
    /// Perform step `i` next.
    Iterate(usize),
    /// The orbit broke out at step `i` (counted from 0).
    Escaped(usize),
    /// The budget is spent without a breakout.
    Bounded,
}

/// The decision after step `i`, given whether `|z|^2` exceeded the breakout
/// threshold right after that step.
pub open spec fn step_spec(i: nat, breakout: bool) -> Step {
    if breakout {
        Step::Escaped(i as usize)
    } else if i + 1 < NUM_LOOPS {
        Step::Iterate((i + 1) as usize)
    } else {
        Step::Bounded
    }
}

/// Decides what follows step `i` of an orbit: report the breakout at `i`,
/// go on with step `i + 1`, or stop with the budget spent.
pub fn escape_step(i: usize, breakout: bool) -> (r: Step)
    requires
        i < NUM_LOOPS,
    ensures
        r == step_spec(i as nat, breakout),
{
    if breakout {
        Step::Escaped(i)
    } else if i + 1 < NUM_LOOPS {
        Step::Iterate(i + 1)
    } else {
        Step::Bounded
    }
}

/// The result of an orbit whose breakout tests, step by step from step `i`
/// on, are `trace[i]`, `trace[i + 1]`, ...: the index of the first step
/// that broke out, or `None` when the budget is spent first.
pub open spec fn escape_from(trace: Seq<bool>, i: nat) -> Option<nat>
    decreases NUM_LOOPS - i,
{
    if i >= NUM_LOOPS || i >= trace.len() {
        None
    } else {
        match step_spec(i, trace[i as int]) {
            Step::Iterate(j) => escape_from(trace, j as nat),
            Step::Escaped(k) => Some(k as nat),
            Step::Bounded => None,
        }
    }
}

/// Driving `escape_step` from step 0 over the breakout tests of a whole orbit
/// ends within the budget: the result is the first step whose test is true,
/// which lies below `NUM_LOOPS`, or `None` exactly when none of the first
/// `NUM_LOOPS` tests is true.
pub proof fn lemma_escape_bounded(trace: Seq<bool>)
    requires
        trace.len() >= NUM_LOOPS,
    ensures
        match escape_from(trace, 0) {
            Some(k) => k < NUM_LOOPS && trace[k as int] && forall|j: int|
                0 <= j < k ==> !#[trigger] trace[j],
            None => forall|j: int| 0 <= j < NUM_LOOPS ==> !#[trigger] trace[j],
        },
{
    lemma_escape_from(trace, 0);
}

proof fn lemma_escape_from(trace: Seq<bool>, i: nat)
    requires
        trace.len() >= NUM_LOOPS,
        i <= NUM_LOOPS,
    ensures
        match escape_from(trace, i) {
            Some(k) => i <= k < NUM_LOOPS && trace[k as int] && forall|j: int|
                i <= j < k ==> !#[trigger] trace[j],
            None => forall|j: int| i <= j < NUM_LOOPS ==> !#[trigger] trace[j],
        },
    decreases NUM_LOOPS - i,
{
    if i < NUM_LOOPS && !trace[i as int] && i + 1 < NUM_LOOPS {
        lemma_escape_from(trace, i + 1);
    }
}

} // verus!
