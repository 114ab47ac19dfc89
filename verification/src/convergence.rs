//! The retry policy of the Muskingum-Cunge kernel's secant solver.
use vstd::prelude::*;

verus! {

/// What the secant solver does after one pass of its inner iteration loop.
#[derive(Clone, Copy, Debug, PartialEq, Eq)]
pub enum SecantOutcome {
    /// The pass ended before the iteration budget ran out: use the depth found.
    Converged,
    /// The budget ran out: widen the bracket and run another pass with this budget.
    Retry { tries: u32, max_iterations: u32 },
    /// The budget ran out and no retries are left: warn and use the depth found.
    GaveUp { tries: u32 },
}

/// Number of retries the solver allows before giving up.
pub const MAX_SECANT_RETRIES: u32 = 4;

/// Extra iterations granted to each retry.
pub const SECANT_BUDGET_STEP: u32 = 25;

/// Iteration budget of the first pass.
pub const INITIAL_SECANT_BUDGET: u32 = 100;

/// An exhausted pass (one that ran at least its whole budget) counts as a
/// try; a retry is granted while at most four tries were counted.
pub open spec fn spec_secant_outcome(tries: u32, max_iterations: u32, iterations: u32) -> SecantOutcome {
    if iterations < max_iterations {
        SecantOutcome::Converged
    } else if tries + 1 <= MAX_SECANT_RETRIES {
        SecantOutcome::Retry {
            tries: (tries + 1) as u32,
            max_iterations: (max_iterations + SECANT_BUDGET_STEP) as u32,
        }
    } else {
        SecantOutcome::GaveUp { tries: (tries + 1) as u32 }
    }
}

/// Decides what follows a pass of the secant iteration that ran `iterations` times
/// under a budget of `max_iterations`, after `tries` earlier retries.
pub fn secant_outcome(tries: u32, max_iterations: u32, iterations: u32) -> (r: SecantOutcome)
    requires
        tries < u32::MAX,
        max_iterations <= u32::MAX - SECANT_BUDGET_STEP,
    ensures
        r == spec_secant_outcome(tries, max_iterations, iterations),
{
    if iterations < max_iterations {
        SecantOutcome::Converged
    } else if tries + 1 <= MAX_SECANT_RETRIES {
        SecantOutcome::Retry { tries: tries + 1, max_iterations: max_iterations + SECANT_BUDGET_STEP }
    } else {
        SecantOutcome::GaveUp { tries: tries + 1 }
    }
}

/// The budget of the pass that follows `k` retries of a solve.
pub open spec fn budget_after(k: nat) -> nat {
    (INITIAL_SECANT_BUDGET + SECANT_BUDGET_STEP * k) as nat
}

/// A solve retries at most four times: starting from no retries and the
/// initial budget, each retry adds one try and 25 iterations, a retry is only
/// granted while fewer than four were made, and the fifth exhausted pass gives up.
pub proof fn lemma_secant_retries_bounded(k: nat, iterations: u32)
    requires
        k <= MAX_SECANT_RETRIES,
    ensures
        ({
            let out = spec_secant_outcome(k as u32, budget_after(k) as u32, iterations);
            &&& out matches SecantOutcome::Retry { tries, max_iterations } ==> tries == k + 1
                && tries <= MAX_SECANT_RETRIES && max_iterations == budget_after(k + 1)
            &&& k == MAX_SECANT_RETRIES ==> !(out is Retry)
            &&& iterations < budget_after(k) <==> out is Converged
        }),
{
}

} // verus!
