//! Per-step timer durations with linear backoff: each step has a base
//! duration, and every further view adds a fixed delta.

use vstd::prelude::*;

use crate::types::Step;

verus! {

/// The per-step base durations and the per-view backoff delta, in
/// milliseconds.
#[derive(Clone, Copy, Debug, PartialEq, Eq, Structural)]
pub struct TimeoutParams {
    pub propose: u64,
    pub prevote: u64,
    pub precommit: u64,
    pub commit: u64,
    pub delta: u64,
}

/// The base duration of a step.
pub open spec fn spec_base(params: TimeoutParams, step: Step) -> u64 {
    match step {
        Step::Propose => params.propose,
        Step::Prevote => params.prevote,
        Step::Precommit => params.precommit,
        Step::Commit => params.commit,
    }
}

/// The duration armed for `step` at `view`: base plus `delta * view`,
/// saturating at the largest representable duration.
pub open spec fn spec_timeout(params: TimeoutParams, step: Step, view: u64) -> int {
    let t = spec_base(params, step) + params.delta * view;
    if t > u64::MAX {
        u64::MAX as int
    } else {
        t
    }
}

impl TimeoutParams {
    /// The duration to arm for `step` at `view`.
    pub fn timeout_for(&self, step: Step, view: u64) -> (r: u64)
        ensures
            r == spec_timeout(*self, step, view),
    {
        let base: u64 = match step {
            Step::Propose => self.propose,
            Step::Prevote => self.prevote,
            Step::Precommit => self.precommit,
            Step::Commit => self.commit,
        };
        proof {
            assert((self.delta as int) * (view as int) <= (u64::MAX as int) * (u64::MAX as int))
                by (nonlinear_arith)
                requires
                    0 <= self.delta <= u64::MAX,
                    0 <= view <= u64::MAX,
            ;
        }
        let backoff: u128 = (self.delta as u128) * (view as u128);
        let t: u128 = (base as u128) + backoff;
        if t > u64::MAX as u128 {
            u64::MAX
        } else {
            t as u64
        }
    }
}

} // verus!
