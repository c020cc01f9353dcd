//! Counter of pre-pass executions.

use vstd::prelude::*;

verus! {

/// Pre-pass executions since the last reset.
#[derive(Debug)]
pub struct PrepassMetrics {
    applied: u64,
}

impl PrepassMetrics {
    pub closed spec fn count(self) -> u64 {
        self.applied
    }

    /// A counter at zero.
    pub fn new() -> (r: Self)
        ensures
            r.count() == 0,
    {
        PrepassMetrics { applied: 0 }
    }
}

/// Count one execution; the counter wraps around at its limit.
pub fn prepass_apply(metrics: &mut PrepassMetrics)
    ensures
        final(metrics).count() == (if old(metrics).count() == u64::MAX {
            0
        } else {
            old(metrics).count() + 1
        }),
{
    metrics.applied = metrics.applied.wrapping_add(1);
}

/// Set the counter to zero.
pub fn reset(metrics: &mut PrepassMetrics)
    ensures
        final(metrics).count() == 0,
{
    metrics.applied = 0;
}

/// Executions since the last reset.
pub fn prepass_apply_count(metrics: &PrepassMetrics) -> (r: u64)
    ensures
        r == metrics.count(),
{
    metrics.applied
}

} // verus!
