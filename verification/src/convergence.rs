use crate::schedule::{
    lemma_tracked_counts, plan_of, schedule_of, trial_counts, trial_counts_of, Segment,
};
use vstd::prelude::*;

verus! {

/// What a tracked run hands back: the final price, the running estimate
/// recorded at each checkpoint, and the trial count of each record.
///
/// The crate does not look inside an estimate, so `V` is whatever the caller
/// prices in.
#[derive(Debug)]
pub struct TrackedRun<V> {
    /// The estimate over all trials.
    pub final_price: V,
    /// The running estimates, oldest first.
    pub price_series: Vec<V>,
    /// The trial count behind each running estimate.
    pub trial_counts: Vec<usize>,
}

impl<V: Copy> TrackedRun<V> {
    /// The run holds one estimate for each segment of `plan`, next to the
    /// trial count that the segment reaches, and its final price is the last
    /// of those estimates.
    pub open spec fn records(&self, plan: Seq<Segment>, estimates: Seq<V>) -> bool {
        &&& estimates.len() == plan.len()
        &&& plan.len() >= 1
        &&& self.price_series@ == estimates
        &&& self.trial_counts@ == trial_counts_of(plan)
        &&& self.final_price == estimates.last()
    }

    /// Puts the result of a tracked run together from its plan and from the
    /// running estimate taken at the end of each segment, in order.
    ///
    /// There is a result exactly when the plan is not empty and there is one
    /// estimate for each of its segments. The final price is then the last
    /// entry of the price series.
    pub fn assemble(plan: &Vec<Segment>, estimates: Vec<V>) -> (r: Option<Self>)
        ensures
            r is Some <==> plan@.len() >= 1 && estimates@.len() == plan@.len(),
            r matches Some(run) ==> run.records(plan@, estimates@) && run.final_price
                == run.price_series@.last(),
    {
        if plan.len() == 0 || estimates.len() != plan.len() {
            return None;
        }
        let final_price = estimates[estimates.len() - 1];
        Some(TrackedRun { final_price, price_series: estimates, trial_counts: trial_counts(plan) })
    }
}

/// A run put together from the plan for `total` trials, whatever the
/// candidates and the estimates were: its final price is the last entry of its
/// price series, the series has one entry for each recorded trial count, and
/// the trial counts grow strictly, never exceed `total`, and end at `total`.
pub proof fn lemma_run_of_plan<V: Copy>(
    run: TrackedRun<V>,
    candidates: Seq<usize>,
    total: usize,
    estimates: Seq<V>,
)
    requires
        total >= 1,
        run.records(plan_of(schedule_of(candidates, total)), estimates),
    ensures
        run.final_price == run.price_series@.last(),
        run.price_series@.len() == run.trial_counts@.len(),
        run.trial_counts@.len() >= 1,
        run.trial_counts@.last() == total,
        forall|i: int|
            0 <= i < run.trial_counts@.len() ==> 1 <= #[trigger] run.trial_counts@[i] <= total,
        forall|i: int, j: int|
            0 <= i < j < run.trial_counts@.len() ==> #[trigger] run.trial_counts@[i]
                < #[trigger] run.trial_counts@[j],
{
    lemma_tracked_counts(candidates, total);
}

} // verus!
