use crate::candidates::{
    candidate_checkpoints, candidate_of, candidates_of, lemma_candidate_of, lemma_candidates_ascend,
    lemma_last_candidate,
};
use crate::error::PricingError;
use vstd::prelude::*;

verus! {

/// One stretch of a tracked run: the paths simulated between two recorded
/// checkpoints, and the trial count reached when the stretch is done.
#[derive(Clone, Copy, Debug, PartialEq, Eq, Structural)]
pub struct Segment {
    /// Paths to simulate in this stretch; never zero.
    pub new_paths: usize,
    /// Paths simulated since the start of the run once this stretch is done.
    pub total_paths: usize,
}

/// A candidate checkpoint is kept when it is positive and does not exceed the
/// total trial count.
pub open spec fn admitted(candidate: usize, total: usize) -> bool {
    0 < candidate && candidate <= total
}

/// `admitted` for a fixed total, as a predicate on candidates.
pub open spec fn admission(total: usize) -> spec_fn(usize) -> bool {
    |candidate: usize| admitted(candidate, total)
}

/// The checkpoint schedule for `total` trials: the admitted candidates in
/// their order, closed by `total` itself unless the last of them already is
/// `total`.
pub open spec fn schedule_of(candidates: Seq<usize>, total: usize) -> Seq<usize> {
    let kept = candidates.filter(admission(total));
    if kept.len() > 0 && kept.last() == total {
        kept
    } else {
        kept.push(total)
    }
}

/// Paths simulated once every checkpoint of `schedule` has been visited: the
/// largest checkpoint, or zero for an empty schedule.
pub open spec fn paths_after(schedule: Seq<usize>) -> usize
    decreases schedule.len(),
{
    if schedule.len() == 0 {
        0
    } else {
        let before = paths_after(schedule.drop_last());
        if schedule.last() > before {
            schedule.last()
        } else {
            before
        }
    }
}

/// The segments that visiting `schedule` in order gives rise to. A checkpoint
/// above the count reached so far opens a segment for the paths still missing;
/// one that does not advance the count is passed over and records nothing.
pub open spec fn plan_of(schedule: Seq<usize>) -> Seq<Segment>
    decreases schedule.len(),
{
    if schedule.len() == 0 {
        Seq::empty()
    } else {
        let before = plan_of(schedule.drop_last());
        let reached = paths_after(schedule.drop_last());
        if schedule.last() > reached {
            before.push(
                Segment {
                    new_paths: (schedule.last() - reached) as usize,
                    total_paths: schedule.last(),
                },
            )
        } else {
            before
        }
    }
}

/// The trial counts at which a plan records an estimate, in order.
pub open spec fn trial_counts_of(plan: Seq<Segment>) -> Seq<usize> {
    Seq::new(plan.len(), |i: int| plan[i].total_paths)
}

/// The paths a plan simulates in all.
pub open spec fn paths_in(plan: Seq<Segment>) -> nat
    decreases plan.len(),
{
    if plan.len() == 0 {
        0
    } else {
        paths_in(plan.drop_last()) + plan.last().new_paths as nat
    }
}

/// Segment `i` of a plan is not empty and starts where the one before it
/// stopped, the first one at zero.
pub open spec fn segment_follows(plan: Seq<Segment>, i: int) -> bool {
    let start = if i == 0 {
        0
    } else {
        plan[i - 1].total_paths as int
    };
    plan[i].new_paths >= 1 && plan[i].total_paths == start + plan[i].new_paths
}

/// Every segment of the plan follows the one before it.
pub open spec fn chained(plan: Seq<Segment>) -> bool {
    forall|i: int| 0 <= i < plan.len() ==> #[trigger] segment_follows(plan, i)
}

/// A plan is chained, and its last segment, if there is one, stops at the
/// largest checkpoint of the schedule.
pub proof fn lemma_plan_chained(schedule: Seq<usize>)
    ensures
        chained(plan_of(schedule)),
        plan_of(schedule).len() <= schedule.len(),
        plan_of(schedule).len() == 0 <==> paths_after(schedule) == 0,
        plan_of(schedule).len() > 0 ==> plan_of(schedule).last().total_paths == paths_after(
            schedule,
        ),
    decreases schedule.len(),
{
    if schedule.len() > 0 {
        let front = plan_of(schedule.drop_last());
        let plan = plan_of(schedule);
        lemma_plan_chained(schedule.drop_last());
        assert forall|i: int| 0 <= i < plan.len() implies #[trigger] segment_follows(plan, i) by {
            if i < front.len() {
                assert(segment_follows(front, i));
            }
        }
    }
}

/// The largest checkpoint bounds every checkpoint, and is one of them unless
/// it is zero.
pub proof fn lemma_paths_after_is_maximum(schedule: Seq<usize>)
    ensures
        forall|i: int| 0 <= i < schedule.len() ==> schedule[i] <= paths_after(schedule),
        paths_after(schedule) > 0 ==> schedule.contains(paths_after(schedule)),
    decreases schedule.len(),
{
    if schedule.len() > 0 {
        let front = schedule.drop_last();
        lemma_paths_after_is_maximum(front);
        if schedule.last() > paths_after(front) {
            assert(schedule[schedule.len() - 1] == paths_after(schedule));
        } else if paths_after(front) > 0 {
            let k = choose|k: int| 0 <= k < front.len() && front[k] == paths_after(front);
            assert(schedule[k] == paths_after(schedule));
        }
        assert forall|i: int| 0 <= i < schedule.len() implies schedule[i] <= paths_after(
            schedule,
        ) by {
            if i < front.len() {
                assert(front[i] == schedule[i]);
            }
        }
    }
}

/// In a chained plan the recorded trial counts grow strictly.
pub proof fn lemma_chained_counts_increase(plan: Seq<Segment>, i: int, j: int)
    requires
        chained(plan),
        0 <= i < j < plan.len(),
    ensures
        plan[i].total_paths < plan[j].total_paths,
    decreases j - i,
{
    assert(segment_follows(plan, j));
    if i < j - 1 {
        lemma_chained_counts_increase(plan, i, j - 1);
    }
}

/// A chained plan simulates as many paths in all as its last segment counts.
pub proof fn lemma_chained_paths_total(plan: Seq<Segment>)
    requires
        chained(plan),
    ensures
        paths_in(plan) == if plan.len() == 0 {
            0
        } else {
            plan.last().total_paths as int
        },
    decreases plan.len(),
{
    if plan.len() > 0 {
        let front = plan.drop_last();
        assert forall|i: int| 0 <= i < front.len() implies #[trigger] segment_follows(front, i) by {
            assert(segment_follows(plan, i));
        }
        lemma_chained_paths_total(front);
        assert(segment_follows(plan, plan.len() - 1));
    }
}

/// Every checkpoint of a schedule is admitted, and for a positive total the
/// schedule ends at the total.
pub proof fn lemma_schedule_bounds(candidates: Seq<usize>, total: usize)
    ensures
        schedule_of(candidates, total).len() >= 1,
        schedule_of(candidates, total).last() == total,
        forall|i: int|
            0 <= i < schedule_of(candidates, total).len() ==> #[trigger] schedule_of(
                candidates,
                total,
            )[i] <= total,
        total >= 1 ==> forall|i: int|
            0 <= i < schedule_of(candidates, total).len() ==> #[trigger] schedule_of(
                candidates,
                total,
            )[i] >= 1,
{
    let kept = candidates.filter(admission(total));
    let schedule = schedule_of(candidates, total);
    assert forall|i: int| 0 <= i < schedule.len() implies #[trigger] schedule[i] <= total && (total
        >= 1 ==> schedule[i] >= 1) by {
        if i < kept.len() {
            candidates.lemma_filter_pred(admission(total), i);
            assert(schedule[i] == kept[i]);
        }
    }
}

/// The sequence never steps down.
pub open spec fn ascending(s: Seq<usize>) -> bool {
    forall|i: int, j: int| 0 <= i <= j < s.len() ==> s[i] <= s[j]
}

/// On an ascending schedule the count reached is simply the last checkpoint
/// visited, so a checkpoint is passed over exactly when it repeats the one
/// before it, and the paths still missing are the difference of the two.
pub proof fn lemma_ascending_paths_after(schedule: Seq<usize>)
    requires
        ascending(schedule),
        schedule.len() > 0,
    ensures
        paths_after(schedule) == schedule.last(),
    decreases schedule.len(),
{
    let front = schedule.drop_last();
    if front.len() > 0 {
        assert(ascending(front)) by {
            assert forall|i: int, j: int| 0 <= i <= j < front.len() implies front[i]
                <= front[j] by {
                assert(schedule[i] <= schedule[j]);
            }
        }
        lemma_ascending_paths_after(front);
        assert(front.last() <= schedule[schedule.len() - 1]);
    }
    assert(paths_after(front) <= schedule.last());
}

/// Keeping the admitted candidates of an ascending sequence leaves an
/// ascending sequence.
pub proof fn lemma_kept_ascending(candidates: Seq<usize>, total: usize)
    requires
        ascending(candidates),
    ensures
        ascending(candidates.filter(admission(total))),
    decreases candidates.len(),
{
    reveal(Seq::filter);
    if candidates.len() > 0 {
        let front = candidates.drop_last();
        let kept_front = front.filter(admission(total));
        let kept = candidates.filter(admission(total));
        assert forall|i: int, j: int| 0 <= i <= j < front.len() implies front[i] <= front[j] by {
            assert(candidates[i] <= candidates[j]);
        }
        lemma_kept_ascending(front, total);
        assert forall|i: int, j: int| 0 <= i <= j < kept.len() implies kept[i] <= kept[j] by {
            if j < kept_front.len() {
                assert(kept_front[i] <= kept_front[j]);
            } else if i < kept_front.len() {
                assert(kept_front.contains(kept_front[i]));
                front.lemma_filter_contains_rev(admission(total), kept_front[i]);
                let k = choose|k: int| 0 <= k < front.len() && front[k] == kept_front[i];
                assert(candidates[k] <= candidates[candidates.len() - 1]);
            }
        }
    }
}

/// Where the candidates are ascending, as powers of ten taken in order are,
/// the schedule is ascending too, and `total` closes it as an extra checkpoint
/// exactly when no kept candidate is `total`.
pub proof fn lemma_ascending_schedule(candidates: Seq<usize>, total: usize)
    requires
        ascending(candidates),
    ensures
        ascending(schedule_of(candidates, total)),
        schedule_of(candidates, total) == if candidates.filter(admission(total)).contains(total) {
            candidates.filter(admission(total))
        } else {
            candidates.filter(admission(total)).push(total)
        },
{
    let kept = candidates.filter(admission(total));
    let schedule = schedule_of(candidates, total);
    lemma_kept_ascending(candidates, total);
    lemma_schedule_bounds(candidates, total);
    if kept.contains(total) {
        let k = choose|k: int| 0 <= k < kept.len() && kept[k] == total;
        assert(kept[k] <= kept[kept.len() - 1]);
        candidates.lemma_filter_pred(admission(total), kept.len() - 1);
    }
    assert forall|i: int, j: int| 0 <= i <= j < schedule.len() implies schedule[i]
        <= schedule[j] by {
        if j < kept.len() {
            assert(kept[i] <= kept[j]);
        } else {
            assert(schedule[i] <= total);
        }
    }
}

/// For a total of at least one trial the candidate checkpoints ascend and end
/// at the total, so the schedule is made of the positive candidates alone, in
/// their order, and nothing is appended to it.
pub proof fn lemma_schedule_of_candidates(total: usize)
    requires
        total >= 1,
    ensures
        ascending(candidates_of(total)),
        candidates_of(total).last() == total,
        ascending(schedule_of(candidates_of(total), total)),
        schedule_of(candidates_of(total), total) == candidates_of(total).filter(
            admission(total),
        ),
{
    let candidates = candidates_of(total);
    assert forall|i: int| 0 <= i < 21 implies #[trigger] candidates[i] == candidate_of(
        total as nat,
        i as nat,
    ) by {
        lemma_candidate_of(total as nat, i as nat);
    }
    assert forall|i: int, j: int| 0 <= i <= j < candidates.len() implies candidates[i]
        <= candidates[j] by {
        lemma_candidates_ascend(total as nat, i as nat, j as nat);
    }
    lemma_last_candidate(total as nat);
    assert(candidates.last() == total);
    lemma_ascending_schedule(candidates, total);
    assert(candidates.filter(admission(total)) == candidates.drop_last().filter(
        admission(total),
    ).push(total)) by {
        reveal(Seq::filter);
    }
}

/// For any candidates and any total of at least one trial, the trial counts
/// that a tracked run records grow strictly, none exceeds the total, and the
/// last one is the total itself. The run simulates exactly `total` paths, each
/// in one segment only.
pub proof fn lemma_tracked_counts(candidates: Seq<usize>, total: usize)
    requires
        total >= 1,
    ensures
        ({
            let plan = plan_of(schedule_of(candidates, total));
            let counts = trial_counts_of(plan);
            &&& counts.len() >= 1
            &&& counts.last() == total
            &&& forall|i: int| 0 <= i < counts.len() ==> 1 <= #[trigger] counts[i] <= total
            &&& forall|i: int, j: int|
                0 <= i < j < counts.len() ==> #[trigger] counts[i] < #[trigger] counts[j]
            &&& chained(plan)
            &&& paths_in(plan) == total
        }),
{
    let schedule = schedule_of(candidates, total);
    let plan = plan_of(schedule);
    let counts = trial_counts_of(plan);
    lemma_schedule_bounds(candidates, total);
    lemma_paths_after_is_maximum(schedule);
    lemma_plan_chained(schedule);
    assert(schedule[schedule.len() - 1] <= paths_after(schedule));
    if paths_after(schedule) > total {
        let k = choose|k: int| 0 <= k < schedule.len() && schedule[k] == paths_after(schedule);
        assert(schedule[k] <= total);
    }
    assert(paths_after(schedule) == total);
    lemma_chained_paths_total(plan);
    assert forall|i: int, j: int| 0 <= i < j < counts.len() implies #[trigger] counts[i]
        < #[trigger] counts[j] by {
        lemma_chained_counts_increase(plan, i, j);
    }
    assert forall|i: int| 0 <= i < counts.len() implies 1 <= #[trigger] counts[i] <= total by {
        assert(segment_follows(plan, i));
        if i < counts.len() - 1 {
            lemma_chained_counts_increase(plan, i, counts.len() - 1);
        }
    }
}

/// Builds the checkpoint schedule for `total` trials from candidate
/// checkpoints.
///
/// A total of zero is refused. Otherwise every candidate that is positive and
/// at most `total` is kept in place, and `total` is appended unless the last
/// kept candidate is `total` already.
pub fn checkpoint_schedule(total: usize, candidates: &Vec<usize>) -> (r: Result<
    Vec<usize>,
    PricingError,
>)
    ensures
        total == 0 <==> r is Err,
        r is Err ==> r == Err::<Vec<usize>, PricingError>(PricingError::InvalidParameter),
        r matches Ok(schedule) ==> schedule@ == schedule_of(candidates@, total),
{
    if total == 0 {
        return Err(PricingError::InvalidParameter);
    }
    let mut schedule: Vec<usize> = Vec::new();
    let mut i: usize = 0;
    while i < candidates.len()
        invariant
            i <= candidates.len(),
            schedule@ == candidates@.take(i as int).filter(admission(total)),
        decreases candidates.len() - i,
    {
        let candidate: usize = candidates[i];
        proof {
            let next = candidates@.take(i + 1);
            assert(next.drop_last() == candidates@.take(i as int));
            assert(next.last() == candidate);
            reveal(Seq::filter);
        }
        if 0 < candidate && candidate <= total {
            schedule.push(candidate);
        }
        i += 1;
    }
    assert(candidates@.take(i as int) == candidates@);
    if schedule.len() == 0 || schedule[schedule.len() - 1] != total {
        schedule.push(total);
    }
    Ok(schedule)
}

/// Turns a schedule into the segments to simulate, visiting its checkpoints
/// in order and passing over each one that does not advance the trial count.
pub fn plan_segments(schedule: &Vec<usize>) -> (plan: Vec<Segment>)
    ensures
        plan@ == plan_of(schedule@),
        chained(plan@),
{
    let mut plan: Vec<Segment> = Vec::new();
    let mut reached: usize = 0;
    let mut i: usize = 0;
    while i < schedule.len()
        invariant
            i <= schedule.len(),
            plan@ == plan_of(schedule@.take(i as int)),
            reached == paths_after(schedule@.take(i as int)),
        decreases schedule.len() - i,
    {
        let checkpoint: usize = schedule[i];
        proof {
            let next = schedule@.take(i + 1);
            assert(next.drop_last() == schedule@.take(i as int));
            assert(next.last() == checkpoint);
        }
        if checkpoint > reached {
            plan.push(Segment { new_paths: checkpoint - reached, total_paths: checkpoint });
            reached = checkpoint;
        }
        i += 1;
    }
    proof {
        assert(schedule@.take(i as int) == schedule@);
        lemma_plan_chained(schedule@);
    }
    plan
}

/// Plans a tracked run of `total` trials from given candidate checkpoints:
/// the segments to simulate one after the other, with the trial count to
/// record after each.
///
/// A total of zero is refused. Otherwise, whatever the candidates are, the
/// plan is never empty, its recorded counts grow strictly and end at `total`,
/// and its segments add up to `total` paths.
pub fn plan_for_candidates(total: usize, candidates: &Vec<usize>) -> (r: Result<
    Vec<Segment>,
    PricingError,
>)
    ensures
        total == 0 <==> r is Err,
        r is Err ==> r == Err::<Vec<Segment>, PricingError>(PricingError::InvalidParameter),
        r matches Ok(plan) ==> {
            &&& plan@ == plan_of(schedule_of(candidates@, total))
            &&& plan@.len() >= 1
            &&& plan@.last().total_paths == total
            &&& chained(plan@)
            &&& paths_in(plan@) == total
            &&& forall|i: int| 0 <= i < plan@.len() ==> 1 <= (#[trigger] plan@[i]).total_paths <= total
            &&& forall|i: int, j: int|
                0 <= i < j < plan@.len() ==> (#[trigger] plan@[i]).total_paths < (
                #[trigger] plan@[j]).total_paths
        },
{
    match checkpoint_schedule(total, candidates) {
        Err(e) => Err(e),
        Ok(schedule) => {
            let plan = plan_segments(&schedule);
            proof {
                lemma_tracked_counts(candidates@, total);
                let counts = trial_counts_of(plan@);
                assert(counts.last() == plan@.last().total_paths);
                assert forall|i: int| 0 <= i < plan@.len() implies 1 <= (
                #[trigger] plan@[i]).total_paths <= total by {
                    assert(counts[i] == plan@[i].total_paths);
                }
                assert forall|i: int, j: int| 0 <= i < j < plan@.len() implies (
                #[trigger] plan@[i]).total_paths < (#[trigger] plan@[j]).total_paths by {
                    assert(counts[i] == plan@[i].total_paths);
                    assert(counts[j] == plan@[j].total_paths);
                }
            }
            Ok(plan)
        },
    }
}

/// Plans a tracked run of `total` trials: the segments to simulate one after
/// the other, with the trial count to record after each. The checkpoints are
/// spaced evenly on a logarithmic scale from a tenth of the total up to the
/// total.
///
/// A total of zero is refused. Otherwise the plan is never empty, its recorded
/// counts grow strictly and end at `total`, and its segments add up to `total`
/// paths.
pub fn tracking_plan(total: usize) -> (r: Result<Vec<Segment>, PricingError>)
    ensures
        total == 0 <==> r is Err,
        r is Err ==> r == Err::<Vec<Segment>, PricingError>(PricingError::InvalidParameter),
        r matches Ok(plan) ==> {
            &&& plan@ == plan_of(schedule_of(candidates_of(total), total))
            &&& plan@.len() >= 1
            &&& plan@.last().total_paths == total
            &&& chained(plan@)
            &&& paths_in(plan@) == total
            &&& forall|i: int| 0 <= i < plan@.len() ==> 1 <= (#[trigger] plan@[i]).total_paths <= total
            &&& forall|i: int, j: int|
                0 <= i < j < plan@.len() ==> (#[trigger] plan@[i]).total_paths < (
                #[trigger] plan@[j]).total_paths
        },
{
    if total == 0 {
        return Err(PricingError::InvalidParameter);
    }
    let candidates = candidate_checkpoints(total);
    plan_for_candidates(total, &candidates)
}

/// The trial counts that a plan records, in order.
pub fn trial_counts(plan: &Vec<Segment>) -> (counts: Vec<usize>)
    ensures
        counts@ == trial_counts_of(plan@),
{
    let mut counts: Vec<usize> = Vec::new();
    let mut i: usize = 0;
    while i < plan.len()
        invariant
            i <= plan.len(),
            counts@.len() == i,
            forall|k: int| 0 <= k < i ==> counts@[k] == plan@[k].total_paths,
        decreases plan.len() - i,
    {
        counts.push(plan[i].total_paths);
        i += 1;
    }
    counts
}

} // verus!
