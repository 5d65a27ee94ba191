//! The task view: derives EST, LST, ECT and LCT from the current variable
//! bounds and the fixed positive duration.

use vstd::prelude::*;
use crate::assignments::Assignments;

verus! {

/// Magnitude cap on bounds and on the total duration.  Keeping every time
/// point within this range guarantees that every derived quantity (ECT,
/// LCT, the timeline sentinel `max LCT + sum of durations`) stays inside
/// `i32`.
pub const TIME_LIMIT: i32 = 0x1000_0000;

/// A unary-resource task: an opaque start-time variable handle, a fixed
/// positive duration, and a dense index within its propagator.
#[derive(Clone, Copy, Debug)]
pub struct TaskDisj {
    pub starting_time: usize,
    pub duration: i32,
    pub local_id: usize,
}

/// The constructor argument for one task: tasks are handed to the
/// propagator as `(start_var, duration)` pairs and receive dense
/// `local_id`s in input order.
#[derive(Clone, Copy, Debug)]
pub struct ArgTaskDisj {
    pub starting_time: usize,
    pub duration: i32,
}

/// Earliest start: the current lower bound of the start variable.
pub open spec fn spec_est(t: TaskDisj, b: Seq<(i32, i32)>) -> int {
    b[t.starting_time as int].0 as int
}

/// Latest start: the current upper bound of the start variable.
pub open spec fn spec_lst(t: TaskDisj, b: Seq<(i32, i32)>) -> int {
    b[t.starting_time as int].1 as int
}

/// Earliest completion: EST plus duration.
pub open spec fn spec_ect(t: TaskDisj, b: Seq<(i32, i32)>) -> int {
    spec_est(t, b) + t.duration
}

/// Latest completion: LST plus duration.
pub open spec fn spec_lct(t: TaskDisj, b: Seq<(i32, i32)>) -> int {
    spec_lst(t, b) + t.duration
}

/// The task's variable exists and all its quantities stay in the time
/// range; the interval itself may be empty (the self-check oracle runs on
/// such states).
pub open spec fn task_bounds_ok(t: TaskDisj, b: Seq<(i32, i32)>) -> bool {
    &&& t.starting_time < b.len()
    &&& 0 < t.duration <= TIME_LIMIT
    &&& -TIME_LIMIT <= spec_est(t, b) <= TIME_LIMIT
    &&& -TIME_LIMIT <= spec_lst(t, b) <= TIME_LIMIT
}

/// One task is well formed against a bounds snapshot: bounds in range and
/// a non-empty interval.
pub open spec fn task_wf(t: TaskDisj, b: Seq<(i32, i32)>) -> bool {
    &&& task_bounds_ok(t, b)
    &&& spec_est(t, b) <= spec_lst(t, b)
}

/// Total work of a task list.
pub open spec fn sum_durations(tasks: Seq<TaskDisj>) -> int
    decreases tasks.len(),
{
    if tasks.len() == 0 {
        0
    } else {
        sum_durations(tasks.drop_last()) + tasks.last().duration
    }
}

/// A task array as the propagator holds it: non-empty, every task well
/// formed, `local_id`s dense in input order, and the total work capped so
/// that no timeline arithmetic can overflow.
pub open spec fn tasks_wf(tasks: Seq<TaskDisj>, b: Seq<(i32, i32)>) -> bool {
    &&& tasks.len() >= 1
    &&& forall|i: int| 0 <= i < tasks.len() ==> task_wf(#[trigger] tasks[i], b)
    &&& forall|i: int| 0 <= i < tasks.len() ==> #[trigger] tasks[i].local_id == i
    &&& sum_durations(tasks) <= TIME_LIMIT
}

/// Every prefix of the total work is bounded by the whole, and every single
/// duration is bounded by the sum over any set it belongs to.
pub proof fn lemma_sum_durations_prefix(tasks: Seq<TaskDisj>, i: int)
    requires
        0 <= i <= tasks.len(),
        forall|j: int| 0 <= j < tasks.len() ==> 0 < #[trigger] tasks[j].duration,
    ensures
        0 <= sum_durations(tasks.take(i)) <= sum_durations(tasks),
        i < tasks.len() ==> sum_durations(tasks.take(i)) + tasks[i].duration <= sum_durations(
            tasks,
        ),
    decreases tasks.len(),
{
    if tasks.len() > 0 {
        if i == tasks.len() {
            assert(tasks.take(i) == tasks);
            lemma_sum_durations_prefix(tasks.drop_last(), tasks.len() - 1);
            assert(tasks.drop_last().take(tasks.len() - 1) == tasks.drop_last());
        } else {
            lemma_sum_durations_prefix(tasks.drop_last(), i);
            assert(tasks.drop_last().take(i) == tasks.take(i));
        }
    }
}

/// With every duration positive, the total work bounds the task count.
pub proof fn lemma_sum_durations_at_least_len(tasks: Seq<TaskDisj>)
    requires
        forall|j: int| 0 <= j < tasks.len() ==> 0 < #[trigger] tasks[j].duration,
    ensures
        sum_durations(tasks) >= tasks.len(),
    decreases tasks.len(),
{
    if tasks.len() > 0 {
        lemma_sum_durations_at_least_len(tasks.drop_last());
    }
}

impl TaskDisj {
    /// The task's dense index within its propagator.
    pub fn get_id(task: &TaskDisj) -> (id: usize)
        ensures
            id == task.local_id,
    {
        task.local_id
    }

    /// Earliest start time under the given bounds snapshot.
    pub fn get_est(task: &TaskDisj, assignments: &Assignments) -> (est: i32)
        requires
            task.starting_time < assignments@.len(),
        ensures
            est as int == spec_est(*task, assignments@),
    {
        assignments.lower_bound(task.starting_time)
    }

    /// Latest start time under the given bounds snapshot.
    pub fn get_lst(task: &TaskDisj, assignments: &Assignments) -> (lst: i32)
        requires
            task.starting_time < assignments@.len(),
        ensures
            lst as int == spec_lst(*task, assignments@),
    {
        assignments.upper_bound(task.starting_time)
    }

    /// Earliest completion time under the given bounds snapshot.
    pub fn get_ect(task: &TaskDisj, assignments: &Assignments) -> (ect: i32)
        requires
            task_bounds_ok(*task, assignments@),
        ensures
            ect as int == spec_ect(*task, assignments@),
    {
        assignments.lower_bound(task.starting_time) + task.duration
    }

    /// Latest completion time under the given bounds snapshot.
    pub fn get_lct(task: &TaskDisj, assignments: &Assignments) -> (lct: i32)
        requires
            task_bounds_ok(*task, assignments@),
        ensures
            lct as int == spec_lct(*task, assignments@),
    {
        assignments.upper_bound(task.starting_time) + task.duration
    }
}

} // verus!
