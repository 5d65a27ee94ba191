//! The earliest-completion-time timeline and its mirror.
//!
//! A timeline is a per-propagation-call scratch structure.  It slices the
//! time axis at the distinct earliest start times of the tasks (latest
//! completion times for the mirror), appends one sentinel slice large
//! enough to absorb any remaining work, and keeps the remaining capacity of
//! every slice.  Scheduling a task pours its duration into the slices from
//! its own start slice onward; fully consumed slices are merged into their
//! right neighbour through a union-find, so the next free slice is always
//! one `find` away.
//!
//! The executable code is verified against a small mathematical model:
//! [`first_free`] names the next slice with remaining capacity and
//! [`pour`] is the reference semantics of `schedule_task` on the capacity
//! sequence alone.

use vstd::prelude::*;
use crate::assignments::Assignments;
use crate::task::{
    TaskDisj, task_wf, tasks_wf, spec_est, spec_lst, spec_ect, spec_lct, sum_durations,
    lemma_sum_durations_prefix, TIME_LIMIT,
};
use crate::union_find::UnionFind;
use crate::sorting::{
    sort_pairs, sorted_pairs, pair_le, lemma_multiset_membership, lemma_multiset_no_duplicates,
};

verus! {

/// Index of the first slice at or after `k` with remaining capacity
/// (`c.len()` if there is none).
#[verifier::opaque]
pub open spec fn first_free(c: Seq<i32>, k: int) -> int
    decreases c.len() - k
        when 0 <= k <= c.len()
{
    if k >= c.len() {
        k
    } else if c[k] > 0 {
        k
    } else {
        first_free(c, k + 1)
    }
}

/// Reference semantics of pouring `rho` units of work into the capacities
/// `c`, starting at the free slice `k`: the resulting capacities, and the
/// slice that received the last unit of work.
#[verifier::opaque]
pub open spec fn pour(c: Seq<i32>, k: int, rho: int) -> (Seq<i32>, int)
    decreases rho,
{
    if rho <= 0 || k < 0 || k >= c.len() || c[k] <= 0 {
        (c, k)
    } else {
        let delta = if (c[k] as int) < rho {
            c[k] as int
        } else {
            rho
        };
        let c2 = c.update(k, (c[k] - delta) as i32);
        if c2[k] == 0 {
            pour(c2, first_free(c2, k), rho - delta)
        } else {
            (c2, k)
        }
    }
}

/// The largest latest completion time over a non-empty task list.
pub open spec fn max_lct(tasks: Seq<TaskDisj>, b: Seq<(i32, i32)>) -> int
    recommends
        tasks.len() >= 1,
    decreases tasks.len(),
{
    if tasks.len() <= 1 {
        spec_lct(tasks[0], b)
    } else {
        let rest = max_lct(tasks.drop_last(), b);
        if spec_lct(tasks.last(), b) > rest {
            spec_lct(tasks.last(), b)
        } else {
            rest
        }
    }
}

/// The smallest earliest start time over a non-empty task list.
pub open spec fn min_est(tasks: Seq<TaskDisj>, b: Seq<(i32, i32)>) -> int
    recommends
        tasks.len() >= 1,
    decreases tasks.len(),
{
    if tasks.len() <= 1 {
        spec_est(tasks[0], b)
    } else {
        let rest = min_est(tasks.drop_last(), b);
        if spec_est(tasks.last(), b) < rest {
            spec_est(tasks.last(), b)
        } else {
            rest
        }
    }
}

/// Total duration of the tasks whose `local_id` is not in `scheduled`:
/// the work the timeline may still be asked to absorb.
pub open spec fn unscheduled_durations(tasks: Seq<TaskDisj>, scheduled: Set<int>) -> int
    decreases tasks.len(),
{
    if tasks.len() == 0 {
        0
    } else {
        unscheduled_durations(tasks.drop_last(), scheduled) + if scheduled.contains(
            tasks.len() - 1,
        ) {
            0
        } else {
            tasks.last().duration as int
        }
    }
}

pub proof fn lemma_max_lct_bounds(tasks: Seq<TaskDisj>, b: Seq<(i32, i32)>)
    requires
        tasks.len() >= 1,
        forall|i: int| 0 <= i < tasks.len() ==> task_wf(#[trigger] tasks[i], b),
    ensures
        forall|i: int| 0 <= i < tasks.len() ==> spec_lct(#[trigger] tasks[i], b) <= max_lct(
            tasks,
            b,
        ),
        exists|i: int| 0 <= i < tasks.len() && spec_lct(#[trigger] tasks[i], b) == max_lct(
            tasks,
            b,
        ),
        -2 * TIME_LIMIT <= max_lct(tasks, b) <= 2 * TIME_LIMIT,
    decreases tasks.len(),
{
    if tasks.len() == 1 {
        assert(spec_lct(tasks[0], b) == max_lct(tasks, b));
    } else {
        lemma_max_lct_bounds(tasks.drop_last(), b);
        assert forall|i: int| 0 <= i < tasks.len() implies spec_lct(#[trigger] tasks[i], b)
            <= max_lct(tasks, b) by {
            if i < tasks.len() - 1 {
                assert(tasks.drop_last()[i] == tasks[i]);
            }
        }
        if spec_lct(tasks.last(), b) > max_lct(tasks.drop_last(), b) {
            assert(spec_lct(tasks[tasks.len() - 1], b) == max_lct(tasks, b));
        } else {
            let i = choose|i: int|
                0 <= i < tasks.drop_last().len() && spec_lct(
                    #[trigger] tasks.drop_last()[i],
                    b,
                ) == max_lct(tasks.drop_last(), b);
            assert(spec_lct(tasks[i], b) == max_lct(tasks, b));
        }
    }
}

pub proof fn lemma_min_est_bounds(tasks: Seq<TaskDisj>, b: Seq<(i32, i32)>)
    requires
        tasks.len() >= 1,
        forall|i: int| 0 <= i < tasks.len() ==> task_wf(#[trigger] tasks[i], b),
    ensures
        forall|i: int| 0 <= i < tasks.len() ==> spec_est(#[trigger] tasks[i], b) >= min_est(
            tasks,
            b,
        ),
        exists|i: int| 0 <= i < tasks.len() && spec_est(#[trigger] tasks[i], b) == min_est(
            tasks,
            b,
        ),
        -TIME_LIMIT <= min_est(tasks, b) <= TIME_LIMIT,
    decreases tasks.len(),
{
    if tasks.len() == 1 {
        assert(spec_est(tasks[0], b) == min_est(tasks, b));
    } else {
        lemma_min_est_bounds(tasks.drop_last(), b);
        assert forall|i: int| 0 <= i < tasks.len() implies spec_est(#[trigger] tasks[i], b)
            >= min_est(tasks, b) by {
            if i < tasks.len() - 1 {
                assert(tasks.drop_last()[i] == tasks[i]);
            }
        }
        if spec_est(tasks.last(), b) < min_est(tasks.drop_last(), b) {
            assert(spec_est(tasks[tasks.len() - 1], b) == min_est(tasks, b));
        } else {
            let i = choose|i: int|
                0 <= i < tasks.drop_last().len() && spec_est(
                    #[trigger] tasks.drop_last()[i],
                    b,
                ) == min_est(tasks.drop_last(), b);
            assert(spec_est(tasks[i], b) == min_est(tasks, b));
        }
    }
}

/// With nothing scheduled the outstanding work is the total work.
pub proof fn lemma_unscheduled_empty(tasks: Seq<TaskDisj>)
    ensures
        unscheduled_durations(tasks, Set::<int>::empty()) == sum_durations(tasks),
    decreases tasks.len(),
{
    if tasks.len() > 0 {
        lemma_unscheduled_empty(tasks.drop_last());
    }
}

/// Outstanding work is non-negative and bounded by the total work.
pub proof fn lemma_unscheduled_range(tasks: Seq<TaskDisj>, scheduled: Set<int>)
    requires
        forall|j: int| 0 <= j < tasks.len() ==> 0 < #[trigger] tasks[j].duration,
    ensures
        0 <= unscheduled_durations(tasks, scheduled) <= sum_durations(tasks),
    decreases tasks.len(),
{
    if tasks.len() > 0 {
        lemma_unscheduled_range(tasks.drop_last(), scheduled);
    }
}

/// The duration of any unscheduled task is part of the outstanding work.
pub proof fn lemma_unscheduled_lower(tasks: Seq<TaskDisj>, scheduled: Set<int>, id: int)
    requires
        forall|j: int| 0 <= j < tasks.len() ==> 0 < #[trigger] tasks[j].duration,
        0 <= id < tasks.len(),
        !scheduled.contains(id),
    ensures
        tasks[id].duration <= unscheduled_durations(tasks, scheduled),
    decreases tasks.len(),
{
    if id == tasks.len() - 1 {
        lemma_unscheduled_range(tasks.drop_last(), scheduled);
    } else {
        lemma_unscheduled_lower(tasks.drop_last(), scheduled, id);
    }
}

/// Scheduling one more task removes exactly its duration from the
/// outstanding work.
pub proof fn lemma_unscheduled_insert(tasks: Seq<TaskDisj>, scheduled: Set<int>, id: int)
    requires
        0 <= id < tasks.len(),
        !scheduled.contains(id),
    ensures
        unscheduled_durations(tasks, scheduled.insert(id)) == unscheduled_durations(
            tasks,
            scheduled,
        ) - tasks[id].duration,
    decreases tasks.len(),
{
    if tasks.len() > 0 {
        if id == tasks.len() - 1 {
            assert(unscheduled_durations(tasks.drop_last(), scheduled.insert(id))
                == unscheduled_durations(tasks.drop_last(), scheduled)) by {
                lemma_unscheduled_frame(tasks.drop_last(), scheduled, scheduled.insert(id));
            }
        } else {
            lemma_unscheduled_insert(tasks.drop_last(), scheduled, id);
        }
    }
}

/// Outstanding work only looks at membership of indices below the length.
proof fn lemma_unscheduled_frame(tasks: Seq<TaskDisj>, s1: Set<int>, s2: Set<int>)
    requires
        forall|j: int| 0 <= j < tasks.len() ==> s1.contains(j) == s2.contains(j),
    ensures
        unscheduled_durations(tasks, s1) == unscheduled_durations(tasks, s2),
    decreases tasks.len(),
{
    if tasks.len() > 0 {
        lemma_unscheduled_frame(tasks.drop_last(), s1, s2);
    }
}

/// `first_free` lands on a free slice when one exists at or after `k`.
pub proof fn lemma_first_free_in_range(c: Seq<i32>, k: int)
    requires
        0 <= k < c.len(),
        c[c.len() - 1] > 0,
    ensures
        k <= first_free(c, k) < c.len(),
        c[first_free(c, k)] > 0,
    decreases c.len() - k,
{
    reveal(first_free);
    if !(c[k] > 0) {
        lemma_first_free_in_range(c, k + 1);
    }
}

/// `first_free` only reads the capacities at or after its start index.
proof fn lemma_first_free_frame(c1: Seq<i32>, c2: Seq<i32>, k: int)
    requires
        c1.len() == c2.len(),
        0 <= k <= c1.len(),
        forall|j: int| k <= j < c1.len() ==> c1[j] == c2[j],
    ensures
        first_free(c1, k) == first_free(c2, k),
    decreases c1.len() - k,
{
    reveal(first_free);
    if k < c1.len() && !(c1[k] > 0) {
        lemma_first_free_frame(c1, c2, k + 1);
    }
}

/// An update that keeps a slice's free/consumed status keeps every
/// `first_free` value.
proof fn lemma_first_free_same_pattern(c1: Seq<i32>, c2: Seq<i32>, k: int)
    requires
        c1.len() == c2.len(),
        0 <= k <= c1.len(),
        forall|j: int| 0 <= j < c1.len() ==> (c1[j] > 0 <==> #[trigger] c2[j] > 0),
    ensures
        first_free(c1, k) == first_free(c2, k),
    decreases c1.len() - k,
{
    reveal(first_free);
    if k < c1.len() && !(c1[k] > 0) {
        lemma_first_free_same_pattern(c1, c2, k + 1);
    }
}

/// Consuming the free slice `k` entirely redirects exactly the `first_free`
/// values that used to land on `k`.
proof fn lemma_first_free_after_zero(c: Seq<i32>, k: int, j: int)
    requires
        0 <= k < c.len(),
        c[k] > 0,
        0 <= j <= c.len(),
    ensures
        first_free(c.update(k, 0i32), j) == if first_free(c, j) == k {
            first_free(c.update(k, 0i32), k + 1)
        } else {
            first_free(c, j)
        },
    decreases c.len() - j,
{
    reveal(first_free);
    let c2 = c.update(k, 0i32);
    if j == c.len() {
    } else if j == k {
        assert(first_free(c, k) == k);
        assert(first_free(c2, k) == first_free(c2, k + 1));
    } else if c[j] > 0 {
    } else {
        lemma_first_free_after_zero(c, k, j + 1);
    }
}

/// The forward timeline: earliest completion time of the scheduled set.
pub struct Timeline {
    /// Strictly increasing time points; the last one is the sentinel.
    pub t: Vec<i32>,
    /// Remaining capacity of the slice `[t[k], t[k+1])`.
    pub c: Vec<i32>,
    /// Slice index of each task's earliest start time, by `local_id`.
    pub m: Vec<usize>,
    /// Rightmost slice that has received work; `-1` while nothing has.
    pub e: i32,
    /// Merges fully consumed slices into their right neighbour.
    pub s: UnionFind,
    /// The task array this timeline was built from.
    pub tasks_g: Ghost<Seq<TaskDisj>>,
    /// The bounds snapshot this timeline was built from.
    pub bounds_g: Ghost<Seq<(i32, i32)>>,
    /// The `local_id`s scheduled so far.
    pub scheduled: Ghost<Set<int>>,
}

impl Timeline {
    pub open spec fn slices(self) -> int {
        self.c@.len() as int
    }

    /// Structural well-formedness, kept by construction and by every
    /// `schedule_task`.
    pub open spec fn wf(self) -> bool {
        let tasks = self.tasks_g@;
        let b = self.bounds_g@;
        &&& tasks_wf(tasks, b)
        &&& self.t@.len() == self.c@.len() + 1
        &&& self.c@.len() >= 1
        &&& self.t@.len() <= tasks.len() + 1
        &&& self.m@.len() == tasks.len()
        &&& forall|k: int| 0 <= k < self.c@.len() ==> (#[trigger] self.t@[k] as int) < self.t@[
            k + 1
        ] as int
        &&& forall|k: int| 0 <= k < self.c@.len() ==> 0 <= (#[trigger] self.c@[k] as int)
            <= self.t@[k + 1] - self.t@[k]
        &&& forall|k: int| 0 <= k < self.t@.len() ==> -2 * TIME_LIMIT <= (
        #[trigger] self.t@[k] as int) <= 3 * TIME_LIMIT
        &&& self.s.wf()
        &&& self.s.len() == self.t@.len()
        &&& forall|j: int| 0 <= j < self.s.len() ==> #[trigger] self.s.root(j) == (if j
            == self.c@.len() {
            j
        } else {
            first_free(self.c@, j)
        })
        &&& -1 <= self.e < self.c@.len()
        &&& forall|i: int| 0 <= i < tasks.len() ==> (#[trigger] self.m@[i] as int)
            < self.c@.len()
        &&& forall|i: int| 0 <= i < tasks.len() ==> self.t@[#[trigger] self.m@[i] as int] as int
            == spec_est(tasks[i], b)
        &&& self.scheduled@.subset_of(Set::new(|i: int| 0 <= i < tasks.len()))
        &&& self.c@[self.c@.len() - 1] > unscheduled_durations(tasks, self.scheduled@)
    }

    /// What construction yields: nothing scheduled, the time points are
    /// exactly the distinct earliest start times plus the sentinel
    /// `max LCT + total work`, and every slice is full.
    pub open spec fn fresh(self, tasks: Seq<TaskDisj>, b: Seq<(i32, i32)>) -> bool {
        &&& self.tasks_g@ == tasks
        &&& self.bounds_g@ == b
        &&& self.scheduled@ == Set::<int>::empty()
        &&& self.e == -1
        &&& forall|x: int| 0 <= x < self.t@.len() - 1 ==> exists|i: int|
            0 <= i < tasks.len() && spec_est(tasks[i], b) == #[trigger] self.t@[x] as int
        &&& self.t@[self.t@.len() - 1] as int == max_lct(tasks, b) + sum_durations(tasks)
        &&& forall|k: int| 0 <= k < self.c@.len() ==> (#[trigger] self.c@[k] as int) == self.t@[
            k + 1
        ] - self.t@[k]
    }

    /// The earliest completion time of the work scheduled so far; `0` by
    /// convention while nothing is scheduled (the caller treats that as
    /// "no push").
    pub open spec fn spec_completion(self) -> int {
        if self.e < 0 {
            0
        } else {
            self.t@[self.e + 1] - self.c@[self.e as int]
        }
    }

    /// Builds the timeline for `tasks` against the bounds snapshot in
    /// `assignments`: time points at the distinct ESTs, one sentinel at
    /// `max LCT + total work`, all slices at full capacity, nothing
    /// scheduled.
    pub fn new(tasks: &Vec<TaskDisj>, assignments: &Assignments) -> (tl: Timeline)
        requires
            tasks_wf(tasks@, assignments@),
        ensures
            tl.wf(),
            tl.fresh(tasks@, assignments@),
    {
        let ghost b = assignments@;
        let n = tasks.len();
        // (EST, local_id) pairs, to be sorted ascending with ties by id.
        let mut pairs: Vec<(i32, usize)> = Vec::new();
        let mut i: usize = 0;
        while i < n
            invariant
                i <= n,
                n == tasks@.len(),
                tasks_wf(tasks@, b),
                b == assignments@,
                pairs@.len() == i,
                forall|q: int| 0 <= q < i ==> (#[trigger] pairs@[q]).1 == q && pairs@[q].0 as int
                    == spec_est(tasks@[q], b),
            decreases n - i,
        {
            let est = TaskDisj::get_est(&tasks[i], assignments);
            pairs.push((est, i));
            i = i + 1;
        }
        let ghost orig = pairs@;
        sort_pairs(&mut pairs);
        proof {
            lemma_multiset_membership(orig, pairs@);
            lemma_multiset_membership(pairs@, orig);
            assert(orig.no_duplicates());
            lemma_multiset_no_duplicates(orig, pairs@);
            assert forall|q: int| 0 <= q < n implies (#[trigger] pairs@[q]).1 < n && pairs@[q].0
                as int == spec_est(tasks@[pairs@[q].1 as int], b) by {
                assert(orig.contains(pairs@[q]));
                let w = choose|w: int| 0 <= w < orig.len() && orig[w] == pairs@[q];
                assert(orig[w].1 == w);
            }
            assert forall|id: int| 0 <= id < n implies pairs@.contains(#[trigger] orig[id])
                by {
                assert(pairs@.to_multiset() == orig.to_multiset());
            }
            assert forall|q1: int, q2: int| 0 <= q1 < q2 < n implies (#[trigger] pairs@[q1]).1
                != (#[trigger] pairs@[q2]).1 by {
                if pairs@[q1].1 == pairs@[q2].1 {
                    assert(pairs@[q1].0 == pairs@[q2].0);
                    assert(pairs@[q1] == pairs@[q2]);
                    assert(pairs@.no_duplicates());
                }
            }
        }
        // Time points: the distinct ESTs in ascending order; m maps each
        // task to the slice whose left endpoint is its EST.
        let mut t: Vec<i32> = Vec::new();
        let mut m: Vec<usize> = Vec::new();
        let mut z: usize = 0;
        while z < n
            invariant
                z <= n,
                m@.len() == z,
            decreases n - z,
        {
            m.push(0);
            z = z + 1;
        }
        let mut idx: usize = 0;
        while idx < n
            invariant
                idx <= n,
                n == tasks@.len(),
                n >= 1,
                tasks_wf(tasks@, b),
                m@.len() == n,
                pairs@.len() == n,
                sorted_pairs(pairs@),
                forall|q: int| 0 <= q < n ==> (#[trigger] pairs@[q]).1 < n && pairs@[q].0 as int
                    == spec_est(tasks@[pairs@[q].1 as int], b),
                forall|q1: int, q2: int| 0 <= q1 < q2 < n ==> (#[trigger] pairs@[q1]).1 != (
                #[trigger] pairs@[q2]).1,
                t@.len() <= idx,
                idx == 0 ==> t@.len() == 0,
                idx > 0 ==> t@.len() >= 1 && t@[t@.len() - 1] == pairs@[idx - 1].0,
                forall|x: int| 0 <= x < t@.len() - 1 ==> (#[trigger] t@[x] as int) < t@[x
                    + 1] as int,
                forall|x: int| 0 <= x < t@.len() ==> exists|i2: int|
                    0 <= i2 < n && spec_est(tasks@[i2], b) == #[trigger] t@[x] as int,
                forall|q: int| 0 <= q < idx ==> (#[trigger] m@[pairs@[q].1 as int] as int)
                    < t@.len() && t@[m@[pairs@[q].1 as int] as int] == pairs@[q].0,
            decreases n - idx,
        {
            let pr = pairs[idx];
            let est = pr.0;
            let id = pr.1;
            let ghost t_old = t@;
            if t.len() == 0 || t[t.len() - 1] != est {
                proof {
                    if idx > 0 {
                        assert(pair_le(pairs@[idx - 1], pairs@[idx as int]));
                    }
                }
                t.push(est);
            }
            proof {
                assert(t@[t@.len() - 1] == est);
                if t@.len() > 1 && t@.len() > t_old.len() {
                    assert(t@[t@.len() - 2] == t_old[t_old.len() - 1]);
                }
                assert forall|x: int| 0 <= x < t@.len() implies exists|i2: int|
                    0 <= i2 < n && spec_est(tasks@[i2], b) == #[trigger] t@[x] as int by {
                    if x == t@.len() - 1 && t@.len() > t_old.len() {
                        assert(spec_est(tasks@[id as int], b) == t@[x] as int);
                    } else {
                        assert(t@[x] == t_old[x]);
                    }
                }
            }
            m.set(id, t.len() - 1);
            proof {
                assert forall|q: int| 0 <= q < idx + 1 implies (#[trigger] m@[pairs@[q].1
                    as int] as int) < t@.len() && t@[m@[pairs@[q].1 as int] as int] == pairs@[
                q].0 by {
                    if q < idx {
                        assert(pairs@[q].1 != pairs@[idx as int].1);
                    }
                }
            }
            idx = idx + 1;
        }
        proof {
            assert forall|id: int| 0 <= id < n implies (#[trigger] m@[id] as int) < t@.len()
                && t@[m@[id] as int] as int == spec_est(tasks@[id], b) by {
                assert(pairs@.contains(orig[id]));
                let q = choose|q: int| 0 <= q < pairs@.len() && pairs@[q] == orig[id];
                assert(pairs@[q].1 == id);
                assert((m@[pairs@[q].1 as int] as int) < t@.len());
            }
        }
        // The sentinel: larger than any EST by at least the total work.
        let mut highest_lct: i32 = TaskDisj::get_lct(&tasks[0], assignments);
        proof {
            assert(tasks@.take(1)[0] == tasks@[0]);
        }
        let mut i2: usize = 1;
        while i2 < n
            invariant
                1 <= i2 <= n,
                n == tasks@.len(),
                n >= 1,
                tasks_wf(tasks@, b),
                b == assignments@,
                highest_lct as int == max_lct(tasks@.take(i2 as int), b),
            decreases n - i2,
        {
            let l = TaskDisj::get_lct(&tasks[i2], assignments);
            proof {
                assert(tasks@.take(i2 + 1).drop_last() == tasks@.take(i2 as int));
                assert(tasks@.take(i2 + 1).last() == tasks@[i2 as int]);
            }
            if l > highest_lct {
                highest_lct = l;
            }
            i2 = i2 + 1;
        }
        proof {
            assert(tasks@.take(n as int) == tasks@);
            lemma_max_lct_bounds(tasks@, b);
        }
        let mut total: i32 = 0;
        let mut i3: usize = 0;
        while i3 < n
            invariant
                i3 <= n,
                n == tasks@.len(),
                tasks_wf(tasks@, b),
                total as int == sum_durations(tasks@.take(i3 as int)),
                0 <= total,
            decreases n - i3,
        {
            proof {
                lemma_sum_durations_prefix(tasks@, i3 as int);
                assert(tasks@.take(i3 + 1).drop_last() == tasks@.take(i3 as int));
                assert(tasks@.take(i3 + 1).last() == tasks@[i3 as int]);
            }
            total = total + tasks[i3].duration;
            i3 = i3 + 1;
        }
        proof {
            assert(tasks@.take(n as int) == tasks@);
        }
        let sentinel = highest_lct + total;
        proof {
            // The sentinel strictly exceeds the largest EST: the task with
            // that EST completes no earlier than EST + 1, so max LCT is
            // already past it.
            let j = pairs@[n - 1].1 as int;
            assert(spec_lct(tasks@[j], b) <= max_lct(tasks@, b));
            assert(spec_est(tasks@[j], b) < spec_lct(tasks@[j], b));
            assert(t@[t@.len() - 1] as int == spec_est(tasks@[j], b));
            assert(t@[t@.len() - 1] < sentinel);
        }
        t.push(sentinel);
        proof {
            assert forall|x: int| 0 <= x < t@.len() implies -2 * TIME_LIMIT <= (
            #[trigger] t@[x] as int) <= 3 * TIME_LIMIT by {
                if x < t@.len() - 1 {
                    let i4 = choose|i4: int|
                        0 <= i4 < n && spec_est(tasks@[i4], b) == t@[x] as int;
                    assert(task_wf(tasks@[i4], b));
                }
            }
        }
        // Slice capacities.
        let tn = t.len();
        let mut c: Vec<i32> = Vec::new();
        let mut k2: usize = 0;
        while k2 < tn - 1
            invariant
                k2 <= tn - 1,
                tn == t@.len(),
                tn >= 2,
                c@.len() == k2,
                forall|x: int| 0 <= x < tn - 1 ==> (#[trigger] t@[x] as int) < t@[x + 1] as int,
                forall|x: int| 0 <= x < tn ==> -2 * TIME_LIMIT <= (#[trigger] t@[x] as int) <= 3
                    * TIME_LIMIT,
                forall|x: int| 0 <= x < k2 ==> (#[trigger] c@[x] as int) == t@[x + 1] - t@[x],
            decreases tn - k2,
        {
            let d = t[k2 + 1] - t[k2];
            c.push(d);
            k2 = k2 + 1;
        }
        let s = UnionFind::new(tn);
        let tl = Timeline {
            t,
            c,
            m,
            e: -1,
            s,
            tasks_g: Ghost(tasks@),
            bounds_g: Ghost(b),
            scheduled: Ghost(Set::<int>::empty()),
        };
        proof {
            assert forall|j: int| 0 <= j < tl.s.len() implies #[trigger] tl.s.root(j) == (if j
                == tl.c@.len() {
                j
            } else {
                first_free(tl.c@, j)
            }) by {
                reveal(first_free);
                if j < tl.c@.len() {
                    assert(tl.c@[j] > 0);
                    assert(first_free(tl.c@, j) == j);
                }
            }
            lemma_unscheduled_empty(tasks@);
            // the tail slice holds the whole total work and one more unit
            assert(tl.c@[tl.c@.len() - 1] as int == sentinel - tl.t@[tl.t@.len() - 2]);
            assert(tl.c@[tl.c@.len() - 1] > unscheduled_durations(tasks@, Set::<int>::empty()));
        }
        tl
    }

    /// Pours `duration(task)` units of work into the slices, starting at
    /// the first free slice at or after the task's own start slice.  The
    /// effect on the capacities and the envelope is exactly [`pour`].
    pub fn schedule_task(&mut self, task: &TaskDisj)
        requires
            old(self).wf(),
            (task.local_id as int) < old(self).tasks_g@.len(),
            *task == old(self).tasks_g@[task.local_id as int],
            !old(self).scheduled@.contains(task.local_id as int),
        ensures
            final(self).wf(),
            final(self).t@ == old(self).t@,
            final(self).m@ == old(self).m@,
            final(self).tasks_g@ == old(self).tasks_g@,
            final(self).bounds_g@ == old(self).bounds_g@,
            final(self).scheduled@ == old(self).scheduled@.insert(task.local_id as int),
            ({
                let start = first_free(old(self).c@, old(self).m@[task.local_id as int] as int);
                let (c2, kf) = pour(old(self).c@, start, task.duration as int);
                final(self).c@ == c2 && final(self).e as int == (if old(self).e as int >= kf {
                    old(self).e as int
                } else {
                    kf
                })
            }),
    {
        let ghost tasks0 = self.tasks_g@;
        let ghost b0 = self.bounds_g@;
        let ghost t0 = self.t@;
        let ghost m0 = self.m@;
        let ghost e0 = self.e;
        let ghost sched0 = self.scheduled@;
        let ghost c0 = self.c@;
        let tid = TaskDisj::get_id(task);
        proof {
            lemma_unscheduled_range(tasks0, sched0);
            lemma_unscheduled_lower(tasks0, sched0, tid as int);
        }
        let clen = self.c.len();
        let start = self.m[tid];
        let mut k: usize = self.s.find(start);
        proof {
            lemma_first_free_in_range(c0, start as int);
            reveal(first_free);
            reveal(pour);
        }
        let mut rho: i32 = task.duration;
        let ghost k0 = k as int;
        let ghost rho0 = rho as int;
        while rho > 0
            invariant
                self.tasks_g@ == tasks0,
                self.bounds_g@ == b0,
                self.t@ == t0,
                self.m@ == m0,
                self.e == e0,
                self.scheduled@ == sched0,
                tasks_wf(tasks0, b0),
                self.c@.len() == c0.len(),
                c0.len() >= 1,
                c0.len() + 1 == t0.len(),
                forall|x: int| 0 <= x < c0.len() ==> 0 <= (#[trigger] self.c@[x] as int) <= c0[
                    x
                ] as int,
                forall|x: int| 0 <= x < c0.len() ==> (#[trigger] c0[x] as int) <= t0[x + 1] - t0[
                    x
                ],
                self.s.wf(),
                self.s.len() == t0.len(),
                forall|j: int| 0 <= j < self.s.len() ==> #[trigger] self.s.root(j) == (if j
                    == c0.len() {
                    j
                } else {
                    first_free(self.c@, j)
                }),
                clen == c0.len(),
                0 <= rho,
                rho0 == task.duration,
                0 < rho0,
                (c0[c0.len() - 1] as int) > rho0,
                (self.c@[c0.len() - 1] as int) >= c0[c0.len() - 1] - (rho0 - rho),
                k < c0.len(),
                rho > 0 ==> self.c@[k as int] > 0,
                pour(c0, k0, rho0) == pour(self.c@, k as int, rho as int),
            decreases rho,
        {
            let ghost c_pre = self.c@;
            let ghost rho_pre = rho as int;
            let ghost k_pre = k as int;
            let ck = self.c[k];
            let delta = if ck < rho {
                ck
            } else {
                rho
            };
            rho = rho - delta;
            let new_ck = ck - delta;
            self.c.set(k, new_ck);
            proof {
                assert(self.c@ == c_pre.update(k_pre, new_ck));
            }
            if new_ck == 0 {
                proof {
                    reveal(first_free);
                    // the sentinel slice never empties, so k is not last
                    assert((self.c@[c0.len() - 1] as int) >= c0[c0.len() - 1] - (rho0
                        - rho as int));
                    assert(k_pre < c0.len() - 1);
                    assert(first_free(c_pre, k_pre) == k_pre);
                    assert(self.s.root(k_pre) == k_pre);
                    if k_pre + 1 < c0.len() {
                        lemma_first_free_in_range(c_pre, k_pre + 1);
                    }
                }
                let ghost s_pre = self.s;
                let _merged = self.s.union(k, k + 1);
                let ghost s_mid = self.s;
                let k2 = self.s.find(k);
                proof {
                    reveal(first_free);
                    assert(self.c@ == c_pre.update(k_pre, 0i32));
                    assert((self.c@[c0.len() - 1] as int) > rho as int);
                    assert forall|j: int| 0 <= j < self.s.len() implies #[trigger] self.s.root(
                        j,
                    ) == (if j == c0.len() {
                        j
                    } else {
                        first_free(self.c@, j)
                    }) by {
                        assert(self.s.root(j) == s_mid.root(j));
                        if j != c0.len() {
                            assert(s_pre.root(j) == first_free(c_pre, j));
                            lemma_first_free_after_zero(c_pre, k_pre, j);
                            lemma_first_free_frame(c_pre, self.c@, k_pre + 1);
                        }
                    }
                    assert(k2 as int == s_mid.root(k_pre));
                    lemma_first_free_after_zero(c_pre, k_pre, k_pre);
                    lemma_first_free_frame(c_pre, self.c@, k_pre + 1);
                    assert(k2 as int == first_free(self.c@, k_pre));
                    lemma_first_free_in_range(self.c@, k_pre);
                }
                k = k2;
            } else {
                proof {
                    assert forall|j: int| 0 <= j < self.s.len() implies #[trigger] self.s.root(
                        j,
                    ) == (if j == c0.len() {
                        j
                    } else {
                        first_free(self.c@, j)
                    }) by {
                        if j != c0.len() {
                            lemma_first_free_same_pattern(c_pre, self.c@, j);
                        }
                    }
                }
            }
            proof {
                reveal(first_free);
                reveal(pour);
                assert(pour(c_pre, k_pre, rho_pre) == pour(self.c@, k as int, rho as int));
            }
        }
        proof {
            reveal(pour);
            assert(pour(c0, k0, rho0) == (self.c@, k as int));
            crate::task::lemma_sum_durations_at_least_len(tasks0);
        }
        let ki: i32 = k as i32;
        if ki > self.e {
            self.e = ki;
        }
        proof {
            lemma_unscheduled_insert(tasks0, sched0, tid as int);
        }
        self.scheduled = Ghost(sched0.insert(tid as int));
    }

    pub fn earliest_completion_time(&self) -> (r: i32)
        requires
            self.wf(),
        ensures
            r as int == self.spec_completion(),
    {
        if self.e == -1 {
            return 0;
        }
        let ei = self.e as usize;
        self.t[ei + 1] - self.c[ei]
    }
}

/// The reverse timeline: latest start time of the scheduled set, driven by
/// latest completion times in descending order.  The time points decrease,
/// capacities are the positive backward lengths `t[k] - t[k+1]`, and the
/// sentinel sits below the smallest EST by the total work.
pub struct RevTimeline {
    /// Strictly decreasing time points; the last one is the sentinel.
    pub t: Vec<i32>,
    /// Remaining capacity of the backward slice `(t[k+1], t[k]]`.
    pub c: Vec<i32>,
    /// Slice index of each task's latest completion time, by `local_id`.
    pub m: Vec<usize>,
    /// Leftmost (in time) slice that has received work; `-1` while nothing
    /// has.
    pub e: i32,
    /// Merges fully consumed slices into their successor.
    pub s: UnionFind,
    /// The task array this timeline was built from.
    pub tasks_g: Ghost<Seq<TaskDisj>>,
    /// The bounds snapshot this timeline was built from.
    pub bounds_g: Ghost<Seq<(i32, i32)>>,
    /// The `local_id`s scheduled so far.
    pub scheduled: Ghost<Set<int>>,
}

impl RevTimeline {
    /// Structural well-formedness: the mirror image of [`Timeline::wf`].
    pub open spec fn wf(self) -> bool {
        let tasks = self.tasks_g@;
        let b = self.bounds_g@;
        &&& tasks_wf(tasks, b)
        &&& self.t@.len() == self.c@.len() + 1
        &&& self.c@.len() >= 1
        &&& self.t@.len() <= tasks.len() + 1
        &&& self.m@.len() == tasks.len()
        &&& forall|k: int| 0 <= k < self.c@.len() ==> (#[trigger] self.t@[k] as int) > self.t@[
            k + 1
        ] as int
        &&& forall|k: int| 0 <= k < self.c@.len() ==> 0 <= (#[trigger] self.c@[k] as int)
            <= self.t@[k] - self.t@[k + 1]
        &&& forall|k: int| 0 <= k < self.t@.len() ==> -2 * TIME_LIMIT <= (
        #[trigger] self.t@[k] as int) <= 2 * TIME_LIMIT
        &&& self.s.wf()
        &&& self.s.len() == self.t@.len()
        &&& forall|j: int| 0 <= j < self.s.len() ==> #[trigger] self.s.root(j) == (if j
            == self.c@.len() {
            j
        } else {
            first_free(self.c@, j)
        })
        &&& -1 <= self.e < self.c@.len()
        &&& forall|i: int| 0 <= i < tasks.len() ==> (#[trigger] self.m@[i] as int)
            < self.c@.len()
        &&& forall|i: int| 0 <= i < tasks.len() ==> self.t@[#[trigger] self.m@[i] as int] as int
            == spec_lct(tasks[i], b)
        &&& self.scheduled@.subset_of(Set::new(|i: int| 0 <= i < tasks.len()))
        &&& self.c@[self.c@.len() - 1] > unscheduled_durations(tasks, self.scheduled@)
    }

    /// What construction yields: the mirror image of [`Timeline::fresh`].
    pub open spec fn fresh(self, tasks: Seq<TaskDisj>, b: Seq<(i32, i32)>) -> bool {
        &&& self.tasks_g@ == tasks
        &&& self.bounds_g@ == b
        &&& self.scheduled@ == Set::<int>::empty()
        &&& self.e == -1
        &&& forall|x: int| 0 <= x < self.t@.len() - 1 ==> exists|i: int|
            0 <= i < tasks.len() && spec_lct(tasks[i], b) == #[trigger] self.t@[x] as int
        &&& self.t@[self.t@.len() - 1] as int == min_est(tasks, b) - sum_durations(tasks)
        &&& forall|k: int| 0 <= k < self.c@.len() ==> (#[trigger] self.c@[k] as int) == self.t@[
            k
        ] - self.t@[k + 1]
    }

    /// The latest start time of the work scheduled so far; the largest LCT
    /// (the first time point) by convention while nothing is scheduled.
    pub open spec fn spec_latest_start(self) -> int {
        if self.e < 0 {
            self.t@[0] as int
        } else {
            self.t@[self.e + 1] + self.c@[self.e as int]
        }
    }

    /// Builds the reverse timeline for `tasks` against the bounds snapshot
    /// in `assignments`.
    pub fn new(tasks: &Vec<TaskDisj>, assignments: &Assignments) -> (tl: RevTimeline)
        requires
            tasks_wf(tasks@, assignments@),
        ensures
            tl.wf(),
            tl.fresh(tasks@, assignments@),
    {
        let ghost b = assignments@;
        let n = tasks.len();
        // (-LCT, local_id) pairs: ascending on the negated key is the
        // required descending order on the LCTs.
        let mut pairs: Vec<(i32, usize)> = Vec::new();
        let mut i: usize = 0;
        while i < n
            invariant
                i <= n,
                n == tasks@.len(),
                tasks_wf(tasks@, b),
                b == assignments@,
                pairs@.len() == i,
                forall|q: int| 0 <= q < i ==> (#[trigger] pairs@[q]).1 == q && pairs@[q].0 as int
                    == -spec_lct(tasks@[q], b),
            decreases n - i,
        {
            let lct = TaskDisj::get_lct(&tasks[i], assignments);
            pairs.push((-lct, i));
            i = i + 1;
        }
        let ghost orig = pairs@;
        sort_pairs(&mut pairs);
        proof {
            lemma_multiset_membership(orig, pairs@);
            lemma_multiset_membership(pairs@, orig);
            assert(orig.no_duplicates());
            lemma_multiset_no_duplicates(orig, pairs@);
            assert forall|q: int| 0 <= q < n implies (#[trigger] pairs@[q]).1 < n && pairs@[q].0
                as int == -spec_lct(tasks@[pairs@[q].1 as int], b) by {
                assert(orig.contains(pairs@[q]));
                let w = choose|w: int| 0 <= w < orig.len() && orig[w] == pairs@[q];
                assert(orig[w].1 == w);
            }
            assert forall|id: int| 0 <= id < n implies pairs@.contains(#[trigger] orig[id])
                by {
                assert(pairs@.to_multiset() == orig.to_multiset());
            }
            assert forall|q1: int, q2: int| 0 <= q1 < q2 < n implies (#[trigger] pairs@[q1]).1
                != (#[trigger] pairs@[q2]).1 by {
                if pairs@[q1].1 == pairs@[q2].1 {
                    assert(pairs@[q1].0 == pairs@[q2].0);
                    assert(pairs@[q1] == pairs@[q2]);
                    assert(pairs@.no_duplicates());
                }
            }
        }
        // Time points: the distinct LCTs in descending order.
        let mut t: Vec<i32> = Vec::new();
        let mut m: Vec<usize> = Vec::new();
        let mut z: usize = 0;
        while z < n
            invariant
                z <= n,
                m@.len() == z,
            decreases n - z,
        {
            m.push(0);
            z = z + 1;
        }
        let mut idx: usize = 0;
        while idx < n
            invariant
                idx <= n,
                n == tasks@.len(),
                n >= 1,
                tasks_wf(tasks@, b),
                m@.len() == n,
                pairs@.len() == n,
                sorted_pairs(pairs@),
                forall|q: int| 0 <= q < n ==> (#[trigger] pairs@[q]).1 < n && pairs@[q].0 as int
                    == -spec_lct(tasks@[pairs@[q].1 as int], b),
                forall|q1: int, q2: int| 0 <= q1 < q2 < n ==> (#[trigger] pairs@[q1]).1 != (
                #[trigger] pairs@[q2]).1,
                t@.len() <= idx,
                idx == 0 ==> t@.len() == 0,
                idx > 0 ==> t@.len() >= 1 && t@[t@.len() - 1] as int == -(pairs@[idx - 1].0
                    as int),
                forall|x: int| 0 <= x < t@.len() - 1 ==> (#[trigger] t@[x] as int) > t@[x
                    + 1] as int,
                forall|x: int| 0 <= x < t@.len() ==> exists|i2: int|
                    0 <= i2 < n && spec_lct(tasks@[i2], b) == #[trigger] t@[x] as int,
                forall|q: int| 0 <= q < idx ==> (#[trigger] m@[pairs@[q].1 as int] as int)
                    < t@.len() && t@[m@[pairs@[q].1 as int] as int] as int == -(pairs@[q].0
                    as int),
            decreases n - idx,
        {
            let pr = pairs[idx];
            let id = pr.1;
            proof {
                assert(task_wf(tasks@[id as int], b));
            }
            let tv = -pr.0;
            let ghost t_old = t@;
            if t.len() == 0 || t[t.len() - 1] != tv {
                proof {
                    if idx > 0 {
                        assert(pair_le(pairs@[idx - 1], pairs@[idx as int]));
                    }
                }
                t.push(tv);
            }
            proof {
                assert(t@[t@.len() - 1] == tv);
                if t@.len() > 1 && t@.len() > t_old.len() {
                    assert(t@[t@.len() - 2] == t_old[t_old.len() - 1]);
                }
                assert forall|x: int| 0 <= x < t@.len() implies exists|i2: int|
                    0 <= i2 < n && spec_lct(tasks@[i2], b) == #[trigger] t@[x] as int by {
                    if x == t@.len() - 1 && t@.len() > t_old.len() {
                        assert(spec_lct(tasks@[id as int], b) == t@[x] as int);
                    } else {
                        assert(t@[x] == t_old[x]);
                    }
                }
            }
            m.set(id, t.len() - 1);
            proof {
                assert forall|q: int| 0 <= q < idx + 1 implies (#[trigger] m@[pairs@[q].1
                    as int] as int) < t@.len() && t@[m@[pairs@[q].1 as int] as int] as int == -(
                pairs@[q].0 as int) by {
                    if q < idx {
                        assert(pairs@[q].1 != pairs@[idx as int].1);
                    }
                }
            }
            idx = idx + 1;
        }
        proof {
            assert forall|id: int| 0 <= id < n implies (#[trigger] m@[id] as int) < t@.len()
                && t@[m@[id] as int] as int == spec_lct(tasks@[id], b) by {
                assert(pairs@.contains(orig[id]));
                let q = choose|q: int| 0 <= q < pairs@.len() && pairs@[q] == orig[id];
                assert(pairs@[q].1 == id);
                assert((m@[pairs@[q].1 as int] as int) < t@.len());
            }
        }
        // The sentinel: below the smallest EST by the total work.
        let mut lowest_est: i32 = TaskDisj::get_est(&tasks[0], assignments);
        proof {
            assert(tasks@.take(1)[0] == tasks@[0]);
        }
        let mut i2: usize = 1;
        while i2 < n
            invariant
                1 <= i2 <= n,
                n == tasks@.len(),
                n >= 1,
                tasks_wf(tasks@, b),
                b == assignments@,
                lowest_est as int == min_est(tasks@.take(i2 as int), b),
            decreases n - i2,
        {
            let l = TaskDisj::get_est(&tasks[i2], assignments);
            proof {
                assert(tasks@.take(i2 + 1).drop_last() == tasks@.take(i2 as int));
                assert(tasks@.take(i2 + 1).last() == tasks@[i2 as int]);
            }
            if l < lowest_est {
                lowest_est = l;
            }
            i2 = i2 + 1;
        }
        proof {
            assert(tasks@.take(n as int) == tasks@);
            lemma_min_est_bounds(tasks@, b);
        }
        let mut total: i32 = 0;
        let mut i3: usize = 0;
        while i3 < n
            invariant
                i3 <= n,
                n == tasks@.len(),
                tasks_wf(tasks@, b),
                total as int == sum_durations(tasks@.take(i3 as int)),
                0 <= total,
            decreases n - i3,
        {
            proof {
                lemma_sum_durations_prefix(tasks@, i3 as int);
                assert(tasks@.take(i3 + 1).drop_last() == tasks@.take(i3 as int));
                assert(tasks@.take(i3 + 1).last() == tasks@[i3 as int]);
            }
            total = total + tasks[i3].duration;
            i3 = i3 + 1;
        }
        proof {
            assert(tasks@.take(n as int) == tasks@);
        }
        let sentinel = lowest_est - total;
        proof {
            // The sentinel sits strictly below the smallest LCT: the task
            // with that LCT starts no later than LCT - 1, at or after the
            // smallest EST.
            let j = pairs@[n - 1].1 as int;
            assert(spec_est(tasks@[j], b) >= min_est(tasks@, b));
            assert(spec_est(tasks@[j], b) < spec_lct(tasks@[j], b));
            assert(t@[t@.len() - 1] as int == spec_lct(tasks@[j], b));
            assert(sentinel < t@[t@.len() - 1]);
        }
        t.push(sentinel);
        proof {
            assert forall|x: int| 0 <= x < t@.len() implies -2 * TIME_LIMIT <= (
            #[trigger] t@[x] as int) <= 2 * TIME_LIMIT by {
                if x < t@.len() - 1 {
                    let i4 = choose|i4: int|
                        0 <= i4 < n && spec_lct(tasks@[i4], b) == t@[x] as int;
                    assert(task_wf(tasks@[i4], b));
                }
            }
        }
        // Backward slice capacities.
        let tn = t.len();
        let mut c: Vec<i32> = Vec::new();
        let mut k2: usize = 0;
        while k2 < tn - 1
            invariant
                k2 <= tn - 1,
                tn == t@.len(),
                tn >= 2,
                c@.len() == k2,
                forall|x: int| 0 <= x < tn - 1 ==> (#[trigger] t@[x] as int) > t@[x + 1] as int,
                forall|x: int| 0 <= x < tn ==> -2 * TIME_LIMIT <= (#[trigger] t@[x] as int) <= 2
                    * TIME_LIMIT,
                forall|x: int| 0 <= x < k2 ==> (#[trigger] c@[x] as int) == t@[x] - t@[x + 1],
            decreases tn - k2,
        {
            let d = t[k2] - t[k2 + 1];
            c.push(d);
            k2 = k2 + 1;
        }
        let s = UnionFind::new(tn);
        let tl = RevTimeline {
            t,
            c,
            m,
            e: -1,
            s,
            tasks_g: Ghost(tasks@),
            bounds_g: Ghost(b),
            scheduled: Ghost(Set::<int>::empty()),
        };
        proof {
            assert forall|j: int| 0 <= j < tl.s.len() implies #[trigger] tl.s.root(j) == (if j
                == tl.c@.len() {
                j
            } else {
                first_free(tl.c@, j)
            }) by {
                reveal(first_free);
                if j < tl.c@.len() {
                    assert(tl.c@[j] > 0);
                    assert(first_free(tl.c@, j) == j);
                }
            }
            lemma_unscheduled_empty(tasks@);
            assert(tl.c@[tl.c@.len() - 1] as int == tl.t@[tl.t@.len() - 2] - sentinel);
            assert(tl.c@[tl.c@.len() - 1] > unscheduled_durations(tasks@, Set::<int>::empty()));
        }
        tl
    }

    /// Pours `duration(task)` units of work into the backward slices,
    /// starting at the first free slice at or after the task's own LCT
    /// slice.  The effect on the capacities and the envelope is exactly
    /// [`pour`].
    pub fn schedule_task(&mut self, task: &TaskDisj)
        requires
            old(self).wf(),
            (task.local_id as int) < old(self).tasks_g@.len(),
            *task == old(self).tasks_g@[task.local_id as int],
            !old(self).scheduled@.contains(task.local_id as int),
        ensures
            final(self).wf(),
            final(self).t@ == old(self).t@,
            final(self).m@ == old(self).m@,
            final(self).tasks_g@ == old(self).tasks_g@,
            final(self).bounds_g@ == old(self).bounds_g@,
            final(self).scheduled@ == old(self).scheduled@.insert(task.local_id as int),
            ({
                let start = first_free(old(self).c@, old(self).m@[task.local_id as int] as int);
                let (c2, kf) = pour(old(self).c@, start, task.duration as int);
                final(self).c@ == c2 && final(self).e as int == (if old(self).e as int >= kf {
                    old(self).e as int
                } else {
                    kf
                })
            }),
    {
        let ghost tasks0 = self.tasks_g@;
        let ghost b0 = self.bounds_g@;
        let ghost t0 = self.t@;
        let ghost m0 = self.m@;
        let ghost e0 = self.e;
        let ghost sched0 = self.scheduled@;
        let ghost c0 = self.c@;
        let tid = TaskDisj::get_id(task);
        proof {
            lemma_unscheduled_range(tasks0, sched0);
            lemma_unscheduled_lower(tasks0, sched0, tid as int);
        }
        let clen = self.c.len();
        let start = self.m[tid];
        let mut k: usize = self.s.find(start);
        proof {
            lemma_first_free_in_range(c0, start as int);
            reveal(first_free);
            reveal(pour);
        }
        let mut rho: i32 = task.duration;
        let ghost k0 = k as int;
        let ghost rho0 = rho as int;
        while rho > 0
            invariant
                self.tasks_g@ == tasks0,
                self.bounds_g@ == b0,
                self.t@ == t0,
                self.m@ == m0,
                self.e == e0,
                self.scheduled@ == sched0,
                tasks_wf(tasks0, b0),
                self.c@.len() == c0.len(),
                c0.len() >= 1,
                c0.len() + 1 == t0.len(),
                forall|x: int| 0 <= x < c0.len() ==> 0 <= (#[trigger] self.c@[x] as int) <= c0[
                    x
                ] as int,
                forall|x: int| 0 <= x < c0.len() ==> (#[trigger] c0[x] as int) <= t0[x] - t0[x
                    + 1],
                self.s.wf(),
                self.s.len() == t0.len(),
                forall|j: int| 0 <= j < self.s.len() ==> #[trigger] self.s.root(j) == (if j
                    == c0.len() {
                    j
                } else {
                    first_free(self.c@, j)
                }),
                clen == c0.len(),
                0 <= rho,
                rho0 == task.duration,
                0 < rho0,
                (c0[c0.len() - 1] as int) > rho0,
                (self.c@[c0.len() - 1] as int) >= c0[c0.len() - 1] - (rho0 - rho),
                k < c0.len(),
                rho > 0 ==> self.c@[k as int] > 0,
                pour(c0, k0, rho0) == pour(self.c@, k as int, rho as int),
            decreases rho,
        {
            let ghost c_pre = self.c@;
            let ghost rho_pre = rho as int;
            let ghost k_pre = k as int;
            let ck = self.c[k];
            let delta = if ck < rho {
                ck
            } else {
                rho
            };
            rho = rho - delta;
            let new_ck = ck - delta;
            self.c.set(k, new_ck);
            proof {
                assert(self.c@ == c_pre.update(k_pre, new_ck));
            }
            if new_ck == 0 {
                proof {
                    reveal(first_free);
                    assert((self.c@[c0.len() - 1] as int) >= c0[c0.len() - 1] - (rho0
                        - rho as int));
                    assert(k_pre < c0.len() - 1);
                    assert(first_free(c_pre, k_pre) == k_pre);
                    assert(self.s.root(k_pre) == k_pre);
                    if k_pre + 1 < c0.len() {
                        lemma_first_free_in_range(c_pre, k_pre + 1);
                    }
                }
                let ghost s_pre = self.s;
                let _merged = self.s.union(k, k + 1);
                let ghost s_mid = self.s;
                let k2 = self.s.find(k);
                proof {
                    reveal(first_free);
                    assert(self.c@ == c_pre.update(k_pre, 0i32));
                    assert((self.c@[c0.len() - 1] as int) > rho as int);
                    assert forall|j: int| 0 <= j < self.s.len() implies #[trigger] self.s.root(
                        j,
                    ) == (if j == c0.len() {
                        j
                    } else {
                        first_free(self.c@, j)
                    }) by {
                        assert(self.s.root(j) == s_mid.root(j));
                        if j != c0.len() {
                            assert(s_pre.root(j) == first_free(c_pre, j));
                            lemma_first_free_after_zero(c_pre, k_pre, j);
                            lemma_first_free_frame(c_pre, self.c@, k_pre + 1);
                        }
                    }
                    assert(k2 as int == s_mid.root(k_pre));
                    lemma_first_free_after_zero(c_pre, k_pre, k_pre);
                    lemma_first_free_frame(c_pre, self.c@, k_pre + 1);
                    assert(k2 as int == first_free(self.c@, k_pre));
                    lemma_first_free_in_range(self.c@, k_pre);
                }
                k = k2;
            } else {
                proof {
                    assert forall|j: int| 0 <= j < self.s.len() implies #[trigger] self.s.root(
                        j,
                    ) == (if j == c0.len() {
                        j
                    } else {
                        first_free(self.c@, j)
                    }) by {
                        if j != c0.len() {
                            lemma_first_free_same_pattern(c_pre, self.c@, j);
                        }
                    }
                }
            }
            proof {
                reveal(first_free);
                reveal(pour);
                assert(pour(c_pre, k_pre, rho_pre) == pour(self.c@, k as int, rho as int));
            }
        }
        proof {
            reveal(pour);
            assert(pour(c0, k0, rho0) == (self.c@, k as int));
            crate::task::lemma_sum_durations_at_least_len(tasks0);
        }
        let ki: i32 = k as i32;
        if ki > self.e {
            self.e = ki;
        }
        proof {
            lemma_unscheduled_insert(tasks0, sched0, tid as int);
        }
        self.scheduled = Ghost(sched0.insert(tid as int));
    }

    pub fn latest_starting_time(&self) -> (r: i32)
        requires
            self.wf(),
        ensures
            r as int == self.spec_latest_start(),
            -2 * TIME_LIMIT <= r as int <= 2 * TIME_LIMIT,
    {
        if self.e == -1 {
            return self.t[0];
        }
        let ei = self.e as usize;
        self.t[ei + 1] + self.c[ei]
    }
}

/// A fresh timeline reports completion time `0`: the caller's convention
/// for "nothing scheduled, no push".
pub proof fn lemma_fresh_completion_zero(tl: Timeline, tasks: Seq<TaskDisj>, b: Seq<(i32, i32)>)
    requires
        tl.fresh(tasks, b),
    ensures
        tl.spec_completion() == 0,
{
}

/// With a single task and no conflicts, scheduling it brings the
/// earliest completion time to exactly `EST + duration`.
pub proof fn lemma_single_task_completion(
    tl0: Timeline,
    tl1: Timeline,
    tasks: Seq<TaskDisj>,
    b: Seq<(i32, i32)>,
)
    requires
        tasks.len() == 1,
        tl0.wf(),
        tl0.fresh(tasks, b),
        // tl1 relates to tl0 exactly as `schedule_task(tasks[0])` promises
        tl1.t@ == tl0.t@,
        ({
            let start = first_free(tl0.c@, tl0.m@[0] as int);
            let (c2, kf) = pour(tl0.c@, start, tasks[0].duration as int);
            tl1.c@ == c2 && tl1.e as int == (if tl0.e as int >= kf {
                tl0.e as int
            } else {
                kf
            })
        }),
    ensures
        tl0.spec_completion() == 0,
        tl1.spec_completion() == spec_ect(tasks[0], b),
{
    reveal(first_free);
    reveal(pour);
    assert(tl0.t@.len() == 2);
    assert(tl0.c@.len() == 1);
    assert(tl0.m@[0] as int == 0);
    assert(tl0.t@[0] as int == spec_est(tasks[0], b));
    let d = tasks[0].duration as int;
    lemma_unscheduled_empty(tasks);
    assert(sum_durations(tasks) == sum_durations(tasks.drop_last()) + d);
    assert(tl0.c@[0] > d);
    assert(first_free(tl0.c@, 0) == 0);
    let (c2, kf) = pour(tl0.c@, 0, d);
    assert(c2 == tl0.c@.update(0, (tl0.c@[0] - d) as i32) && kf == 0);
    assert(tl1.e as int == 0);
    assert(tl1.spec_completion() == tl0.t@[1] - c2[0]);
    assert(tl0.c@[0] as int == tl0.t@[1] - tl0.t@[0]);
}

/// The bounds table of the negated instance: every task keeps its
/// variable and duration, but the variable now ranges over the values of
/// `-start - duration`, so EST and LCT trade places (negated), as do LST
/// and ECT.
pub open spec fn negated_bounds(
    tasks: Seq<TaskDisj>,
    b: Seq<(i32, i32)>,
    nb: Seq<(i32, i32)>,
) -> bool {
    forall|i: int| 0 <= i < tasks.len() ==> {
        let t = #[trigger] tasks[i];
        nb[t.starting_time as int].0 as int == -spec_lct(t, b) && nb[t.starting_time as int].1
            as int == -spec_ect(t, b)
    }
}

/// On the negated instance the largest latest completion is minus the
/// smallest earliest start of the original.
proof fn lemma_minmax_negated(tasks: Seq<TaskDisj>, b: Seq<(i32, i32)>, nb: Seq<(i32, i32)>)
    requires
        tasks.len() >= 1,
        negated_bounds(tasks, b, nb),
    ensures
        max_lct(tasks, nb) == -min_est(tasks, b),
    decreases tasks.len(),
{
    if tasks.len() == 1 {
        assert(spec_lct(tasks[0], nb) == -spec_est(tasks[0], b));
    } else {
        lemma_minmax_negated(tasks.drop_last(), b, nb);
        assert(spec_lct(tasks.last(), nb) == -spec_est(tasks.last(), b));
    }
}

/// In a sequence whose adjacent entries strictly increase, any earlier
/// entry is strictly below any later one.
proof fn lemma_chain_increasing(s: Seq<int>, a: int, b: int)
    requires
        forall|k: int| 0 <= k < s.len() - 1 ==> #[trigger] s[k] < s[k + 1],
        0 <= a <= b < s.len(),
    ensures
        s[a] <= s[b],
        a < b ==> s[a] < s[b],
    decreases b - a,
{
    if a < b {
        lemma_chain_increasing(s, a, b - 1);
    }
}

/// Two strictly increasing sequences with the same members are equal.
proof fn lemma_increasing_unique(s1: Seq<int>, s2: Seq<int>)
    requires
        forall|k: int| 0 <= k < s1.len() - 1 ==> #[trigger] s1[k] < s1[k + 1],
        forall|k: int| 0 <= k < s2.len() - 1 ==> #[trigger] s2[k] < s2[k + 1],
        forall|x: int| s1.contains(x) <==> s2.contains(x),
    ensures
        s1 == s2,
    decreases s1.len(),
{
    if s1.len() == 0 {
        if s2.len() > 0 {
            assert(s2.contains(s2[0]));
            assert(false);
        }
        assert(s1 =~= s2);
    } else if s2.len() == 0 {
        assert(s1.contains(s1[0]));
        assert(false);
    } else {
        assert(s1.contains(s1[0]));
        assert(s2.contains(s1[0]));
        let j = choose|j: int| 0 <= j < s2.len() && s2[j] == s1[0];
        lemma_chain_increasing(s2, 0, j);
        assert(s2.contains(s2[0]));
        assert(s1.contains(s2[0]));
        let j1 = choose|j1: int| 0 <= j1 < s1.len() && s1[j1] == s2[0];
        lemma_chain_increasing(s1, 0, j1);
        assert(s1[0] == s2[0]);
        let t1 = s1.skip(1);
        let t2 = s2.skip(1);
        assert forall|x: int| t1.contains(x) <==> t2.contains(x) by {
            if t1.contains(x) {
                let i = choose|i: int| 0 <= i < t1.len() && t1[i] == x;
                assert(s1[i + 1] == x);
                lemma_chain_increasing(s1, 0, i + 1);
                assert(s1.contains(x));
                assert(s2.contains(x));
                let k = choose|k: int| 0 <= k < s2.len() && s2[k] == x;
                assert(k != 0);
                assert(t2[k - 1] == x);
                assert(t2.contains(x));
            }
            if t2.contains(x) {
                let i = choose|i: int| 0 <= i < t2.len() && t2[i] == x;
                assert(s2[i + 1] == x);
                lemma_chain_increasing(s2, 0, i + 1);
                assert(s2.contains(x));
                assert(s1.contains(x));
                let k = choose|k: int| 0 <= k < s1.len() && s1[k] == x;
                assert(k != 0);
                assert(t1[k - 1] == x);
                assert(t1.contains(x));
            }
        }
        assert forall|k: int| 0 <= k < t1.len() - 1 implies #[trigger] t1[k] < t1[k + 1] by {
            assert(t1[k] == s1[k + 1]);
            assert(t1[k + 1] == s1[k + 2]);
        }
        assert forall|k: int| 0 <= k < t2.len() - 1 implies #[trigger] t2[k] < t2[k + 1] by {
            assert(t2[k] == s2[k + 1]);
            assert(t2[k + 1] == s2[k + 2]);
        }
        lemma_increasing_unique(t1, t2);
        assert forall|k: int| 0 <= k < s1.len() implies s1[k] == s2[k] by {
            if k > 0 {
                assert(t1[k - 1] == t2[k - 1]);
            }
        }
        assert(s1 =~= s2);
    }
}

/// Mirror symmetry of the two timelines.  Negate the time axis
/// (`start <- -start - duration`) and swap Timeline and RevTimeline: the
/// freshly built forward timeline of the negated instance is the freshly
/// built reverse timeline of the original with every time point negated —
/// same slice count, identical capacities, identical task-to-slice map.
/// Both sides then evolve by the same [`pour`] on the same capacities.
#[verifier::rlimit(100)]
pub proof fn lemma_rev_timeline_mirror(
    fwd: Timeline,
    rev: RevTimeline,
    tasks: Seq<TaskDisj>,
    b: Seq<(i32, i32)>,
    nb: Seq<(i32, i32)>,
)
    requires
        tasks.len() >= 1,
        negated_bounds(tasks, b, nb),
        fwd.wf(),
        fwd.fresh(tasks, nb),
        rev.wf(),
        rev.fresh(tasks, b),
    ensures
        fwd.t@.len() == rev.t@.len(),
        forall|k: int| 0 <= k < rev.t@.len() ==> (#[trigger] fwd.t@[k]) as int == -(rev.t@[
            k
        ] as int),
        fwd.c@ == rev.c@,
        fwd.m@ == rev.m@,
{
    let n1 = fwd.t@.len();
    let n2 = rev.t@.len();
    let fseq = Seq::new(n1, |k: int| fwd.t@[k] as int);
    let gseq = Seq::new(n2, |k: int| -(rev.t@[k] as int));
    lemma_minmax_negated(tasks, b, nb);
    assert(forall|k: int| 0 <= k < fseq.len() - 1 ==> #[trigger] fseq[k] < fseq[k + 1]);
    assert(forall|k: int| 0 <= k < gseq.len() - 1 ==> #[trigger] gseq[k] < gseq[k + 1]);
    assert forall|x: int| fseq.contains(x) <==> gseq.contains(x) by {
        if fseq.contains(x) {
            let k = choose|k: int| 0 <= k < fseq.len() && fseq[k] == x;
            if k < n1 - 1 {
                let i = choose|i: int|
                    0 <= i < tasks.len() && spec_est(tasks[i], nb) == fwd.t@[k] as int;
                assert(spec_est(tasks[i], nb) == -spec_lct(tasks[i], b));
                assert(rev.t@[rev.m@[i] as int] as int == spec_lct(tasks[i], b));
                assert(gseq[rev.m@[i] as int] == x);
                assert(gseq.contains(x));
            } else {
                assert(fwd.t@[n1 - 1] as int == max_lct(tasks, nb) + sum_durations(tasks));
                assert(gseq[n2 - 1] == -(rev.t@[n2 - 1] as int));
                assert(rev.t@[n2 - 1] as int == min_est(tasks, b) - sum_durations(tasks));
                assert(gseq[n2 - 1] == x);
                assert(gseq.contains(x));
            }
        }
        if gseq.contains(x) {
            let k = choose|k: int| 0 <= k < gseq.len() && gseq[k] == x;
            if k < n2 - 1 {
                let i = choose|i: int|
                    0 <= i < tasks.len() && spec_lct(tasks[i], b) == rev.t@[k] as int;
                assert(spec_est(tasks[i], nb) == -spec_lct(tasks[i], b));
                assert(fwd.t@[fwd.m@[i] as int] as int == spec_est(tasks[i], nb));
                assert(fseq[fwd.m@[i] as int] == x);
                assert(fseq.contains(x));
            } else {
                assert(fseq[n1 - 1] == x);
                assert(fseq.contains(x));
            }
        }
    }
    lemma_increasing_unique(fseq, gseq);
    assert(n1 == n2);
    assert forall|k: int| 0 <= k < rev.t@.len() implies (#[trigger] fwd.t@[k]) as int == -(
    rev.t@[k] as int) by {
        assert(fseq[k] == gseq[k]);
    }
    assert forall|k: int| 0 <= k < rev.c@.len() implies (#[trigger] fwd.c@[k]) == rev.c@[
        k
    ] by {
        assert(fwd.c@[k] as int == fwd.t@[k + 1] - fwd.t@[k]);
        assert(rev.c@[k] as int == rev.t@[k] - rev.t@[k + 1]);
    }
    assert(fwd.c@ =~= rev.c@);
    assert forall|i: int| 0 <= i < tasks.len() implies (#[trigger] fwd.m@[i]) == rev.m@[
        i
    ] by {
        assert(fwd.t@[fwd.m@[i] as int] as int == spec_est(tasks[i], nb));
        assert(rev.t@[rev.m@[i] as int] as int == spec_lct(tasks[i], b));
        assert(fwd.t@[rev.m@[i] as int] as int == -(rev.t@[rev.m@[i] as int] as int));
        let m1 = fwd.m@[i] as int;
        let m2 = rev.m@[i] as int;
        if m1 < m2 {
            lemma_chain_increasing(fseq, m1, m2);
            assert(false);
        }
        if m2 < m1 {
            lemma_chain_increasing(fseq, m2, m1);
            assert(false);
        }
    }
    assert(fwd.m@ =~= rev.m@);
}

/// The query side of the mirror: with negated time points, the same
/// capacities and the same non-empty envelope, the latest start of the
/// reverse timeline is minus the earliest completion of the forward one.
pub proof fn lemma_mirror_queries(fwd: Timeline, rev: RevTimeline)
    requires
        fwd.wf(),
        rev.wf(),
        fwd.t@.len() == rev.t@.len(),
        forall|k: int| 0 <= k < rev.t@.len() ==> (#[trigger] fwd.t@[k]) as int == -(rev.t@[
            k
        ] as int),
        fwd.c@ == rev.c@,
        fwd.e == rev.e,
        fwd.e >= 0,
    ensures
        rev.spec_latest_start() == -fwd.spec_completion(),
{
}

/// One direction of the membership argument behind
/// [`lemma_fwd_skeleton_unique`].
proof fn lemma_fwd_skeleton_member(
    t1: Seq<i32>,
    m1: Seq<usize>,
    t2: Seq<i32>,
    m2: Seq<usize>,
    tasks: Seq<TaskDisj>,
    b: Seq<(i32, i32)>,
    x: int,
)
    requires
        is_fwd_skeleton(t1, m1, tasks, b),
        is_fwd_skeleton(t2, m2, tasks, b),
        Seq::new(t1.len(), |k: int| t1[k] as int).contains(x),
    ensures
        Seq::new(t2.len(), |k: int| t2[k] as int).contains(x),
{
    let f1 = Seq::new(t1.len(), |k: int| t1[k] as int);
    let f2 = Seq::new(t2.len(), |k: int| t2[k] as int);
    let k = choose|k: int| 0 <= k < f1.len() && f1[k] == x;
    if k < f1.len() - 1 {
        let i = choose|i: int| 0 <= i < tasks.len() && spec_est(tasks[i], b) == t1[k] as int;
        assert(f2[m2[i] as int] == x);
        assert(f2.contains(x));
    } else {
        assert(f2[f2.len() - 1] == x);
        assert(f2.contains(x));
    }
}

/// The forward time points and the task-to-slice map are determined by
/// the instance alone: this predicate holds of exactly one pair.
pub open spec fn is_fwd_skeleton(
    t: Seq<i32>,
    m: Seq<usize>,
    tasks: Seq<TaskDisj>,
    b: Seq<(i32, i32)>,
) -> bool {
    &&& 2 <= t.len() <= tasks.len() + 1
    &&& forall|k: int| 0 <= k < t.len() - 1 ==> (#[trigger] t[k] as int) < t[k + 1] as int
    &&& forall|x: int| 0 <= x < t.len() - 1 ==> exists|i: int|
        0 <= i < tasks.len() && spec_est(tasks[i], b) == #[trigger] t[x] as int
    &&& t[t.len() - 1] as int == max_lct(tasks, b) + sum_durations(tasks)
    &&& m.len() == tasks.len()
    &&& forall|i: int| 0 <= i < tasks.len() ==> (#[trigger] m[i] as int) < t.len() - 1 && t[m[
        i
    ] as int] as int == spec_est(tasks[i], b)
}

/// The forward skeleton, as a function of the instance.
pub open spec fn fwd_skeleton(tasks: Seq<TaskDisj>, b: Seq<(i32, i32)>) -> (Seq<i32>, Seq<
    usize,
>) {
    choose|tm: (Seq<i32>, Seq<usize>)| is_fwd_skeleton(tm.0, tm.1, tasks, b)
}

/// Only one pair satisfies [`is_fwd_skeleton`].
#[verifier::rlimit(100)]
pub proof fn lemma_fwd_skeleton_unique(
    t1: Seq<i32>,
    m1: Seq<usize>,
    t2: Seq<i32>,
    m2: Seq<usize>,
    tasks: Seq<TaskDisj>,
    b: Seq<(i32, i32)>,
)
    requires
        is_fwd_skeleton(t1, m1, tasks, b),
        is_fwd_skeleton(t2, m2, tasks, b),
    ensures
        t1 == t2,
        m1 == m2,
{
    let f1 = Seq::new(t1.len(), |k: int| t1[k] as int);
    let f2 = Seq::new(t2.len(), |k: int| t2[k] as int);
    assert(forall|k: int| 0 <= k < f1.len() - 1 ==> #[trigger] f1[k] < f1[k + 1]);
    assert(forall|k: int| 0 <= k < f2.len() - 1 ==> #[trigger] f2[k] < f2[k + 1]);
    assert forall|x: int| f1.contains(x) <==> f2.contains(x) by {
        if f1.contains(x) {
            lemma_fwd_skeleton_member(t1, m1, t2, m2, tasks, b, x);
        }
        if f2.contains(x) {
            lemma_fwd_skeleton_member(t2, m2, t1, m1, tasks, b, x);
        }
    }
    lemma_increasing_unique(f1, f2);
    assert forall|k: int| 0 <= k < t1.len() implies t1[k] == t2[k] by {
        assert(f1[k] == f2[k]);
    }
    assert(t1 =~= t2);
    assert forall|i: int| 0 <= i < tasks.len() implies (#[trigger] m1[i]) == m2[i] by {
        let a = m1[i] as int;
        let q = m2[i] as int;
        assert(f1[a] == spec_est(tasks[i], b));
        assert(f1[q] == spec_est(tasks[i], b));
        if a < q {
            lemma_chain_increasing(f1, a, q);
            assert(false);
        }
        if q < a {
            lemma_chain_increasing(f1, q, a);
            assert(false);
        }
    }
    assert(m1 =~= m2);
}

/// One direction of the membership argument behind
/// [`lemma_rev_skeleton_unique`].
proof fn lemma_rev_skeleton_member(
    t1: Seq<i32>,
    m1: Seq<usize>,
    t2: Seq<i32>,
    m2: Seq<usize>,
    tasks: Seq<TaskDisj>,
    b: Seq<(i32, i32)>,
    x: int,
)
    requires
        is_rev_skeleton(t1, m1, tasks, b),
        is_rev_skeleton(t2, m2, tasks, b),
        Seq::new(t1.len(), |k: int| -(t1[k] as int)).contains(x),
    ensures
        Seq::new(t2.len(), |k: int| -(t2[k] as int)).contains(x),
{
    let f1 = Seq::new(t1.len(), |k: int| -(t1[k] as int));
    let f2 = Seq::new(t2.len(), |k: int| -(t2[k] as int));
    let k = choose|k: int| 0 <= k < f1.len() && f1[k] == x;
    if k < f1.len() - 1 {
        let i = choose|i: int| 0 <= i < tasks.len() && spec_lct(tasks[i], b) == t1[k] as int;
        assert(f2[m2[i] as int] == x);
        assert(f2.contains(x));
    } else {
        assert(f2[f2.len() - 1] == x);
        assert(f2.contains(x));
    }
}

/// The mirror of [`is_fwd_skeleton`] for the reverse timeline.
pub open spec fn is_rev_skeleton(
    t: Seq<i32>,
    m: Seq<usize>,
    tasks: Seq<TaskDisj>,
    b: Seq<(i32, i32)>,
) -> bool {
    &&& 2 <= t.len() <= tasks.len() + 1
    &&& forall|k: int| 0 <= k < t.len() - 1 ==> (#[trigger] t[k] as int) > t[k + 1] as int
    &&& forall|x: int| 0 <= x < t.len() - 1 ==> exists|i: int|
        0 <= i < tasks.len() && spec_lct(tasks[i], b) == #[trigger] t[x] as int
    &&& t[t.len() - 1] as int == min_est(tasks, b) - sum_durations(tasks)
    &&& m.len() == tasks.len()
    &&& forall|i: int| 0 <= i < tasks.len() ==> (#[trigger] m[i] as int) < t.len() - 1 && t[m[
        i
    ] as int] as int == spec_lct(tasks[i], b)
}

/// The reverse skeleton, as a function of the instance.
pub open spec fn rev_skeleton(tasks: Seq<TaskDisj>, b: Seq<(i32, i32)>) -> (Seq<i32>, Seq<
    usize,
>) {
    choose|tm: (Seq<i32>, Seq<usize>)| is_rev_skeleton(tm.0, tm.1, tasks, b)
}

/// Only one pair satisfies [`is_rev_skeleton`].
#[verifier::rlimit(100)]
pub proof fn lemma_rev_skeleton_unique(
    t1: Seq<i32>,
    m1: Seq<usize>,
    t2: Seq<i32>,
    m2: Seq<usize>,
    tasks: Seq<TaskDisj>,
    b: Seq<(i32, i32)>,
)
    requires
        is_rev_skeleton(t1, m1, tasks, b),
        is_rev_skeleton(t2, m2, tasks, b),
    ensures
        t1 == t2,
        m1 == m2,
{
    let f1 = Seq::new(t1.len(), |k: int| -(t1[k] as int));
    let f2 = Seq::new(t2.len(), |k: int| -(t2[k] as int));
    assert(forall|k: int| 0 <= k < f1.len() - 1 ==> #[trigger] f1[k] < f1[k + 1]);
    assert(forall|k: int| 0 <= k < f2.len() - 1 ==> #[trigger] f2[k] < f2[k + 1]);
    assert forall|x: int| f1.contains(x) <==> f2.contains(x) by {
        if f1.contains(x) {
            lemma_rev_skeleton_member(t1, m1, t2, m2, tasks, b, x);
        }
        if f2.contains(x) {
            lemma_rev_skeleton_member(t2, m2, t1, m1, tasks, b, x);
        }
    }
    lemma_increasing_unique(f1, f2);
    assert forall|k: int| 0 <= k < t1.len() implies t1[k] == t2[k] by {
        assert(f1[k] == f2[k]);
    }
    assert(t1 =~= t2);
    assert forall|i: int| 0 <= i < tasks.len() implies (#[trigger] m1[i]) == m2[i] by {
        let a = m1[i] as int;
        let q = m2[i] as int;
        assert(f1[a] == -spec_lct(tasks[i], b));
        assert(f1[q] == -spec_lct(tasks[i], b));
        if a < q {
            lemma_chain_increasing(f1, a, q);
            assert(false);
        }
        if q < a {
            lemma_chain_increasing(f1, q, a);
            assert(false);
        }
    }
    assert(m1 =~= m2);
}

} // verus!
