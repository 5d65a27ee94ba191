//! The detectable-precedences propagator.
//!
//! One propagation call reads a coherent bounds snapshot, runs one forward
//! sweep over the tasks (sorted by ECT, against the tasks sorted by LST) to
//! collect lower-bound pushes, one mirrored reverse sweep to collect
//! upper-bound pushes, and then applies the strictest push per task through
//! the bound-update interface, halting on the first conflict.
//!
//! The applied pushes are proved monotone: a call can only raise lower
//! bounds and only lower upper bounds, it touches no variable that is not
//! some task's start variable, and on success no domain is emptied.

use vstd::prelude::*;
use crate::assignments::{
    Assignments, DomainEvents, EnqueueDecision, Inconsistency, Predicate, PredicateKind,
    PropagatorInitialisationContext, PropositionalConjunction,
};
use crate::task::{
    ArgTaskDisj, TaskDisj, task_bounds_ok, task_wf, tasks_wf, spec_est, spec_lst, spec_ect,
    spec_lct,
};
use crate::timeline::{
    RevTimeline, Timeline, first_free, pour, fwd_skeleton, is_fwd_skeleton,
    lemma_fwd_skeleton_unique, rev_skeleton, is_rev_skeleton, lemma_rev_skeleton_unique,
};
use crate::sorting::{
    sort_pairs, sorted_pairs, sorted_order, lemma_is_sorted_order, lemma_multiset_membership,
    lemma_multiset_no_duplicates,
};

verus! {

/// `v` is the start variable of some task.
pub open spec fn is_start_var(tasks: Seq<TaskDisj>, v: int) -> bool {
    exists|i: int| 0 <= i < tasks.len() && (#[trigger] tasks[i].starting_time) as int == v
}

/// Index of the first task whose earliest completion exceeds its latest
/// completion, searching from `i`; `tasks.len()` if there is none.
pub open spec fn first_violation(tasks: Seq<TaskDisj>, b: Seq<(i32, i32)>, i: int) -> int
    recommends
        0 <= i <= tasks.len(),
    decreases tasks.len() - i
        when 0 <= i <= tasks.len()
{
    if i >= tasks.len() {
        tasks.len() as int
    } else if spec_ect(tasks[i], b) > spec_lct(tasks[i], b) {
        i
    } else {
        first_violation(tasks, b, i + 1)
    }
}


/// The `(key, id)` tables the sweeps sort, in id order: latest starts,
/// earliest completions, and their negations for the descending orders.
pub open spec fn lst_pairs(tasks: Seq<TaskDisj>, b: Seq<(i32, i32)>) -> Seq<(i32, usize)> {
    Seq::new(tasks.len(), |i: int| (spec_lst(tasks[i], b) as i32, i as usize))
}

pub open spec fn ect_pairs(tasks: Seq<TaskDisj>, b: Seq<(i32, i32)>) -> Seq<(i32, usize)> {
    Seq::new(tasks.len(), |i: int| (spec_ect(tasks[i], b) as i32, i as usize))
}

pub open spec fn neg_ect_pairs(tasks: Seq<TaskDisj>, b: Seq<(i32, i32)>) -> Seq<(i32, usize)> {
    Seq::new(tasks.len(), |i: int| ((-spec_ect(tasks[i], b)) as i32, i as usize))
}

pub open spec fn neg_lst_pairs(tasks: Seq<TaskDisj>, b: Seq<(i32, i32)>) -> Seq<(i32, usize)> {
    Seq::new(tasks.len(), |i: int| ((-spec_lst(tasks[i], b)) as i32, i as usize))
}

/// The scratch state of one sweep: the timeline's capacities and
/// envelope, the cursor into the A order, the outstanding blocking task,
/// the postponed tasks, and the pushes recorded so far.
#[verifier::ext_equal]
pub ghost struct SweepState {
    pub caps: Seq<i32>,
    pub env: int,
    pub j: int,
    pub blocking: Option<int>,
    pub postponed: Seq<int>,
    pub pushes: Seq<Option<i32>>,
}

/// The abstraction of the sweep's executable state: capacities and
/// envelope of the timeline, the A cursor, the blocking task's id, and
/// the postponed ids and pushes.
pub open spec fn walk_state(
    caps: Seq<i32>,
    env: int,
    j: int,
    blocking: Option<TaskDisj>,
    postponed: Seq<int>,
    pushes: Seq<Option<i32>>,
) -> SweepState {
    SweepState {
        caps,
        env,
        j,
        blocking: match blocking {
            Option::Some(x) => Some(x.local_id as int),
            Option::None => None,
        },
        postponed,
        pushes,
    }
}

/// Full slices between consecutive ascending time points.
pub open spec fn initial_caps(t: Seq<i32>) -> Seq<i32> {
    Seq::new((t.len() - 1) as nat, |k: int| (t[k + 1] - t[k]) as i32)
}

/// Full backward slices between consecutive descending time points.
pub open spec fn initial_rev_caps(t: Seq<i32>) -> Seq<i32> {
    Seq::new((t.len() - 1) as nat, |k: int| (t[k] - t[k + 1]) as i32)
}

/// The sweep's starting state over `n` tasks.
pub open spec fn initial_sweep(caps: Seq<i32>, n: int) -> SweepState {
    SweepState {
        caps,
        env: -1,
        j: 0,
        blocking: None,
        postponed: Seq::empty(),
        pushes: Seq::new(n as nat, |q: int| Option::<i32>::None),
    }
}

/// Provisionally scheduling task `id`: pour its duration into the
/// capacities from the first free slice at or after its own.
pub open spec fn sweep_schedule(
    st: SweepState,
    m: Seq<usize>,
    tasks: Seq<TaskDisj>,
    id: int,
) -> SweepState {
    let start = first_free(st.caps, m[id] as int);
    let pk = pour(st.caps, start, tasks[id].duration as int);
    SweepState {
        caps: pk.0,
        env: if st.env >= pk.1 {
            st.env
        } else {
            pk.1
        },
        ..st
    }
}

/// The earliest completion of the scheduled set, `0` while it is empty.
pub open spec fn sweep_completion(st: SweepState, t: Seq<i32>) -> int {
    if st.env < 0 {
        0
    } else {
        t[st.env + 1] - st.caps[st.env]
    }
}

/// The latest start of the scheduled set, the first time point while it
/// is empty.
pub open spec fn sweep_latest(st: SweepState, t: Seq<i32>) -> int {
    if st.env < 0 {
        t[0] as int
    } else {
        t[st.env + 1] + st.caps[st.env]
    }
}

/// Keep only the strictest (largest) lower-bound push per task.
pub open spec fn lb_recorded(pushes: Seq<Option<i32>>, id: int, value: i32) -> Seq<Option<i32>> {
    match pushes[id] {
        Option::None => pushes.update(id, Some(value)),
        Option::Some(v) => if value > v {
            pushes.update(id, Some(value))
        } else {
            pushes
        },
    }
}

/// Keep only the strictest (smallest) upper-bound push per task.
pub open spec fn ub_recorded(pushes: Seq<Option<i32>>, id: int, value: i32) -> Seq<Option<i32>> {
    match pushes[id] {
        Option::None => pushes.update(id, Some(value)),
        Option::Some(v) => if value < v {
            pushes.update(id, Some(value))
        } else {
            pushes
        },
    }
}

/// Record one lower-bound value for every postponed task in turn.
#[verifier::opaque]
pub open spec fn lb_record_all(
    pushes: Seq<Option<i32>>,
    postponed: Seq<int>,
    value: i32,
) -> Seq<Option<i32>>
    decreases postponed.len(),
{
    if postponed.len() == 0 {
        pushes
    } else {
        lb_record_all(lb_recorded(pushes, postponed[0], value), postponed.skip(1), value)
    }
}

/// Record `latest - duration` for every postponed task in turn: the
/// reverse sweep subtracts each task's own duration.
#[verifier::opaque]
pub open spec fn ub_record_all_tasks(
    pushes: Seq<Option<i32>>,
    postponed: Seq<int>,
    latest: int,
    tasks: Seq<TaskDisj>,
) -> Seq<Option<i32>>
    decreases postponed.len(),
{
    if postponed.len() == 0 {
        pushes
    } else {
        ub_record_all_tasks(
            ub_recorded(pushes, postponed[0], (latest - tasks[postponed[0]].duration) as i32),
            postponed.skip(1),
            latest,
            tasks,
        )
    }
}

/// The forward sweep's inner walk along the A order (LST ascending):
/// while the head of the A order must finish before `ect_i`, schedule it
/// if its window can absorb it, make it blocking if none is outstanding,
/// and conflict otherwise (the ids of the blocking task and of the new
/// irreducibly tight one).
#[verifier::opaque]
pub open spec fn fwd_advance(
    tasks: Seq<TaskDisj>,
    b: Seq<(i32, i32)>,
    m: Seq<usize>,
    aord: Seq<(i32, usize)>,
    ect_i: int,
    st: SweepState,
) -> Result<SweepState, (int, int)>
    decreases aord.len() - st.j,
{
    let n = aord.len() as int;
    if st.j < 0 || st.j >= n - 1 {
        Ok(st)
    } else {
        let k_id = aord[st.j].1 as int;
        if !(spec_lst(tasks[k_id], b) < ect_i) {
            Ok(st)
        } else if spec_lst(tasks[k_id], b) >= spec_ect(tasks[k_id], b) {
            fwd_advance(
                tasks,
                b,
                m,
                aord,
                ect_i,
                SweepState { j: st.j + 1, ..sweep_schedule(st, m, tasks, k_id) },
            )
        } else {
            match st.blocking {
                Option::Some(x) => Err((x, k_id)),
                Option::None => fwd_advance(
                    tasks,
                    b,
                    m,
                    aord,
                    ect_i,
                    SweepState { j: st.j + 1, blocking: Some(k_id), ..st },
                ),
            }
        }
    }
}

/// The reverse sweep's inner walk along its A order (ECT descending):
/// the guard mirrors to `ECT(k) > LST(i)`.
#[verifier::opaque]
pub open spec fn rev_advance(
    tasks: Seq<TaskDisj>,
    b: Seq<(i32, i32)>,
    m: Seq<usize>,
    aord: Seq<(i32, usize)>,
    lst_i: int,
    st: SweepState,
) -> Result<SweepState, (int, int)>
    decreases aord.len() - st.j,
{
    let n = aord.len() as int;
    if st.j < 0 || st.j >= n - 1 {
        Ok(st)
    } else {
        let k_id = aord[st.j].1 as int;
        if !(spec_ect(tasks[k_id], b) > lst_i) {
            Ok(st)
        } else if spec_lst(tasks[k_id], b) >= spec_ect(tasks[k_id], b) {
            rev_advance(
                tasks,
                b,
                m,
                aord,
                lst_i,
                SweepState { j: st.j + 1, ..sweep_schedule(st, m, tasks, k_id) },
            )
        } else {
            match st.blocking {
                Option::Some(x) => Err((x, k_id)),
                Option::None => rev_advance(
                    tasks,
                    b,
                    m,
                    aord,
                    lst_i,
                    SweepState { j: st.j + 1, blocking: Some(k_id), ..st },
                ),
            }
        }
    }
}

/// One step of the forward sweep over the B order: after the inner walk,
/// record the completion of the scheduled set for the current task, or
/// resolve or extend the postponed set while a blocking task is
/// outstanding.  An empty scheduled set records no push.
pub open spec fn fwd_resolve(
    tasks: Seq<TaskDisj>,
    t: Seq<i32>,
    m: Seq<usize>,
    st1: SweepState,
    i_id: int,
) -> SweepState {
    match st1.blocking {
        Option::None => SweepState {
            pushes: if st1.env >= 0 {
                lb_recorded(st1.pushes, i_id, sweep_completion(st1, t) as i32)
            } else {
                st1.pushes
            },
            ..st1
        },
        Option::Some(x) => if x == i_id {
            let p1 = if st1.env >= 0 {
                lb_recorded(st1.pushes, i_id, sweep_completion(st1, t) as i32)
            } else {
                st1.pushes
            };
            let st_s = sweep_schedule(SweepState { pushes: p1, ..st1 }, m, tasks, i_id);
            SweepState {
                blocking: None,
                postponed: Seq::empty(),
                pushes: lb_record_all(st_s.pushes, st_s.postponed, sweep_completion(st_s, t)
                    as i32),
                ..st_s
            }
        } else {
            SweepState { postponed: st1.postponed.push(i_id), ..st1 }
        },
    }
}

/// One step of the reverse sweep over its B order, recording
/// `latest start - duration` as candidate upper bounds.
pub open spec fn rev_resolve(
    tasks: Seq<TaskDisj>,
    t: Seq<i32>,
    m: Seq<usize>,
    st1: SweepState,
    i_id: int,
) -> SweepState {
    match st1.blocking {
        Option::None => SweepState {
            pushes: if st1.env >= 0 {
                ub_recorded(st1.pushes, i_id, (sweep_latest(st1, t) - tasks[i_id].duration)
                    as i32)
            } else {
                st1.pushes
            },
            ..st1
        },
        Option::Some(x) => if x == i_id {
            let p1 = if st1.env >= 0 {
                ub_recorded(st1.pushes, i_id, (sweep_latest(st1, t) - tasks[i_id].duration)
                    as i32)
            } else {
                st1.pushes
            };
            let st_s = sweep_schedule(SweepState { pushes: p1, ..st1 }, m, tasks, i_id);
            SweepState {
                blocking: None,
                postponed: Seq::empty(),
                pushes: ub_record_all_tasks(
                    st_s.pushes,
                    st_s.postponed,
                    sweep_latest(st_s, t),
                    tasks,
                ),
                ..st_s
            }
        } else {
            SweepState { postponed: st1.postponed.push(i_id), ..st1 }
        },
    }
}

/// The whole forward sweep from element `bi` of the B order on.
#[verifier::opaque]
pub open spec fn fwd_sweep(
    tasks: Seq<TaskDisj>,
    b: Seq<(i32, i32)>,
    t: Seq<i32>,
    m: Seq<usize>,
    aord: Seq<(i32, usize)>,
    bord: Seq<(i32, usize)>,
    st: SweepState,
    bi: int,
) -> Result<Seq<Option<i32>>, (int, int)>
    decreases bord.len() - bi,
{
    if bi < 0 || bi >= bord.len() {
        Ok(st.pushes)
    } else {
        let i_id = bord[bi].1 as int;
        match fwd_advance(tasks, b, m, aord, spec_ect(tasks[i_id], b), st) {
            Err(e) => Err(e),
            Ok(st1) => fwd_sweep(
                tasks,
                b,
                t,
                m,
                aord,
                bord,
                fwd_resolve(tasks, t, m, st1, i_id),
                bi + 1,
            ),
        }
    }
}

/// The whole reverse sweep from element `bi` of its B order on.
#[verifier::opaque]
pub open spec fn rev_sweep(
    tasks: Seq<TaskDisj>,
    b: Seq<(i32, i32)>,
    t: Seq<i32>,
    m: Seq<usize>,
    aord: Seq<(i32, usize)>,
    bord: Seq<(i32, usize)>,
    st: SweepState,
    bi: int,
) -> Result<Seq<Option<i32>>, (int, int)>
    decreases bord.len() - bi,
{
    if bi < 0 || bi >= bord.len() {
        Ok(st.pushes)
    } else {
        let i_id = bord[bi].1 as int;
        match rev_advance(tasks, b, m, aord, spec_lst(tasks[i_id], b), st) {
            Err(e) => Err(e),
            Ok(st1) => rev_sweep(
                tasks,
                b,
                t,
                m,
                aord,
                bord,
                rev_resolve(tasks, t, m, st1, i_id),
                bi + 1,
            ),
        }
    }
}

/// The lower-bound pushes of one call, as a function of the task array
/// and the bounds snapshot alone; `Err` carries the blocking task's id
/// and the id of the second irreducibly tight task.
pub open spec fn spec_lb_pushes(tasks: Seq<TaskDisj>, b: Seq<(i32, i32)>) -> Result<
    Seq<Option<i32>>,
    (int, int),
> {
    let aord = sorted_order(lst_pairs(tasks, b));
    let bord = sorted_order(ect_pairs(tasks, b));
    let tm = fwd_skeleton(tasks, b);
    fwd_sweep(
        tasks,
        b,
        tm.0,
        tm.1,
        aord,
        bord,
        initial_sweep(initial_caps(tm.0), tasks.len() as int),
        0,
    )
}

/// The upper-bound pushes of one call.
pub open spec fn spec_ub_pushes(tasks: Seq<TaskDisj>, b: Seq<(i32, i32)>) -> Result<
    Seq<Option<i32>>,
    (int, int),
> {
    let aord = sorted_order(neg_ect_pairs(tasks, b));
    let bord = sorted_order(neg_lst_pairs(tasks, b));
    let tm = rev_skeleton(tasks, b);
    rev_sweep(
        tasks,
        b,
        tm.0,
        tm.1,
        aord,
        bord,
        initial_sweep(initial_rev_caps(tm.0), tasks.len() as int),
        0,
    )
}

/// The two-window explanation of a blocking collision.
pub open spec fn spec_window_reason(
    tasks: Seq<TaskDisj>,
    b: Seq<(i32, i32)>,
    x: int,
    k: int,
) -> Seq<Predicate> {
    seq![
        (Predicate {
            var: tasks[x].starting_time,
            kind: PredicateKind::GreaterEqual,
            value: b[tasks[x].starting_time as int].0,
        }),
        (Predicate {
            var: tasks[x].starting_time,
            kind: PredicateKind::LessEqual,
            value: b[tasks[x].starting_time as int].1,
        }),
        (Predicate {
            var: tasks[k].starting_time,
            kind: PredicateKind::GreaterEqual,
            value: b[tasks[k].starting_time as int].0,
        }),
        (Predicate {
            var: tasks[k].starting_time,
            kind: PredicateKind::LessEqual,
            value: b[tasks[k].starting_time as int].1,
        }),
    ]
}

/// The naive all-tasks explanation attached to every applied push.
pub open spec fn spec_naive_reason(tasks: Seq<TaskDisj>, b: Seq<(i32, i32)>) -> Seq<Predicate> {
    Seq::new(
        (2 * tasks.len()) as nat,
        |q: int|
            if q % 2 == 0 {
                Predicate {
                    var: tasks[q / 2].starting_time,
                    kind: PredicateKind::GreaterEqual,
                    value: b[tasks[q / 2].starting_time as int].0,
                }
            } else {
                Predicate {
                    var: tasks[q / 2].starting_time,
                    kind: PredicateKind::LessEqual,
                    value: b[tasks[q / 2].starting_time as int].1,
                }
            },
    )
}

/// Applying the lower-bound pushes in id order to the working bounds:
/// a push is effective when it exceeds the snapshot EST, and rejected
/// (`None`) when it would pass the variable's upper bound.
#[verifier::opaque]
pub open spec fn apply_lb_pushes(
    cur: Seq<(i32, i32)>,
    tasks: Seq<TaskDisj>,
    b0: Seq<(i32, i32)>,
    pushes: Seq<Option<i32>>,
    i: int,
) -> Option<Seq<(i32, i32)>>
    decreases tasks.len() - i,
{
    if i < 0 || i >= tasks.len() {
        Some(cur)
    } else {
        match pushes[i] {
            Option::Some(v) => {
                if v as int > spec_est(tasks[i], b0) {
                    let st = tasks[i].starting_time as int;
                    if v as int > cur[st].1 as int {
                        None
                    } else {
                        apply_lb_pushes(
                            cur.update(st, (if v > cur[st].0 {
                                v
                            } else {
                                cur[st].0
                            }, cur[st].1)),
                            tasks,
                            b0,
                            pushes,
                            i + 1,
                        )
                    }
                } else {
                    apply_lb_pushes(cur, tasks, b0, pushes, i + 1)
                }
            },
            Option::None => apply_lb_pushes(cur, tasks, b0, pushes, i + 1),
        }
    }
}

/// Applying the upper-bound pushes in id order: effective below the
/// snapshot LST, rejected below the variable's lower bound.
#[verifier::opaque]
pub open spec fn apply_ub_pushes(
    cur: Seq<(i32, i32)>,
    tasks: Seq<TaskDisj>,
    b0: Seq<(i32, i32)>,
    pushes: Seq<Option<i32>>,
    i: int,
) -> Option<Seq<(i32, i32)>>
    decreases tasks.len() - i,
{
    if i < 0 || i >= tasks.len() {
        Some(cur)
    } else {
        match pushes[i] {
            Option::Some(v) => {
                if (v as int) < spec_lst(tasks[i], b0) {
                    let st = tasks[i].starting_time as int;
                    if (v as int) < cur[st].0 as int {
                        None
                    } else {
                        apply_ub_pushes(
                            cur.update(st, (cur[st].0, if v < cur[st].1 {
                                v
                            } else {
                                cur[st].1
                            })),
                            tasks,
                            b0,
                            pushes,
                            i + 1,
                        )
                    }
                } else {
                    apply_ub_pushes(cur, tasks, b0, pushes, i + 1)
                }
            },
            Option::None => apply_ub_pushes(cur, tasks, b0, pushes, i + 1),
        }
    }
}

/// One whole propagation call as a function of the task array and the
/// entry snapshot: the bounds after both sweeps' pushes, or the
/// explanation the conflict carries.
pub open spec fn spec_propagate(tasks: Seq<TaskDisj>, b0: Seq<(i32, i32)>) -> Result<
    Seq<(i32, i32)>,
    Seq<Predicate>,
> {
    match spec_lb_pushes(tasks, b0) {
        Err((x, k)) => Err(spec_window_reason(tasks, b0, x, k)),
        Ok(lbs) => match spec_ub_pushes(tasks, b0) {
            Err((x, k)) => Err(spec_window_reason(tasks, b0, x, k)),
            Ok(ubs) => match apply_lb_pushes(b0, tasks, b0, lbs, 0) {
                Option::None => Err(spec_naive_reason(tasks, b0)),
                Option::Some(b1) => match apply_ub_pushes(b1, tasks, b0, ubs, 0) {
                    Option::None => Err(spec_naive_reason(tasks, b0)),
                    Option::Some(b2) => Ok(b2),
                },
            },
        },
    }
}

/// The reverse half alone, as `propagate_upper_bound` performs it.
pub open spec fn spec_propagate_upper(tasks: Seq<TaskDisj>, b0: Seq<(i32, i32)>) -> Result<
    Seq<(i32, i32)>,
    Seq<Predicate>,
> {
    match spec_ub_pushes(tasks, b0) {
        Err((x, k)) => Err(spec_window_reason(tasks, b0, x, k)),
        Ok(ubs) => match apply_ub_pushes(b0, tasks, b0, ubs, 0) {
            Option::None => Err(spec_naive_reason(tasks, b0)),
            Option::Some(b2) => Ok(b2),
        },
    }
}


/// One unfolding of [`fwd_advance`]: the step the inner walk takes.
proof fn lemma_fwd_advance_step(
    tasks: Seq<TaskDisj>,
    b: Seq<(i32, i32)>,
    m: Seq<usize>,
    aord: Seq<(i32, usize)>,
    ect_i: int,
    pre: SweepState,
    cur: SweepState,
)
    requires
        0 <= pre.j < aord.len() - 1,
        spec_lst(tasks[aord[pre.j].1 as int], b) < ect_i,
        ({
            let k_id = aord[pre.j].1 as int;
            if spec_lst(tasks[k_id], b) >= spec_ect(tasks[k_id], b) {
                cur == SweepState { j: pre.j + 1, ..sweep_schedule(pre, m, tasks, k_id) }
            } else {
                pre.blocking is None && cur == SweepState {
                    j: pre.j + 1,
                    blocking: Some(aord[pre.j].1 as int),
                    ..pre
                }
            }
        }),
    ensures
        fwd_advance(tasks, b, m, aord, ect_i, pre) == fwd_advance(tasks, b, m, aord, ect_i, cur),
{
    reveal(fwd_advance);
}

/// The inner walk conflicts exactly on a second irreducibly tight window.
proof fn lemma_fwd_advance_conflict(
    tasks: Seq<TaskDisj>,
    b: Seq<(i32, i32)>,
    m: Seq<usize>,
    aord: Seq<(i32, usize)>,
    ect_i: int,
    pre: SweepState,
    x: int,
)
    requires
        0 <= pre.j < aord.len() - 1,
        spec_lst(tasks[aord[pre.j].1 as int], b) < ect_i,
        !(spec_lst(tasks[aord[pre.j].1 as int], b) >= spec_ect(
            tasks[aord[pre.j].1 as int],
            b,
        )),
        pre.blocking == Some(x),
    ensures
        fwd_advance(tasks, b, m, aord, ect_i, pre) == Err::<SweepState, (int, int)>((
            x,
            aord[pre.j].1 as int,
        )),
{
    reveal(fwd_advance);
}

/// The inner walk is finished once its guard fails.
proof fn lemma_fwd_advance_done(
    tasks: Seq<TaskDisj>,
    b: Seq<(i32, i32)>,
    m: Seq<usize>,
    aord: Seq<(i32, usize)>,
    ect_i: int,
    st: SweepState,
)
    requires
        0 <= st.j < aord.len(),
        st.j < aord.len() - 1 ==> !(spec_lst(tasks[aord[st.j].1 as int], b) < ect_i),
    ensures
        fwd_advance(tasks, b, m, aord, ect_i, st) == Ok::<SweepState, (int, int)>(st),
{
    reveal(fwd_advance);
}

/// One unfolding of [`fwd_sweep`]: processing one element of the B order.
proof fn lemma_fwd_sweep_step(
    tasks: Seq<TaskDisj>,
    b: Seq<(i32, i32)>,
    t: Seq<i32>,
    m: Seq<usize>,
    aord: Seq<(i32, usize)>,
    bord: Seq<(i32, usize)>,
    st_bi: SweepState,
    st1: SweepState,
    bi: int,
)
    requires
        0 <= bi < bord.len(),
        fwd_advance(tasks, b, m, aord, spec_ect(tasks[bord[bi].1 as int], b), st_bi) == Ok::<
            SweepState,
            (int, int),
        >(st1),
    ensures
        fwd_sweep(tasks, b, t, m, aord, bord, st_bi, bi) == fwd_sweep(
            tasks,
            b,
            t,
            m,
            aord,
            bord,
            fwd_resolve(tasks, t, m, st1, bord[bi].1 as int),
            bi + 1,
        ),
{
    reveal(fwd_sweep);
}

/// A sweep that meets a conflict in its inner walk reports it.
proof fn lemma_fwd_sweep_conflict(
    tasks: Seq<TaskDisj>,
    b: Seq<(i32, i32)>,
    t: Seq<i32>,
    m: Seq<usize>,
    aord: Seq<(i32, usize)>,
    bord: Seq<(i32, usize)>,
    st_bi: SweepState,
    bi: int,
    x: int,
    k: int,
)
    requires
        0 <= bi < bord.len(),
        fwd_advance(tasks, b, m, aord, spec_ect(tasks[bord[bi].1 as int], b), st_bi) == Err::<
            SweepState,
            (int, int),
        >((x, k)),
    ensures
        fwd_sweep(tasks, b, t, m, aord, bord, st_bi, bi) == Err::<Seq<Option<i32>>, (int, int)>(
            (x, k),
        ),
{
    reveal(fwd_sweep);
}

/// A finished forward sweep yields its recorded pushes.
proof fn lemma_fwd_sweep_done(
    tasks: Seq<TaskDisj>,
    b: Seq<(i32, i32)>,
    t: Seq<i32>,
    m: Seq<usize>,
    aord: Seq<(i32, usize)>,
    bord: Seq<(i32, usize)>,
    st: SweepState,
    bi: int,
)
    requires
        bi >= bord.len(),
    ensures
        fwd_sweep(tasks, b, t, m, aord, bord, st, bi) == Ok::<Seq<Option<i32>>, (int, int)>(
            st.pushes,
        ),
{
    reveal(fwd_sweep);
}

/// One unfolding of [`rev_advance`]: the step the reverse inner walk takes.
proof fn lemma_rev_advance_step(
    tasks: Seq<TaskDisj>,
    b: Seq<(i32, i32)>,
    m: Seq<usize>,
    aord: Seq<(i32, usize)>,
    lst_i: int,
    pre: SweepState,
    cur: SweepState,
)
    requires
        0 <= pre.j < aord.len() - 1,
        spec_ect(tasks[aord[pre.j].1 as int], b) > lst_i,
        ({
            let k_id = aord[pre.j].1 as int;
            if spec_lst(tasks[k_id], b) >= spec_ect(tasks[k_id], b) {
                cur == SweepState { j: pre.j + 1, ..sweep_schedule(pre, m, tasks, k_id) }
            } else {
                pre.blocking is None && cur == SweepState {
                    j: pre.j + 1,
                    blocking: Some(aord[pre.j].1 as int),
                    ..pre
                }
            }
        }),
    ensures
        rev_advance(tasks, b, m, aord, lst_i, pre) == rev_advance(tasks, b, m, aord, lst_i, cur),
{
    reveal(rev_advance);
}

/// The reverse inner walk conflicts exactly on a second tight window.
proof fn lemma_rev_advance_conflict(
    tasks: Seq<TaskDisj>,
    b: Seq<(i32, i32)>,
    m: Seq<usize>,
    aord: Seq<(i32, usize)>,
    lst_i: int,
    pre: SweepState,
    x: int,
)
    requires
        0 <= pre.j < aord.len() - 1,
        spec_ect(tasks[aord[pre.j].1 as int], b) > lst_i,
        !(spec_lst(tasks[aord[pre.j].1 as int], b) >= spec_ect(
            tasks[aord[pre.j].1 as int],
            b,
        )),
        pre.blocking == Some(x),
    ensures
        rev_advance(tasks, b, m, aord, lst_i, pre) == Err::<SweepState, (int, int)>((
            x,
            aord[pre.j].1 as int,
        )),
{
    reveal(rev_advance);
}

/// The reverse inner walk is finished once its guard fails.
proof fn lemma_rev_advance_done(
    tasks: Seq<TaskDisj>,
    b: Seq<(i32, i32)>,
    m: Seq<usize>,
    aord: Seq<(i32, usize)>,
    lst_i: int,
    st: SweepState,
)
    requires
        0 <= st.j < aord.len(),
        st.j < aord.len() - 1 ==> !(spec_ect(tasks[aord[st.j].1 as int], b) > lst_i),
    ensures
        rev_advance(tasks, b, m, aord, lst_i, st) == Ok::<SweepState, (int, int)>(st),
{
    reveal(rev_advance);
}

/// One unfolding of [`rev_sweep`].
proof fn lemma_rev_sweep_step(
    tasks: Seq<TaskDisj>,
    b: Seq<(i32, i32)>,
    t: Seq<i32>,
    m: Seq<usize>,
    aord: Seq<(i32, usize)>,
    bord: Seq<(i32, usize)>,
    st_bi: SweepState,
    st1: SweepState,
    bi: int,
)
    requires
        0 <= bi < bord.len(),
        rev_advance(tasks, b, m, aord, spec_lst(tasks[bord[bi].1 as int], b), st_bi) == Ok::<
            SweepState,
            (int, int),
        >(st1),
    ensures
        rev_sweep(tasks, b, t, m, aord, bord, st_bi, bi) == rev_sweep(
            tasks,
            b,
            t,
            m,
            aord,
            bord,
            rev_resolve(tasks, t, m, st1, bord[bi].1 as int),
            bi + 1,
        ),
{
    reveal(rev_sweep);
}

/// A reverse sweep that meets a conflict in its inner walk reports it.
proof fn lemma_rev_sweep_conflict(
    tasks: Seq<TaskDisj>,
    b: Seq<(i32, i32)>,
    t: Seq<i32>,
    m: Seq<usize>,
    aord: Seq<(i32, usize)>,
    bord: Seq<(i32, usize)>,
    st_bi: SweepState,
    bi: int,
    x: int,
    k: int,
)
    requires
        0 <= bi < bord.len(),
        rev_advance(tasks, b, m, aord, spec_lst(tasks[bord[bi].1 as int], b), st_bi) == Err::<
            SweepState,
            (int, int),
        >((x, k)),
    ensures
        rev_sweep(tasks, b, t, m, aord, bord, st_bi, bi) == Err::<Seq<Option<i32>>, (int, int)>(
            (x, k),
        ),
{
    reveal(rev_sweep);
}

/// A finished reverse sweep yields its recorded pushes.
proof fn lemma_rev_sweep_done(
    tasks: Seq<TaskDisj>,
    b: Seq<(i32, i32)>,
    t: Seq<i32>,
    m: Seq<usize>,
    aord: Seq<(i32, usize)>,
    bord: Seq<(i32, usize)>,
    st: SweepState,
    bi: int,
)
    requires
        bi >= bord.len(),
    ensures
        rev_sweep(tasks, b, t, m, aord, bord, st, bi) == Ok::<Seq<Option<i32>>, (int, int)>(
            st.pushes,
        ),
{
    reveal(rev_sweep);
}

/// The naive explanation: `EST <= start /\ start <= LST` for every task.
fn naive_reason(tasks: &Vec<TaskDisj>, assignments: &Assignments) -> (r: PropositionalConjunction)
    requires
        forall|i: int| 0 <= i < tasks@.len() ==> task_bounds_ok(#[trigger] tasks@[i],
            assignments@),
    ensures
        r@.len() == 2 * tasks@.len(),
        forall|i: int| 0 <= i < tasks@.len() ==> r@[2 * i] == (Predicate {
            var: tasks@[i].starting_time,
            kind: PredicateKind::GreaterEqual,
            value: assignments@[#[trigger] tasks@[i].starting_time as int].0,
        }),
        forall|i: int| 0 <= i < tasks@.len() ==> r@[2 * i + 1] == (Predicate {
            var: tasks@[i].starting_time,
            kind: PredicateKind::LessEqual,
            value: assignments@[#[trigger] tasks@[i].starting_time as int].1,
        }),
        r@ == spec_naive_reason(tasks@, assignments@),
{
    let mut r = PropositionalConjunction::new();
    let mut i: usize = 0;
    while i < tasks.len()
        invariant
            i <= tasks@.len(),
            forall|q: int| 0 <= q < tasks@.len() ==> task_bounds_ok(#[trigger] tasks@[q],
                assignments@),
            r@.len() == 2 * i,
            forall|q: int| 0 <= q < i ==> r@[2 * q] == (Predicate {
                var: tasks@[q].starting_time,
                kind: PredicateKind::GreaterEqual,
                value: assignments@[#[trigger] tasks@[q].starting_time as int].0,
            }),
            forall|q: int| 0 <= q < i ==> r@[2 * q + 1] == (Predicate {
                var: tasks@[q].starting_time,
                kind: PredicateKind::LessEqual,
                value: assignments@[#[trigger] tasks@[q].starting_time as int].1,
            }),
        decreases tasks@.len() - i,
    {
        let task = &tasks[i];
        r.push(Predicate {
            var: task.starting_time,
            kind: PredicateKind::GreaterEqual,
            value: TaskDisj::get_est(task, assignments),
        });
        r.push(Predicate {
            var: task.starting_time,
            kind: PredicateKind::LessEqual,
            value: TaskDisj::get_lst(task, assignments),
        });
        i = i + 1;
    }
    proof {
        assert forall|q: int| 0 <= q < 2 * tasks@.len() implies r@[q] == spec_naive_reason(
            tasks@,
            assignments@,
        )[q] by {
            if q % 2 == 0 {
                assert(r@[2 * (q / 2)] == spec_naive_reason(tasks@, assignments@)[q]);
            } else {
                assert(r@[2 * (q / 2) + 1] == spec_naive_reason(tasks@, assignments@)[q]);
            }
        }
        assert(r@ =~= spec_naive_reason(tasks@, assignments@));
    }
    r
}

/// The explanation of a blocking collision: the windows of the two tasks
/// that cannot both be placed.
fn conflict_reason(
    block_task: &TaskDisj,
    k_task: &TaskDisj,
    assignments: &Assignments,
) -> (r: PropositionalConjunction)
    requires
        task_bounds_ok(*block_task, assignments@),
        task_bounds_ok(*k_task, assignments@),
    ensures
        r@.len() == 4,
        r@[0] == (Predicate {
            var: block_task.starting_time,
            kind: PredicateKind::GreaterEqual,
            value: assignments@[block_task.starting_time as int].0,
        }),
        r@[1] == (Predicate {
            var: block_task.starting_time,
            kind: PredicateKind::LessEqual,
            value: assignments@[block_task.starting_time as int].1,
        }),
        r@[2] == (Predicate {
            var: k_task.starting_time,
            kind: PredicateKind::GreaterEqual,
            value: assignments@[k_task.starting_time as int].0,
        }),
        r@[3] == (Predicate {
            var: k_task.starting_time,
            kind: PredicateKind::LessEqual,
            value: assignments@[k_task.starting_time as int].1,
        }),
{
    let mut r = PropositionalConjunction::new();
    r.push(Predicate {
        var: block_task.starting_time,
        kind: PredicateKind::GreaterEqual,
        value: TaskDisj::get_est(block_task, assignments),
    });
    r.push(Predicate {
        var: block_task.starting_time,
        kind: PredicateKind::LessEqual,
        value: TaskDisj::get_lst(block_task, assignments),
    });
    r.push(Predicate {
        var: k_task.starting_time,
        kind: PredicateKind::GreaterEqual,
        value: TaskDisj::get_est(k_task, assignments),
    });
    r.push(Predicate {
        var: k_task.starting_time,
        kind: PredicateKind::LessEqual,
        value: TaskDisj::get_lst(k_task, assignments),
    });
    r
}

/// Records `value` as the lower-bound push for `id` exactly when it is
/// the first push for `id` or strictly stronger (larger) than the stored
/// one: within one call, only the strictest lower-bound push per task
/// survives.
pub fn record_stricter_lb(pushes: &mut Vec<Option<i32>>, id: usize, value: i32)
    requires
        (id as int) < old(pushes)@.len(),
    ensures
        final(pushes)@.len() == old(pushes)@.len(),
        final(pushes)@ == lb_recorded(old(pushes)@, id as int, value),
{
    let record = match pushes[id] {
        None => true,
        Some(v) => value > v,
    };
    if record {
        pushes.set(id, Some(value));
    }
}

/// Records `value` as the upper-bound push for `id` exactly when it is
/// the first push for `id` or strictly stronger (smaller) than the stored
/// one: within one call, only the strictest upper-bound push per task
/// survives.
pub fn record_stricter_ub(pushes: &mut Vec<Option<i32>>, id: usize, value: i32)
    requires
        (id as int) < old(pushes)@.len(),
    ensures
        final(pushes)@.len() == old(pushes)@.len(),
        final(pushes)@ == ub_recorded(old(pushes)@, id as int, value),
{
    let record = match pushes[id] {
        None => true,
        Some(v) => value < v,
    };
    if record {
        pushes.set(id, Some(value));
    }
}


/// On a single task both sweeps record nothing: the timeline stays empty
/// for the only element of the B order.
pub proof fn lemma_lb_pushes_single(tasks: Seq<TaskDisj>, b: Seq<(i32, i32)>)
    requires
        tasks.len() == 1,
    ensures
        spec_lb_pushes(tasks, b) == Ok::<Seq<Option<i32>>, (int, int)>(seq![
            Option::<i32>::None,
        ]),
{
    broadcast use vstd::seq_lib::group_to_multiset_ensures;

    let base = ect_pairs(tasks, b);
    let bord = sorted_order(base);
    assert(sorted_pairs(bord) && bord.to_multiset() == base.to_multiset()) by {
        assert(exists|w: Seq<(i32, usize)>|
            sorted_pairs(w) && #[trigger] w.to_multiset() == base.to_multiset()) by {
            assert(sorted_pairs(base));
        }
    }
    assert(bord.len() == bord.to_multiset().len());
    assert(base.len() == base.to_multiset().len());
    assert(base.contains(base[0]));
    assert(base.to_multiset().count(base[0]) > 0);
    assert(bord.contains(base[0]));
    assert(bord[0] == base[0]);
    let abase = lst_pairs(tasks, b);
    let aord = sorted_order(abase);
    assert(sorted_pairs(aord) && aord.to_multiset() == abase.to_multiset()) by {
        assert(exists|w: Seq<(i32, usize)>|
            sorted_pairs(w) && #[trigger] w.to_multiset() == abase.to_multiset()) by {
            assert(sorted_pairs(abase));
        }
    }
    assert(aord.len() == aord.to_multiset().len());
    assert(abase.len() == abase.to_multiset().len());
    let tm = fwd_skeleton(tasks, b);
    let st0 = initial_sweep(initial_caps(tm.0), 1);
    lemma_fwd_advance_done(tasks, b, tm.1, aord, spec_ect(tasks[bord[0].1 as int], b), st0);
    let st2 = fwd_resolve(tasks, tm.0, tm.1, st0, bord[0].1 as int);
    assert(st2 =~~= st0);
    lemma_fwd_sweep_step(tasks, b, tm.0, tm.1, aord, bord, st0, st0, 0);
    lemma_fwd_sweep_done(tasks, b, tm.0, tm.1, aord, bord, st2, 1);
    assert(st0.pushes =~= seq![Option::<i32>::None]);
}

/// The mirror of [`lemma_lb_pushes_single`] for the reverse sweep.
pub proof fn lemma_ub_pushes_single(tasks: Seq<TaskDisj>, b: Seq<(i32, i32)>)
    requires
        tasks.len() == 1,
    ensures
        spec_ub_pushes(tasks, b) == Ok::<Seq<Option<i32>>, (int, int)>(seq![
            Option::<i32>::None,
        ]),
{
    broadcast use vstd::seq_lib::group_to_multiset_ensures;

    let base = neg_lst_pairs(tasks, b);
    let bord = sorted_order(base);
    assert(sorted_pairs(bord) && bord.to_multiset() == base.to_multiset()) by {
        assert(exists|w: Seq<(i32, usize)>|
            sorted_pairs(w) && #[trigger] w.to_multiset() == base.to_multiset()) by {
            assert(sorted_pairs(base));
        }
    }
    assert(bord.len() == bord.to_multiset().len());
    assert(base.len() == base.to_multiset().len());
    assert(base.contains(base[0]));
    assert(base.to_multiset().count(base[0]) > 0);
    assert(bord.contains(base[0]));
    assert(bord[0] == base[0]);
    let abase = neg_ect_pairs(tasks, b);
    let aord = sorted_order(abase);
    assert(sorted_pairs(aord) && aord.to_multiset() == abase.to_multiset()) by {
        assert(exists|w: Seq<(i32, usize)>|
            sorted_pairs(w) && #[trigger] w.to_multiset() == abase.to_multiset()) by {
            assert(sorted_pairs(abase));
        }
    }
    assert(aord.len() == aord.to_multiset().len());
    assert(abase.len() == abase.to_multiset().len());
    let tm = rev_skeleton(tasks, b);
    let st0 = initial_sweep(initial_rev_caps(tm.0), 1);
    lemma_rev_advance_done(tasks, b, tm.1, aord, spec_lst(tasks[bord[0].1 as int], b), st0);
    let st2 = rev_resolve(tasks, tm.0, tm.1, st0, bord[0].1 as int);
    assert(st2 =~~= st0);
    lemma_rev_sweep_step(tasks, b, tm.0, tm.1, aord, bord, st0, st0, 0);
    lemma_rev_sweep_done(tasks, b, tm.0, tm.1, aord, bord, st2, 1);
    assert(st0.pushes =~= seq![Option::<i32>::None]);
}

/// Records one lower-bound value for every postponed task in turn.
fn record_postponed_lb(pushes: &mut Vec<Option<i32>>, postponed: &Vec<TaskDisj>, value: i32)
    requires
        forall|zz: int| 0 <= zz < postponed@.len() ==> ((#[trigger] postponed@[zz]).local_id
            as int) < old(pushes)@.len(),
    ensures
        final(pushes)@.len() == old(pushes)@.len(),
        final(pushes)@ == lb_record_all(
            old(pushes)@,
            postponed@.map_values(|tk: TaskDisj| tk.local_id as int),
            value,
        ),
{
    let ghost post_ids = postponed@.map_values(|tk: TaskDisj| tk.local_id as int);
    proof {
        assert(post_ids.skip(0) =~= post_ids);
    }
    let mut zi: usize = 0;
    while zi < postponed.len()
        invariant
            zi <= postponed@.len(),
            pushes@.len() == old(pushes)@.len(),
            post_ids == postponed@.map_values(|tk: TaskDisj| tk.local_id as int),
            forall|zz: int| 0 <= zz < postponed@.len() ==> ((#[trigger] postponed@[zz]).local_id
                as int) < pushes@.len(),
            lb_record_all(old(pushes)@, post_ids, value) == lb_record_all(
                pushes@,
                post_ids.skip(zi as int),
                value,
            ),
        decreases postponed@.len() - zi,
    {
        proof {
            reveal(lb_record_all);
            assert(post_ids.skip(zi as int)[0] == postponed@[zi as int].local_id as int);
            assert(post_ids.skip(zi as int).skip(1) =~= post_ids.skip(zi + 1));
        }
        record_stricter_lb(pushes, TaskDisj::get_id(&postponed[zi]), value);
        zi = zi + 1;
    }
    proof {
        reveal(lb_record_all);
        assert(post_ids.skip(postponed@.len() as int) =~= Seq::<int>::empty());
    }
}

/// Records `latest - duration` for every postponed task in turn.
fn record_postponed_ub(
    pushes: &mut Vec<Option<i32>>,
    postponed: &Vec<TaskDisj>,
    latest: i32,
    Ghost(tasks): Ghost<Seq<TaskDisj>>,
)
    requires
        forall|zz: int| 0 <= zz < postponed@.len() ==> ((#[trigger] postponed@[zz]).local_id
            as int) < old(pushes)@.len() && (postponed@[zz].local_id as int) < tasks.len()
            && postponed@[zz] == tasks[postponed@[zz].local_id as int],
        forall|i: int| 0 <= i < tasks.len() ==> 0 < (#[trigger] tasks[i]).duration
            <= crate::task::TIME_LIMIT,
        -0x4000_0000 <= latest <= 0x4000_0000,
    ensures
        final(pushes)@.len() == old(pushes)@.len(),
        final(pushes)@ == ub_record_all_tasks(
            old(pushes)@,
            postponed@.map_values(|tk: TaskDisj| tk.local_id as int),
            latest as int,
            tasks,
        ),
{
    let ghost post_ids = postponed@.map_values(|tk: TaskDisj| tk.local_id as int);
    proof {
        assert(post_ids.skip(0) =~= post_ids);
    }
    let mut zi: usize = 0;
    while zi < postponed.len()
        invariant
            zi <= postponed@.len(),
            pushes@.len() == old(pushes)@.len(),
            post_ids == postponed@.map_values(|tk: TaskDisj| tk.local_id as int),
            forall|zz: int| 0 <= zz < postponed@.len() ==> ((#[trigger] postponed@[zz]).local_id
                as int) < pushes@.len() && (postponed@[zz].local_id as int) < tasks.len()
                && postponed@[zz] == tasks[postponed@[zz].local_id as int],
            forall|i: int| 0 <= i < tasks.len() ==> 0 < (#[trigger] tasks[i]).duration
                <= crate::task::TIME_LIMIT,
            -0x4000_0000 <= latest <= 0x4000_0000,
            ub_record_all_tasks(old(pushes)@, post_ids, latest as int, tasks)
                == ub_record_all_tasks(pushes@, post_ids.skip(zi as int), latest as int, tasks),
        decreases postponed@.len() - zi,
    {
        proof {
            reveal(ub_record_all_tasks);
            assert(post_ids.skip(zi as int)[0] == postponed@[zi as int].local_id as int);
            assert(post_ids.skip(zi as int).skip(1) =~= post_ids.skip(zi + 1));
        }
        let zt = postponed[zi];
        record_stricter_ub(pushes, TaskDisj::get_id(&zt), latest - zt.duration);
        zi = zi + 1;
    }
    proof {
        reveal(ub_record_all_tasks);
        assert(post_ids.skip(postponed@.len() as int) =~= Seq::<int>::empty());
    }
}


/// The forward sweep's inner walk, as executable code: its effect is
/// exactly [`fwd_advance`] from the state it was entered in.
#[verifier::rlimit(100)]
fn advance_lb(
    tasks: &Vec<TaskDisj>,
    assignments: &Assignments,
    a_order: &Vec<(i32, usize)>,
    timeline: &mut Timeline,
    j: &mut usize,
    blocking: &mut Option<TaskDisj>,
    ect_i: i32,
    Ghost(ts): Ghost<Seq<i32>>,
    Ghost(ms): Ghost<Seq<usize>>,
    Ghost(post_ids): Ghost<Seq<int>>,
    Ghost(push_seq): Ghost<Seq<Option<i32>>>,
) -> (r: Result<(), Inconsistency>)
    requires
        tasks_wf(tasks@, assignments@),
        a_order@.len() == tasks@.len(),
        forall|q: int| 0 <= q < tasks@.len() ==> (#[trigger] a_order@[q]).1 < tasks@.len()
            && a_order@[q].0 as int == spec_lst(tasks@[a_order@[q].1 as int], assignments@),
        forall|q1: int, q2: int| 0 <= q1 < q2 < tasks@.len() ==> (#[trigger] a_order@[q1]).1
            != (#[trigger] a_order@[q2]).1,
        old(timeline).wf(),
        old(timeline).tasks_g@ == tasks@,
        old(timeline).bounds_g@ == assignments@,
        old(timeline).t@ == ts,
        old(timeline).m@ == ms,
        forall|id: int| #[trigger] old(timeline).scheduled@.contains(id) ==> exists|q: int|
            0 <= q < *old(j) && (#[trigger] a_order@[q]).1 == id,
        *old(j) < tasks@.len(),
        (match *old(blocking) {
            Option::Some(x) => (x.local_id as int) < tasks@.len() && x == tasks@[x.local_id
                as int] && !old(timeline).scheduled@.contains(x.local_id as int) && (exists|
                q: int,
            |
                0 <= q < *old(j) && (#[trigger] a_order@[q]).1 == x.local_id),
            Option::None => true,
        }),
    ensures
        final(timeline).tasks_g@ == tasks@,
        final(timeline).bounds_g@ == assignments@,
        final(timeline).t@ == ts,
        final(timeline).m@ == ms,
        ({
            let st_in = walk_state(
                old(timeline).c@,
                old(timeline).e as int,
                *old(j) as int,
                *old(blocking),
                post_ids,
                push_seq,
            );
            let st_out = walk_state(
                final(timeline).c@,
                final(timeline).e as int,
                *final(j) as int,
                *final(blocking),
                post_ids,
                push_seq,
            );
            match r {
                Result::Ok(u) => {
                    &&& fwd_advance(tasks@, assignments@, ms, a_order@, ect_i as int, st_in)
                        == Ok::<SweepState, (int, int)>(st_out)
                    &&& final(timeline).wf()
                    &&& (forall|id: int| #[trigger] final(timeline).scheduled@.contains(id)
                        ==> exists|q: int|
                        0 <= q < *final(j) && (#[trigger] a_order@[q]).1 == id)
                    &&& *final(j) < tasks@.len()
                    &&& (match *final(blocking) {
                        Option::Some(x) => (x.local_id as int) < tasks@.len() && x == tasks@[
                            x.local_id as int
                        ] && !final(timeline).scheduled@.contains(x.local_id as int) && (
                        exists|q: int|
                            0 <= q < *final(j) && (#[trigger] a_order@[q]).1 == x.local_id),
                        Option::None => true,
                    })
                },
                Result::Err(e) => (exists|x: int, k: int|
                    {
                        &&& fwd_advance(
                            tasks@,
                            assignments@,
                            ms,
                            a_order@,
                            ect_i as int,
                            st_in,
                        ) == Err::<SweepState, (int, int)>((x, k))
                        &&& (e matches Inconsistency::Conflict(c) && c@
                            == #[trigger] spec_window_reason(tasks@, assignments@, x, k))
                    }),
            }
        }),
{
    let ghost b = assignments@;
    let n = tasks.len();
    let ghost st_start = walk_state(
        timeline.c@,
        timeline.e as int,
        *j as int,
        *blocking,
        post_ids,
        push_seq,
    );
    let mut k_task: TaskDisj = tasks[a_order[*j].1];
    let mut ect_k: i32 = TaskDisj::get_ect(&k_task, assignments);
    let mut lst_k: i32 = TaskDisj::get_lst(&k_task, assignments);
    while *j < n - 1 && lst_k < ect_i
        invariant
            n == tasks@.len(),
            n >= 1,
            tasks_wf(tasks@, b),
            b == assignments@,
            a_order@.len() == n,
            forall|q: int| 0 <= q < n ==> (#[trigger] a_order@[q]).1 < n && a_order@[q].0
                as int == spec_lst(tasks@[a_order@[q].1 as int], b),
            forall|q1: int, q2: int| 0 <= q1 < q2 < n ==> (#[trigger] a_order@[q1]).1 != (
            #[trigger] a_order@[q2]).1,
            timeline.wf(),
            timeline.tasks_g@ == tasks@,
            timeline.bounds_g@ == b,
            timeline.t@ == ts,
            timeline.m@ == ms,
            forall|id: int| #[trigger] timeline.scheduled@.contains(id) ==> exists|q: int|
                0 <= q < *j && (#[trigger] a_order@[q]).1 == id,
            *j < n,
            k_task == tasks@[a_order@[*j as int].1 as int],
            ect_k as int == spec_ect(k_task, b),
            lst_k as int == spec_lst(k_task, b),
            (match *blocking {
                Option::Some(x) => (x.local_id as int) < n && x == tasks@[x.local_id as int]
                    && !timeline.scheduled@.contains(x.local_id as int) && (exists|q: int|
                    0 <= q < *j && (#[trigger] a_order@[q]).1 == x.local_id),
                Option::None => true,
            }),
            st_start == walk_state(
                old(timeline).c@,
                old(timeline).e as int,
                *old(j) as int,
                *old(blocking),
                post_ids,
                push_seq,
            ),
            fwd_advance(tasks@, b, ms, a_order@, ect_i as int, st_start) == fwd_advance(
                tasks@,
                b,
                ms,
                a_order@,
                ect_i as int,
                walk_state(
                    timeline.c@,
                    timeline.e as int,
                    *j as int,
                    *blocking,
                    post_ids,
                    push_seq,
                ),
            ),
        decreases n - *j,
    {
        let ghost pre = walk_state(
            timeline.c@,
            timeline.e as int,
            *j as int,
            *blocking,
            post_ids,
            push_seq,
        );
        let ghost k_id = a_order@[*j as int].1 as int;
        if lst_k >= ect_k {
            proof {
                if timeline.scheduled@.contains(k_task.local_id as int) {
                    let q = choose|q: int|
                        0 <= q < *j && (#[trigger] a_order@[q]).1 == k_task.local_id;
                    assert(a_order@[q].1 != a_order@[*j as int].1);
                }
            }
            timeline.schedule_task(&k_task);
            proof {
                assert forall|id: int| #[trigger] timeline.scheduled@.contains(id)
                    implies exists|q: int| 0 <= q < *j + 1 && (#[trigger] a_order@[q]).1
                    == id by {
                    if id == k_task.local_id as int {
                        assert(a_order@[*j as int].1 == id);
                    } else {
                        let q = choose|q: int| 0 <= q < *j && (#[trigger] a_order@[q]).1 == id;
                        assert(a_order@[q].1 == id);
                    }
                }
            }
        } else {
            match *blocking {
                Some(block_task) => {
                    proof {
                        lemma_fwd_advance_conflict(
                            tasks@,
                            b,
                            ms,
                            a_order@,
                            ect_i as int,
                            pre,
                            block_task.local_id as int,
                        );
                    }
                    let creason = conflict_reason(&block_task, &k_task, assignments);
                    proof {
                        assert(creason@ =~= spec_window_reason(
                            tasks@,
                            b,
                            block_task.local_id as int,
                            k_id,
                        ));
                    }
                    return Err(Inconsistency::Conflict(creason));
                },
                None => {
                    proof {
                        if timeline.scheduled@.contains(k_task.local_id as int) {
                            let q = choose|q: int|
                                0 <= q < *j && (#[trigger] a_order@[q]).1 == k_task.local_id;
                            assert(a_order@[q].1 != a_order@[*j as int].1);
                        }
                        assert(a_order@[*j as int].1 == k_task.local_id);
                    }
                    *blocking = Some(k_task);
                },
            }
        }
        *j = *j + 1;
        k_task = tasks[a_order[*j].1];
        ect_k = TaskDisj::get_ect(&k_task, assignments);
        lst_k = TaskDisj::get_lst(&k_task, assignments);
        proof {
            let cur = walk_state(
                timeline.c@,
                timeline.e as int,
                *j as int,
                *blocking,
                post_ids,
                push_seq,
            );
            if spec_lst(tasks@[k_id], b) >= spec_ect(tasks@[k_id], b) {
                assert(cur =~~= (SweepState {
                    j: pre.j + 1,
                    ..sweep_schedule(pre, ms, tasks@, k_id)
                }));
            } else {
                assert(cur =~~= (SweepState { j: pre.j + 1, blocking: Some(k_id), ..pre }));
            }
            lemma_fwd_advance_step(tasks@, b, ms, a_order@, ect_i as int, pre, cur);
        }
    }
    proof {
        let cur = walk_state(
            timeline.c@,
            timeline.e as int,
            *j as int,
            *blocking,
            post_ids,
            push_seq,
        );
        lemma_fwd_advance_done(tasks@, b, ms, a_order@, ect_i as int, cur);
    }
    Ok(())
}

/// The reverse sweep's inner walk: its effect is exactly [`rev_advance`].
#[verifier::rlimit(100)]
fn advance_ub(
    tasks: &Vec<TaskDisj>,
    assignments: &Assignments,
    a_order: &Vec<(i32, usize)>,
    timeline: &mut RevTimeline,
    j: &mut usize,
    blocking: &mut Option<TaskDisj>,
    lst_i: i32,
    Ghost(ts): Ghost<Seq<i32>>,
    Ghost(ms): Ghost<Seq<usize>>,
    Ghost(post_ids): Ghost<Seq<int>>,
    Ghost(push_seq): Ghost<Seq<Option<i32>>>,
) -> (r: Result<(), Inconsistency>)
    requires
        tasks_wf(tasks@, assignments@),
        a_order@.len() == tasks@.len(),
        forall|q: int| 0 <= q < tasks@.len() ==> (#[trigger] a_order@[q]).1 < tasks@.len()
            && a_order@[q].0 as int == -spec_ect(tasks@[a_order@[q].1 as int], assignments@),
        forall|q1: int, q2: int| 0 <= q1 < q2 < tasks@.len() ==> (#[trigger] a_order@[q1]).1
            != (#[trigger] a_order@[q2]).1,
        old(timeline).wf(),
        old(timeline).tasks_g@ == tasks@,
        old(timeline).bounds_g@ == assignments@,
        old(timeline).t@ == ts,
        old(timeline).m@ == ms,
        forall|id: int| #[trigger] old(timeline).scheduled@.contains(id) ==> exists|q: int|
            0 <= q < *old(j) && (#[trigger] a_order@[q]).1 == id,
        *old(j) < tasks@.len(),
        (match *old(blocking) {
            Option::Some(x) => (x.local_id as int) < tasks@.len() && x == tasks@[x.local_id
                as int] && !old(timeline).scheduled@.contains(x.local_id as int) && (exists|
                q: int,
            |
                0 <= q < *old(j) && (#[trigger] a_order@[q]).1 == x.local_id),
            Option::None => true,
        }),
    ensures
        final(timeline).tasks_g@ == tasks@,
        final(timeline).bounds_g@ == assignments@,
        final(timeline).t@ == ts,
        final(timeline).m@ == ms,
        ({
            let st_in = walk_state(
                old(timeline).c@,
                old(timeline).e as int,
                *old(j) as int,
                *old(blocking),
                post_ids,
                push_seq,
            );
            let st_out = walk_state(
                final(timeline).c@,
                final(timeline).e as int,
                *final(j) as int,
                *final(blocking),
                post_ids,
                push_seq,
            );
            match r {
                Result::Ok(u) => {
                    &&& rev_advance(tasks@, assignments@, ms, a_order@, lst_i as int, st_in)
                        == Ok::<SweepState, (int, int)>(st_out)
                    &&& final(timeline).wf()
                    &&& (forall|id: int| #[trigger] final(timeline).scheduled@.contains(id)
                        ==> exists|q: int|
                        0 <= q < *final(j) && (#[trigger] a_order@[q]).1 == id)
                    &&& *final(j) < tasks@.len()
                    &&& (match *final(blocking) {
                        Option::Some(x) => (x.local_id as int) < tasks@.len() && x == tasks@[
                            x.local_id as int
                        ] && !final(timeline).scheduled@.contains(x.local_id as int) && (
                        exists|q: int|
                            0 <= q < *final(j) && (#[trigger] a_order@[q]).1 == x.local_id),
                        Option::None => true,
                    })
                },
                Result::Err(e) => (exists|x: int, k: int|
                    {
                        &&& rev_advance(
                            tasks@,
                            assignments@,
                            ms,
                            a_order@,
                            lst_i as int,
                            st_in,
                        ) == Err::<SweepState, (int, int)>((x, k))
                        &&& (e matches Inconsistency::Conflict(c) && c@
                            == #[trigger] spec_window_reason(tasks@, assignments@, x, k))
                    }),
            }
        }),
{
    let ghost b = assignments@;
    let n = tasks.len();
    let ghost st_start = walk_state(
        timeline.c@,
        timeline.e as int,
        *j as int,
        *blocking,
        post_ids,
        push_seq,
    );
    let mut k_task: TaskDisj = tasks[a_order[*j].1];
    let mut ect_k: i32 = TaskDisj::get_ect(&k_task, assignments);
    let mut lst_k: i32 = TaskDisj::get_lst(&k_task, assignments);
    while *j < n - 1 && ect_k > lst_i
        invariant
            n == tasks@.len(),
            n >= 1,
            tasks_wf(tasks@, b),
            b == assignments@,
            a_order@.len() == n,
            forall|q: int| 0 <= q < n ==> (#[trigger] a_order@[q]).1 < n && a_order@[q].0
                as int == -spec_ect(tasks@[a_order@[q].1 as int], b),
            forall|q1: int, q2: int| 0 <= q1 < q2 < n ==> (#[trigger] a_order@[q1]).1 != (
            #[trigger] a_order@[q2]).1,
            timeline.wf(),
            timeline.tasks_g@ == tasks@,
            timeline.bounds_g@ == b,
            timeline.t@ == ts,
            timeline.m@ == ms,
            forall|id: int| #[trigger] timeline.scheduled@.contains(id) ==> exists|q: int|
                0 <= q < *j && (#[trigger] a_order@[q]).1 == id,
            *j < n,
            k_task == tasks@[a_order@[*j as int].1 as int],
            ect_k as int == spec_ect(k_task, b),
            lst_k as int == spec_lst(k_task, b),
            (match *blocking {
                Option::Some(x) => (x.local_id as int) < n && x == tasks@[x.local_id as int]
                    && !timeline.scheduled@.contains(x.local_id as int) && (exists|q: int|
                    0 <= q < *j && (#[trigger] a_order@[q]).1 == x.local_id),
                Option::None => true,
            }),
            st_start == walk_state(
                old(timeline).c@,
                old(timeline).e as int,
                *old(j) as int,
                *old(blocking),
                post_ids,
                push_seq,
            ),
            rev_advance(tasks@, b, ms, a_order@, lst_i as int, st_start) == rev_advance(
                tasks@,
                b,
                ms,
                a_order@,
                lst_i as int,
                walk_state(
                    timeline.c@,
                    timeline.e as int,
                    *j as int,
                    *blocking,
                    post_ids,
                    push_seq,
                ),
            ),
        decreases n - *j,
    {
        let ghost pre = walk_state(
            timeline.c@,
            timeline.e as int,
            *j as int,
            *blocking,
            post_ids,
            push_seq,
        );
        let ghost k_id = a_order@[*j as int].1 as int;
        if lst_k >= ect_k {
            proof {
                if timeline.scheduled@.contains(k_task.local_id as int) {
                    let q = choose|q: int|
                        0 <= q < *j && (#[trigger] a_order@[q]).1 == k_task.local_id;
                    assert(a_order@[q].1 != a_order@[*j as int].1);
                }
            }
            timeline.schedule_task(&k_task);
            proof {
                assert forall|id: int| #[trigger] timeline.scheduled@.contains(id)
                    implies exists|q: int| 0 <= q < *j + 1 && (#[trigger] a_order@[q]).1
                    == id by {
                    if id == k_task.local_id as int {
                        assert(a_order@[*j as int].1 == id);
                    } else {
                        let q = choose|q: int| 0 <= q < *j && (#[trigger] a_order@[q]).1 == id;
                        assert(a_order@[q].1 == id);
                    }
                }
            }
        } else {
            match *blocking {
                Some(block_task) => {
                    proof {
                        lemma_rev_advance_conflict(
                            tasks@,
                            b,
                            ms,
                            a_order@,
                            lst_i as int,
                            pre,
                            block_task.local_id as int,
                        );
                    }
                    let creason = conflict_reason(&block_task, &k_task, assignments);
                    proof {
                        assert(creason@ =~= spec_window_reason(
                            tasks@,
                            b,
                            block_task.local_id as int,
                            k_id,
                        ));
                    }
                    return Err(Inconsistency::Conflict(creason));
                },
                None => {
                    proof {
                        if timeline.scheduled@.contains(k_task.local_id as int) {
                            let q = choose|q: int|
                                0 <= q < *j && (#[trigger] a_order@[q]).1 == k_task.local_id;
                            assert(a_order@[q].1 != a_order@[*j as int].1);
                        }
                        assert(a_order@[*j as int].1 == k_task.local_id);
                    }
                    *blocking = Some(k_task);
                },
            }
        }
        *j = *j + 1;
        k_task = tasks[a_order[*j].1];
        ect_k = TaskDisj::get_ect(&k_task, assignments);
        lst_k = TaskDisj::get_lst(&k_task, assignments);
        proof {
            let cur = walk_state(
                timeline.c@,
                timeline.e as int,
                *j as int,
                *blocking,
                post_ids,
                push_seq,
            );
            if spec_lst(tasks@[k_id], b) >= spec_ect(tasks@[k_id], b) {
                assert(cur =~~= (SweepState {
                    j: pre.j + 1,
                    ..sweep_schedule(pre, ms, tasks@, k_id)
                }));
            } else {
                assert(cur =~~= (SweepState { j: pre.j + 1, blocking: Some(k_id), ..pre }));
            }
            lemma_rev_advance_step(tasks@, b, ms, a_order@, lst_i as int, pre, cur);
        }
    }
    proof {
        let cur = walk_state(
            timeline.c@,
            timeline.e as int,
            *j as int,
            *blocking,
            post_ids,
            push_seq,
        );
        lemma_rev_advance_done(tasks@, b, ms, a_order@, lst_i as int, cur);
    }
    Ok(())
}


/// Resolves a cleared blocking task in the forward sweep: record the
/// completion for it, schedule it, then record the new completion for
/// every postponed task and drop them.  The effect is the blocking
/// branch of [`fwd_resolve`].
#[verifier::rlimit(100)]
fn resolve_blocked_lb(
    tasks: &Vec<TaskDisj>,
    assignments: &Assignments,
    timeline: &mut Timeline,
    pushes: &mut Vec<Option<i32>>,
    postponed: &mut Vec<TaskDisj>,
    it: TaskDisj,
    Ghost(ts): Ghost<Seq<i32>>,
    Ghost(ms): Ghost<Seq<usize>>,
    Ghost(st1): Ghost<SweepState>,
)
    requires
        tasks_wf(tasks@, assignments@),
        old(timeline).wf(),
        old(timeline).tasks_g@ == tasks@,
        old(timeline).bounds_g@ == assignments@,
        old(timeline).t@ == ts,
        old(timeline).m@ == ms,
        (it.local_id as int) < tasks@.len(),
        it == tasks@[it.local_id as int],
        !old(timeline).scheduled@.contains(it.local_id as int),
        old(pushes)@.len() == tasks@.len(),
        forall|zz: int| 0 <= zz < old(postponed)@.len() ==> ((#[trigger] old(
            postponed,
        )@[zz]).local_id as int) < tasks@.len(),
        st1.caps == old(timeline).c@,
        st1.env == old(timeline).e as int,
        st1.postponed == old(postponed)@.map_values(|tk: TaskDisj| tk.local_id as int),
        st1.pushes == old(pushes)@,
        st1.blocking == Some(it.local_id as int),
    ensures
        final(timeline).wf(),
        final(timeline).tasks_g@ == tasks@,
        final(timeline).bounds_g@ == assignments@,
        final(timeline).t@ == ts,
        final(timeline).m@ == ms,
        final(timeline).scheduled@ == old(timeline).scheduled@.insert(it.local_id as int),
        final(postponed)@.len() == 0,
        final(pushes)@.len() == old(pushes)@.len(),
        ({
            let st2 = fwd_resolve(tasks@, ts, ms, st1, it.local_id as int);
            &&& final(timeline).c@ == st2.caps
            &&& final(timeline).e as int == st2.env
            &&& final(pushes)@ == st2.pushes
        }),
{
    if timeline.e >= 0 {
        let push = timeline.earliest_completion_time();
        record_stricter_lb(pushes, TaskDisj::get_id(&it), push);
        proof {
            assert(pushes@ == lb_recorded(
                st1.pushes,
                it.local_id as int,
                sweep_completion(st1, ts) as i32,
            ));
        }
    }
    let ghost p1v = pushes@;
    timeline.schedule_task(&it);
    let ghost st_s = sweep_schedule(
        SweepState { pushes: p1v, ..st1 },
        ms,
        tasks@,
        it.local_id as int,
    );
    proof {
        assert(timeline.c@ == st_s.caps);
        assert(timeline.e as int == st_s.env);
    }
    let push2 = timeline.earliest_completion_time();
    record_postponed_lb(pushes, postponed, push2);
    proof {
        assert(pushes@ == lb_record_all(
            st_s.pushes,
            st_s.postponed,
            sweep_completion(st_s, ts) as i32,
        ));
    }
    postponed.clear();
}

/// The mirror of [`resolve_blocked_lb`] for the reverse sweep.
#[verifier::rlimit(100)]
fn resolve_blocked_ub(
    tasks: &Vec<TaskDisj>,
    assignments: &Assignments,
    timeline: &mut RevTimeline,
    pushes: &mut Vec<Option<i32>>,
    postponed: &mut Vec<TaskDisj>,
    it: TaskDisj,
    Ghost(ts): Ghost<Seq<i32>>,
    Ghost(ms): Ghost<Seq<usize>>,
    Ghost(st1): Ghost<SweepState>,
)
    requires
        tasks_wf(tasks@, assignments@),
        old(timeline).wf(),
        old(timeline).tasks_g@ == tasks@,
        old(timeline).bounds_g@ == assignments@,
        old(timeline).t@ == ts,
        old(timeline).m@ == ms,
        (it.local_id as int) < tasks@.len(),
        it == tasks@[it.local_id as int],
        !old(timeline).scheduled@.contains(it.local_id as int),
        old(pushes)@.len() == tasks@.len(),
        forall|zz: int| 0 <= zz < old(postponed)@.len() ==> ((#[trigger] old(
            postponed,
        )@[zz]).local_id as int) < tasks@.len() && old(postponed)@[zz] == tasks@[old(
            postponed,
        )@[zz].local_id as int],
        st1.caps == old(timeline).c@,
        st1.env == old(timeline).e as int,
        st1.postponed == old(postponed)@.map_values(|tk: TaskDisj| tk.local_id as int),
        st1.pushes == old(pushes)@,
        st1.blocking == Some(it.local_id as int),
    ensures
        final(timeline).wf(),
        final(timeline).tasks_g@ == tasks@,
        final(timeline).bounds_g@ == assignments@,
        final(timeline).t@ == ts,
        final(timeline).m@ == ms,
        final(timeline).scheduled@ == old(timeline).scheduled@.insert(it.local_id as int),
        final(postponed)@.len() == 0,
        final(pushes)@.len() == old(pushes)@.len(),
        ({
            let st2 = rev_resolve(tasks@, ts, ms, st1, it.local_id as int);
            &&& final(timeline).c@ == st2.caps
            &&& final(timeline).e as int == st2.env
            &&& final(pushes)@ == st2.pushes
        }),
{
    if timeline.e >= 0 {
        let lst_timeline = timeline.latest_starting_time();
        record_stricter_ub(pushes, TaskDisj::get_id(&it), lst_timeline - it.duration);
        proof {
            assert(pushes@ == ub_recorded(
                st1.pushes,
                it.local_id as int,
                (sweep_latest(st1, ts) - tasks@[it.local_id as int].duration) as i32,
            ));
        }
    }
    let ghost p1v = pushes@;
    timeline.schedule_task(&it);
    let ghost st_s = sweep_schedule(
        SweepState { pushes: p1v, ..st1 },
        ms,
        tasks@,
        it.local_id as int,
    );
    proof {
        assert(timeline.c@ == st_s.caps);
        assert(timeline.e as int == st_s.env);
    }
    let lst_timeline2 = timeline.latest_starting_time();
    record_postponed_ub(pushes, postponed, lst_timeline2, Ghost(tasks@));
    proof {
        assert(pushes@ == ub_record_all_tasks(
            st_s.pushes,
            st_s.postponed,
            sweep_latest(st_s, ts),
            tasks@,
        ));
    }
    postponed.clear();
}

/// Runs one propagator over an immutable shared task array.
#[derive(Debug)]
pub struct DetectablePrecedencesPropagator {
    pub tasks: Vec<TaskDisj>,
}

/// The forward sweep: walks the tasks in ECT order against the tasks in
/// LST order, provisionally scheduling every task whose window can absorb
/// it, and collects for each task the earliest completion time of the set
/// scheduled before it as a candidate new lower bound.  A second
/// irreducibly tight window while one is outstanding is a conflict.  The
/// result is exactly [`spec_lb_pushes`] of the task array and snapshot.
#[verifier::rlimit(100)]
fn lower_bound_pushes(tasks: &Vec<TaskDisj>, assignments: &Assignments) -> (r: Result<
    Vec<Option<i32>>,
    Inconsistency,
>)
    requires
        tasks_wf(tasks@, assignments@),
    ensures
        (r matches Ok(p) ==> p@.len() == tasks@.len()),
        (match spec_lb_pushes(tasks@, assignments@) {
            Result::Ok(ps) => r matches Ok(p) && p@ == ps,
            Result::Err((x, k)) => r matches Err(e) && (e matches Inconsistency::Conflict(c)
                && c@ == spec_window_reason(tasks@, assignments@, x, k)),
        }),
{
    let ghost b = assignments@;
    let n = tasks.len();
    // Order A: by LST ascending, ties by id; order B: by ECT ascending.
    let mut a_order: Vec<(i32, usize)> = Vec::new();
    let mut i: usize = 0;
    while i < n
        invariant
            i <= n,
            n == tasks@.len(),
            tasks_wf(tasks@, b),
            b == assignments@,
            a_order@.len() == i,
            forall|q: int| 0 <= q < i ==> (#[trigger] a_order@[q]).1 == q && a_order@[q].0
                as int == spec_lst(tasks@[q], b),
        decreases n - i,
    {
        a_order.push((TaskDisj::get_lst(&tasks[i], assignments), i));
        i = i + 1;
    }
    let ghost a_orig = a_order@;
    sort_pairs(&mut a_order);
    proof {
        lemma_multiset_membership(a_orig, a_order@);
        assert(a_orig.no_duplicates());
        lemma_multiset_no_duplicates(a_orig, a_order@);
        assert forall|q: int| 0 <= q < n implies (#[trigger] a_order@[q]).1 < n && a_order@[
        q].0 as int == spec_lst(tasks@[a_order@[q].1 as int], b) by {
            assert(a_orig.contains(a_order@[q]));
            let w = choose|w: int| 0 <= w < a_orig.len() && a_orig[w] == a_order@[q];
            assert(a_orig[w].1 == w);
        }
        assert forall|q1: int, q2: int| 0 <= q1 < q2 < n implies (#[trigger] a_order@[q1]).1
            != (#[trigger] a_order@[q2]).1 by {
            if a_order@[q1].1 == a_order@[q2].1 {
                assert(a_order@[q1] == a_order@[q2]);
                assert(a_order@.no_duplicates());
            }
        }
        assert(a_orig =~= lst_pairs(tasks@, b));
        lemma_is_sorted_order(a_order@, lst_pairs(tasks@, b));
    }
    let mut b_order: Vec<(i32, usize)> = Vec::new();
    let mut i2: usize = 0;
    while i2 < n
        invariant
            i2 <= n,
            n == tasks@.len(),
            tasks_wf(tasks@, b),
            b == assignments@,
            b_order@.len() == i2,
            forall|q: int| 0 <= q < i2 ==> (#[trigger] b_order@[q]).1 == q && b_order@[q].0
                as int == spec_ect(tasks@[q], b),
        decreases n - i2,
    {
        b_order.push((TaskDisj::get_ect(&tasks[i2], assignments), i2));
        i2 = i2 + 1;
    }
    let ghost b_orig = b_order@;
    sort_pairs(&mut b_order);
    proof {
        lemma_multiset_membership(b_orig, b_order@);
        assert forall|q: int| 0 <= q < n implies (#[trigger] b_order@[q]).1 < n && b_order@[
        q].0 as int == spec_ect(tasks@[b_order@[q].1 as int], b) by {
            assert(b_orig.contains(b_order@[q]));
            let w = choose|w: int| 0 <= w < b_orig.len() && b_orig[w] == b_order@[q];
            assert(b_orig[w].1 == w);
        }
        assert(b_orig =~= ect_pairs(tasks@, b));
        lemma_is_sorted_order(b_order@, ect_pairs(tasks@, b));
    }
    let mut timeline = Timeline::new(tasks, assignments);
    let ghost ts = fwd_skeleton(tasks@, b).0;
    let ghost ms = fwd_skeleton(tasks@, b).1;
    proof {
        assert(is_fwd_skeleton(timeline.t@, timeline.m@, tasks@, b));
        assert(is_fwd_skeleton(ts, ms, tasks@, b)) by {
            assert(exists|tm: (Seq<i32>, Seq<usize>)|
                is_fwd_skeleton(tm.0, tm.1, tasks@, b)) by {
                let tm = (timeline.t@, timeline.m@);
                assert(is_fwd_skeleton(tm.0, tm.1, tasks@, b));
            }
        }
        lemma_fwd_skeleton_unique(timeline.t@, timeline.m@, ts, ms, tasks@, b);
    }
    let mut j: usize = 0;
    let mut blocking: Option<TaskDisj> = None;
    let mut postponed: Vec<TaskDisj> = Vec::new();
    let mut pushes: Vec<Option<i32>> = Vec::new();
    let mut z: usize = 0;
    while z < n
        invariant
            z <= n,
            pushes@.len() == z,
            forall|q: int| 0 <= q < z ==> (#[trigger] pushes@[q]) is None,
        decreases n - z,
    {
        pushes.push(None);
        z = z + 1;
    }
    proof {
        let st0 = walk_state(
            timeline.c@,
            timeline.e as int,
            0,
            None,
            postponed@.map_values(|tk: TaskDisj| tk.local_id as int),
            pushes@,
        );
        assert(st0 =~~= initial_sweep(initial_caps(ts), n as int)) by {
            assert(timeline.c@ =~= initial_caps(ts));
            assert(pushes@ =~= Seq::new(n as nat, |q: int| Option::<i32>::None));
            assert(postponed@.map_values(|tk: TaskDisj| tk.local_id as int)
                =~= Seq::<int>::empty());
        }
    }
    let mut bi: usize = 0;
    while bi < n
        invariant
            bi <= n,
            n == tasks@.len(),
            n >= 1,
            tasks_wf(tasks@, b),
            b == assignments@,
            ts == fwd_skeleton(tasks@, b).0,
            ms == fwd_skeleton(tasks@, b).1,
            timeline.t@ == ts,
            timeline.m@ == ms,
            a_order@ == sorted_order(lst_pairs(tasks@, b)),
            b_order@ == sorted_order(ect_pairs(tasks@, b)),
            fwd_sweep(
                tasks@,
                b,
                ts,
                ms,
                a_order@,
                b_order@,
                walk_state(
                    timeline.c@,
                    timeline.e as int,
                    j as int,
                    blocking,
                    postponed@.map_values(|tk: TaskDisj| tk.local_id as int),
                    pushes@,
                ),
                bi as int,
            ) == spec_lb_pushes(tasks@, b),
            a_order@.len() == n,
            b_order@.len() == n,
            forall|q: int| 0 <= q < n ==> (#[trigger] a_order@[q]).1 < n && a_order@[q].0
                as int == spec_lst(tasks@[a_order@[q].1 as int], b),
            forall|q1: int, q2: int| 0 <= q1 < q2 < n ==> (#[trigger] a_order@[q1]).1 != (
            #[trigger] a_order@[q2]).1,
            forall|q: int| 0 <= q < n ==> (#[trigger] b_order@[q]).1 < n && b_order@[q].0
                as int == spec_ect(tasks@[b_order@[q].1 as int], b),
            timeline.wf(),
            timeline.tasks_g@ == tasks@,
            timeline.bounds_g@ == b,
            forall|id: int| #[trigger] timeline.scheduled@.contains(id) ==> exists|q: int|
                0 <= q < j && (#[trigger] a_order@[q]).1 == id,
            j < n,
            (match blocking {
                Option::Some(x) => (x.local_id as int) < n && x == tasks@[x.local_id as int]
                    && !timeline.scheduled@.contains(x.local_id as int) && (exists|q: int|
                    0 <= q < j && (#[trigger] a_order@[q]).1 == x.local_id),
                Option::None => true,
            }),
            pushes@.len() == n,
            forall|zz: int| 0 <= zz < postponed@.len() ==> ((#[trigger] postponed@[zz]).local_id
                as int) < n && postponed@[zz] == tasks@[postponed@[zz].local_id as int],
        decreases n - bi,
    {
        let it = tasks[b_order[bi].1];
        let ect_i = TaskDisj::get_ect(&it, assignments);
        let ghost post_ids = postponed@.map_values(|tk: TaskDisj| tk.local_id as int);
        let ghost push_snap = pushes@;
        let ghost st_bi = walk_state(
            timeline.c@,
            timeline.e as int,
            j as int,
            blocking,
            post_ids,
            push_snap,
        );
        match advance_lb(
            tasks,
            assignments,
            &a_order,
            &mut timeline,
            &mut j,
            &mut blocking,
            ect_i,
            Ghost(ts),
            Ghost(ms),
            Ghost(post_ids),
            Ghost(push_snap),
        ) {
            Ok(u) => {},
            Err(e) => {
                proof {
                    let (xw, kw): (int, int) = choose|xw: int, kw: int|
                        {
                            &&& fwd_advance(tasks@, b, ms, a_order@, ect_i as int, st_bi)
                                == Err::<SweepState, (int, int)>((xw, kw))
                            &&& (e matches Inconsistency::Conflict(c) && c@
                                == #[trigger] spec_window_reason(tasks@, b, xw, kw))
                        };
                    lemma_fwd_sweep_conflict(
                        tasks@,
                        b,
                        ts,
                        ms,
                        a_order@,
                        b_order@,
                        st_bi,
                        bi as int,
                        xw,
                        kw,
                    );
                }
                return Err(e);
            },
        }
        let ghost st1 = walk_state(
            timeline.c@,
            timeline.e as int,
            j as int,
            blocking,
            post_ids,
            push_snap,
        );
        match blocking {
            None => {
                // an empty timeline schedules nothing before `it`: no push
                if timeline.e >= 0 {
                    let push = timeline.earliest_completion_time();
                    record_stricter_lb(&mut pushes, TaskDisj::get_id(&it), push);
                }
            },
            Some(x) => {
                if TaskDisj::get_id(&it) == x.local_id {
                    resolve_blocked_lb(
                        tasks,
                        assignments,
                        &mut timeline,
                        &mut pushes,
                        &mut postponed,
                        it,
                        Ghost(ts),
                        Ghost(ms),
                        Ghost(st1),
                    );
                    proof {
                        assert forall|id: int| #[trigger] timeline.scheduled@.contains(id)
                            implies exists|q: int| 0 <= q < j && (#[trigger] a_order@[q]).1
                            == id by {
                            if id != it.local_id as int {
                                let q = choose|q: int|
                                    0 <= q < j && (#[trigger] a_order@[q]).1 == id;
                                assert(a_order@[q].1 == id);
                            }
                        }
                    }
                    blocking = None;
                } else {
                    postponed.push(it);
                }
            },
        }
        proof {
            let st2 = walk_state(
                timeline.c@,
                timeline.e as int,
                j as int,
                blocking,
                postponed@.map_values(|tk: TaskDisj| tk.local_id as int),
                pushes@,
            );
            if st1.blocking is None {
                assert(st2 =~~= fwd_resolve(tasks@, ts, ms, st1, it.local_id as int));
            } else if st1.blocking == Some(it.local_id as int) {
                assert(postponed@.map_values(|tk: TaskDisj| tk.local_id as int)
                    =~= Seq::<int>::empty());
                assert(st2 =~~= fwd_resolve(tasks@, ts, ms, st1, it.local_id as int));
            } else {
                assert(postponed@.map_values(|tk: TaskDisj| tk.local_id as int)
                    =~= st1.postponed.push(it.local_id as int));
                assert(st2 =~~= fwd_resolve(tasks@, ts, ms, st1, it.local_id as int));
            }
            lemma_fwd_sweep_step(
                tasks@,
                b,
                ts,
                ms,
                a_order@,
                b_order@,
                st_bi,
                st1,
                bi as int,
            );
        }
        bi = bi + 1;
    }
    proof {
        let st_end = walk_state(
            timeline.c@,
            timeline.e as int,
            j as int,
            blocking,
            postponed@.map_values(|tk: TaskDisj| tk.local_id as int),
            pushes@,
        );
        lemma_fwd_sweep_done(tasks@, b, ts, ms, a_order@, b_order@, st_end, n as int);
    }
    Ok(pushes)
}

/// The reverse sweep, the mirror of [`lower_bound_pushes`]: walks the
/// tasks in descending LST order against the tasks in descending ECT
/// order and collects for each task the latest start of the set scheduled
/// after it, minus its duration, as a candidate new upper bound.  The
/// result is exactly [`spec_ub_pushes`] of the task array and snapshot.
#[verifier::rlimit(100)]
fn upper_bound_pushes(tasks: &Vec<TaskDisj>, assignments: &Assignments) -> (r: Result<
    Vec<Option<i32>>,
    Inconsistency,
>)
    requires
        tasks_wf(tasks@, assignments@),
    ensures
        (r matches Ok(p) ==> p@.len() == tasks@.len()),
        (match spec_ub_pushes(tasks@, assignments@) {
            Result::Ok(ps) => r matches Ok(p) && p@ == ps,
            Result::Err((x, k)) => r matches Err(e) && (e matches Inconsistency::Conflict(c)
                && c@ == spec_window_reason(tasks@, assignments@, x, k)),
        }),
{
    let ghost b = assignments@;
    let n = tasks.len();
    // Order A: by ECT descending, ties by id; order B: by LST descending.
    // Sorting the negated key ascending gives the descending order.
    let mut a_order: Vec<(i32, usize)> = Vec::new();
    let mut i: usize = 0;
    while i < n
        invariant
            i <= n,
            n == tasks@.len(),
            tasks_wf(tasks@, b),
            b == assignments@,
            a_order@.len() == i,
            forall|q: int| 0 <= q < i ==> (#[trigger] a_order@[q]).1 == q && a_order@[q].0
                as int == -spec_ect(tasks@[q], b),
        decreases n - i,
    {
        proof {
            assert(task_wf(tasks@[i as int], b));
        }
        a_order.push((-TaskDisj::get_ect(&tasks[i], assignments), i));
        i = i + 1;
    }
    let ghost a_orig = a_order@;
    sort_pairs(&mut a_order);
    proof {
        lemma_multiset_membership(a_orig, a_order@);
        assert(a_orig.no_duplicates());
        lemma_multiset_no_duplicates(a_orig, a_order@);
        assert forall|q: int| 0 <= q < n implies (#[trigger] a_order@[q]).1 < n && a_order@[
        q].0 as int == -spec_ect(tasks@[a_order@[q].1 as int], b) by {
            assert(a_orig.contains(a_order@[q]));
            let w = choose|w: int| 0 <= w < a_orig.len() && a_orig[w] == a_order@[q];
            assert(a_orig[w].1 == w);
        }
        assert forall|q1: int, q2: int| 0 <= q1 < q2 < n implies (#[trigger] a_order@[q1]).1
            != (#[trigger] a_order@[q2]).1 by {
            if a_order@[q1].1 == a_order@[q2].1 {
                assert(a_order@[q1] == a_order@[q2]);
                assert(a_order@.no_duplicates());
            }
        }
        assert(a_orig =~= neg_ect_pairs(tasks@, b));
        lemma_is_sorted_order(a_order@, neg_ect_pairs(tasks@, b));
    }
    let mut b_order: Vec<(i32, usize)> = Vec::new();
    let mut i2: usize = 0;
    while i2 < n
        invariant
            i2 <= n,
            n == tasks@.len(),
            tasks_wf(tasks@, b),
            b == assignments@,
            b_order@.len() == i2,
            forall|q: int| 0 <= q < i2 ==> (#[trigger] b_order@[q]).1 == q && b_order@[q].0
                as int == -spec_lst(tasks@[q], b),
        decreases n - i2,
    {
        proof {
            assert(task_wf(tasks@[i2 as int], b));
        }
        b_order.push((-TaskDisj::get_lst(&tasks[i2], assignments), i2));
        i2 = i2 + 1;
    }
    let ghost b_orig = b_order@;
    sort_pairs(&mut b_order);
    proof {
        lemma_multiset_membership(b_orig, b_order@);
        assert forall|q: int| 0 <= q < n implies (#[trigger] b_order@[q]).1 < n && b_order@[
        q].0 as int == -spec_lst(tasks@[b_order@[q].1 as int], b) by {
            assert(b_orig.contains(b_order@[q]));
            let w = choose|w: int| 0 <= w < b_orig.len() && b_orig[w] == b_order@[q];
            assert(b_orig[w].1 == w);
        }
        assert(b_orig =~= neg_lst_pairs(tasks@, b));
        lemma_is_sorted_order(b_order@, neg_lst_pairs(tasks@, b));
    }
    let mut timeline = RevTimeline::new(tasks, assignments);
    let ghost ts = rev_skeleton(tasks@, b).0;
    let ghost ms = rev_skeleton(tasks@, b).1;
    proof {
        assert(is_rev_skeleton(timeline.t@, timeline.m@, tasks@, b));
        assert(is_rev_skeleton(ts, ms, tasks@, b)) by {
            assert(exists|tm: (Seq<i32>, Seq<usize>)|
                is_rev_skeleton(tm.0, tm.1, tasks@, b)) by {
                let tm = (timeline.t@, timeline.m@);
                assert(is_rev_skeleton(tm.0, tm.1, tasks@, b));
            }
        }
        lemma_rev_skeleton_unique(timeline.t@, timeline.m@, ts, ms, tasks@, b);
    }
    let mut j: usize = 0;
    let mut blocking: Option<TaskDisj> = None;
    let mut postponed: Vec<TaskDisj> = Vec::new();
    let mut pushes: Vec<Option<i32>> = Vec::new();
    let mut z: usize = 0;
    while z < n
        invariant
            z <= n,
            pushes@.len() == z,
            forall|q: int| 0 <= q < z ==> (#[trigger] pushes@[q]) is None,
        decreases n - z,
    {
        pushes.push(None);
        z = z + 1;
    }
    proof {
        let st0 = walk_state(
            timeline.c@,
            timeline.e as int,
            0,
            None,
            postponed@.map_values(|tk: TaskDisj| tk.local_id as int),
            pushes@,
        );
        assert(st0 =~~= initial_sweep(initial_rev_caps(ts), n as int)) by {
            assert(timeline.c@ =~= initial_rev_caps(ts));
            assert(pushes@ =~= Seq::new(n as nat, |q: int| Option::<i32>::None));
            assert(postponed@.map_values(|tk: TaskDisj| tk.local_id as int)
                =~= Seq::<int>::empty());
        }
    }
    let mut bi: usize = 0;
    while bi < n
        invariant
            bi <= n,
            n == tasks@.len(),
            n >= 1,
            tasks_wf(tasks@, b),
            b == assignments@,
            ts == rev_skeleton(tasks@, b).0,
            ms == rev_skeleton(tasks@, b).1,
            timeline.t@ == ts,
            timeline.m@ == ms,
            a_order@ == sorted_order(neg_ect_pairs(tasks@, b)),
            b_order@ == sorted_order(neg_lst_pairs(tasks@, b)),
            rev_sweep(
                tasks@,
                b,
                ts,
                ms,
                a_order@,
                b_order@,
                walk_state(
                    timeline.c@,
                    timeline.e as int,
                    j as int,
                    blocking,
                    postponed@.map_values(|tk: TaskDisj| tk.local_id as int),
                    pushes@,
                ),
                bi as int,
            ) == spec_ub_pushes(tasks@, b),
            a_order@.len() == n,
            b_order@.len() == n,
            forall|q: int| 0 <= q < n ==> (#[trigger] a_order@[q]).1 < n && a_order@[q].0
                as int == -spec_ect(tasks@[a_order@[q].1 as int], b),
            forall|q1: int, q2: int| 0 <= q1 < q2 < n ==> (#[trigger] a_order@[q1]).1 != (
            #[trigger] a_order@[q2]).1,
            forall|q: int| 0 <= q < n ==> (#[trigger] b_order@[q]).1 < n && b_order@[q].0
                as int == -spec_lst(tasks@[b_order@[q].1 as int], b),
            timeline.wf(),
            timeline.tasks_g@ == tasks@,
            timeline.bounds_g@ == b,
            forall|id: int| #[trigger] timeline.scheduled@.contains(id) ==> exists|q: int|
                0 <= q < j && (#[trigger] a_order@[q]).1 == id,
            j < n,
            (match blocking {
                Option::Some(x) => (x.local_id as int) < n && x == tasks@[x.local_id as int]
                    && !timeline.scheduled@.contains(x.local_id as int) && (exists|q: int|
                    0 <= q < j && (#[trigger] a_order@[q]).1 == x.local_id),
                Option::None => true,
            }),
            pushes@.len() == n,
            forall|zz: int| 0 <= zz < postponed@.len() ==> ((#[trigger] postponed@[zz]).local_id
                as int) < n && postponed@[zz] == tasks@[postponed@[zz].local_id as int],
        decreases n - bi,
    {
        let it = tasks[b_order[bi].1];
        let lst_i = TaskDisj::get_lst(&it, assignments);
        let ghost post_ids = postponed@.map_values(|tk: TaskDisj| tk.local_id as int);
        let ghost push_snap = pushes@;
        let ghost st_bi = walk_state(
            timeline.c@,
            timeline.e as int,
            j as int,
            blocking,
            post_ids,
            push_snap,
        );
        match advance_ub(
            tasks,
            assignments,
            &a_order,
            &mut timeline,
            &mut j,
            &mut blocking,
            lst_i,
            Ghost(ts),
            Ghost(ms),
            Ghost(post_ids),
            Ghost(push_snap),
        ) {
            Ok(u) => {},
            Err(e) => {
                proof {
                    let (xw, kw): (int, int) = choose|xw: int, kw: int|
                        {
                            &&& rev_advance(tasks@, b, ms, a_order@, lst_i as int, st_bi)
                                == Err::<SweepState, (int, int)>((xw, kw))
                            &&& (e matches Inconsistency::Conflict(c) && c@
                                == #[trigger] spec_window_reason(tasks@, b, xw, kw))
                        };
                    lemma_rev_sweep_conflict(
                        tasks@,
                        b,
                        ts,
                        ms,
                        a_order@,
                        b_order@,
                        st_bi,
                        bi as int,
                        xw,
                        kw,
                    );
                }
                return Err(e);
            },
        }
        let ghost st1 = walk_state(
            timeline.c@,
            timeline.e as int,
            j as int,
            blocking,
            post_ids,
            push_snap,
        );
        match blocking {
            None => {
                // an empty timeline schedules nothing after `it`: no push
                if timeline.e >= 0 {
                    let lst_timeline = timeline.latest_starting_time();
                    record_stricter_ub(
                        &mut pushes,
                        TaskDisj::get_id(&it),
                        lst_timeline - it.duration,
                    );
                }
            },
            Some(x) => {
                if TaskDisj::get_id(&it) == x.local_id {
                    resolve_blocked_ub(
                        tasks,
                        assignments,
                        &mut timeline,
                        &mut pushes,
                        &mut postponed,
                        it,
                        Ghost(ts),
                        Ghost(ms),
                        Ghost(st1),
                    );
                    proof {
                        assert forall|id: int| #[trigger] timeline.scheduled@.contains(id)
                            implies exists|q: int| 0 <= q < j && (#[trigger] a_order@[q]).1
                            == id by {
                            if id != it.local_id as int {
                                let q = choose|q: int|
                                    0 <= q < j && (#[trigger] a_order@[q]).1 == id;
                                assert(a_order@[q].1 == id);
                            }
                        }
                    }
                    blocking = None;
                } else {
                    postponed.push(it);
                }
            },
        }
        proof {
            let st2 = walk_state(
                timeline.c@,
                timeline.e as int,
                j as int,
                blocking,
                postponed@.map_values(|tk: TaskDisj| tk.local_id as int),
                pushes@,
            );
            if st1.blocking is None {
                assert(st2 =~~= rev_resolve(tasks@, ts, ms, st1, it.local_id as int));
            } else if st1.blocking == Some(it.local_id as int) {
                assert(postponed@.map_values(|tk: TaskDisj| tk.local_id as int)
                    =~= Seq::<int>::empty());
                assert(st2 =~~= rev_resolve(tasks@, ts, ms, st1, it.local_id as int));
            } else {
                assert(postponed@.map_values(|tk: TaskDisj| tk.local_id as int)
                    =~= st1.postponed.push(it.local_id as int));
                assert(st2 =~~= rev_resolve(tasks@, ts, ms, st1, it.local_id as int));
            }
            lemma_rev_sweep_step(
                tasks@,
                b,
                ts,
                ms,
                a_order@,
                b_order@,
                st_bi,
                st1,
                bi as int,
            );
        }
        bi = bi + 1;
    }
    proof {
        let st_end = walk_state(
            timeline.c@,
            timeline.e as int,
            j as int,
            blocking,
            postponed@.map_values(|tk: TaskDisj| tk.local_id as int),
            pushes@,
        );
        lemma_rev_sweep_done(tasks@, b, ts, ms, a_order@, b_order@, st_end, n as int);
    }
    Ok(pushes)
}

impl DetectablePrecedencesPropagator {
    /// Builds the propagator from `(start_var, duration)` pairs, assigning
    /// dense `local_id`s in input order.
    pub fn new(tasks: Vec<ArgTaskDisj>) -> (p: DetectablePrecedencesPropagator)
        ensures
            p.tasks@.len() == tasks@.len(),
            forall|i: int| 0 <= i < tasks@.len() ==> #[trigger] p.tasks@[i] == (TaskDisj {
                starting_time: tasks@[i].starting_time,
                duration: tasks@[i].duration,
                local_id: i as usize,
            }),
    {
        let mut out: Vec<TaskDisj> = Vec::new();
        let mut i: usize = 0;
        while i < tasks.len()
            invariant
                i <= tasks@.len(),
                out@.len() == i,
                forall|q: int| 0 <= q < i ==> #[trigger] out@[q] == (TaskDisj {
                    starting_time: tasks@[q].starting_time,
                    duration: tasks@[q].duration,
                    local_id: q as usize,
                }),
            decreases tasks@.len() - i,
        {
            let arg = &tasks[i];
            out.push(TaskDisj {
                starting_time: arg.starting_time,
                duration: arg.duration,
                local_id: i,
            });
            i = i + 1;
        }
        DetectablePrecedencesPropagator { tasks: out }
    }

    /// The propagator's queue priority: a constant mid priority.
    pub fn priority(&self) -> (p: u32)
        ensures
            p == 3u32,
    {
        3
    }

    /// The propagator's name.
    pub fn name(&self) -> (r: &'static str)
        ensures
            r@ == "DisDetectablePrecedences"@,
    {
        "DisDetectablePrecedences"
    }

    /// Any relevant bound change enqueues the propagator; there is no
    /// filtering beyond what registration provides.
    pub fn notify(&self, _local_id: usize) -> (d: EnqueueDecision)
        ensures
            d is Enqueue,
    {
        EnqueueDecision::Enqueue
    }

    /// Backtracking needs no work: the propagator keeps no state across
    /// calls beyond the immutable task array.
    pub fn notify_backtrack(&self, _local_id: usize) {
    }

    /// Registers every task's start variable for lower-bound and
    /// upper-bound change events.  Never fails.
    pub fn initialise_at_root(&self, context: &mut PropagatorInitialisationContext) -> (r: Result<
        (),
        PropositionalConjunction,
    >)
        ensures
            r is Ok,
            final(context)@.len() == old(context)@.len() + self.tasks@.len(),
            forall|i: int| 0 <= i < old(context)@.len() ==> #[trigger] final(context)@[i] == old(
                context,
            )@[i],
            forall|i: int| 0 <= i < self.tasks@.len() ==> #[trigger] final(context)@[old(
                context,
            )@.len() + i] == (self.tasks@[i].starting_time, (DomainEvents {
                lower_bound: true,
                upper_bound: true,
            }), self.tasks@[i].local_id),
    {
        let ghost base = context@;
        let mut i: usize = 0;
        while i < self.tasks.len()
            invariant
                i <= self.tasks@.len(),
                context@.len() == base.len() + i,
                forall|q: int| 0 <= q < base.len() ==> #[trigger] context@[q] == base[q],
                forall|q: int| 0 <= q < i ==> #[trigger] context@[base.len() + q] == (
                self.tasks@[q].starting_time, (DomainEvents {
                    lower_bound: true,
                    upper_bound: true,
                }), self.tasks@[q].local_id),
            decreases self.tasks@.len() - i,
        {
            let task = &self.tasks[i];
            context.register(
                task.starting_time,
                DomainEvents { lower_bound: true, upper_bound: true },
                task.local_id,
            );
            i = i + 1;
        }
        Ok(())
    }

    /// One propagation call: one forward sweep collecting lower-bound
    /// pushes and one reverse sweep collecting upper-bound pushes, both
    /// against the same coherent snapshot taken at entry, then the
    /// strictest push per task applied through the bound-update interface.
    /// The pushes are applied to a working copy and committed only when
    /// every update succeeds: a conflict keeps no partial pushes.
    ///
    /// The whole call is pinned to [`spec_propagate`]: on `Ok` the store
    /// holds exactly the snapshot updated with both sweeps' pushes, and a
    /// `Conflict` carries either the two-window reason of a blocking
    /// collision or the naive all-tasks reason of a rejected update.
    pub fn propagate(&self, context: &mut Assignments) -> (r: Result<(), Inconsistency>)
        requires
            tasks_wf(self.tasks@, old(context)@),
        ensures
            (match spec_propagate(self.tasks@, old(context)@) {
                Result::Ok(b2) => r is Ok && final(context)@ == b2,
                Result::Err(c) => r matches Err(e) && (e matches Inconsistency::Conflict(cc)
                    && cc@ == c) && final(context)@ == old(context)@,
            }),
            final(context)@.len() == old(context)@.len(),
            forall|v: int| 0 <= v < old(context)@.len() ==> old(context)@[v].0 <= (
            #[trigger] final(context)@[v]).0 && final(context)@[v].1 <= old(context)@[v].1,
            forall|v: int| 0 <= v < old(context)@.len() && !is_start_var(self.tasks@, v)
                ==> #[trigger] final(context)@[v] == old(context)@[v],
            r is Ok ==> forall|v: int| 0 <= v < old(context)@.len() && old(context)@[v].0 <= old(
                context,
            )@[v].1 ==> (#[trigger] final(context)@[v]).0 <= final(context)@[v].1,
            r is Err ==> final(context)@ == old(context)@,
            self.tasks@.len() == 1 ==> (r is Ok && final(context)@ == old(context)@),
    {
        let assignments = context.snapshot();
        let ghost b0 = old(context)@;
        proof {
            if self.tasks@.len() == 1 {
                lemma_lb_pushes_single(self.tasks@, b0);
                lemma_ub_pushes_single(self.tasks@, b0);
            }
        }
        let lbs = match lower_bound_pushes(&self.tasks, &assignments) {
            Ok(p) => p,
            Err(e) => {
                return Err(e);
            },
        };
        let ubs = match upper_bound_pushes(&self.tasks, &assignments) {
            Ok(p) => p,
            Err(e) => {
                return Err(e);
            },
        };
        let reason = naive_reason(&self.tasks, &assignments);
        let n = self.tasks.len();
        let mut working = context.snapshot();
        proof {
            reveal(apply_lb_pushes);
        }
        let mut id: usize = 0;
        while id < n
            invariant
                id <= n,
                n == self.tasks@.len(),
                tasks_wf(self.tasks@, b0),
                b0 == old(context)@,
                context@ == b0,
                assignments@ == b0,
                lbs@.len() == n,
                spec_lb_pushes(self.tasks@, b0) == Ok::<Seq<Option<i32>>, (int, int)>(lbs@),
                spec_ub_pushes(self.tasks@, b0) == Ok::<Seq<Option<i32>>, (int, int)>(ubs@),
                reason@ == spec_naive_reason(self.tasks@, b0),
                apply_lb_pushes(b0, self.tasks@, b0, lbs@, 0) == apply_lb_pushes(
                    working@,
                    self.tasks@,
                    b0,
                    lbs@,
                    id as int,
                ),
                n == 1 ==> lbs@ == seq![Option::<i32>::None],
                n == 1 ==> working@ == b0,
                working@.len() == b0.len(),
                forall|v: int| 0 <= v < b0.len() ==> b0[v].0 <= (#[trigger] working@[v]).0
                    && working@[v].1 == b0[v].1,
                forall|v: int| 0 <= v < b0.len() && !is_start_var(self.tasks@, v)
                    ==> #[trigger] working@[v] == b0[v],
                forall|v: int| 0 <= v < b0.len() && b0[v].0 <= b0[v].1 ==> (
                #[trigger] working@[v]).0 <= working@[v].1,
            decreases n - id,
        {
            let ghost w_pre = working@;
            match lbs[id] {
                Some(value) => {
                    let task = &self.tasks[id];
                    let est = TaskDisj::get_est(task, &assignments);
                    if value > est {
                        proof {
                            assert(is_start_var(self.tasks@, task.starting_time as int));
                        }
                        let res = working.set_lower_bound(task.starting_time, value, &reason);
                        if res.is_err() {
                            proof {
                                reveal(apply_lb_pushes);
                                assert(apply_lb_pushes(w_pre, self.tasks@, b0, lbs@, id as int)
                                    is None);
                            }
                            return Err(Inconsistency::Conflict(reason));
                        }
                        proof {
                            reveal(apply_lb_pushes);
                            assert(apply_lb_pushes(w_pre, self.tasks@, b0, lbs@, id as int)
                                == apply_lb_pushes(
                                working@,
                                self.tasks@,
                                b0,
                                lbs@,
                                id + 1,
                            ));
                        }
                    } else {
                        proof {
                            reveal(apply_lb_pushes);
                        }
                    }
                },
                None => {
                    proof {
                        reveal(apply_lb_pushes);
                    }
                },
            }
            id = id + 1;
        }
        let ghost b1 = working@;
        proof {
            reveal(apply_lb_pushes);
            assert(apply_lb_pushes(b0, self.tasks@, b0, lbs@, 0) == Some(b1));
            reveal(apply_ub_pushes);
        }
        let mut id2: usize = 0;
        while id2 < n
            invariant
                id2 <= n,
                n == self.tasks@.len(),
                tasks_wf(self.tasks@, b0),
                b0 == old(context)@,
                context@ == b0,
                assignments@ == b0,
                ubs@.len() == n,
                spec_lb_pushes(self.tasks@, b0) == Ok::<Seq<Option<i32>>, (int, int)>(lbs@),
                spec_ub_pushes(self.tasks@, b0) == Ok::<Seq<Option<i32>>, (int, int)>(ubs@),
                reason@ == spec_naive_reason(self.tasks@, b0),
                apply_lb_pushes(b0, self.tasks@, b0, lbs@, 0) == Some(b1),
                apply_ub_pushes(b1, self.tasks@, b0, ubs@, 0) == apply_ub_pushes(
                    working@,
                    self.tasks@,
                    b0,
                    ubs@,
                    id2 as int,
                ),
                n == 1 ==> ubs@ == seq![Option::<i32>::None],
                n == 1 ==> working@ == b0,
                working@.len() == b0.len(),
                forall|v: int| 0 <= v < b0.len() ==> b0[v].0 <= (#[trigger] working@[v]).0
                    && working@[v].1 <= b0[v].1,
                forall|v: int| 0 <= v < b0.len() && !is_start_var(self.tasks@, v)
                    ==> #[trigger] working@[v] == b0[v],
                forall|v: int| 0 <= v < b0.len() && b0[v].0 <= b0[v].1 ==> (
                #[trigger] working@[v]).0 <= working@[v].1,
            decreases n - id2,
        {
            let ghost w_pre = working@;
            match ubs[id2] {
                Some(value) => {
                    let task = &self.tasks[id2];
                    let lst = TaskDisj::get_lst(task, &assignments);
                    if value < lst {
                        proof {
                            assert(is_start_var(self.tasks@, task.starting_time as int));
                        }
                        let res = working.set_upper_bound(task.starting_time, value, &reason);
                        if res.is_err() {
                            proof {
                                reveal(apply_ub_pushes);
                                assert(apply_ub_pushes(w_pre, self.tasks@, b0, ubs@, id2 as int)
                                    is None);
                            }
                            return Err(Inconsistency::Conflict(reason));
                        }
                        proof {
                            reveal(apply_ub_pushes);
                            assert(apply_ub_pushes(w_pre, self.tasks@, b0, ubs@, id2 as int)
                                == apply_ub_pushes(
                                working@,
                                self.tasks@,
                                b0,
                                ubs@,
                                id2 + 1,
                            ));
                        }
                    } else {
                        proof {
                            reveal(apply_ub_pushes);
                        }
                    }
                },
                None => {
                    proof {
                        reveal(apply_ub_pushes);
                    }
                },
            }
            id2 = id2 + 1;
        }
        proof {
            reveal(apply_ub_pushes);
            assert(apply_ub_pushes(b1, self.tasks@, b0, ubs@, 0) == Some(working@));
        }
        *context = working;
        Ok(())
    }

    /// Runs the reverse sweep alone against a snapshot taken at entry and
    /// applies the upper-bound pushes it finds, with the same
    /// copy-and-commit discipline; the whole call is pinned to
    /// [`spec_propagate_upper`].
    pub fn propagate_upper_bound(&self, context: &mut Assignments) -> (r: Result<
        (),
        Inconsistency,
    >)
        requires
            tasks_wf(self.tasks@, old(context)@),
        ensures
            (match spec_propagate_upper(self.tasks@, old(context)@) {
                Result::Ok(b2) => r is Ok && final(context)@ == b2,
                Result::Err(c) => r matches Err(e) && (e matches Inconsistency::Conflict(cc)
                    && cc@ == c) && final(context)@ == old(context)@,
            }),
            final(context)@.len() == old(context)@.len(),
            forall|v: int| 0 <= v < old(context)@.len() ==> old(context)@[v].0 == (
            #[trigger] final(context)@[v]).0 && final(context)@[v].1 <= old(context)@[v].1,
            forall|v: int| 0 <= v < old(context)@.len() && !is_start_var(self.tasks@, v)
                ==> #[trigger] final(context)@[v] == old(context)@[v],
            r is Ok ==> forall|v: int| 0 <= v < old(context)@.len() && old(context)@[v].0 <= old(
                context,
            )@[v].1 ==> (#[trigger] final(context)@[v]).0 <= final(context)@[v].1,
            r is Err ==> final(context)@ == old(context)@,
            self.tasks@.len() == 1 ==> (r is Ok && final(context)@ == old(context)@),
    {
        let assignments = context.snapshot();
        let ghost b0 = old(context)@;
        proof {
            if self.tasks@.len() == 1 {
                lemma_ub_pushes_single(self.tasks@, b0);
            }
        }
        let ubs = match upper_bound_pushes(&self.tasks, &assignments) {
            Ok(p) => p,
            Err(e) => {
                return Err(e);
            },
        };
        let reason = naive_reason(&self.tasks, &assignments);
        let n = self.tasks.len();
        let mut working = context.snapshot();
        proof {
            reveal(apply_ub_pushes);
        }
        let mut id2: usize = 0;
        while id2 < n
            invariant
                id2 <= n,
                n == self.tasks@.len(),
                tasks_wf(self.tasks@, b0),
                b0 == old(context)@,
                context@ == b0,
                assignments@ == b0,
                ubs@.len() == n,
                spec_ub_pushes(self.tasks@, b0) == Ok::<Seq<Option<i32>>, (int, int)>(ubs@),
                reason@ == spec_naive_reason(self.tasks@, b0),
                apply_ub_pushes(b0, self.tasks@, b0, ubs@, 0) == apply_ub_pushes(
                    working@,
                    self.tasks@,
                    b0,
                    ubs@,
                    id2 as int,
                ),
                n == 1 ==> ubs@ == seq![Option::<i32>::None],
                n == 1 ==> working@ == b0,
                working@.len() == b0.len(),
                forall|v: int| 0 <= v < b0.len() ==> b0[v].0 == (#[trigger] working@[v]).0
                    && working@[v].1 <= b0[v].1,
                forall|v: int| 0 <= v < b0.len() && !is_start_var(self.tasks@, v)
                    ==> #[trigger] working@[v] == b0[v],
                forall|v: int| 0 <= v < b0.len() && b0[v].0 <= b0[v].1 ==> (
                #[trigger] working@[v]).0 <= working@[v].1,
            decreases n - id2,
        {
            let ghost w_pre = working@;
            match ubs[id2] {
                Some(value) => {
                    let task = &self.tasks[id2];
                    let lst = TaskDisj::get_lst(task, &assignments);
                    if value < lst {
                        proof {
                            assert(is_start_var(self.tasks@, task.starting_time as int));
                        }
                        let res = working.set_upper_bound(task.starting_time, value, &reason);
                        if res.is_err() {
                            proof {
                                reveal(apply_ub_pushes);
                                assert(apply_ub_pushes(w_pre, self.tasks@, b0, ubs@, id2 as int)
                                    is None);
                            }
                            return Err(Inconsistency::Conflict(reason));
                        }
                        proof {
                            reveal(apply_ub_pushes);
                            assert(apply_ub_pushes(w_pre, self.tasks@, b0, ubs@, id2 as int)
                                == apply_ub_pushes(
                                working@,
                                self.tasks@,
                                b0,
                                ubs@,
                                id2 + 1,
                            ));
                        }
                    } else {
                        proof {
                            reveal(apply_ub_pushes);
                        }
                    }
                },
                None => {
                    proof {
                        reveal(apply_ub_pushes);
                    }
                },
            }
            id2 = id2 + 1;
        }
        proof {
            reveal(apply_ub_pushes);
            assert(apply_ub_pushes(b0, self.tasks@, b0, ubs@, 0) == Some(working@));
        }
        *context = working;
        Ok(())
    }

    /// The self-checker oracle: reports the first task whose earliest
    /// completion already exceeds its latest completion (which can only
    /// happen on an emptied interval), with the one-predicate explanation
    /// `start >= LST - 1`.
    pub fn debug_propagate_from_scratch(&self, context: &Assignments) -> (r: Result<
        (),
        Inconsistency,
    >)
        requires
            forall|i: int| 0 <= i < self.tasks@.len() ==> task_bounds_ok(
                #[trigger] self.tasks@[i],
                context@,
            ),
        ensures
            ({
                let fv = first_violation(self.tasks@, context@, 0);
                match r {
                    Result::Ok(u) => fv == self.tasks@.len(),
                    Result::Err(e) => {
                        &&& fv < self.tasks@.len()
                        &&& (e matches Inconsistency::Conflict(c) && c@ =~= seq![
                            (Predicate {
                                var: self.tasks@[fv].starting_time,
                                kind: PredicateKind::GreaterEqual,
                                value: (context@[self.tasks@[fv].starting_time as int].1
                                    - 1) as i32,
                            }),
                        ])
                    },
                }
            }),
    {
        let ghost b = context@;
        let n = self.tasks.len();
        let mut i: usize = 0;
        while i < n
            invariant
                i <= n,
                n == self.tasks@.len(),
                b == context@,
                forall|q: int| 0 <= q < n ==> task_bounds_ok(#[trigger] self.tasks@[q], b),
                first_violation(self.tasks@, b, 0) == first_violation(self.tasks@, b, i as int),
            decreases n - i,
        {
            let task = &self.tasks[i];
            let ect = TaskDisj::get_ect(task, context);
            let lst = TaskDisj::get_lst(task, context);
            let lct = TaskDisj::get_lct(task, context);
            if ect > lct {
                let mut c = PropositionalConjunction::new();
                c.push(Predicate {
                    var: task.starting_time,
                    kind: PredicateKind::GreaterEqual,
                    value: lst - 1,
                });
                proof {
                    assert(first_violation(self.tasks@, b, i as int) == i);
                }
                return Err(Inconsistency::Conflict(c));
            }
            i = i + 1;
        }
        Ok(())
    }
}

} // verus!
