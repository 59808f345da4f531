//! Greedy list scheduling.

use crate::builder::{sort_by_priority, ScheduleBuilder};
use crate::plan::{all_ids, empty_plan, list_all, list_plan, priority_sorted, timed_upto};
use crate::problem::Instance;
use crate::solution::{positive_times, Schedule};
use vstd::prelude::*;

verus! {

/// From the free time of machine `m`, `u` is a feasible start for the task.
pub open spec fn start_from(b: ScheduleBuilder, task: usize, m: int, u: u64) -> bool {
    b.candidate(task, b.free_time_of(m) as u64, u)
}

/// The task ids `0..n`.
pub fn task_ids(n: usize) -> (r: Vec<usize>)
    ensures
        r@.len() == n,
        forall|j: int| 0 <= j < n ==> #[trigger] r@[j] == j,
        r@ == all_ids(n as nat),
        r@.no_duplicates(),
{
    let mut r: Vec<usize> = Vec::new();
    let mut i: usize = 0;
    while i < n
        invariant
            i <= n,
            r@.len() == i,
            forall|j: int| 0 <= j < i ==> #[trigger] r@[j] == j,
        decreases n - i,
    {
        r.push(i);
        i = i + 1;
    }
    assert(r@ =~= all_ids(n as nat));
    r
}

/// The tasks in the order in which they are scheduled: by priority, ties by id.
pub fn priority_order(instance: &Instance) -> (r: Vec<usize>)
    ensures
        r@.len() == instance.tasks@.len(),
        r@.no_duplicates(),
        forall|j: int| 0 <= j < r@.len() ==> #[trigger] r@[j] < instance.tasks@.len(),
        forall|t: usize| #[trigger] r@.contains(t) <==> t < instance.tasks@.len(),
        r@ == priority_sorted(*instance, all_ids(instance.tasks@.len())),
{
    let ids = task_ids(instance.tasks.len());
    let r = sort_by_priority(instance, ids);
    proof {
        assert forall|t: usize| #[trigger] r@.contains(t) <==> t < instance.tasks@.len() by {
            if t < instance.tasks@.len() {
                assert(ids@[t as int] == t);
                assert(ids@.contains(t));
            }
            if ids@.contains(t) {
                let q = choose|q: int| 0 <= q < ids@.len() && ids@[q] == t;
            }
        }
        assert forall|j: int| 0 <= j < r@.len() implies #[trigger] r@[j] < instance.tasks@.len() by {
            assert(r@.contains(r@[j]));
            let q = choose|q: int| 0 <= q < ids@.len() && ids@[q] == r@[j];
        }
    }
    r
}

proof fn lemma_timed_step(
    b: ScheduleBuilder,
    task: usize,
    m: usize,
    free: u64,
    found: Option<u64>,
    old_best: Option<(u64, usize)>,
    best: Option<(u64, usize)>,
)
    requires
        b.sched().slots().len() == b.n(),
        m < b.machine_count(),
        free == b.free_time_of(m as int),
        match found {
            Some(t) => b.candidate(task, free, t) && forall|u: u64| b.candidate(task, free, u) ==> t <= u,
            None => forall|u: u64| !b.candidate(task, free, u),
        },
        match old_best {
            Some((t, x)) => x < m && timed_upto(b.inst(), b.plan(), task, m as int) == Some((t, x as int)),
            None => timed_upto(b.inst(), b.plan(), task, m as int) is None,
        },
        best == (match found {
            Some(t) => if old_best is None || t < (old_best->0).0 || (t == (old_best->0).0 && free
                < b.free_time_of((old_best->0).1 as int)) {
                Some((t, m))
            } else {
                old_best
            },
            None => old_best,
        }),
    ensures
        match best {
            Some((t, x)) => timed_upto(b.inst(), b.plan(), task, m + 1) == Some((t, x as int)),
            None => timed_upto(b.inst(), b.plan(), task, m + 1) is None,
        },
{
    b.lemma_free_same(m as int);
    ScheduleBuilder::lemma_least_is(b, task, free, found);
    if let Some((_, x)) = old_best {
        b.lemma_free_same(x as int);
    }
}

/// The machine giving the task the earliest feasible start at the end of a conflicting task, from
/// the machine's free time on, ties by free time then id; with that start.
fn earliest_start_over_machines(b: &ScheduleBuilder, task: usize) -> (r: Option<(u64, usize)>)
    requires
        b.inv(),
        task < b.n(),
    ensures
        match r {
            Some((t, m)) => m < b.machine_count() && start_from(*b, task, m as int, t),
            None => true,
        },
        match r {
            Some((t, m)) => timed_upto(b.inst(), b.plan(), task, b.machine_count() as int) == Some((t, m as int)),
            None => timed_upto(b.inst(), b.plan(), task, b.machine_count() as int) is None,
        },
{
    let mut best: Option<(u64, usize)> = None;
    let mut m: usize = 0;
    while m < b.machines_len()
        invariant
            b.inv(),
            task < b.n(),
            m <= b.machine_count(),
            match best {
                Some((t, x)) => x < m && start_from(*b, task, x as int, t),
                None => true,
            },
            match best {
                Some((t, x)) => timed_upto(b.inst(), b.plan(), task, m as int) == Some((t, x as int)),
                None => timed_upto(b.inst(), b.plan(), task, m as int) is None,
            },
        decreases b.machine_count() - m,
    {
        let free = b.free_time(m);
        let found = b.calculate_non_conflict_time(task, free);
        let ghost old_best = best;
        match found {
            Some(time) => {
                let better = match best {
                    Some((bt, x)) => time < bt || (time == bt && free < b.free_time(x)),
                    None => true,
                };
                if better {
                    best = Some((time, m));
                }
            },
            None => {},
        }
        proof {
            lemma_timed_step(*b, task, m, free, found, old_best, best);
        }
        m = m + 1;
    }
    best
}

/// Greedy list scheduling: tasks by priority; each goes to the machine that is free earliest
/// (ties by id) at its free time where it is clear of conflicts there and ends by the deadline,
/// or else at the earliest feasible end of a conflicting task over all machines; a task that
/// fits nowhere stays unscheduled.
pub fn list_algorithm(instance: &Instance) -> (r: Schedule)
    requires
        instance.wf(),
    ensures
        r.wf(),
        r.inst() == *instance,
        r.feasible(),
        r.slots() == list_plan(*instance).slots,
        positive_times(*instance) ==> r.valid(),
{
    let mut schedule = ScheduleBuilder::new(instance);
    let tasks = priority_order(instance);
    proof {
        assert(tasks@.take(0) =~= Seq::<usize>::empty());
    }
    let mut i: usize = 0;
    while i < tasks.len()
        invariant
            schedule.inv(),
            schedule.inst() == *instance,
            i <= tasks@.len(),
            tasks@.no_duplicates(),
            forall|j: int| 0 <= j < tasks@.len() ==> #[trigger] tasks@[j] < instance.tasks@.len(),
            forall|j: int| i <= j < tasks@.len() ==> schedule.is_free(#[trigger] tasks@[j]),
            schedule.plan() == list_all(*instance, empty_plan(*instance), tasks@.take(i as int)),
            tasks@ == priority_sorted(*instance, all_ids(instance.tasks@.len())),
        decreases tasks@.len() - i,
    {
        let id = tasks[i];
        let ghost before = schedule;
        proof {
            assert(tasks@.take(i + 1).drop_last() =~= tasks@.take(i as int));
            schedule.lemma_plan();
        }
        let processing_time = instance.tasks[id].processing_time;
        let mut placed = false;
        match schedule.least_loaded() {
            Some(m) => {
                let free = schedule.free_time(m);
                proof {
                    schedule.lemma_plan();
                    schedule.lemma_free_same(m as int);
                    schedule.lemma_conflict_same(id, free);
                }
                if !schedule.in_conflict(id, free) && processing_time <= instance.deadline && free
                    <= instance.deadline - processing_time {
                    schedule.schedule(id, free, m);
                    proof {
                        ScheduleBuilder::lemma_put(before, schedule, id, m, free);
                    }
                    placed = true;
                }
            },
            None => {
                proof {
                    schedule.lemma_plan();
                }
            },
        }
        if !placed {
            match earliest_start_over_machines(&schedule, id) {
                Some((time, m)) => {
                    proof {
                        schedule.lemma_free_time_bounds(m as int);
                        let o = choose|o: usize| #[trigger]
                            schedule.candidate_from(id, schedule.free_time_of(m as int) as u64, o)
                                && schedule.end(o as int) == time;
                    }
                    schedule.schedule(id, time, m);
                    proof {
                        ScheduleBuilder::lemma_put(before, schedule, id, m, time);
                    }
                },
                None => {},
            }
        }
        i = i + 1;
    }
    proof {
        schedule.lemma_feasible();
        if positive_times(*instance) {
            schedule.sched().lemma_feasible_is_valid();
        }
        assert(tasks@.take(i as int) =~= tasks@);
        schedule.lemma_plan();
    }
    schedule.into_schedule()
}

} // verus!
