//! Schedules: a placement per task, the score, and the validity check.

use crate::problem::{Instance, Task, weight_upto, total_weight, lemma_weight_monotone};
use vstd::prelude::*;

verus! {

/// Schedule info for a task. Contains the start time and processor of the task.
#[derive(Clone, Copy, Debug, PartialEq, Eq, Structural, Hash)]
pub struct ScheduleInfo {
    pub processor: usize,
    pub start_time: u64,
}

impl ScheduleInfo {
    /// Creates new schedule info.
    pub fn new(start_time: u64, processor: usize) -> (r: ScheduleInfo)
        ensures
            r.start_time == start_time,
            r.processor == processor,
    {
        ScheduleInfo { start_time, processor }
    }
}

/// Whether `[s1, s1 + p1)` and `[s2, s2 + p2)` overlap.
pub open spec fn overlaps(s1: int, p1: int, s2: int, p2: int) -> bool {
    s1 < s2 + p2 && s2 < s1 + p1
}

/// Whether a task placed at `info` ends by the deadline.
pub open spec fn on_time(inst: Instance, task: int, info: ScheduleInfo) -> bool {
    info.start_time + inst.tasks@[task].processing_time <= inst.deadline
}

/// Total weight of the tasks among the first `k` that are scheduled and end by the deadline.
pub open spec fn score_upto(inst: Instance, slots: Seq<Option<ScheduleInfo>>, k: int) -> nat
    decreases k,
{
    if k <= 0 {
        0
    } else {
        (score_upto(inst, slots, k - 1) + match slots[k - 1] {
            Some(info) => if on_time(inst, k - 1, info) {
                inst.tasks@[k - 1].weight as nat
            } else {
                0nat
            },
            None => 0nat,
        }) as nat
    }
}

proof fn lemma_score_bounded(inst: Instance, slots: Seq<Option<ScheduleInfo>>, k: int)
    requires
        0 <= k <= inst.tasks@.len(),
    ensures
        score_upto(inst, slots, k) <= weight_upto(inst.tasks@, k),
    decreases k,
{
    if k > 0 {
        lemma_score_bounded(inst, slots, k - 1);
    }
}

/// Every task takes a positive time.
pub open spec fn positive_times(inst: Instance) -> bool {
    forall|t: int| 0 <= t < inst.tasks@.len() ==> #[trigger] inst.tasks@[t].processing_time > 0
}

/// No task conflicts with itself.
pub open spec fn irreflexive(inst: Instance) -> bool {
    forall|t: usize| !#[trigger] inst.graph.conflicted(t, t)
}

/// A schedule. Contains the schedule info for every task.
#[derive(Debug)]
pub struct Schedule<'a> {
    instance: &'a Instance,
    schedule: Vec<Option<ScheduleInfo>>,
}

impl<'a> Schedule<'a> {
    /// The instance that the schedule is for.
    pub closed spec fn inst(&self) -> Instance {
        *self.instance
    }

    /// The slot of every task: its placement, or nothing.
    pub closed spec fn slots(&self) -> Seq<Option<ScheduleInfo>> {
        self.schedule@
    }

    /// One slot per task of a well-formed instance.
    pub open spec fn wf(&self) -> bool {
        &&& self.inst().wf()
        &&& self.slots().len() == self.inst().tasks@.len()
        &&& self.slots().len() <= usize::MAX
    }

    /// Processing time of a task.
    pub open spec fn ptime(&self, task: int) -> int {
        self.inst().tasks@[task].processing_time as int
    }

    /// Task `other` conflicts with `task` and is scheduled over `[start, start + p(task))`.
    pub open spec fn clashes(&self, task: usize, start: u64, other: usize) -> bool {
        &&& other < self.slots().len()
        &&& self.inst().graph.conflicted(task, other)
        &&& self.slots()[other as int] is Some
        &&& overlaps(
            start as int,
            self.ptime(task as int),
            self.slots()[other as int]->0.start_time as int,
            self.ptime(other as int),
        )
    }

    /// Some task conflicting with `task` is scheduled over `[start, start + p(task))`.
    pub open spec fn conflict_at(&self, task: usize, start: u64) -> bool {
        exists|other: usize| #[trigger] self.clashes(task, start, other)
    }

    /// The score: total weight of the scheduled tasks that end by the deadline.
    pub open spec fn score(&self) -> nat {
        score_upto(self.inst(), self.slots(), self.slots().len() as int)
    }

    /// A scheduled task uses an existing processor.
    pub open spec fn processor_ok(&self, t: int) -> bool {
        self.slots()[t] is Some ==> self.slots()[t]->0.processor < self.inst().processors
    }

    /// Two distinct tasks on one processor start at different times and do not overlap.
    pub open spec fn pair_ok(&self, a: int, b: int) -> bool {
        (self.slots()[a] is Some && self.slots()[b] is Some && self.slots()[a]->0.processor
            == self.slots()[b]->0.processor) ==> {
            let sa = self.slots()[a]->0.start_time as int;
            let sb = self.slots()[b]->0.start_time as int;
            sa != sb && (sa < sb ==> sa + self.ptime(a) <= sb)
        }
    }

    /// A scheduled task overlaps none of its conflicting tasks.
    pub open spec fn conflict_free(&self, t: int) -> bool {
        self.slots()[t] is Some ==> !self.conflict_at(t as usize, self.slots()[t]->0.start_time)
    }

    /// The schedule keeps every processor and every conflict apart.
    pub open spec fn valid(&self) -> bool {
        &&& forall|t: int| 0 <= t < self.slots().len() ==> #[trigger] self.processor_ok(t)
        &&& forall|a: int, b: int|
            0 <= a < self.slots().len() && 0 <= b < self.slots().len() && a != b
                ==> #[trigger] self.pair_ok(a, b)
        &&& forall|t: int| 0 <= t < self.slots().len() ==> #[trigger] self.conflict_free(t)
    }

    /// What every scheduler guarantees: each scheduled task uses an existing processor and ends
    /// by the deadline, two tasks on one processor do not overlap, and two conflicting tasks do
    /// not overlap.
    pub open spec fn feasible(&self) -> bool {
        &&& forall|t: int| 0 <= t < self.slots().len() ==> #[trigger] self.processor_ok(t)
        &&& forall|t: int|
            0 <= t < self.slots().len() && self.slots()[t] is Some ==> on_time(
                self.inst(),
                t,
                #[trigger] self.slots()[t]->0,
            )
        &&& forall|a: int, b: int|
            0 <= a < self.slots().len() && 0 <= b < self.slots().len() && a != b
                ==> #[trigger] self.disjoint_pair(a, b)
    }

    /// Two tasks that share a processor, or conflict, do not overlap.
    pub open spec fn disjoint_pair(&self, a: int, b: int) -> bool {
        (self.slots()[a] is Some && self.slots()[b] is Some && (self.slots()[a]->0.processor
            == self.slots()[b]->0.processor || self.inst().graph.conflicted(a as usize, b as usize)))
            ==> !overlaps(
            self.slots()[a]->0.start_time as int,
            self.ptime(a),
            self.slots()[b]->0.start_time as int,
            self.ptime(b),
        )
    }

    /// A feasible schedule passes `verify` where every task takes time and no task conflicts
    /// with itself.
    pub proof fn lemma_feasible_is_valid(&self)
        requires
            self.wf(),
            self.feasible(),
            positive_times(self.inst()),
            irreflexive(self.inst()),
        ensures
            self.valid(),
    {
        assert forall|a: int, b: int|
            0 <= a < self.slots().len() && 0 <= b < self.slots().len() && a != b implies #[trigger]
            self.pair_ok(a, b) by {
            assert(self.disjoint_pair(a, b));
            assert(self.inst().tasks@[a].processing_time > 0);
            assert(self.inst().tasks@[b].processing_time > 0);
        }
        assert forall|t: int| 0 <= t < self.slots().len() implies #[trigger] self.conflict_free(t) by {
            if self.slots()[t] is Some && self.conflict_at(t as usize, self.slots()[t]->0.start_time) {
                let o = choose|o: usize| #[trigger]
                    self.clashes(t as usize, self.slots()[t]->0.start_time, o);
                assert(o != t);
                assert(self.disjoint_pair(t, o as int));
            }
        }
    }

    /// The score never exceeds the total weight of the tasks.
    pub proof fn lemma_score_bounded(&self)
        requires
            self.wf(),
        ensures
            self.score() <= total_weight(self.inst().tasks@),
    {
        lemma_score_bounded(self.inst(), self.slots(), self.slots().len() as int);
    }

    /// Creates a new schedule.
    pub fn new(instance: &'a Instance) -> (r: Schedule<'a>)
        requires
            instance.wf(),
        ensures
            r.wf(),
            r.inst() == *instance,
            forall|t: int| 0 <= t < r.slots().len() ==> r.slots()[t] is None,
    {
        let mut schedule: Vec<Option<ScheduleInfo>> = Vec::new();
        let mut i: usize = 0;
        while i < instance.tasks.len()
            invariant
                i <= instance.tasks@.len(),
                schedule@.len() == i,
                forall|t: int| 0 <= t < i ==> schedule@[t] is None,
            decreases instance.tasks@.len() - i,
        {
            schedule.push(None);
            i = i + 1;
        }
        Schedule { instance, schedule }
    }

    /// A copy of the schedule for the same instance.
    pub fn duplicate(&self) -> (r: Schedule<'a>)
        ensures
            r.inst() == self.inst(),
            r.slots() == self.slots(),
    {
        let mut schedule: Vec<Option<ScheduleInfo>> = Vec::new();
        let mut i: usize = 0;
        while i < self.schedule.len()
            invariant
                i <= self.schedule@.len(),
                schedule@ == self.schedule@.take(i as int),
            decreases self.schedule@.len() - i,
        {
            schedule.push(self.schedule[i]);
            i = i + 1;
        }
        assert(schedule@ =~= self.schedule@);
        Schedule { instance: self.instance, schedule }
    }

    /// Returns the number of task slots.
    pub fn tasks_len(&self) -> (r: usize)
        ensures
            r == self.slots().len(),
    {
        self.schedule.len()
    }

    /// Schedule info for a task.
    pub fn schedule(&mut self, task: usize, schedule_info: ScheduleInfo)
        requires
            task < old(self).slots().len(),
        ensures
            final(self).inst() == old(self).inst(),
            final(self).slots() == old(self).slots().update(task as int, Some(schedule_info)),
    {
        self.schedule.set(task, Some(schedule_info));
    }

    /// Removes the schedule info for a task.
    pub fn remove_schedule(&mut self, task: usize)
        requires
            task < old(self).slots().len(),
        ensures
            final(self).inst() == old(self).inst(),
            final(self).slots() == old(self).slots().update(task as int, None),
    {
        self.schedule.set(task, None);
    }

    /// Get the schedule info for a task.
    pub fn get_schedule(&self, task: usize) -> (r: Option<ScheduleInfo>)
        requires
            task < self.slots().len(),
        ensures
            r == self.slots()[task as int],
    {
        self.schedule[task]
    }

    /// Check if the given task with the given start time is in conflict with another task.
    pub fn in_conflict(&self, task: usize, start_time: u64) -> (r: bool)
        requires
            self.wf(),
            task < self.slots().len(),
        ensures
            r == self.conflict_at(task, start_time),
    {
        let inst = self.instance;
        let conflicts = inst.graph.conflicts(task);
        let p = inst.tasks[task].processing_time;
        let mut k: usize = 0;
        while k < conflicts.len()
            invariant
                self.wf(),
                task < self.slots().len(),
                inst == self.instance,
                p == inst.tasks@[task as int].processing_time,
                k <= conflicts@.len(),
                forall|b: usize| conflicts@.contains(b) <==> inst.graph.conflicted(task, b),
                forall|j: int|
                    0 <= j < k ==> !self.clashes(task, start_time, #[trigger] conflicts@[j]),
            decreases conflicts@.len() - k,
        {
            let other = conflicts[k];
            assert(conflicts@.contains(other));
            if let Some(info) = self.schedule[other] {
                let q = inst.tasks[other].processing_time;
                if (start_time as u128) < (info.start_time as u128) + (q as u128) && (
                info.start_time as u128) < (start_time as u128) + (p as u128) {
                    assert(self.clashes(task, start_time, other));
                    return true;
                }
            }
            k = k + 1;
        }
        assert forall|other: usize| !#[trigger] self.clashes(task, start_time, other) by {
            if self.clashes(task, start_time, other) {
                assert(conflicts@.contains(other));
                let j = choose|j: int| 0 <= j < conflicts@.len() && conflicts@[j] == other;
                assert(!self.clashes(task, start_time, conflicts@[j]));
            }
        }
        false
    }

    /// Calculates the score of the schedule.
    pub fn calculate_score(&self) -> (r: u64)
        requires
            self.wf(),
        ensures
            r == self.score(),
    {
        let inst = self.instance;
        let mut score: u64 = 0;
        let mut i: usize = 0;
        while i < self.schedule.len()
            invariant
                self.wf(),
                inst == self.instance,
                i <= self.slots().len(),
                score == score_upto(self.inst(), self.slots(), i as int),
            decreases self.slots().len() - i,
        {
            proof {
                lemma_score_bounded(self.inst(), self.slots(), i + 1);
                lemma_weight_monotone(inst.tasks@, i + 1, inst.tasks@.len() as int);
            }
            let task: Task = inst.tasks[i];
            if let Some(info) = self.schedule[i] {
                if task.processing_time <= inst.deadline && info.start_time <= inst.deadline
                    - task.processing_time {
                    score = score + task.weight;
                }
            }
            i = i + 1;
        }
        score
    }

    /// Checks if schedule is valid.
    pub fn verify(&self) -> (r: bool)
        requires
            self.wf(),
        ensures
            r == self.valid(),
    {
        let inst = self.instance;
        let n = self.schedule.len();
        let mut i: usize = 0;
        while i < n
            invariant
                self.wf(),
                inst == self.instance,
                n == self.slots().len(),
                i <= n,
                forall|t: int| 0 <= t < i ==> #[trigger] self.processor_ok(t),
            decreases n - i,
        {
            if let Some(info) = self.schedule[i] {
                if info.processor >= inst.processors {
                    assert(!self.processor_ok(i as int));
                    return false;
                }
            }
            i = i + 1;
        }
        let mut a: usize = 0;
        while a < n
            invariant
                self.wf(),
                inst == self.instance,
                n == self.slots().len(),
                a <= n,
                forall|t: int| 0 <= t < n ==> #[trigger] self.processor_ok(t),
                forall|x: int, y: int|
                    0 <= x < a && 0 <= y < n && x != y ==> #[trigger] self.pair_ok(x, y),
            decreases n - a,
        {
            let mut b: usize = 0;
            while b < n
                invariant
                    self.wf(),
                    inst == self.instance,
                    n == self.slots().len(),
                    a < n,
                    b <= n,
                    forall|t: int| 0 <= t < n ==> #[trigger] self.processor_ok(t),
                    forall|x: int, y: int|
                        0 <= x < a && 0 <= y < n && x != y ==> #[trigger] self.pair_ok(x, y),
                    forall|y: int| 0 <= y < b && a != y ==> #[trigger] self.pair_ok(a as int, y),
                decreases n - b,
            {
                if a != b {
                    if let Some(x) = self.schedule[a] {
                        if let Some(y) = self.schedule[b] {
                            if x.processor == y.processor {
                                let pa = inst.tasks[a].processing_time;
                                if x.start_time == y.start_time || (x.start_time < y.start_time
                                    && (y.start_time as u128) < (x.start_time as u128) + (
                                pa as u128)) {
                                    assert(!self.pair_ok(a as int, b as int));
                                    return false;
                                }
                            }
                        }
                    }
                }
                b = b + 1;
            }
            a = a + 1;
        }
        let mut t: usize = 0;
        while t < n
            invariant
                self.wf(),
                n == self.slots().len(),
                t <= n,
                forall|x: int| 0 <= x < n ==> #[trigger] self.processor_ok(x),
                forall|x: int, y: int|
                    0 <= x < n && 0 <= y < n && x != y ==> #[trigger] self.pair_ok(x, y),
                forall|x: int| 0 <= x < t ==> #[trigger] self.conflict_free(x),
            decreases n - t,
        {
            if let Some(info) = self.schedule[t] {
                if self.in_conflict(t, info.start_time) {
                    assert(!self.conflict_free(t as int));
                    return false;
                }
            }
            t = t + 1;
        }
        true
    }
}

} // verus!
