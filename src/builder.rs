//! The schedule builder: per-machine task sequences, the tardy tasks, and the repair that
//! re-derives start times after an edit.

use crate::problem::{Instance, Task};
use crate::plan::{
    least_candidate, least_upto, place, place_all, place_each, priority_sorted, repaired_tardy,
    start_for, conflict_in, candidate_in, candidate_from_in, clashes_in, free_in, end_in, Plan,
    lemma_sorted_step, empty_plan, split_plan, with_tardy, reorganized, edited, lemma_split_step,
    lemma_split_none, kind, plan_score, relocation_of, applicable_in, put, defer, place_least, lemma_least_candidate, lemma_no_candidate,
};
use crate::solution::{on_time, overlaps, Schedule, ScheduleInfo};
use vstd::prelude::*;

verus! {

/// A machine is a resource that can be used to process a task; it is ordered by free time,
/// then by id.
#[derive(Clone, Copy, Debug, PartialEq, Eq, Structural, Hash)]
pub struct Machine {
    pub id: usize,
    pub free_time: u64,
}

impl Machine {
    /// Creates a new machine with free time 0.
    pub fn new(id: usize) -> (r: Machine)
        ensures
            r.id == id,
            r.free_time == 0,
    {
        Machine { id, free_time: 0 }
    }

    /// Creates a machine that is free from the given time.
    pub fn with_free_time(id: usize, free_time: u64) -> (r: Machine)
        ensures
            r.id == id,
            r.free_time == free_time,
    {
        Machine { id, free_time }
    }

    /// Whether this machine comes before `other`: less loaded, or as loaded with a smaller id.
    pub fn precedes(&self, other: &Machine) -> (r: bool)
        ensures
            r == machine_before(*self, *other),
    {
        self.free_time < other.free_time || (self.free_time == other.free_time && self.id
            < other.id)
    }
}

/// Some machine in the list has id `m`.
pub open spec fn lists_machine(machines: Seq<Machine>, m: usize) -> bool {
    exists|j: int| 0 <= j < machines.len() && #[trigger] machines[j].id == m
}

/// The order of machines: by free time, then by id.
pub open spec fn machine_before(a: Machine, b: Machine) -> bool {
    a.free_time < b.free_time || (a.free_time == b.free_time && a.id < b.id)
}

/// A task with its id.
pub type TaskWithId = (usize, Task);

/// `a` ranks before `b`: a higher weight per unit of processing time, by cross-multiplication.
pub open spec fn ratio_before(a: Task, b: Task) -> bool {
    a.processing_time * b.weight < b.processing_time * a.weight
}

proof fn lemma_product_fits(x: u64, y: u64)
    ensures
        0 <= (x as int) * (y as int) <= u128::MAX,
{
    assert(0 <= (x as int) * (y as int) <= (u64::MAX as int) * (u64::MAX as int)) by (nonlinear_arith)
        requires
            0 <= x <= u64::MAX,
            0 <= y <= u64::MAX,
    ;
}

/// Compares two tasks by their weight and processing time: `Less` when the first has the higher
/// weight per unit of processing time.
pub fn weighted_task_comparator(a: &TaskWithId, b: &TaskWithId) -> (r: std::cmp::Ordering)
    ensures
        (r == std::cmp::Ordering::Less) == ratio_before(a.1, b.1),
        (r == std::cmp::Ordering::Greater) == ratio_before(b.1, a.1),
{
    proof {
        lemma_product_fits(a.1.processing_time, b.1.weight);
        lemma_product_fits(b.1.processing_time, a.1.weight);
    }
    let left = (a.1.processing_time as u128) * (b.1.weight as u128);
    let right = (b.1.processing_time as u128) * (a.1.weight as u128);
    if left < right {
        std::cmp::Ordering::Less
    } else if left > right {
        std::cmp::Ordering::Greater
    } else {
        std::cmp::Ordering::Equal
    }
}

/// The priority order on tasks: by ratio, ties by id.
pub open spec fn ranks_before(inst: Instance, a: usize, b: usize) -> bool {
    ratio_before(inst.tasks@[a as int], inst.tasks@[b as int]) || (!ratio_before(
        inst.tasks@[b as int],
        inst.tasks@[a as int],
    ) && a < b)
}

proof fn lemma_ranks_asymmetric(inst: Instance, a: usize, b: usize)
    requires
        ranks_before(inst, a, b),
    ensures
        !ranks_before(inst, b, a),
{
    let ta = inst.tasks@[a as int];
    let tb = inst.tasks@[b as int];
    let x = ta.processing_time * tb.weight;
    let y = tb.processing_time * ta.weight;
    assert(ratio_before(ta, tb) == (x < y));
    assert(ratio_before(tb, ta) == (y < x));
}

/// Sorts task ids by priority: higher weight per unit of processing time first, ties by id.
pub fn sort_by_priority(inst: &Instance, tasks: Vec<usize>) -> (r: Vec<usize>)
    requires
        forall|j: int| 0 <= j < tasks@.len() ==> #[trigger] tasks@[j] < inst.tasks@.len(),
    ensures
        r@.len() == tasks@.len(),
        forall|x: usize| r@.contains(x) <==> tasks@.contains(x),
        tasks@.no_duplicates() ==> r@.no_duplicates(),
        forall|k: int| 0 < k < r@.len() ==> !ranks_before(*inst, #[trigger] r@[k], r@[k - 1]),
        r@ == priority_sorted(*inst, tasks@),
{
    let mut out: Vec<usize> = Vec::new();
    let mut i: usize = 0;
    while i < tasks.len()
        invariant
            i <= tasks@.len(),
            out@.len() == i,
            forall|j: int| 0 <= j < tasks@.len() ==> #[trigger] tasks@[j] < inst.tasks@.len(),
            forall|j: int| 0 <= j < out@.len() ==> #[trigger] out@[j] < inst.tasks@.len(),
            forall|x: usize| out@.contains(x) <==> tasks@.take(i as int).contains(x),
            tasks@.no_duplicates() ==> out@.no_duplicates(),
            forall|k: int| 0 < k < out@.len() ==> !ranks_before(*inst, #[trigger] out@[k], out@[k - 1]),
            out@ == priority_sorted(*inst, tasks@.take(i as int)),
        decreases tasks@.len() - i,
    {
        let x = tasks[i];
        let mut pos: usize = 0;
        let mut stop = false;
        while pos < out.len() && !stop
            invariant
                pos <= out@.len(),
                x < inst.tasks@.len(),
                forall|j: int| 0 <= j < out@.len() ==> #[trigger] out@[j] < inst.tasks@.len(),
                forall|j: int| 0 <= j < pos ==> !ranks_before(*inst, x, #[trigger] out@[j]),
                stop ==> pos < out@.len() && ranks_before(*inst, x, out@[pos as int]),
            decreases out@.len() - pos + (if stop { 0int } else { 1int }),
        {
            if precedes_task(inst, x, out[pos]) {
                stop = true;
            } else {
                pos = pos + 1;
            }
        }
        let ghost before = out@;
        proof {
            lemma_sorted_step(*inst, before, x, pos as int);
            assert(tasks@.take(i + 1).drop_last() =~= tasks@.take(i as int));
            assert(tasks@.take(i + 1).last() == x);
        }
        out.insert(pos, x);
        proof {
            let prev = tasks@.take(i as int);
            let next = tasks@.take(i + 1);
            assert(next == prev.push(x));
            assert forall|j: int| 0 <= j < out@.len() implies #[trigger] out@[j] < inst.tasks@.len() by {
                if j < pos {
                    assert(out@[j] == before[j]);
                } else if j > pos {
                    assert(out@[j] == before[j - 1]);
                }
            }
            assert forall|y: usize| out@.contains(y) <==> next.contains(y) by {
                if out@.contains(y) {
                    let k = choose|k: int| 0 <= k < out@.len() && out@[k] == y;
                    if k < pos {
                        assert(before[k] == y);
                    } else if k > pos {
                        assert(before[k - 1] == y);
                    }
                    if y != x {
                        assert(before.contains(y));
                        assert(prev.contains(y));
                        let q = choose|q: int| 0 <= q < i && prev[q] == y;
                        assert(next[q] == y);
                    } else {
                        assert(next[i as int] == y);
                    }
                }
                if next.contains(y) {
                    let q = choose|q: int| 0 <= q <= i && next[q] == y;
                    if q == i {
                        assert(out@[pos as int] == y);
                    } else {
                        assert(prev[q] == y);
                        assert(before.contains(y));
                        let k = choose|k: int| 0 <= k < before.len() && before[k] == y;
                        if k < pos {
                            assert(out@[k] == y);
                        } else {
                            assert(out@[k + 1] == y);
                        }
                    }
                }
            }
            if tasks@.no_duplicates() {
                assert(!before.contains(x)) by {
                    if before.contains(x) {
                        assert(tasks@.take(i as int).contains(x));
                        let q = choose|q: int| 0 <= q < i && tasks@.take(i as int)[q] == x;
                        assert(tasks@[q] == tasks@[i as int]);
                    }
                }
                assert forall|a: int, b: int| 0 <= a < b < out@.len() implies out@[a] != out@[b] by {
                    if a < pos && b < pos {
                        assert(before[a] != before[b]);
                    } else if a < pos && b == pos {
                        assert(before.contains(before[a]));
                    } else if a < pos && b > pos {
                        assert(before[a] != before[b - 1]);
                    } else if a == pos {
                        assert(before.contains(before[b - 1]));
                    } else {
                        assert(before[a - 1] != before[b - 1]);
                    }
                }
            }
            assert forall|k: int| 0 < k < out@.len() implies !ranks_before(
                *inst,
                #[trigger] out@[k],
                out@[k - 1],
            ) by {
                if k < pos {
                    assert(out@[k] == before[k] && out@[k - 1] == before[k - 1]);
                } else if k == pos {
                    assert(out@[k - 1] == before[k - 1]);
                    assert(out@[k] == x);
                } else if k == pos + 1 {
                    assert(out@[k] == before[pos as int]);
                    assert(out@[k - 1] == x);
                    assert(ranks_before(*inst, x, before[pos as int]));
                    lemma_ranks_asymmetric(*inst, x, before[pos as int]);
                } else {
                    assert(out@[k - 1] == before[k - 2] && out@[k] == before[k - 1]);
                }
            }
        }
        i = i + 1;
    }
    assert(tasks@.take(i as int) == tasks@);
    out
}

/// Whether task `a` ranks before task `b`.
fn precedes_task(inst: &Instance, a: usize, b: usize) -> (r: bool)
    requires
        a < inst.tasks@.len(),
        b < inst.tasks@.len(),
    ensures
        r == ranks_before(*inst, a, b),
{
    let ta: TaskWithId = (a, inst.tasks[a]);
    let tb: TaskWithId = (b, inst.tasks[b]);
    match weighted_task_comparator(&ta, &tb) {
        std::cmp::Ordering::Less => true,
        std::cmp::Ordering::Greater => false,
        std::cmp::Ordering::Equal => a < b,
    }
}

/// A structural edit of the machine sequences and the tardy list.
#[derive(Clone, Copy, Debug, PartialEq, Eq, Structural)]
pub enum Move {
    /// Swaps the tasks at positions `i < j` of one machine.
    SwapSingle { machine: usize, i: usize, j: usize },
    /// Takes the task at position `i` of a machine and reinserts it at position `j`.
    MoveSingle { machine: usize, i: usize, j: usize },
    /// Swaps the task at position `i` of `first` with the one at position `j` of `second`.
    SwapTwo { first: usize, second: usize, i: usize, j: usize },
    /// Takes the task at position `i` of `first` and inserts it at position `j` of `second`.
    MoveTwo { first: usize, second: usize, i: usize, j: usize },
    /// Swaps the task at position `i` of a machine with the tardy task at index `j`.
    ReplaceWithTardy { machine: usize, i: usize, j: usize },
    /// Inserts the tardy task at index `j` at position `i` of a machine.
    AddTardy { machine: usize, i: usize, j: usize },
    /// Takes a task from wherever it is and inserts it at a position of a machine (clamped to the
    /// sequence's length).
    Relocate { task: usize, machine: usize, position: usize },
}

proof fn lemma_removed(s: Seq<usize>, i: int)
    requires
        0 <= i < s.len(),
    ensures
        forall|x: usize| s.remove(i).contains(x) ==> s.contains(x),
        forall|x: usize| s.contains(x) && x != s[i] ==> s.remove(i).contains(x),
        s.no_duplicates() ==> s.remove(i).no_duplicates() && !s.remove(i).contains(s[i]),
{
    let r = s.remove(i);
    assert forall|x: usize| s.contains(x) && x != s[i] implies r.contains(x) by {
        let q = choose|q: int| 0 <= q < s.len() && s[q] == x;
        if q < i {
            assert(r[q] == x);
        } else {
            assert(r[q - 1] == x);
        }
    }
    assert forall|x: usize| r.contains(x) implies s.contains(x) by {
        let q = choose|q: int| 0 <= q < r.len() && r[q] == x;
        if q < i {
            assert(s[q] == x);
        } else {
            assert(s[q + 1] == x);
        }
    }
    if s.no_duplicates() {
        assert forall|a: int, b: int| 0 <= a < b < r.len() implies r[a] != r[b] by {
            let a2 = if a < i { a } else { a + 1 };
            let b2 = if b < i { b } else { b + 1 };
            assert(r[a] == s[a2] && r[b] == s[b2]);
        }
        if r.contains(s[i]) {
            let q = choose|q: int| 0 <= q < r.len() && r[q] == s[i];
            let q2 = if q < i { q } else { q + 1 };
            assert(s[q2] == s[i]);
        }
    }
}

proof fn lemma_inserted(s: Seq<usize>, i: int, x: usize)
    requires
        0 <= i <= s.len(),
    ensures
        forall|y: usize| s.insert(i, x).contains(y) <==> (s.contains(y) || y == x),
        s.no_duplicates() && !s.contains(x) ==> s.insert(i, x).no_duplicates(),
{
    let r = s.insert(i, x);
    assert forall|y: usize| r.contains(y) <==> (s.contains(y) || y == x) by {
        if r.contains(y) {
            let q = choose|q: int| 0 <= q < r.len() && r[q] == y;
            if q < i {
                assert(s[q] == y);
            } else if q > i {
                assert(s[q - 1] == y);
            }
        }
        if s.contains(y) {
            let q = choose|q: int| 0 <= q < s.len() && s[q] == y;
            if q < i {
                assert(r[q] == y);
            } else {
                assert(r[q + 1] == y);
            }
        }
        if y == x {
            assert(r[i] == x);
        }
    }
    if s.no_duplicates() && !s.contains(x) {
        assert forall|a: int, b: int| 0 <= a < b < r.len() implies r[a] != r[b] by {
            if a != i && b != i {
                let a2 = if a < i { a } else { a - 1 };
                let b2 = if b < i { b } else { b - 1 };
                assert(r[a] == s[a2] && r[b] == s[b2]);
            } else if a == i {
                assert(r[b] == s[b - 1]);
            } else {
                assert(r[a] == s[a]);
            }
        }
    }
}

proof fn lemma_exchanged(h0: Seq<usize>, t0: Seq<usize>, h1: Seq<usize>, t1: Seq<usize>)
    requires
        h0.len() > 0,
        t0.len() > 0,
        h0.no_duplicates(),
        t0.no_duplicates(),
        forall|x: usize| h0.contains(x) ==> !t0.contains(x),
        h1 == h0.update(0, t0[0]),
        t1 == t0.update(0, h0[0]),
    ensures
        h1.no_duplicates(),
        t1.no_duplicates(),
        forall|x: usize| h1.contains(x) ==> !t1.contains(x),
        forall|x: usize| h1.contains(x) ==> h0.contains(x) || t0.contains(x),
        forall|x: usize| t1.contains(x) ==> h0.contains(x) || t0.contains(x),
        forall|x: usize| h0.contains(x) || t0.contains(x) ==> h1.contains(x) || t1.contains(x),
{
    assert forall|x: usize| h0.contains(x) || t0.contains(x) implies h1.contains(x) || t1.contains(x) by {
        if h0.contains(x) {
            let q = choose|q: int| 0 <= q < h0.len() && h0[q] == x;
            if q == 0 {
                assert(t1[0] == x);
            } else {
                assert(h1[q] == x);
            }
        } else {
            let q = choose|q: int| 0 <= q < t0.len() && t0[q] == x;
            if q == 0 {
                assert(h1[0] == x);
            } else {
                assert(t1[q] == x);
            }
        }
    }
    assert(h0.contains(h0[0]));
    assert(t0.contains(t0[0]));
    assert forall|a: int, b: int| 0 <= a < b < h1.len() implies h1[a] != h1[b] by {
        if a == 0 {
            assert(h0.contains(h1[b]));
        }
    }
    assert forall|a: int, b: int| 0 <= a < b < t1.len() implies t1[a] != t1[b] by {
        if a == 0 {
            assert(t0.contains(t1[b]));
        }
    }
    assert forall|x: usize| h1.contains(x) implies h0.contains(x) || t0.contains(x) by {
        let q = choose|q: int| 0 <= q < h1.len() && h1[q] == x;
        if q > 0 {
            assert(h0[q] == x);
        }
    }
    assert forall|x: usize| t1.contains(x) implies h0.contains(x) || t0.contains(x) by {
        let q = choose|q: int| 0 <= q < t1.len() && t1[q] == x;
        if q > 0 {
            assert(t0[q] == x);
        }
    }
    assert forall|x: usize| h1.contains(x) implies !t1.contains(x) by {
        let q = choose|q: int| 0 <= q < h1.len() && h1[q] == x;
        if t1.contains(x) {
            let r = choose|r: int| 0 <= r < t1.len() && t1[r] == x;
            if q == 0 && r == 0 {
                assert(t0.contains(t0[0]));
            } else if q == 0 {
                assert(t0[r] == t0[0]);
            } else if r == 0 {
                assert(h0[q] == h0[0]);
            } else {
                assert(h0.contains(x) && t0.contains(x));
            }
        }
    }
}

/// The edit moves task `t` in from wherever it is.
pub open spec fn relocated(edit: Move, t: usize) -> bool {
    edit matches Move::Relocate { task, .. } && task == t
}

/// A builder for creating a schedule: one sequence of tasks per machine, the tardy tasks, and
/// the schedule whose start times follow from the sequences.
pub struct ScheduleBuilder<'a> {
    instance: &'a Instance,
    schedule: Schedule<'a>,
    machines: Vec<Vec<usize>>,
    tardy_tasks: Vec<usize>,
}

impl<'a> ScheduleBuilder<'a> {
    /// The schedule being assembled.
    pub closed spec fn sched(&self) -> Schedule<'a> {
        self.schedule
    }

    /// Number of machine sequences.
    pub closed spec fn machine_count(&self) -> nat {
        self.machines@.len()
    }

    /// The task sequence of machine `m`.
    pub closed spec fn machine(&self, m: int) -> Seq<usize> {
        self.machines@[m]@
    }

    /// The tardy tasks.
    pub closed spec fn tardy_seq(&self) -> Seq<usize> {
        self.tardy_tasks@
    }

    pub open spec fn inst(&self) -> Instance {
        self.sched().inst()
    }

    pub open spec fn n(&self) -> nat {
        self.inst().tasks@.len()
    }

    pub open spec fn slot(&self, t: int) -> Option<ScheduleInfo> {
        self.sched().slots()[t]
    }

    pub open spec fn start(&self, t: int) -> int {
        self.slot(t)->0.start_time as int
    }

    pub open spec fn end(&self, t: int) -> int {
        self.start(t) + self.sched().ptime(t)
    }

    /// When machine `m` is next free: the end of its last task, or 0.
    pub open spec fn free_time_of(&self, m: int) -> int {
        if self.machine(m).len() == 0 {
            0
        } else {
            self.end(self.machine(m).last() as int)
        }
    }

    /// A task that is neither on a machine nor tardy, and has no slot.
    pub open spec fn is_free(&self, t: usize) -> bool {
        t < self.n() && self.slot(t as int) is None && !self.tardy_seq().contains(t)
    }

    /// The task at position `k` of machine `m` is scheduled there, by the deadline.
    pub open spec fn placed(&self, m: int, k: int) -> bool {
        let t = self.machine(m)[k];
        &&& t < self.n()
        &&& self.slot(t as int) is Some
        &&& self.slot(t as int)->0.processor == m
        &&& on_time(self.inst(), t as int, self.slot(t as int)->0)
    }

    /// The task at position `k + 1` of machine `m` starts after the one at `k` ends.
    pub open spec fn sequential(&self, m: int, k: int) -> bool {
        self.end(self.machine(m)[k] as int) <= self.start(self.machine(m)[k + 1] as int)
    }

    /// A scheduled task stands in the sequence of its processor.
    pub open spec fn located(&self, t: usize) -> bool {
        self.slot(t as int) is Some ==> {
            let p = self.slot(t as int)->0.processor as int;
            p < self.machine_count() && self.machine(p).contains(t)
        }
    }

    /// Two distinct scheduled tasks that conflict do not overlap.
    pub open spec fn apart(&self, t: usize, o: usize) -> bool {
        (self.slot(t as int) is Some && self.slot(o as int) is Some && t != o
            && self.inst().graph.conflicted(t, o)) ==> !overlaps(
            self.start(t as int),
            self.sched().ptime(t as int),
            self.start(o as int),
            self.sched().ptime(o as int),
        )
    }

    /// The builder's invariant.
    pub open spec fn inv(&self) -> bool {
        &&& self.sched().wf()
        &&& self.machine_count() == self.inst().processors
        &&& forall|m: int, k: int|
            0 <= m < self.machine_count() && 0 <= k < self.machine(m).len()
                ==> #[trigger] self.placed(m, k)
        &&& forall|m: int, k: int|
            0 <= m < self.machine_count() && 0 <= k && k + 1 < self.machine(m).len()
                ==> #[trigger] self.sequential(m, k)
        &&& forall|m: int| 0 <= m < self.machine_count() ==> #[trigger] self.machine(m).no_duplicates()
        &&& forall|t: usize| t < self.n() ==> #[trigger] self.located(t)
        &&& self.tardy_seq().no_duplicates()
        &&& forall|j: int|
            0 <= j < self.tardy_seq().len() ==> #[trigger] self.tardy_seq()[j] < self.n()
                && self.slot(self.tardy_seq()[j] as int) is None
        &&& forall|t: usize, o: usize| t < self.n() && o < self.n() ==> #[trigger] self.apart(t, o)
        &&& self.instance_ok()
    }

    /// The instance reference agrees with the schedule's instance.
    pub closed spec fn instance_ok(&self) -> bool {
        *self.instance == self.inst()
    }

    /// Creates a new schedule builder.
    pub fn new(instance: &'a Instance) -> (r: ScheduleBuilder<'a>)
        requires
            instance.wf(),
        ensures
            r.inv(),
            r.inst() == *instance,
            r.tardy_seq().len() == 0,
            forall|m: int| 0 <= m < r.machine_count() ==> r.machine(m).len() == 0,
            forall|t: usize| t < r.n() ==> r.is_free(t),
            r.plan() == empty_plan(*instance),
    {
        let schedule = Schedule::new(instance);
        let mut machines: Vec<Vec<usize>> = Vec::new();
        let mut i: usize = 0;
        while i < instance.processors
            invariant
                i <= instance.processors,
                machines@.len() == i,
                forall|m: int| 0 <= m < i ==> (#[trigger] machines@[m])@.len() == 0,
            decreases instance.processors - i,
        {
            machines.push(Vec::new());
            i = i + 1;
        }
        let r = ScheduleBuilder { instance, schedule, machines, tardy_tasks: Vec::new() };
        proof {
            assert(r.plan().slots =~= empty_plan(*instance).slots);
            assert forall|m: int| 0 <= m < r.plan().machines.len() implies r.plan().machines[m]
                == empty_plan(*instance).machines[m] by {
                assert(r.plan().machines[m] =~= Seq::<usize>::empty());
            }
            assert(r.plan().machines =~= empty_plan(*instance).machines);
            assert(r.plan().tardy =~= empty_plan(*instance).tardy);
        }
        r
    }

    /// Returns the schedule for a task.
    pub fn get_schedule(&self, task: usize) -> (r: Option<ScheduleInfo>)
        requires
            self.inv(),
            task < self.n(),
        ensures
            r == self.slot(task as int),
    {
        self.schedule.get_schedule(task)
    }

    /// Returns the number of tasks of the instance.
    pub fn tasks_len(&self) -> (r: usize)
        requires
            self.inv(),
        ensures
            r == self.n(),
    {
        self.instance.tasks.len()
    }

    /// Returns the number of machines.
    pub fn machines_len(&self) -> (r: usize)
        ensures
            r == self.machine_count(),
    {
        self.machines.len()
    }

    /// Returns the number of tasks in a machine.
    pub fn machine_tasks_len(&self, machine: usize) -> (r: usize)
        requires
            machine < self.machine_count(),
        ensures
            r == self.machine(machine as int).len(),
    {
        self.machines[machine].len()
    }

    /// Returns the task at a position of a machine's sequence.
    pub fn machine_task(&self, machine: usize, index: usize) -> (r: usize)
        requires
            machine < self.machine_count(),
            index < self.machine(machine as int).len(),
        ensures
            r == self.machine(machine as int)[index as int],
    {
        self.machines[machine][index]
    }

    /// Returns the number of tardy tasks.
    pub fn tardy_len(&self) -> (r: usize)
        ensures
            r == self.tardy_seq().len(),
    {
        self.tardy_tasks.len()
    }

    /// Calculates the score of the schedule.
    pub fn calculate_score(&self) -> (r: u64)
        requires
            self.inv(),
        ensures
            r == self.sched().score(),
    {
        self.schedule.calculate_score()
    }

    /// Check if the given task with the given start time is in conflict with another task.
    pub fn in_conflict(&self, task: usize, start_time: u64) -> (r: bool)
        requires
            self.inv(),
            task < self.n(),
        ensures
            r == self.sched().conflict_at(task, start_time),
    {
        self.schedule.in_conflict(task, start_time)
    }

    /// Copies the builder.
    pub fn duplicate(&self) -> (r: ScheduleBuilder<'a>)
        ensures
            r.sched().inst() == self.sched().inst(),
            r.sched().slots() == self.sched().slots(),
            r.machine_count() == self.machine_count(),
            forall|m: int| 0 <= m < self.machine_count() ==> r.machine(m) == self.machine(m),
            r.tardy_seq() == self.tardy_seq(),
            r.instance_ok() == self.instance_ok(),
            self.inv() ==> r.inv(),
            r.plan() == self.plan(),
    {
        let mut machines: Vec<Vec<usize>> = Vec::new();
        let mut i: usize = 0;
        while i < self.machines.len()
            invariant
                i <= self.machines@.len(),
                machines@.len() == i,
                forall|m: int| 0 <= m < i ==> (#[trigger] machines@[m])@ == self.machines@[m]@,
            decreases self.machines@.len() - i,
        {
            let copy = self.machines[i].clone();
            assert(copy@ =~= self.machines@[i as int]@);
            machines.push(copy);
            i = i + 1;
        }
        let tardy_tasks = self.tardy_tasks.clone();
        assert(tardy_tasks@ =~= self.tardy_tasks@);
        let r = ScheduleBuilder {
            instance: self.instance,
            schedule: self.schedule.duplicate(),
            machines,
            tardy_tasks,
        };
        proof {
            assert(r.plan().machines =~= self.plan().machines);
            if self.inv() {
                assert forall|m: int, k: int|
                    0 <= m < r.machine_count() && 0 <= k < r.machine(m).len() implies #[trigger]
                    r.placed(m, k) by {
                    assert(self.placed(m, k));
                }
                assert forall|m: int, k: int|
                    0 <= m < r.machine_count() && 0 <= k && k + 1 < r.machine(m).len() implies #[trigger]
                    r.sequential(m, k) by {
                    assert(self.sequential(m, k));
                }
                assert forall|m: int| 0 <= m < r.machine_count() implies #[trigger] r.machine(m).no_duplicates() by {
                    assert(self.machine(m).no_duplicates());
                }
                assert forall|t: usize| t < r.n() implies #[trigger] r.located(t) by {
                    assert(self.located(t));
                }
                assert forall|t: usize, o: usize| t < r.n() && o < r.n() implies #[trigger] r.apart(t, o) by {
                    assert(self.apart(t, o));
                }
            }
        }
        r
    }

    /// Returns when a machine is next free.
    pub fn free_time(&self, machine: usize) -> (r: u64)
        requires
            self.inv(),
            machine < self.machine_count(),
        ensures
            r == self.free_time_of(machine as int),
            r <= self.inst().deadline,
    {
        let len = self.machines[machine].len();
        if len == 0 {
            0
        } else {
            let task = self.machines[machine][len - 1];
            assert(self.placed(machine as int, len - 1));
            let info = self.schedule.get_schedule(task).unwrap();
            info.start_time + self.instance.tasks[task].processing_time
        }
    }

    /// Creates the machines with their free times, ordered by free time, then id.
    pub fn new_machine_free_times(&self) -> (r: Vec<Machine>)
        requires
            self.inv(),
        ensures
            r@.len() == self.machine_count(),
            forall|j: int|
                0 <= j < r@.len() ==> (#[trigger] r@[j]).id < self.machine_count() && r@[j].free_time
                    == self.free_time_of(r@[j].id as int),
            forall|m: usize| m < self.machine_count() ==> #[trigger] lists_machine(r@, m),
            forall|a: int, b: int| 0 <= a < b < r@.len() ==> machine_before(#[trigger] r@[a], #[trigger] r@[b]),
    {
        let mut out: Vec<Machine> = Vec::new();
        let mut m: usize = 0;
        while m < self.machines.len()
            invariant
                self.inv(),
                m <= self.machine_count(),
                out@.len() == m,
                forall|j: int|
                    0 <= j < out@.len() ==> (#[trigger] out@[j]).id < m && out@[j].free_time
                        == self.free_time_of(out@[j].id as int),
                forall|x: usize| x < m ==> #[trigger] lists_machine(out@, x),
                forall|a: int, b: int| 0 <= a < b < out@.len() ==> machine_before(#[trigger] out@[a], #[trigger] out@[b]),
            decreases self.machine_count() - m,
        {
            let free = self.free_time(m);
            let machine = Machine::with_free_time(m, free);
            let mut pos: usize = 0;
            let mut stop = false;
            while pos < out.len() && !stop
                invariant
                    pos <= out@.len(),
                    forall|j: int| 0 <= j < out@.len() ==> (#[trigger] out@[j]).id < m,
                    machine.id == m,
                    forall|j: int| 0 <= j < pos ==> machine_before(#[trigger] out@[j], machine),
                    stop ==> pos < out@.len() && machine_before(machine, out@[pos as int]),
                decreases out@.len() - pos + (if stop { 0int } else { 1int }),
            {
                if machine.precedes(&out[pos]) {
                    stop = true;
                } else {
                    pos = pos + 1;
                }
            }
            let ghost before = out@;
            out.insert(pos, machine);
            proof {
                assert forall|j: int|
                    0 <= j < out@.len() implies (#[trigger] out@[j]).id < m + 1 && out@[j].free_time
                        == self.free_time_of(out@[j].id as int) by {
                    if j < pos {
                        assert(out@[j] == before[j]);
                    } else if j > pos {
                        assert(out@[j] == before[j - 1]);
                    }
                }
                assert forall|x: usize| x < m + 1 implies #[trigger] lists_machine(out@, x) by {
                    if x == m {
                        assert(out@[pos as int].id == x);
                    } else {
                        assert(lists_machine(before, x));
                        let j = choose|j: int| 0 <= j < before.len() && #[trigger] before[j].id == x;
                        if j < pos {
                            assert(out@[j] == before[j]);
                        } else {
                            assert(out@[j + 1] == before[j]);
                        }
                    }
                }
                assert forall|a: int, b: int| 0 <= a < b < out@.len() implies machine_before(#[trigger] out@[a], #[trigger] out@[b]) by {
                    if b < pos {
                        assert(out@[a] == before[a] && out@[b] == before[b]);
                    } else if b == pos {
                        assert(out@[a] == before[a]);
                    } else if a < pos {
                        assert(out@[a] == before[a] && out@[b] == before[b - 1]);
                        assert(machine_before(before[a], machine));
                        assert(machine_before(machine, before[pos as int]));
                        if b - 1 > pos {
                            assert(machine_before(before[pos as int], before[b - 1]));
                        }
                    } else if a == pos {
                        assert(out@[b] == before[b - 1]);
                        if b - 1 > pos {
                            assert(machine_before(before[pos as int], before[b - 1]));
                        }
                    } else {
                        assert(out@[a] == before[a - 1] && out@[b] == before[b - 1]);
                    }
                }
            }
            m = m + 1;
        }
        out
    }

    /// Task `o` conflicts with `task` and its end is a feasible start for `task` from `minimum`.
    pub open spec fn candidate_from(&self, task: usize, minimum: u64, o: usize) -> bool {
        &&& o < self.n()
        &&& self.inst().graph.conflicted(task, o)
        &&& self.slot(o as int) is Some
        &&& self.end(o as int) >= minimum
        &&& self.end(o as int) + self.sched().ptime(task as int) <= self.inst().deadline
        &&& !self.sched().conflict_at(task, self.end(o as int) as u64)
    }

    /// `t` is the end of a conflicting task and a feasible start for `task` from `minimum`.
    pub open spec fn candidate(&self, task: usize, minimum: u64, t: u64) -> bool {
        exists|o: usize| #[trigger] self.candidate_from(task, minimum, o) && self.end(o as int) == t
    }

    /// A scheduled task stands on a machine and ends by the deadline.
    pub proof fn lemma_scheduled_on_time(&self, t: usize)
        requires
            self.inv(),
            t < self.n(),
            self.slot(t as int) is Some,
        ensures
            on_time(self.inst(), t as int, self.slot(t as int)->0),
            self.slot(t as int)->0.processor < self.machine_count(),
    {
        assert(self.located(t));
        let p = self.slot(t as int)->0.processor as int;
        let k = choose|k: int| 0 <= k < self.machine(p).len() && self.machine(p)[k] == t;
        assert(self.placed(p, k));
    }

    /// Calculates first available time for a task that is not in conflict with other tasks, among
    /// the end times of its conflicting tasks. It returns None if there is no available time
    /// within deadline.
    pub fn calculate_non_conflict_time(&self, task: usize, minimum_time: u64) -> (r: Option<u64>)
        requires
            self.inv(),
            task < self.n(),
        ensures
            match r {
                Some(t) => self.candidate(task, minimum_time, t) && forall|u: u64|
                    self.candidate(task, minimum_time, u) ==> t <= u,
                None => forall|u: u64| !self.candidate(task, minimum_time, u),
            },
    {
        let inst = self.instance;
        let processing_time = inst.tasks[task].processing_time;
        let conflicts = inst.graph.conflicts(task);
        let mut best: Option<u64> = None;
        let mut k: usize = 0;
        while k < conflicts.len()
            invariant
                self.inv(),
                task < self.n(),
                inst == self.instance,
                processing_time == inst.tasks@[task as int].processing_time,
                k <= conflicts@.len(),
                forall|b: usize| conflicts@.contains(b) <==> inst.graph.conflicted(task, b),
                match best {
                    Some(t) => self.candidate(task, minimum_time, t) && forall|j: int|
                        0 <= j < k && self.candidate_from(task, minimum_time, #[trigger] conflicts@[j])
                            ==> t <= self.end(conflicts@[j] as int),
                    None => forall|j: int|
                        0 <= j < k ==> !self.candidate_from(task, minimum_time, #[trigger] conflicts@[j]),
                },
            decreases conflicts@.len() - k,
        {
            let other = conflicts[k];
            assert(conflicts@.contains(other));
            proof {
                inst.graph.lemma_symmetric();
            }
            if let Some(info) = self.schedule.get_schedule(other) {
                proof {
                    self.lemma_scheduled_on_time(other);
                }
                let time = info.start_time + inst.tasks[other].processing_time;
                if time >= minimum_time && processing_time <= inst.deadline && time
                    <= inst.deadline - processing_time {
                    if !self.schedule.in_conflict(task, time) {
                        assert(self.candidate_from(task, minimum_time, other));
                        let better = match best {
                            Some(b) => time < b,
                            None => true,
                        };
                        if better {
                            best = Some(time);
                        }
                    }
                }
            }
            k = k + 1;
        }
        proof {
            assert forall|u: u64| #[trigger] self.candidate(task, minimum_time, u) implies match best {
                Some(t) => t <= u,
                None => false,
            } by {
                let o = choose|o: usize| #[trigger]
                    self.candidate_from(task, minimum_time, o) && self.end(o as int) == u;
                assert(conflicts@.contains(o));
                let j = choose|j: int| 0 <= j < conflicts@.len() && conflicts@[j] == o;
                assert(self.candidate_from(task, minimum_time, conflicts@[j]));
            }
        }
        best
    }

    /// Schedules a task on a machine at a given time, after the machine's last task.
    pub fn schedule(&mut self, task: usize, time: u64, machine: usize)
        requires
            old(self).inv(),
            old(self).is_free(task),
            machine < old(self).machine_count(),
            time >= old(self).free_time_of(machine as int),
            time + old(self).sched().ptime(task as int) <= old(self).inst().deadline,
            !old(self).sched().conflict_at(task, time),
        ensures
            final(self).inv(),
            final(self).inst() == old(self).inst(),
            final(self).sched().slots() == old(self).sched().slots().update(
                task as int,
                Some(ScheduleInfo { processor: machine, start_time: time }),
            ),
            final(self).machine_count() == old(self).machine_count(),
            final(self).machine(machine as int) == old(self).machine(machine as int).push(task),
            forall|m: int|
                0 <= m < old(self).machine_count() && m != machine ==> final(self).machine(m)
                    == old(self).machine(m),
            final(self).tardy_seq() == old(self).tardy_seq(),
            final(self).free_time_of(machine as int) == time + old(self).sched().ptime(task as int),
            forall|t: usize| t != task ==> final(self).is_free(t) == old(self).is_free(t),
            !final(self).is_free(task),
    {
        let ghost pre = *self;
        proof {
            self.instance.graph.lemma_symmetric();
            if self.machine(machine as int).contains(task) {
                let k = choose|k: int|
                    0 <= k < self.machine(machine as int).len() && self.machine(machine as int)[k]
                        == task;
                assert(self.placed(machine as int, k));
            }
        }
        let info = ScheduleInfo::new(time, machine);
        self.schedule.schedule(task, info);
        self.machines[machine].push(task);
        proof {
            assert forall|m: int, k: int|
                0 <= m < self.machine_count() && 0 <= k < self.machine(m).len() implies #[trigger]
                self.placed(m, k) by {
                if m != machine || k < pre.machine(m).len() {
                    assert(pre.placed(m, k));
                }
            }
            assert forall|m: int, k: int|
                0 <= m < self.machine_count() && 0 <= k && k + 1 < self.machine(m).len() implies #[trigger]
                self.sequential(m, k) by {
                if m != machine || k + 1 < pre.machine(m).len() {
                    assert(pre.sequential(m, k));
                    assert(pre.placed(m, k));
                    assert(pre.placed(m, k + 1));
                } else {
                    assert(pre.placed(m, k));
                }
            }
            assert forall|t: usize| t < self.n() implies #[trigger] self.located(t) by {
                assert(pre.located(t));
                if t != task && self.slot(t as int) is Some {
                    let p = self.slot(t as int)->0.processor as int;
                    let k = choose|k: int| 0 <= k < pre.machine(p).len() && pre.machine(p)[k] == t;
                    assert(self.machine(p)[k] == t);
                }
                if t == task {
                    assert(self.machine(machine as int)[pre.machine(machine as int).len() as int]
                        == task);
                }
            }
            assert forall|j: int|
                0 <= j < self.tardy_seq().len() implies #[trigger] self.tardy_seq()[j] < self.n()
                && self.slot(self.tardy_seq()[j] as int) is None by {
                assert(pre.tardy_seq().contains(pre.tardy_seq()[j]));
            }
            assert forall|t: usize, o: usize| t < self.n() && o < self.n() implies #[trigger]
            self.apart(t, o) by {
                assert(pre.apart(t, o));
                assert(self.slot(task as int) == Some(info));
                if t == task && o != t && self.slot(o as int) is Some
                    && self.inst().graph.conflicted(t, o) {
                    assert(self.slot(o as int) == pre.slot(o as int));
                    assert(!pre.sched().clashes(task, time, o));
                } else if o == task && o != t && self.slot(t as int) is Some
                    && self.inst().graph.conflicted(t, o) {
                    assert(self.slot(t as int) == pre.slot(t as int));
                    assert(self.inst().graph.conflicted(o, t));
                    assert(!pre.sched().clashes(task, time, t));
                } else if t != task && o != task {
                    assert(self.slot(t as int) == pre.slot(t as int));
                    assert(self.slot(o as int) == pre.slot(o as int));
                }
            }
            assert forall|m: int| 0 <= m < self.machine_count() implies #[trigger] self.machine(m).no_duplicates() by {
                assert(pre.machine(m).no_duplicates());
            }
        }
    }

    /// Marks a free task as tardy.
    pub fn tardy(&mut self, task: usize)
        requires
            old(self).inv(),
            old(self).is_free(task),
        ensures
            final(self).inv(),
            final(self).sched() == old(self).sched(),
            final(self).machine_count() == old(self).machine_count(),
            forall|m: int| final(self).machine(m) == old(self).machine(m),
            final(self).tardy_seq() == old(self).tardy_seq().push(task),
            forall|t: usize| t != task ==> final(self).is_free(t) == old(self).is_free(t),
            !final(self).is_free(task),
    {
        let ghost pre = *self;
        self.tardy_tasks.push(task);
        proof {
            assert(self.tardy_seq()[pre.tardy_seq().len() as int] == task);
            assert forall|t: usize| t != task implies self.tardy_seq().contains(t)
                == pre.tardy_seq().contains(t) by {
                if self.tardy_seq().contains(t) {
                    let j = choose|j: int| 0 <= j < self.tardy_seq().len() && self.tardy_seq()[j] == t;
                    assert(pre.tardy_seq()[j] == t);
                }
                if pre.tardy_seq().contains(t) {
                    let j = choose|j: int| 0 <= j < pre.tardy_seq().len() && pre.tardy_seq()[j] == t;
                    assert(self.tardy_seq()[j] == t);
                }
            }
            assert forall|m: int, k: int|
                0 <= m < self.machine_count() && 0 <= k < self.machine(m).len() implies #[trigger]
                self.placed(m, k) by {
                assert(pre.placed(m, k));
            }
            assert forall|m: int, k: int|
                0 <= m < self.machine_count() && 0 <= k && k + 1 < self.machine(m).len() implies #[trigger]
                self.sequential(m, k) by {
                assert(pre.sequential(m, k));
            }
            assert forall|t: usize| t < self.n() implies #[trigger] self.located(t) by {
                assert(pre.located(t));
            }
            assert forall|t: usize, o: usize| t < self.n() && o < self.n() implies #[trigger]
            self.apart(t, o) by {
                assert(pre.apart(t, o));
            }
            assert forall|m: int| 0 <= m < self.machine_count() implies #[trigger] self.machine(m).no_duplicates() by {
                assert(pre.machine(m).no_duplicates());
            }
        }
    }

    /// The builder's edits are those of its plan.
    pub proof fn lemma_applicable_same(&self)
        ensures
            forall|e: Move| #[trigger] self.applicable(e) == applicable_in(self.inst(), self.plan(), e),
    {
        self.lemma_plan();
    }

    /// No edit of the six neighborhoods improves the score.
    pub open spec fn locally_optimal(&self) -> bool {
        forall|e: Move|
            #[trigger] self.applicable(e) && kind(e) < 6 ==> plan_score(self.inst(), reorganized(self.inst(), self.plan(), e))
                <= self.sched().score()
    }

    /// The state of the builder as a plan.
    pub closed spec fn plan(&self) -> Plan {
        Plan {
            slots: self.schedule.slots(),
            machines: self.machines@.map_values(|v: Vec<usize>| v@),
            tardy: self.tardy_tasks@,
        }
    }

    /// The plan shows the slots, the machine sequences and the tardy tasks.
    pub proof fn lemma_plan(&self)
        ensures
            self.plan().slots == self.sched().slots(),
            self.plan().tardy == self.tardy_seq(),
            self.plan().machines.len() == self.machine_count(),
            forall|m: int| 0 <= m < self.machine_count() ==> #[trigger] self.plan().machines[m] == self.machine(m),
    {
    }

    pub proof fn lemma_free_same(&self, m: int)
        requires
            0 <= m < self.machine_count(),
        ensures
            self.free_time_of(m) == free_in(self.inst(), self.plan(), m),
    {
        self.lemma_plan();
    }

    pub proof fn lemma_conflict_same(&self, task: usize, s: u64)
        ensures
            self.sched().conflict_at(task, s) == conflict_in(self.inst(), self.plan().slots, task, s),
    {
        let inst = self.inst();
        let slots = self.plan().slots;
        assert forall|o: usize| #[trigger] self.sched().clashes(task, s, o) == clashes_in(inst, slots, task, s, o) by {}
        if self.sched().conflict_at(task, s) {
            let o = choose|o: usize| #[trigger] self.sched().clashes(task, s, o);
            assert(clashes_in(inst, slots, task, s, o));
        }
        if conflict_in(inst, slots, task, s) {
            let o = choose|o: usize| #[trigger] clashes_in(inst, slots, task, s, o);
            assert(self.sched().clashes(task, s, o));
        }
    }

    proof fn lemma_candidate_same(&self, task: usize, minimum: u64)
        requires
            self.sched().slots().len() == self.n(),
        ensures
            forall|t: u64| #[trigger] self.candidate(task, minimum, t) == candidate_in(self.inst(), self.plan().slots, task, minimum, t),
    {
        let inst = self.inst();
        let slots = self.plan().slots;
        assert forall|o: usize| #[trigger] self.candidate_from(task, minimum, o) == candidate_from_in(inst, slots, task, minimum, o) by {
            self.lemma_conflict_same(task, self.end(o as int) as u64);
        }
        assert forall|t: u64| #[trigger] self.candidate(task, minimum, t) == candidate_in(inst, slots, task, minimum, t) by {
            if self.candidate(task, minimum, t) {
                let o = choose|o: usize| #[trigger] self.candidate_from(task, minimum, o) && self.end(o as int) == t;
                assert(candidate_from_in(inst, slots, task, minimum, o));
            }
            if candidate_in(inst, slots, task, minimum, t) {
                let o = choose|o: usize| #[trigger] candidate_from_in(inst, slots, task, minimum, o) && end_in(inst, slots, o as int) == t;
                assert(self.candidate_from(task, minimum, o));
            }
        }
    }

    /// The start a free task gets at the end of a machine: the machine's free time where it is
    /// clear of conflicts there and fits, else the earliest feasible end of a conflicting task.
    /// What `calculate_non_conflict_time` returns is the least candidate of the plan.
    pub proof fn lemma_least_is(b: Self, task: usize, free: u64, r: Option<u64>)
        requires
            b.sched().slots().len() == b.n(),
            match r {
                Some(t) => b.candidate(task, free, t) && forall|u: u64| b.candidate(task, free, u) ==> t <= u,
                None => forall|u: u64| !b.candidate(task, free, u),
            },
        ensures
            r == least_candidate(b.inst(), b.plan().slots, task, free),
    {
        let inst = b.inst();
        let slots = b.plan().slots;
        b.lemma_candidate_same(task, free);
        match r {
            Some(t) => {
                assert(candidate_in(inst, slots, task, free, t));
                assert forall|u: u64| candidate_in(inst, slots, task, free, u) implies t <= u by {
                    assert(b.candidate(task, free, u));
                }
                lemma_least_candidate(inst, slots, task, free, t);
            },
            None => {
                assert forall|u: u64| !candidate_in(inst, slots, task, free, u) by {
                    assert(!b.candidate(task, free, u));
                }
                lemma_no_candidate(inst, slots, task, free);
            },
        }
    }

    proof fn lemma_start_on(b: Self, task: usize, machine: usize, free: u64, time: Option<u64>)
        requires
            b.sched().slots().len() == b.n(),
            machine < b.machine_count(),
            free == b.free_time_of(machine as int),
            b.sched().conflict_at(task, free) ==> match time {
                Some(t) => b.candidate(task, free, t) && forall|u: u64| b.candidate(task, free, u) ==> t <= u,
                None => forall|u: u64| !b.candidate(task, free, u),
            },
            !b.sched().conflict_at(task, free) ==> time == (if free + b.sched().ptime(task as int)
                <= b.inst().deadline {
                Some(free)
            } else {
                None
            }),
        ensures
            time == start_for(b.inst(), b.plan().slots, task, free_in(b.inst(), b.plan(), machine as int) as u64),
    {
        let inst = b.inst();
        let slots = b.plan().slots;
        b.lemma_free_same(machine as int);
        b.lemma_conflict_same(task, free);
        assert(free_in(inst, b.plan(), machine as int) as u64 == free);
        if b.sched().conflict_at(task, free) {
            b.lemma_candidate_same(task, free);
            match time {
                Some(t) => {
                    assert(candidate_in(inst, slots, task, free, t));
                    assert forall|u: u64| candidate_in(inst, slots, task, free, u) implies t <= u by {
                        assert(b.candidate(task, free, u));
                    }
                    lemma_least_candidate(inst, slots, task, free, t);
                },
                None => {
                    assert forall|u: u64| !candidate_in(inst, slots, task, free, u) by {
                        assert(!b.candidate(task, free, u));
                    }
                    lemma_no_candidate(inst, slots, task, free);
                },
            }
        }
    }

    fn start_on(&self, task: usize, machine: usize) -> (r: Option<u64>)
        requires
            self.inv(),
            task < self.n(),
            machine < self.machine_count(),
        ensures
            r == start_for(self.inst(), self.plan().slots, task, free_in(self.inst(), self.plan(), machine as int) as u64),
            r matches Some(t) ==> t >= self.free_time_of(machine as int) && t + self.sched().ptime(task as int)
                <= self.inst().deadline && !self.sched().conflict_at(task, t),
    {
        let free = self.free_time(machine);
        let p = self.instance.tasks[task].processing_time;
        let time = if self.in_conflict(task, free) {
            self.calculate_non_conflict_time(task, free)
        } else if p <= self.instance.deadline && free <= self.instance.deadline - p {
            Some(free)
        } else {
            None
        };
        proof {
            Self::lemma_start_on(*self, task, machine, free, time);
            if self.sched().conflict_at(task, free) {
                if let Some(t) = time {
                    let o = choose|o: usize| #[trigger]
                        self.candidate_from(task, free, o) && self.end(o as int) == t;
                }
            }
        }
        time
    }

    pub proof fn lemma_put(pre: Self, post: Self, task: usize, m: usize, t: u64)
        requires
            post.sched().slots() == pre.sched().slots().update(
                task as int,
                Some(ScheduleInfo { processor: m, start_time: t }),
            ),
            post.machine_count() == pre.machine_count(),
            m < pre.machine_count(),
            post.machine(m as int) == pre.machine(m as int).push(task),
            forall|o: int| 0 <= o < pre.machine_count() && o != m ==> post.machine(o) == pre.machine(o),
            post.tardy_seq() == pre.tardy_seq(),
        ensures
            post.plan() == put(pre.plan(), task, m as int, t),
    {
        pre.lemma_plan();
        post.lemma_plan();
        assert(post.plan().machines =~= put(pre.plan(), task, m as int, t).machines);
    }

    proof fn lemma_defer(pre: Self, post: Self, task: usize)
        requires
            post.sched() == pre.sched(),
            post.machine_count() == pre.machine_count(),
            forall|o: int| post.machine(o) == pre.machine(o),
            post.tardy_seq() == pre.tardy_seq().push(task),
        ensures
            post.plan() == defer(pre.plan(), task),
    {
        pre.lemma_plan();
        post.lemma_plan();
        assert(post.plan().machines =~= pre.plan().machines);
    }

    /// Places a free task on the machine at its free time, or at the earliest feasible end of a
    /// conflicting task; makes it tardy where neither fits. Returns whether it was placed.
    pub(crate) fn place_or_defer(&mut self, task: usize, machine: usize) -> (placed: bool)
        requires
            old(self).inv(),
            old(self).is_free(task),
            machine < old(self).machine_count(),
        ensures
            final(self).inv(),
            final(self).inst() == old(self).inst(),
            final(self).machine_count() == old(self).machine_count(),
            forall|t: usize| t != task ==> final(self).is_free(t) == old(self).is_free(t),
            !final(self).is_free(task),
            final(self).plan() == place(old(self).inst(), old(self).plan(), task, machine as int),
    {
        let ghost pre = *self;
        match self.start_on(task, machine) {
            Some(t) => {
                self.schedule(task, t, machine);
                proof {
                    Self::lemma_put(pre, *self, task, machine, t);
                }
                true
            },
            None => {
                self.tardy(task);
                proof {
                    Self::lemma_defer(pre, *self, task);
                }
                false
            },
        }
    }

    /// Takes the last task off a machine and clears its slot.
    fn pop_last(&mut self, machine: usize) -> (r: usize)
        requires
            old(self).inv(),
            machine < old(self).machine_count(),
            old(self).machine(machine as int).len() > 0,
        ensures
            final(self).inv(),
            final(self).inst() == old(self).inst(),
            final(self).machine_count() == old(self).machine_count(),
            final(self).machine(machine as int) == old(self).machine(machine as int).drop_last(),
            forall|m: int|
                0 <= m < old(self).machine_count() && m != machine ==> final(self).machine(m)
                    == old(self).machine(m),
            r == old(self).machine(machine as int).last(),
            final(self).tardy_seq() == old(self).tardy_seq(),
            final(self).sched().slots() == old(self).sched().slots().update(r as int, None),
            final(self).is_free(r),
            forall|t: usize| t != r ==> final(self).is_free(t) == old(self).is_free(t),
    {
        let ghost pre = *self;
        let ghost last = pre.machine(machine as int).len() - 1;
        proof {
            assert(pre.placed(machine as int, last));
        }
        let task = self.machines[machine].pop().unwrap();
        self.schedule.remove_schedule(task);
        proof {
            assert(self.machine(machine as int) =~= pre.machine(machine as int).drop_last());
            assert(!pre.tardy_seq().contains(task)) by {
                if pre.tardy_seq().contains(task) {
                    let j = choose|j: int| 0 <= j < pre.tardy_seq().len() && pre.tardy_seq()[j] == task;
                }
            }
            assert forall|m: int, k: int|
                0 <= m < self.machine_count() && 0 <= k < self.machine(m).len() implies #[trigger]
                self.placed(m, k) by {
                assert(pre.placed(m, k));
                assert(pre.machine(m)[k] == self.machine(m)[k]);
                if m == machine {
                    assert(pre.machine(m).no_duplicates());
                }
            }
            assert forall|m: int, k: int|
                0 <= m < self.machine_count() && 0 <= k && k + 1 < self.machine(m).len() implies #[trigger]
                self.sequential(m, k) by {
                assert(pre.sequential(m, k));
                assert(self.placed(m, k));
                assert(self.placed(m, k + 1));
                assert(pre.placed(m, k));
                assert(pre.placed(m, k + 1));
            }
            assert forall|m: int| 0 <= m < self.machine_count() implies #[trigger] self.machine(m).no_duplicates() by {
                assert(pre.machine(m).no_duplicates());
            }
            assert forall|t: usize| t < self.n() implies #[trigger] self.located(t) by {
                assert(pre.located(t));
                if t != task && self.slot(t as int) is Some {
                    let p = self.slot(t as int)->0.processor as int;
                    let k = choose|k: int| 0 <= k < pre.machine(p).len() && pre.machine(p)[k] == t;
                    if p == machine {
                        assert(k != last);
                        assert(self.machine(p)[k] == t);
                    }
                }
            }
            assert forall|j: int|
                0 <= j < self.tardy_seq().len() implies #[trigger] self.tardy_seq()[j] < self.n()
                && self.slot(self.tardy_seq()[j] as int) is None by {
                assert(pre.tardy_seq().contains(pre.tardy_seq()[j]));
            }
            assert forall|t: usize, o: usize| t < self.n() && o < self.n() implies #[trigger]
            self.apart(t, o) by {
                assert(pre.apart(t, o));
            }
        }
        task
    }

    /// Takes the tasks from `index` on off a machine and clears their slots; returns them in
    /// their order.
    fn split_suffix(&mut self, machine: usize, index: usize) -> (r: Vec<usize>)
        requires
            old(self).inv(),
            machine < old(self).machine_count(),
            index <= old(self).machine(machine as int).len(),
        ensures
            final(self).inv(),
            final(self).inst() == old(self).inst(),
            final(self).machine_count() == old(self).machine_count(),
            final(self).machine(machine as int) == old(self).machine(machine as int).take(
                index as int,
            ),
            forall|m: int|
                0 <= m < old(self).machine_count() && m != machine ==> final(self).machine(m)
                    == old(self).machine(m),
            r@ == old(self).machine(machine as int).skip(index as int),
            final(self).tardy_seq() == old(self).tardy_seq(),
            r@.no_duplicates(),
            forall|j: int| 0 <= j < r@.len() ==> final(self).is_free(#[trigger] r@[j]),
            forall|j: int| 0 <= j < r@.len() ==> !old(self).is_free(#[trigger] r@[j]),
            forall|t: usize| #[trigger] final(self).is_free(t) == (old(self).is_free(t) || r@.contains(t)),
            final(self).plan() == split_plan(old(self).plan(), machine as int, index as int),
    {
        let ghost pre = *self;
        let mut out: Vec<usize> = Vec::new();
        proof {
            pre.lemma_plan();
            lemma_split_none(pre.plan(), machine as int);
        }
        while self.machines[machine].len() > index
            invariant
                self.inv(),
                self.inst() == pre.inst(),
                self.machine_count() == pre.machine_count(),
                machine < self.machine_count(),
                index <= self.machine(machine as int).len() <= pre.machine(machine as int).len(),
                self.machine(machine as int) == pre.machine(machine as int).take(
                    self.machine(machine as int).len() as int,
                ),
                out@ == pre.machine(machine as int).skip(self.machine(machine as int).len() as int),
                self.tardy_seq() == pre.tardy_seq(),
                forall|m: int|
                    0 <= m < pre.machine_count() && m != machine ==> self.machine(m)
                        == pre.machine(m),
                forall|j: int| 0 <= j < out@.len() ==> self.is_free(#[trigger] out@[j]),
                forall|t: usize| #[trigger] self.is_free(t) == (pre.is_free(t) || out@.contains(t)),
                self.plan() == split_plan(pre.plan(), machine as int, self.machine(machine as int).len() as int),
                pre.inv(),
            decreases self.machine(machine as int).len(),
        {
            let ghost before = *self;
            let ghost out_before = out@;
            let ghost c = self.machine(machine as int).len() as int;
            proof {
                pre.lemma_plan();
                assert forall|k: int| 0 <= k < pre.plan().machines[machine as int].len() implies (#[trigger] pre.plan().machines[machine as int][k]) < pre.plan().slots.len() by {
                    assert(pre.placed(machine as int, k));
                }
                lemma_split_step(pre.plan(), machine as int, c);
            }
            let task = self.pop_last(machine);
            proof {
                self.lemma_plan();
                before.lemma_plan();
                assert(pre.machine(machine as int).take(c).drop_last() =~= pre.machine(machine as int).take(c - 1));
                assert forall|o: int| 0 <= o < self.machine_count() implies #[trigger] self.plan().machines[o]
                    == split_plan(pre.plan(), machine as int, c - 1).machines[o] by {
                    if o != machine {
                        assert(self.machine(o) == before.machine(o));
                        assert(before.plan().machines[o] == before.machine(o));
                    }
                }
                assert(self.plan().machines =~= split_plan(pre.plan(), machine as int, c - 1).machines);
            }
            out.insert(0, task);
            proof {
                lemma_inserted(out_before, 0, task);
                assert forall|t: usize| #[trigger] self.is_free(t) == (pre.is_free(t) || out@.contains(t)) by {
                    assert(out@ == out_before.insert(0, task));
                    if t == task {
                        assert(out@[0] == task);
                        assert(out@.contains(task));
                    } else {
                        assert(self.is_free(t) == before.is_free(t));
                        assert(before.is_free(t) == (pre.is_free(t) || out_before.contains(t)));
                        assert(out@.contains(t) == out_before.contains(t));
                    }
                }
                let len = self.machine(machine as int).len() as int;
                assert(self.machine(machine as int) =~= pre.machine(machine as int).take(len));
                assert(out@ =~= pre.machine(machine as int).skip(len));
                assert forall|j: int| 0 <= j < out@.len() implies self.is_free(#[trigger] out@[j]) by {
                    if j > 0 {
                        assert(out@[j] == pre.machine(machine as int).skip(len + 1)[j - 1]);
                        assert(before.machine(machine as int).no_duplicates());
                    }
                }
            }
        }
        proof {
            assert(self.machine(machine as int).len() == index);
            let whole = pre.machine(machine as int);
            assert(whole.no_duplicates());
            assert forall|a: int, b: int| 0 <= a < b < out@.len() implies out@[a] != out@[b] by {
                assert(out@[a] == whole[a + index] && out@[b] == whole[b + index]);
            }
            assert forall|j: int| 0 <= j < out@.len() implies !pre.is_free(#[trigger] out@[j]) by {
                assert(out@[j] == whole[j + index]);
                assert(pre.placed(machine as int, j + index));
            }
        }
        out
    }

    /// Places the pending tasks one after another at the end of a machine; those that no longer
    /// fit become tardy.
    fn fix_machine(&mut self, machine: usize, pending: Vec<usize>)
        requires
            old(self).inv(),
            machine < old(self).machine_count(),
            forall|j: int| 0 <= j < pending@.len() ==> old(self).is_free(#[trigger] pending@[j]),
            pending@.no_duplicates(),
        ensures
            final(self).inv(),
            final(self).inst() == old(self).inst(),
            final(self).machine_count() == old(self).machine_count(),
            forall|t: usize| #[trigger] final(self).is_free(t) == (old(self).is_free(t) && !pending@.contains(t)),
            final(self).plan() == place_each(old(self).inst(), old(self).plan(), machine as int, pending@),
    {
        let ghost pre = *self;
        let mut i: usize = 0;
        proof {
            assert(pending@.take(0) =~= Seq::<usize>::empty());
        }
        while i < pending.len()
            invariant
                self.inv(),
                self.inst() == pre.inst(),
                self.machine_count() == pre.machine_count(),
                machine < self.machine_count(),
                i <= pending@.len(),
                pending@.no_duplicates(),
                forall|j: int| i <= j < pending@.len() ==> self.is_free(#[trigger] pending@[j]),
                forall|t: usize| #[trigger] self.is_free(t) == (pre.is_free(t) && !pending@.take(i as int).contains(t)),
                self.plan() == place_each(pre.inst(), pre.plan(), machine as int, pending@.take(i as int)),
            decreases pending@.len() - i,
        {
            let task = pending[i];
            proof {
                assert(pending@.take(i + 1).drop_last() =~= pending@.take(i as int));
            }
            self.place_or_defer(task, machine);
            proof {
                assert(pending@.take(i + 1) =~= pending@.take(i as int).push(task));
                lemma_inserted(pending@.take(i as int), i as int, task);
                assert(pending@.take(i as int).insert(i as int, task) =~= pending@.take(i + 1));
            }
            i = i + 1;
        }
        proof {
            assert(pending@.take(i as int) =~= pending@);
        }
    }

    /// The machine that is free earliest, ties by id; None without machines.
    pub(crate) fn least_loaded(&self) -> (r: Option<usize>)
        requires
            self.inv(),
        ensures
            match r {
                Some(m) => m < self.machine_count() && forall|o: int|
                    0 <= o < self.machine_count() ==> self.free_time_of(m as int)
                        <= self.free_time_of(o) && (self.free_time_of(m as int)
                        == self.free_time_of(o) ==> m <= o),
                None => self.machine_count() == 0,
            },
            r matches Some(m) ==> m == least_upto(self.inst(), self.plan(), self.machine_count() as int),
    {
        if self.machines.len() == 0 {
            return None;
        }
        proof {
            self.lemma_free_same(0);
        }
        let mut best: usize = 0;
        let mut best_free = self.free_time(0);
        let mut m: usize = 1;
        while m < self.machines.len()
            invariant
                self.inv(),
                0 < m <= self.machine_count(),
                best < m,
                best_free == self.free_time_of(best as int),
                forall|o: int|
                    0 <= o < m ==> self.free_time_of(best as int) <= self.free_time_of(o) && (
                    self.free_time_of(best as int) == self.free_time_of(o) ==> best <= o),
                best == least_upto(self.inst(), self.plan(), m as int),
            decreases self.machine_count() - m,
        {
            let free = self.free_time(m);
            proof {
                self.lemma_free_same(m as int);
                self.lemma_free_same(best as int);
            }
            if free < best_free {
                best = m;
                best_free = free;
            }
            m = m + 1;
        }
        Some(best)
    }

    /// Sorts the tardy tasks by priority and places each on the machine that is free earliest;
    /// those that do not fit stay tardy.
    fn fix_tardy(&mut self)
        requires
            old(self).inv(),
        ensures
            final(self).inv(),
            final(self).inst() == old(self).inst(),
            final(self).machine_count() == old(self).machine_count(),
            forall|t: usize| #[trigger] final(self).is_free(t) == old(self).is_free(t),
            final(self).plan() == repaired_tardy(old(self).inst(), old(self).plan()),
    {
        let ghost pre = *self;
        let mut tasks: Vec<usize> = Vec::new();
        std::mem::swap(&mut tasks, &mut self.tardy_tasks);
        proof {
            assert forall|t: usize| pre.is_free(t) implies self.is_free(t) by {}
            assert forall|j: int| 0 <= j < tasks@.len() implies self.is_free(#[trigger] tasks@[j]) by {
                assert(pre.tardy_seq()[j] < pre.n());
            }
            assert forall|m: int, k: int|
                0 <= m < self.machine_count() && 0 <= k < self.machine(m).len() implies #[trigger]
                self.placed(m, k) by {
                assert(pre.placed(m, k));
            }
            assert forall|m: int, k: int|
                0 <= m < self.machine_count() && 0 <= k && k + 1 < self.machine(m).len() implies #[trigger]
                self.sequential(m, k) by {
                assert(pre.sequential(m, k));
            }
            assert forall|t: usize| t < self.n() implies #[trigger] self.located(t) by {
                assert(pre.located(t));
            }
            assert forall|t: usize, o: usize| t < self.n() && o < self.n() implies #[trigger]
            self.apart(t, o) by {
                assert(pre.apart(t, o));
            }
            assert forall|m: int| 0 <= m < self.machine_count() implies #[trigger] self.machine(m).no_duplicates() by {
                assert(pre.machine(m).no_duplicates());
            }
        }
        let sorted = sort_by_priority(self.instance, tasks);
        let ghost mid = *self;
        proof {
            self.lemma_plan();
            pre.lemma_plan();
            assert(self.plan().machines =~= pre.plan().machines);
            assert(self.plan() == Plan { slots: pre.plan().slots, machines: pre.plan().machines, tardy: Seq::empty() });
            assert(sorted@.take(0) =~= Seq::<usize>::empty());
            assert(tasks@ == pre.tardy_seq());
            assert forall|j: int| 0 <= j < sorted@.len() implies self.is_free(#[trigger] sorted@[j]) by {
                assert(sorted@.contains(sorted@[j]));
                let q = choose|q: int| 0 <= q < tasks@.len() && tasks@[q] == sorted@[j];
            }
        }
        let mut i: usize = 0;
        while i < sorted.len()
            invariant
                self.inv(),
                self.inst() == pre.inst(),
                self.machine_count() == pre.machine_count(),
                i <= sorted@.len(),
                sorted@.no_duplicates(),
                forall|j: int| i <= j < sorted@.len() ==> self.is_free(#[trigger] sorted@[j]),
                forall|t: usize| #[trigger] self.is_free(t) == (mid.is_free(t) && !sorted@.take(i as int).contains(t)),
                self.plan() == place_all(pre.inst(), mid.plan(), sorted@.take(i as int)),
            decreases sorted@.len() - i,
        {
            let task = sorted[i];
            proof {
                assert(sorted@.take(i + 1).drop_last() =~= sorted@.take(i as int));
                self.lemma_plan();
            }
            proof {
                assert(sorted@.take(i + 1) =~= sorted@.take(i as int).push(task));
                lemma_inserted(sorted@.take(i as int), i as int, task);
                assert(sorted@.take(i as int).insert(i as int, task) =~= sorted@.take(i + 1));
            }
            match self.least_loaded() {
                Some(machine) => {
                    self.place_or_defer(task, machine);
                },
                None => {
                    let ghost before = *self;
                    self.tardy(task);
                    proof {
                        Self::lemma_defer(before, *self, task);
                    }
                },
            }
            i = i + 1;
        }
        proof {
            assert(sorted@.take(i as int) =~= sorted@);
            assert forall|t: usize| #[trigger] self.is_free(t) == pre.is_free(t) by {
                if sorted@.contains(t) {
                    assert(tasks@.contains(t));
                    let j = choose|j: int| 0 <= j < tasks@.len() && tasks@[j] == t;
                    assert(pre.tardy_seq()[j] == t);
                    assert(pre.tardy_seq().contains(t));
                }
                if pre.tardy_seq().contains(t) {
                    assert(tasks@.contains(t));
                }
            }
        }
    }

    /// Puts a free task in place of the tardy task at index `j`, which becomes free.
    fn exchange_tardy(&mut self, j: usize, task: usize) -> (r: usize)
        requires
            old(self).inv(),
            old(self).is_free(task),
            j < old(self).tardy_seq().len(),
        ensures
            final(self).inv(),
            final(self).inst() == old(self).inst(),
            final(self).machine_count() == old(self).machine_count(),
            r == old(self).tardy_seq()[j as int],
            final(self).is_free(r),
            !final(self).is_free(task),
            final(self).plan() == with_tardy(old(self).plan(), old(self).tardy_seq().update(j as int, task)),
            forall|t: usize| t != task && t != r ==> final(self).is_free(t) == old(self).is_free(t),
    {
        let ghost pre = *self;
        let r = self.tardy_tasks[j];
        self.tardy_tasks.set(j, task);
        proof {
            self.lemma_plan();
            pre.lemma_plan();
            assert(self.plan().machines =~= pre.plan().machines);
            Self::lemma_tardy_frame(pre, *self);
            assert(self.tardy_seq()[j as int] == task);
            assert(pre.tardy_seq().contains(r));
            assert forall|t: usize| t != task implies self.tardy_seq().contains(t) == (
            pre.tardy_seq().contains(t) && t != r) by {
                if self.tardy_seq().contains(t) {
                    let q = choose|q: int| 0 <= q < self.tardy_seq().len() && self.tardy_seq()[q] == t;
                    assert(pre.tardy_seq()[q] == t);
                }
                if pre.tardy_seq().contains(t) && t != r {
                    let q = choose|q: int| 0 <= q < pre.tardy_seq().len() && pre.tardy_seq()[q] == t;
                    assert(self.tardy_seq()[q] == t);
                }
            }
            assert forall|a: int, b: int| 0 <= a < b < self.tardy_seq().len() implies self.tardy_seq()[a]
                != self.tardy_seq()[b] by {
                if a != j && b != j {
                    assert(pre.tardy_seq()[a] != pre.tardy_seq()[b]);
                } else if a == j {
                    assert(pre.tardy_seq().contains(pre.tardy_seq()[b]));
                } else {
                    assert(pre.tardy_seq().contains(pre.tardy_seq()[a]));
                }
            }
            assert forall|q: int|
                0 <= q < self.tardy_seq().len() implies #[trigger] self.tardy_seq()[q] < self.n()
                && self.slot(self.tardy_seq()[q] as int) is None by {
                if q != j {
                    assert(pre.tardy_seq()[q] == self.tardy_seq()[q]);
                }
            }
        }
        r
    }

    /// Takes the tardy task at index `j` out of the tardy list; it becomes free.
    fn take_tardy(&mut self, j: usize) -> (r: usize)
        requires
            old(self).inv(),
            j < old(self).tardy_seq().len(),
        ensures
            final(self).inv(),
            final(self).inst() == old(self).inst(),
            final(self).machine_count() == old(self).machine_count(),
            r == old(self).tardy_seq()[j as int],
            final(self).is_free(r),
            forall|t: usize| t != r ==> final(self).is_free(t) == old(self).is_free(t),
            final(self).plan() == with_tardy(old(self).plan(), old(self).tardy_seq().remove(j as int)),
    {
        let ghost pre = *self;
        let r = self.tardy_tasks.remove(j);
        proof {
            self.lemma_plan();
            pre.lemma_plan();
            assert(self.plan().machines =~= pre.plan().machines);
            Self::lemma_tardy_frame(pre, *self);
            let old_t = pre.tardy_seq();
            assert forall|t: usize| self.tardy_seq().contains(t) == (old_t.contains(t) && t != r) by {
                if self.tardy_seq().contains(t) {
                    let q = choose|q: int| 0 <= q < self.tardy_seq().len() && self.tardy_seq()[q] == t;
                    if q < j {
                        assert(old_t[q] == t);
                    } else {
                        assert(old_t[q + 1] == t);
                    }
                }
                if old_t.contains(t) && t != r {
                    let q = choose|q: int| 0 <= q < old_t.len() && old_t[q] == t;
                    if q < j {
                        assert(self.tardy_seq()[q] == t);
                    } else {
                        assert(self.tardy_seq()[q - 1] == t);
                    }
                }
            }
            assert forall|a: int, b: int| 0 <= a < b < self.tardy_seq().len() implies self.tardy_seq()[a]
                != self.tardy_seq()[b] by {
                let a2 = if a < j { a } else { a + 1 };
                let b2 = if b < j { b } else { b + 1 };
                assert(old_t[a2] != old_t[b2]);
            }
            assert forall|q: int|
                0 <= q < self.tardy_seq().len() implies #[trigger] self.tardy_seq()[q] < self.n()
                && self.slot(self.tardy_seq()[q] as int) is None by {
                if q < j {
                    assert(old_t[q] == self.tardy_seq()[q]);
                } else {
                    assert(old_t[q + 1] == self.tardy_seq()[q]);
                }
            }
        }
        r
    }

    /// The position of a task in a machine's sequence.
    fn position_of(&self, machine: usize, task: usize) -> (r: usize)
        requires
            machine < self.machine_count(),
            self.machine(machine as int).contains(task),
        ensures
            r < self.machine(machine as int).len(),
            self.machine(machine as int)[r as int] == task,
    {
        let mut k: usize = 0;
        while k < self.machines[machine].len()
            invariant
                machine < self.machine_count(),
                self.machine(machine as int).contains(task),
                k <= self.machine(machine as int).len(),
                forall|q: int| 0 <= q < k ==> self.machine(machine as int)[q] != task,
            decreases self.machine(machine as int).len() - k,
        {
            if self.machines[machine][k] == task {
                return k;
            }
            k = k + 1;
        }
        proof {
            let q = choose|q: int| 0 <= q < self.machine(machine as int).len() && self.machine(machine as int)[q] == task;
        }
        0
    }

    /// Whether the edit refers to existing machines, positions and tardy tasks.
    pub open spec fn applicable(&self, edit: Move) -> bool {
        match edit {
            Move::SwapSingle { machine, i, j } => machine < self.machine_count() && i < j
                < self.machine(machine as int).len(),
            Move::MoveSingle { machine, i, j } => machine < self.machine_count() && i
                < self.machine(machine as int).len() && j < self.machine(machine as int).len()
                && i != j,
            Move::SwapTwo { first, second, i, j } => first < self.machine_count() && second
                < self.machine_count() && first != second && i < self.machine(first as int).len()
                && j < self.machine(second as int).len(),
            Move::MoveTwo { first, second, i, j } => first < self.machine_count() && second
                < self.machine_count() && first != second && i < self.machine(first as int).len()
                && j <= self.machine(second as int).len(),
            Move::ReplaceWithTardy { machine, i, j } => machine < self.machine_count() && i
                < self.machine(machine as int).len() && j < self.tardy_seq().len(),
            Move::AddTardy { machine, i, j } => machine < self.machine_count() && i <= self.machine(
                machine as int,
            ).len() && j < self.tardy_seq().len(),
            Move::Relocate { task, machine, position } => task < self.n() && machine
                < self.machine_count(),
        }
    }

    /// Applies a structural edit to the machine sequences and the tardy list, then repairs the
    /// schedule: the slots of every edited suffix are cleared, each edited machine is re-derived
    /// from the first edited position on, and the tardy tasks are placed again where they fit.
    pub fn reorganize_schedule(&mut self, edit: Move)
        requires
            old(self).inv(),
            old(self).applicable(edit),
        ensures
            final(self).inv(),
            final(self).inst() == old(self).inst(),
            final(self).machine_count() == old(self).machine_count(),
            forall|t: usize| #[trigger]
                final(self).is_free(t) == (old(self).is_free(t) && !relocated(edit, t)),
            final(self).plan() == reorganized(old(self).inst(), old(self).plan(), edit),
    {
        let ghost f0 = *self;
        proof {
            f0.lemma_plan();
        }
        match edit {
            Move::SwapSingle { machine, i, j } => {
                let mut suffix = self.split_suffix(machine, i);
                let ghost f1 = *self;
                let last = j - i;
                let ghost s0 = suffix@;
                let a = suffix[0];
                let b = suffix[last];
                suffix.set(0, b);
                suffix.set(last, a);
                proof {
                    assert forall|q: int| 0 <= q < suffix@.len() implies self.is_free(#[trigger] suffix@[q]) by {
                        if q != 0 && q != last {
                            assert(suffix@[q] == s0[q]);
                        }
                    }
                    assert forall|x: int, y: int| 0 <= x < y < suffix@.len() implies suffix@[x] != suffix@[y] by {
                        let x2 = if x == 0 { last as int } else if x == last { 0 } else { x };
                        let y2 = if y == 0 { last as int } else if y == last { 0 } else { y };
                        assert(suffix@[x] == s0[x2] && suffix@[y] == s0[y2]);
                    }
                    assert forall|x: usize| suffix@.contains(x) == s0.contains(x) by {
                        if suffix@.contains(x) {
                            let q = choose|q: int| 0 <= q < suffix@.len() && suffix@[q] == x;
                            let q2 = if q == 0 { last as int } else if q == last { 0 } else { q };
                            assert(s0[q2] == x);
                        }
                        if s0.contains(x) {
                            let q = choose|q: int| 0 <= q < s0.len() && s0[q] == x;
                            let q2 = if q == 0 { last as int } else if q == last { 0 } else { q };
                            assert(suffix@[q2] == x);
                        }
                    }
                }
                let ghost placed = suffix@;
                self.fix_machine(machine, suffix);
                proof {
                    Self::lemma_conserved(f0, f1, *self, s0, placed);
                }
            },
            Move::MoveSingle { machine, i, j } => {
                let low = if i < j {
                    i
                } else {
                    j
                };
                let mut suffix = self.split_suffix(machine, low);
                let ghost f1 = *self;
                let ghost s0 = suffix@;
                let task = suffix.remove(i - low);
                let ghost s1 = suffix@;
                suffix.insert(j - low, task);
                proof {
                    lemma_removed(s0, (i - low) as int);
                    lemma_inserted(s1, (j - low) as int, task);
                    assert forall|q: int| 0 <= q < suffix@.len() implies self.is_free(#[trigger] suffix@[q]) by {
                        assert(suffix@.contains(suffix@[q]));
                        if suffix@[q] != task {
                            assert(s1.contains(suffix@[q]));
                        }
                        assert(s0.contains(suffix@[q]));
                    }
                    assert(s0[(i - low) as int] == task);
                    assert forall|x: usize| suffix@.contains(x) == s0.contains(x) by {
                        if x == task {
                            assert(s0.contains(task));
                        }
                    }
                }
                let ghost placed = suffix@;
                self.fix_machine(machine, suffix);
                proof {
                    Self::lemma_conserved(f0, f1, *self, s0, placed);
                }
            },
            Move::SwapTwo { first, second, i, j } => {
                let mut head = self.split_suffix(first, i);
                let ghost mid = *self;
                let mut tail = self.split_suffix(second, j);
                let ghost f2 = *self;
                proof {
                    Self::lemma_disjoint_from_machine(mid, head@, tail@, second as int, j as int);
                }
                let ghost h0 = head@;
                let ghost t0 = tail@;
                let a = head[0];
                let b = tail[0];
                head.set(0, b);
                tail.set(0, a);
                proof {
                    lemma_exchanged(h0, t0, head@, tail@);
                    self.lemma_all_free_from(h0, t0, head@);
                    self.lemma_all_free_from(h0, t0, tail@);
                }
                let ghost new_head = head@;
                let ghost new_tail = tail@;
                self.fix_machine(first, head);
                let ghost f3 = *self;
                self.fix_machine(second, tail);
                proof {
                    Self::lemma_conserved_two(f0, mid, f2, f3, *self, h0, t0, new_head, new_tail);
                }
            },
            Move::MoveTwo { first, second, i, j } => {
                let mut head = self.split_suffix(first, i);
                let ghost mid = *self;
                let mut tail = self.split_suffix(second, j);
                let ghost f2 = *self;
                proof {
                    Self::lemma_disjoint_from_machine(mid, head@, tail@, second as int, j as int);
                }
                let ghost h0 = head@;
                let task = head.remove(0);
                let ghost t0 = tail@;
                tail.insert(0, task);
                proof {
                    assert(h0.contains(h0[0]));
                    lemma_removed(h0, 0);
                    lemma_inserted(t0, 0, task);
                    assert forall|x: usize| head@.contains(x) implies !tail@.contains(x) by {
                        assert(h0.contains(x));
                    }
                    self.lemma_all_free_from(h0, t0, head@);
                    self.lemma_all_free_from(h0, t0, tail@);
                    assert forall|x: usize| (head@.contains(x) || tail@.contains(x)) == (h0.contains(x) || t0.contains(x)) by {
                        if x == task {
                            assert(h0.contains(task));
                        }
                    }
                }
                let ghost new_head = head@;
                let ghost new_tail = tail@;
                self.fix_machine(first, head);
                let ghost f3 = *self;
                self.fix_machine(second, tail);
                proof {
                    Self::lemma_conserved_two(f0, mid, f2, f3, *self, h0, t0, new_head, new_tail);
                }
            },
            Move::ReplaceWithTardy { machine, i, j } => {
                let mut suffix = self.split_suffix(machine, i);
                let a = suffix[0];
                let ghost s0 = suffix@;
                let ghost mid = *self;
                let b = self.exchange_tardy(j, a);
                let ghost f2 = *self;
                suffix.set(0, b);
                proof {
                    assert(mid.tardy_seq()[j as int] == b);
                    assert(mid.tardy_seq().contains(b));
                    assert forall|q: int| 0 <= q < suffix@.len() implies self.is_free(#[trigger] suffix@[q]) by {
                        if q > 0 {
                            assert(mid.is_free(s0[q]));
                            assert(s0[q] != a);
                        }
                    }
                    assert forall|x: int, y: int| 0 <= x < y < suffix@.len() implies suffix@[x] != suffix@[y] by {
                        if x > 0 {
                            assert(s0[x] != s0[y]);
                        } else {
                            assert(mid.is_free(s0[y]));
                        }
                    }
                }
                let ghost placed = suffix@;
                self.fix_machine(machine, suffix);
                proof {
                    assert(f0.tardy_seq().contains(b));
                    assert(s0.contains(a));
                    assert forall|t: usize| #[trigger] self.is_free(t) == f0.is_free(t) by {
                        assert(mid.is_free(t) == (f0.is_free(t) || s0.contains(t)));
                        if t != a && t != b {
                            assert(f2.is_free(t) == mid.is_free(t));
                            if placed.contains(t) {
                                let q = choose|q: int| 0 <= q < placed.len() && placed[q] == t;
                                assert(q > 0 && s0[q] == t);
                            }
                            if s0.contains(t) {
                                let q = choose|q: int| 0 <= q < s0.len() && s0[q] == t;
                                assert(!f0.is_free(s0[q]));
                                assert(q != 0);
                                assert(placed[q] == t);
                            }
                        } else if t == b {
                            assert(placed[0] == b);
                            assert(placed.contains(b));
                        } else {
                            assert(!f0.is_free(s0[0]));
                        }
                    }
                }
            },
            Move::AddTardy { machine, i, j } => {
                let mut suffix = self.split_suffix(machine, i);
                let ghost s0 = suffix@;
                let ghost mid = *self;
                let task = self.take_tardy(j);
                let ghost f2 = *self;
                suffix.insert(0, task);
                proof {
                    assert(mid.tardy_seq().contains(task));
                    assert(!s0.contains(task)) by {
                        if s0.contains(task) {
                            let q = choose|q: int| 0 <= q < s0.len() && s0[q] == task;
                            assert(mid.is_free(s0[q]));
                        }
                    }
                    lemma_inserted(s0, 0, task);
                    assert forall|q: int| 0 <= q < suffix@.len() implies self.is_free(#[trigger] suffix@[q]) by {
                        if q > 0 {
                            assert(suffix@[q] == s0[q - 1]);
                            assert(mid.is_free(s0[q - 1]));
                        }
                    }
                }
                let ghost placed = suffix@;
                self.fix_machine(machine, suffix);
                proof {
                    assert(f0.tardy_seq().contains(task));
                    assert forall|t: usize| #[trigger] self.is_free(t) == f0.is_free(t) by {
                        assert(mid.is_free(t) == (f0.is_free(t) || s0.contains(t)));
                        if t != task {
                            assert(f2.is_free(t) == mid.is_free(t));
                            if s0.contains(t) {
                                let q = choose|q: int| 0 <= q < s0.len() && s0[q] == t;
                                assert(!f0.is_free(s0[q]));
                            }
                        }
                    }
                }
            },
            Move::Relocate { task, machine, position } => {
                self.relocate(task, machine, position);
            },
        }
        let ghost before_tardy = self.plan();
        self.fix_tardy();
        proof {
            assert(before_tardy == edited(f0.inst(), f0.plan(), edit));
        }
    }

    /// Moves one task, scheduled or tardy, to a position of a machine, re-deriving the edited
    /// suffixes.
    fn relocate(&mut self, task: usize, machine: usize, position: usize)
        requires
            old(self).inv(),
            task < old(self).n(),
            machine < old(self).machine_count(),
        ensures
            final(self).inv(),
            final(self).inst() == old(self).inst(),
            final(self).machine_count() == old(self).machine_count(),
            forall|t: usize| #[trigger] final(self).is_free(t) == (old(self).is_free(t) && t != task),
            final(self).plan() == relocation_of(old(self).inst(), old(self).plan(), task, machine as int, position as int),
    {
        let ghost f0 = *self;
        proof {
            f0.lemma_plan();
        }
        match self.get_schedule(task) {
            Some(info) => {
                let from = info.processor;
                proof {
                    self.lemma_scheduled_on_time(task);
                    assert(self.located(task));
                }
                let pos = self.position_of(from, task);
                proof {
                    let p0 = f0.plan();
                    let c = choose|k: int| 0 <= k < p0.machines[from as int].len() && p0.machines[from as int][k] == task;
                    assert(f0.machine(from as int).no_duplicates());
                    assert(c == pos as int);
                }
                if from == machine {
                    let len = self.machines[from].len() - 1;
                    let target = if position < len {
                        position
                    } else {
                        len
                    };
                    let low = if target < pos {
                        target
                    } else {
                        pos
                    };
                    let mut suffix = self.split_suffix(from, low);
                    let ghost f1 = *self;
                    let ghost s0 = suffix@;
                    let moved = suffix.remove(pos - low);
                    let ghost s1 = suffix@;
                    suffix.insert(target - low, moved);
                    proof {
                        lemma_removed(s0, (pos - low) as int);
                        lemma_inserted(s1, (target - low) as int, moved);
                        assert forall|q: int| 0 <= q < suffix@.len() implies self.is_free(#[trigger] suffix@[q]) by {
                            assert(suffix@.contains(suffix@[q]));
                            if suffix@[q] != moved {
                                assert(s1.contains(suffix@[q]));
                            }
                            assert(s0.contains(suffix@[q]));
                        }
                        assert(s0[(pos - low) as int] == moved);
                        assert forall|x: usize| suffix@.contains(x) == s0.contains(x) by {
                            if x == moved {
                                assert(s0.contains(moved));
                            }
                        }
                    }
                    let ghost placed = suffix@;
                    self.fix_machine(from, suffix);
                    proof {
                        Self::lemma_conserved(f0, f1, *self, s0, placed);
                        assert(!f0.is_free(task));
                    }
                } else {
                    let mut head = self.split_suffix(from, pos);
                    let len = self.machines[machine].len();
                    let target = if position < len {
                        position
                    } else {
                        len
                    };
                    let ghost mid = *self;
                    let mut tail = self.split_suffix(machine, target);
                    let ghost f2 = *self;
                    proof {
                        Self::lemma_disjoint_from_machine(mid, head@, tail@, machine as int, target as int);
                    }
                    let ghost h0 = head@;
                    let moved = head.remove(0);
                    let ghost t0 = tail@;
                    tail.insert(0, moved);
                    proof {
                        assert(h0.contains(h0[0]));
                        lemma_removed(h0, 0);
                        lemma_inserted(t0, 0, moved);
                        assert forall|x: usize| head@.contains(x) implies !tail@.contains(x) by {
                            assert(h0.contains(x));
                        }
                        self.lemma_all_free_from(h0, t0, head@);
                        self.lemma_all_free_from(h0, t0, tail@);
                        assert forall|x: usize| (head@.contains(x) || tail@.contains(x)) == (h0.contains(x) || t0.contains(x)) by {
                            if x == moved {
                                assert(h0.contains(moved));
                            }
                        }
                    }
                    let ghost new_head = head@;
                    let ghost new_tail = tail@;
                    self.fix_machine(from, head);
                    let ghost f3 = *self;
                    self.fix_machine(machine, tail);
                    proof {
                        Self::lemma_conserved_two(f0, mid, f2, f3, *self, h0, t0, new_head, new_tail);
                        assert(!f0.is_free(task));
                    }
                }
            },
            None => {
                let mut k: usize = 0;
                let mut found = false;
                while k < self.tardy_tasks.len() && !found
                    invariant
                        self.inv(),
                        task < self.n(),
                        self.slot(task as int) is None,
                        k <= self.tardy_seq().len(),
                        forall|q: int| 0 <= q < k ==> self.tardy_seq()[q] != task,
                        found ==> k < self.tardy_seq().len() && self.tardy_seq()[k as int] == task,
                    decreases self.tardy_seq().len() - k + (if found { 0int } else { 1int }),
                {
                    if self.tardy_tasks[k] == task {
                        found = true;
                    } else {
                        k = k + 1;
                    }
                }
                if found {
                    self.take_tardy(k);
                    proof {
                        let c = choose|c: int| 0 <= c < f0.plan().tardy.len() && f0.plan().tardy[c] == task;
                        assert(f0.tardy_seq().no_duplicates());
                        assert(c == k as int);
                        assert(f0.plan().tardy.contains(task));
                    }
                } else {
                    proof {
                        assert(!f0.plan().tardy.contains(task)) by {
                            if f0.plan().tardy.contains(task) {
                                let c = choose|c: int| 0 <= c < f0.plan().tardy.len() && f0.plan().tardy[c] == task;
                            }
                        }
                    }
                }
                let ghost f1 = *self;
                proof {
                    assert forall|t: usize| #[trigger] f1.is_free(t) == (f0.is_free(t) || t == task) by {
                        if !found && t == task {
                            assert(!f0.tardy_seq().contains(task)) by {
                                if f0.tardy_seq().contains(task) {
                                    let q = choose|q: int| 0 <= q < f0.tardy_seq().len() && f0.tardy_seq()[q] == task;
                                }
                            }
                        }
                    }
                }
                proof {
                    assert(!self.tardy_seq().contains(task)) by {
                        if k >= self.tardy_seq().len() && self.tardy_seq().contains(task) {
                            let q = choose|q: int| 0 <= q < self.tardy_seq().len() && self.tardy_seq()[q] == task;
                        }
                    }
                }
                let len = self.machines[machine].len();
                let target = if position < len {
                    position
                } else {
                    len
                };
                let ghost mid = *self;
                let mut tail = self.split_suffix(machine, target);
                let ghost t0 = tail@;
                tail.insert(0, task);
                proof {
                    assert(mid.is_free(task));
                    assert(!t0.contains(task)) by {
                        if t0.contains(task) {
                            let q = choose|q: int| 0 <= q < t0.len() && t0[q] == task;
                            assert(mid.placed(machine as int, target + q));
                        }
                    }
                    lemma_inserted(t0, 0, task);
                    assert forall|q: int| 0 <= q < tail@.len() implies self.is_free(#[trigger] tail@[q]) by {
                        if q > 0 {
                            assert(tail@[q] == t0[q - 1]);
                        }
                    }
                }
                let ghost placed = tail@;
                self.fix_machine(machine, tail);
                proof {
                    assert forall|t: usize| #[trigger] self.is_free(t) == (f0.is_free(t) && t != task) by {
                        assert(mid.is_free(t) == f1.is_free(t));
                        if t0.contains(t) {
                            let q = choose|q: int| 0 <= q < t0.len() && t0[q] == t;
                            assert(!mid.is_free(t0[q]));
                        }
                    }
                }
            },
        }
    }

    /// Taking tasks off the machines and placing the same tasks again loses and adds none.
    proof fn lemma_conserved(f0: Self, f1: Self, f2: Self, taken: Seq<usize>, placed: Seq<usize>)
        requires
            forall|t: usize| #[trigger] f1.is_free(t) == (f0.is_free(t) || taken.contains(t)),
            forall|j: int| 0 <= j < taken.len() ==> !f0.is_free(#[trigger] taken[j]),
            forall|t: usize| #[trigger] f2.is_free(t) == (f1.is_free(t) && !placed.contains(t)),
            forall|x: usize| placed.contains(x) == taken.contains(x),
        ensures
            forall|t: usize| #[trigger] f2.is_free(t) == f0.is_free(t),
    {
        assert forall|t: usize| #[trigger] f2.is_free(t) == f0.is_free(t) by {
            assert(f1.is_free(t) == (f0.is_free(t) || taken.contains(t)));
            if taken.contains(t) {
                let k = choose|k: int| 0 <= k < taken.len() && taken[k] == t;
                assert(!f0.is_free(taken[k]));
            }
        }
    }

    /// The same, with tasks taken off two machines and placed on them again.
    proof fn lemma_conserved_two(
        f0: Self,
        f1: Self,
        f2: Self,
        f3: Self,
        f4: Self,
        head: Seq<usize>,
        tail: Seq<usize>,
        new_head: Seq<usize>,
        new_tail: Seq<usize>,
    )
        requires
            forall|t: usize| #[trigger] f1.is_free(t) == (f0.is_free(t) || head.contains(t)),
            forall|j: int| 0 <= j < head.len() ==> !f0.is_free(#[trigger] head[j]),
            forall|t: usize| #[trigger] f2.is_free(t) == (f1.is_free(t) || tail.contains(t)),
            forall|j: int| 0 <= j < tail.len() ==> !f1.is_free(#[trigger] tail[j]),
            forall|t: usize| #[trigger] f3.is_free(t) == (f2.is_free(t) && !new_head.contains(t)),
            forall|t: usize| #[trigger] f4.is_free(t) == (f3.is_free(t) && !new_tail.contains(t)),
            forall|x: usize|
                (new_head.contains(x) || new_tail.contains(x)) == (head.contains(x) || tail.contains(x)),
        ensures
            forall|t: usize| #[trigger] f4.is_free(t) == f0.is_free(t),
    {
        assert forall|t: usize| #[trigger] f4.is_free(t) == f0.is_free(t) by {
            assert(f3.is_free(t) == (f2.is_free(t) && !new_head.contains(t)));
            assert(f2.is_free(t) == (f1.is_free(t) || tail.contains(t)));
            assert(f1.is_free(t) == (f0.is_free(t) || head.contains(t)));
            if head.contains(t) {
                let k = choose|k: int| 0 <= k < head.len() && head[k] == t;
                assert(!f0.is_free(head[k]));
            }
            if tail.contains(t) {
                let k = choose|k: int| 0 <= k < tail.len() && tail[k] == t;
                assert(!f1.is_free(tail[k]));
            }
        }
    }

    /// Where only the tardy list changed, every other part of the invariant carries over.
    proof fn lemma_tardy_frame(pre: Self, post: Self)
        requires
            pre.inv(),
            post.schedule == pre.schedule,
            post.machines == pre.machines,
            post.instance == pre.instance,
            post.tardy_seq().no_duplicates(),
            forall|j: int|
                0 <= j < post.tardy_seq().len() ==> #[trigger] post.tardy_seq()[j] < post.n()
                    && post.slot(post.tardy_seq()[j] as int) is None,
        ensures
            post.inv(),
    {
        assert forall|m: int, k: int|
            0 <= m < post.machine_count() && 0 <= k < post.machine(m).len() implies #[trigger]
            post.placed(m, k) by {
            assert(pre.placed(m, k));
        }
        assert forall|m: int, k: int|
            0 <= m < post.machine_count() && 0 <= k && k + 1 < post.machine(m).len() implies #[trigger]
            post.sequential(m, k) by {
            assert(pre.sequential(m, k));
        }
        assert forall|t: usize| t < post.n() implies #[trigger] post.located(t) by {
            assert(pre.located(t));
        }
        assert forall|t: usize, o: usize| t < post.n() && o < post.n() implies #[trigger]
        post.apart(t, o) by {
            assert(pre.apart(t, o));
        }
        assert forall|m: int| 0 <= m < post.machine_count() implies #[trigger] post.machine(m).no_duplicates() by {
            assert(pre.machine(m).no_duplicates());
        }
    }

    /// Free tasks are not on any machine.
    proof fn lemma_disjoint_from_machine(
        mid: Self,
        head: Seq<usize>,
        tail: Seq<usize>,
        m: int,
        j: int,
    )
        requires
            mid.inv(),
            0 <= m < mid.machine_count(),
            0 <= j <= mid.machine(m).len(),
            tail == mid.machine(m).skip(j),
            forall|q: int| 0 <= q < head.len() ==> mid.is_free(#[trigger] head[q]),
        ensures
            forall|x: usize| head.contains(x) ==> !tail.contains(x),
    {
        assert forall|x: usize| head.contains(x) implies !tail.contains(x) by {
            let q = choose|q: int| 0 <= q < head.len() && head[q] == x;
            assert(mid.is_free(head[q]));
            if tail.contains(x) {
                let r = choose|r: int| 0 <= r < tail.len() && tail[r] == x;
                assert(mid.placed(m, j + r));
            }
        }
    }

    /// Every element of `v`, drawn from two sequences of free tasks, is free.
    proof fn lemma_all_free_from(&self, a: Seq<usize>, b: Seq<usize>, v: Seq<usize>)
        requires
            forall|q: int| 0 <= q < a.len() ==> self.is_free(#[trigger] a[q]),
            forall|q: int| 0 <= q < b.len() ==> self.is_free(#[trigger] b[q]),
            forall|x: usize| v.contains(x) ==> a.contains(x) || b.contains(x),
        ensures
            forall|q: int| 0 <= q < v.len() ==> self.is_free(#[trigger] v[q]),
    {
        assert forall|q: int| 0 <= q < v.len() implies self.is_free(#[trigger] v[q]) by {
            assert(v.contains(v[q]));
            if a.contains(v[q]) {
                let r = choose|r: int| 0 <= r < a.len() && a[r] == v[q];
            } else {
                let r = choose|r: int| 0 <= r < b.len() && b[r] == v[q];
            }
        }
    }

    /// Along a machine's sequence, each task starts after every earlier one ends.
    proof fn lemma_chain(&self, m: int, k1: int, k2: int)
        requires
            self.inv(),
            0 <= m < self.machine_count(),
            0 <= k1 < k2 < self.machine(m).len(),
        ensures
            self.end(self.machine(m)[k1] as int) <= self.start(self.machine(m)[k2] as int),
        decreases k2 - k1,
    {
        assert(self.sequential(m, k2 - 1));
        if k1 < k2 - 1 {
            self.lemma_chain(m, k1, k2 - 1);
            assert(self.placed(m, k2 - 1));
        }
    }

    /// The schedule of a builder is feasible.
    pub proof fn lemma_feasible(&self)
        requires
            self.inv(),
        ensures
            self.sched().feasible(),
    {
        let sc = self.sched();
        assert forall|t: int| 0 <= t < sc.slots().len() implies #[trigger] sc.processor_ok(t) by {
            if sc.slots()[t] is Some {
                self.lemma_scheduled_on_time(t as usize);
            }
        }
        assert forall|t: int| 0 <= t < sc.slots().len() && sc.slots()[t] is Some implies on_time(
            sc.inst(),
            t,
            #[trigger] sc.slots()[t]->0,
        ) by {
            self.lemma_scheduled_on_time(t as usize);
        }
        assert forall|a: int, b: int|
            0 <= a < sc.slots().len() && 0 <= b < sc.slots().len() && a != b implies #[trigger]
            sc.disjoint_pair(a, b) by {
            if sc.slots()[a] is Some && sc.slots()[b] is Some {
                assert(self.apart(a as usize, b as usize));
                if sc.slots()[a]->0.processor == sc.slots()[b]->0.processor {
                    assert(self.located(a as usize));
                    assert(self.located(b as usize));
                    let p = sc.slots()[a]->0.processor as int;
                    let ka = choose|k: int| 0 <= k < self.machine(p).len() && self.machine(p)[k] == a as usize;
                    let kb = choose|k: int| 0 <= k < self.machine(p).len() && self.machine(p)[k] == b as usize;
                    if ka < kb {
                        self.lemma_chain(p, ka, kb);
                    } else {
                        self.lemma_chain(p, kb, ka);
                    }
                }
            }
        }
    }

    /// Every task on a machine is scheduled; no task stands twice on the machines, nor both on a
    /// machine and among the tardy tasks.
    pub proof fn lemma_consistent(&self)
        requires
            self.inv(),
        ensures
            forall|m: int, k: int|
                0 <= m < self.machine_count() && 0 <= k < self.machine(m).len() ==> (#[trigger] self.slot(
                    self.machine(m)[k] as int,
                )) is Some,
            forall|m1: int, k1: int, m2: int, k2: int|
                0 <= m1 < self.machine_count() && 0 <= k1 < self.machine(m1).len() && 0 <= m2
                    < self.machine_count() && 0 <= k2 < self.machine(m2).len() && #[trigger] self.machine(m1)[k1]
                    == #[trigger] self.machine(m2)[k2] ==> m1 == m2 && k1 == k2,
            forall|m: int, k: int, j: int|
                0 <= m < self.machine_count() && 0 <= k < self.machine(m).len() && 0 <= j
                    < self.tardy_seq().len() ==> #[trigger] self.machine(m)[k] != #[trigger] self.tardy_seq()[j],
            self.tardy_seq().no_duplicates(),
    {
        assert forall|m: int, k: int|
            0 <= m < self.machine_count() && 0 <= k < self.machine(m).len() implies (#[trigger] self.slot(
                self.machine(m)[k] as int,
            )) is Some by {
            assert(self.placed(m, k));
        }
        assert forall|m1: int, k1: int, m2: int, k2: int|
            0 <= m1 < self.machine_count() && 0 <= k1 < self.machine(m1).len() && 0 <= m2
                < self.machine_count() && 0 <= k2 < self.machine(m2).len() && #[trigger] self.machine(m1)[k1]
                == #[trigger] self.machine(m2)[k2] implies m1 == m2 && k1 == k2 by {
            assert(self.placed(m1, k1));
            assert(self.placed(m2, k2));
            assert(self.machine(m1).no_duplicates());
        }
        assert forall|m: int, k: int, j: int|
            0 <= m < self.machine_count() && 0 <= k < self.machine(m).len() && 0 <= j
                < self.tardy_seq().len() implies #[trigger] self.machine(m)[k] != #[trigger] self.tardy_seq()[j] by {
            assert(self.placed(m, k));
        }
    }

    /// Finishes the builder, handing out its schedule.
    pub fn into_schedule(self) -> (r: Schedule<'a>)
        ensures
            r == self.sched(),
    {
        self.schedule
    }

    /// A machine's free time lies between 0 and the deadline.
    pub proof fn lemma_free_time_bounds(&self, m: int)
        requires
            self.inv(),
            0 <= m < self.machine_count(),
        ensures
            0 <= self.free_time_of(m) <= self.inst().deadline,
    {
        if self.machine(m).len() > 0 {
            assert(self.placed(m, self.machine(m).len() - 1));
        }
    }
}

} // verus!
