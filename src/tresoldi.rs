//! Randomized multi-start construct-and-improve heuristic over a time-by-processor grid.

use crate::builder::TaskWithId;
use crate::problem::{Instance, Task};
use crate::rng::{entropy_rng, seeded_rng, shuffle_tasks};
use crate::solution::{on_time, overlaps, positive_times, Schedule, ScheduleInfo};
use ahash::HashMapExt;
use vstd::prelude::*;

verus! {

/// Number of restarts.
pub const ITERATIONS: usize = 10;

/// Upper bound on the improvement passes of one restart; the passes stop earlier, at a fixed
/// point.
pub const MAX_PASSES: u64 = 0xffff_ffff_ffff_ffff;

/// Where each placed task stands: its machine and start time.
type Placements = ahash::HashMap<usize, (usize, u64)>;

/// Relies on ahash's `HashMapExt::new`: a new map is empty.
#[verifier::external_body]
fn placements_new() -> (r: Placements)
    ensures
        r@.dom() == Set::<usize>::empty(),
{
    <Placements as HashMapExt>::new()
}

/// Relies on `HashMap::get`: the value under the key, if any.
#[verifier::external_body]
fn placements_get(m: &Placements, k: usize) -> (r: Option<(usize, u64)>)
    ensures
        r == (if m@.contains_key(k) {
            Some(m@[k])
        } else {
            None
        }),
{
    m.get(&k).copied()
}

/// Relies on `HashMap::insert`: the key now maps to the value.
#[verifier::external_body]
fn placements_insert(m: &mut Placements, k: usize, v: (usize, u64))
    ensures
        final(m)@ == old(m)@.insert(k, v),
{
    m.insert(k, v);
}

/// Relies on `HashMap::remove`: the key no longer maps to anything.
#[verifier::external_body]
fn placements_remove(m: &mut Placements, k: usize)
    ensures
        final(m)@ == old(m)@.remove(k),
{
    m.remove(&k);
}

/// Relies on `HashMap::iter`: every entry once, in an order that the map chooses.
#[verifier::external_body]
fn placements_entries(m: &Placements) -> (r: Vec<(usize, (usize, u64))>)
    ensures
        forall|j: int| 0 <= j < r@.len() ==> m@.contains_key(#[trigger] r@[j].0) && m@[r@[j].0] == r@[j].1,
        forall|k: usize| m@.contains_key(k) ==> exists|j: int| 0 <= j < r@.len() && #[trigger] r@[j].0 == k,
{
    m.iter().map(|(k, v)| (*k, *v)).collect()
}

/// No scheduled task occupies processor `m` at time `s`.
pub open spec fn idle(r: Schedule, m: usize, s: int) -> bool {
    forall|y: int|
        0 <= y < r.slots().len() && #[trigger] r.slots()[y] is Some && r.slots()[y]->0.processor == m
            ==> !(r.slots()[y]->0.start_time <= s < r.slots()[y]->0.start_time + r.ptime(y))
}

/// Task `x` could start on processor `m` at time `q`: it ends by the deadline, the processor is
/// idle from `q` over its whole run, and it overlaps no scheduled task that it conflicts with.
pub open spec fn could_start(r: Schedule, x: usize, m: usize, q: int) -> bool {
    &&& 0 <= q
    &&& q + r.ptime(x as int) <= r.inst().deadline
    &&& idle(r, m, q)
    &&& forall|s: int| q <= s < q + r.ptime(x as int) ==> #[trigger] idle(r, m, s)
    &&& !r.conflict_at(x, q as u64)
}

/// No unscheduled task could start anywhere: the fixed point of greedy insertion.
pub open spec fn greedy_maximal(r: Schedule) -> bool {
    forall|x: usize, m: usize, q: int|
        x < r.slots().len() && m < r.inst().processors && 0 <= q < r.inst().deadline && r.slots()[x as int] is None
            ==> !#[trigger] could_start(r, x, m, q)
}

/// Task `x` is preferred to task `y`: it weighs more, or as much and is shorter.
pub open spec fn better(inst: Instance, x: usize, y: usize) -> bool {
    inst.tasks@[x as int].weight > inst.tasks@[y as int].weight || (inst.tasks@[x as int].weight
        == inst.tasks@[y as int].weight && inst.tasks@[x as int].processing_time
        < inst.tasks@[y as int].processing_time)
}

/// Total weight of the tasks below `k` in `dom`.
pub open spec fn placed_weight(inst: Instance, dom: Set<usize>, k: int) -> int
    decreases k,
{
    if k <= 0 {
        0
    } else {
        placed_weight(inst, dom, k - 1) + if dom.contains((k - 1) as usize) {
            inst.tasks@[k - 1].weight as int
        } else {
            0
        }
    }
}

/// Total processing time of the tasks below `k` in `dom`.
pub open spec fn placed_time(inst: Instance, dom: Set<usize>, k: int) -> int
    decreases k,
{
    if k <= 0 {
        0
    } else {
        placed_time(inst, dom, k - 1) + if dom.contains((k - 1) as usize) {
            inst.tasks@[k - 1].processing_time as int
        } else {
            0
        }
    }
}

proof fn lemma_swap_sums(inst: Instance, dom: Set<usize>, x: usize, y: usize, k: int)
    requires
        x != y,
        dom.contains(y),
        !dom.contains(x),
        0 <= k <= usize::MAX,
    ensures
        placed_weight(inst, dom.remove(y).insert(x), k) == placed_weight(inst, dom, k) - (if y < k {
            inst.tasks@[y as int].weight as int
        } else {
            0
        }) + (if x < k {
            inst.tasks@[x as int].weight as int
        } else {
            0
        }),
        placed_time(inst, dom.remove(y).insert(x), k) == placed_time(inst, dom, k) - (if y < k {
            inst.tasks@[y as int].processing_time as int
        } else {
            0
        }) + (if x < k {
            inst.tasks@[x as int].processing_time as int
        } else {
            0
        }),
    decreases k,
{
    if k > 0 {
        lemma_swap_sums(inst, dom, x, y, k - 1);
    }
}

/// A construction over an explicit time-by-processor grid of cells.
struct GridBuilder<'a> {
    instance: &'a Instance,
    tasks: Vec<TaskWithId>,
    matrix: Vec<Vec<Option<usize>>>,
    scheduled: Placements,
}

impl<'a> GridBuilder<'a> {
    spec fn p(&self, x: usize) -> int {
        self.instance.tasks@[x as int].processing_time as int
    }

    spec fn cell(&self, s: int, m: int) -> Option<usize> {
        self.matrix@[s]@[m]
    }

    /// Task `x` is placed on machine `m` over time `s`.
    spec fn covers(&self, x: usize, m: int, s: int) -> bool {
        &&& self.scheduled@.contains_key(x)
        &&& self.scheduled@[x].0 == m
        &&& self.scheduled@[x].1 <= s < self.scheduled@[x].1 + self.p(x)
    }

    spec fn placement_ok(&self, x: usize) -> bool {
        self.scheduled@.contains_key(x) ==> {
            let (m, t) = self.scheduled@[x];
            &&& x < self.instance.tasks@.len()
            &&& m < self.instance.processors
            &&& t + self.p(x) <= self.instance.deadline
            &&& forall|s: int| t <= s < t + self.p(x) ==> #[trigger] self.cell(s, m as int) == Some(x)
        }
    }

    spec fn cell_ok(&self, s: int, m: int) -> bool {
        self.cell(s, m) matches Some(x) ==> self.covers(x, m, s)
    }

    spec fn apart(&self, x: usize, y: usize) -> bool {
        (self.scheduled@.contains_key(x) && self.scheduled@.contains_key(y) && x != y
            && self.instance.graph.conflicted(x, y)) ==> !overlaps(
            self.scheduled@[x].1 as int,
            self.p(x),
            self.scheduled@[y].1 as int,
            self.p(y),
        )
    }

    spec fn inv(&self) -> bool {
        &&& self.instance.wf()
        &&& self.matrix@.len() == self.instance.deadline
        &&& self.matrix@.len() <= usize::MAX
        &&& forall|s: int| 0 <= s < self.matrix@.len() ==> (#[trigger] self.matrix@[s])@.len() == self.instance.processors
        &&& forall|k: int| 0 <= k < self.tasks@.len() ==> {
            &&& (#[trigger] self.tasks@[k]).0 < self.instance.tasks@.len()
            &&& self.tasks@[k].1 == self.instance.tasks@[self.tasks@[k].0 as int]
        }
        &&& forall|x: usize| #[trigger] self.placement_ok(x)
        &&& forall|s: int, m: int|
            0 <= s < self.matrix@.len() && 0 <= m < self.instance.processors ==> #[trigger] self.cell_ok(s, m)
        &&& forall|x: usize, y: usize| #[trigger] self.apart(x, y)
    }

    /// Task `x` can start on machine `m` at `time`: its first cell is empty, all its cells lie in
    /// the grid and are empty, and it overlaps no placed task that it conflicts with.
    spec fn fits(&self, x: usize, time: int, m: int) -> bool {
        &&& self.cell(time, m) is None
        &&& time + self.p(x) <= self.matrix@.len()
        &&& forall|s: int| time <= s < time + self.p(x) ==> #[trigger] self.cell(s, m) is None
        &&& forall|o: usize|
            #![trigger self.scheduled@[o]]
            self.scheduled@.contains_key(o) && self.instance.graph.conflicted(x, o) ==> !overlaps(
                time,
                self.p(x),
                self.scheduled@[o].1 as int,
                self.p(o),
            )
    }

    /// Every task of the instance stands in the task order.
    spec fn all_listed(&self) -> bool {
        forall|x: usize| x < self.instance.tasks@.len() ==> #[trigger] self.listed_task(x)
    }

    /// Task `x` stands in the task order.
    spec fn listed_task(&self, x: usize) -> bool {
        exists|k: int| 0 <= k < self.tasks@.len() && #[trigger] self.tasks@[k].0 == x
    }

    proof fn lemma_listed_kept(g1: Self, g2: Self)
        requires
            g1.all_listed(),
            g2.tasks@ == g1.tasks@,
            g2.instance == g1.instance,
        ensures
            g2.all_listed(),
    {
        assert forall|x: usize| x < g2.instance.tasks@.len() implies #[trigger] g2.listed_task(x) by {
            assert(g1.listed_task(x));
            let k = choose|k: int| 0 <= k < g1.tasks@.len() && #[trigger] g1.tasks@[k].0 == x;
            assert(g2.tasks@[k].0 == x);
        }
    }

    proof fn lemma_maximal_kept(g1: Self, g2: Self)
        requires
            g1.maximal(),
            g2.tasks@ == g1.tasks@,
            g2.instance == g1.instance,
            g2.scheduled@ == g1.scheduled@,
            g2.matrix@ == g1.matrix@,
        ensures
            g2.maximal(),
    {
        assert forall|k: int, q: int, c: int|
            0 <= k < g2.tasks@.len() && 0 <= q < g2.matrix@.len() && 0 <= c < g2.instance.processors
                && !g2.scheduled@.contains_key(g2.tasks@[k].0) implies !#[trigger] g2.fits(g2.tasks@[k].0, q, c) by {
            let y = g2.tasks@[k].0;
            assert(!g1.fits(g1.tasks@[k].0, q, c));
            if g2.fits(y, q, c) {
                assert(g1.cell(q, c) == g2.cell(q, c));
                assert forall|s2: int| q <= s2 < q + g1.p(y) implies #[trigger] g1.cell(s2, c) is None by {
                    assert(g2.cell(s2, c) is None);
                    assert(g1.cell(s2, c) == g2.cell(s2, c));
                }
            }
        }
    }

    /// Placed weight and placed processing time of the grid.
    spec fn weight_of(&self) -> int {
        placed_weight(*self.instance, self.scheduled@.dom(), self.instance.tasks@.len() as int)
    }

    spec fn time_of(&self) -> int {
        placed_time(*self.instance, self.scheduled@.dom(), self.instance.tasks@.len() as int)
    }

    /// Unplaced task `x`, preferred to placed task `y`, fits in `y`'s slot: the cells it needs
    /// beyond `y`'s are in the grid and empty, and it is clear of its conflicts at `y`'s start.
    spec fn can_replace(&self, y: usize, x: usize) -> bool {
        &&& self.scheduled@.contains_key(y)
        &&& !self.scheduled@.contains_key(x)
        &&& x < self.instance.tasks@.len()
        &&& better(*self.instance, x, y)
        &&& (self.p(x) <= self.p(y) || ({
            let (m, t) = self.scheduled@[y];
            &&& t + self.p(x) <= self.matrix@.len()
            &&& forall|s: int| t + self.p(y) <= s < t + self.p(x) ==> #[trigger] self.cell(s, m as int) is None
        }))
        &&& forall|o: usize|
            #![trigger self.scheduled@[o]]
            self.scheduled@.contains_key(o) && self.instance.graph.conflicted(x, o) ==> !overlaps(
                self.scheduled@[y].1 as int,
                self.p(x),
                self.scheduled@[o].1 as int,
                self.p(o),
            )
    }

    /// Placed task `x` could move to processor `c` at `q`: a run of empty cells of its length
    /// starts at `q` (right after an occupied cell or at time 0) and it is clear of its conflicts
    /// there.
    spec fn earlier_window(&self, x: usize, c: int, q: int) -> bool {
        &&& 0 <= q
        &&& self.p(x) > 0
        &&& (q == 0 || self.cell(q - 1, c) is Some)
        &&& q + self.p(x) <= self.matrix@.len()
        &&& forall|s: int| q <= s < q + self.p(x) ==> #[trigger] self.cell(s, c) is None
        &&& forall|o: usize|
            #![trigger self.scheduled@[o]]
            self.scheduled@.contains_key(o) && self.instance.graph.conflicted(x, o) ==> !overlaps(
                q,
                self.p(x),
                self.scheduled@[o].1 as int,
                self.p(o),
            )
    }

    /// No unplaced task fits anywhere.
    spec fn maximal(&self) -> bool {
        forall|k: int, q: int, c: int|
            0 <= k < self.tasks@.len() && 0 <= q < self.matrix@.len() && 0 <= c < self.instance.processors
                && !self.scheduled@.contains_key(self.tasks@[k].0) ==> !#[trigger] self.fits(self.tasks@[k].0, q, c)
    }

    /// Placing a task keeps every other task from fitting where it did not fit before.
    proof fn lemma_still_blocked(g1: Self, g2: Self, x: usize, y: usize, q: int, c: int)
        requires
            g2.instance == g1.instance,
            g2.matrix@.len() == g1.matrix@.len(),
            !g1.scheduled@.contains_key(x),
            g2.scheduled@ == g1.scheduled@.insert(x, g2.scheduled@[x]),
            forall|q2: int, c2: int|
                0 <= q2 < g1.matrix@.len() && 0 <= c2 < g1.instance.processors && g1.cell(q2, c2) is Some
                    ==> #[trigger] g2.cell(q2, c2) is Some,
            0 <= q < g1.matrix@.len(),
            0 <= c < g1.instance.processors,
            !g1.fits(y, q, c),
        ensures
            !g2.fits(y, q, c),
    {
        if g2.fits(y, q, c) {
            assert forall|s: int| q <= s < q + g1.p(y) implies #[trigger] g1.cell(s, c) is None by {
                assert(g2.cell(s, c) is None);
            }
            assert forall|o: usize|
                #![trigger g1.scheduled@[o]]
                g1.scheduled@.contains_key(o) && g1.instance.graph.conflicted(y, o) implies !overlaps(
                    q,
                    g1.p(y),
                    g1.scheduled@[o].1 as int,
                    g1.p(o),
                ) by {
                assert(g2.scheduled@.contains_key(o) && g2.scheduled@[o] == g1.scheduled@[o]);
            }
        }
    }

    /// A grid for the instance with the tasks in a random order and nothing placed.
    fn random(instance: &'a Instance, rng: &mut rand::rngs::StdRng) -> (r: GridBuilder<'a>)
        requires
            instance.wf(),
            instance.deadline <= usize::MAX,
        ensures
            r.inv(),
            r.instance == instance,
            r.all_listed(),
    {
        let mut tasks: Vec<TaskWithId> = Vec::new();
        let mut i: usize = 0;
        while i < instance.tasks.len()
            invariant
                i <= instance.tasks@.len(),
                tasks@.len() == i,
                forall|k: int| 0 <= k < i ==> (#[trigger] tasks@[k]).0 == k && tasks@[k].1 == instance.tasks@[k],
            decreases instance.tasks@.len() - i,
        {
            tasks.push((i, instance.tasks[i]));
            i = i + 1;
        }
        let ghost before = tasks@;
        shuffle_tasks(rng, &mut tasks);
        proof {
            assert forall|k: int| 0 <= k < tasks@.len() implies {
                &&& (#[trigger] tasks@[k]).0 < instance.tasks@.len()
                &&& tasks@[k].1 == instance.tasks@[tasks@[k].0 as int]
            } by {
                broadcast use vstd::seq_lib::group_to_multiset_ensures;
                assert(tasks@.to_multiset().count(tasks@[k]) > 0);
                assert(before.to_multiset().count(tasks@[k]) > 0);
                assert(before.contains(tasks@[k]));
            }
        }
        let mut matrix: Vec<Vec<Option<usize>>> = Vec::new();
        let rows = instance.deadline as usize;
        let mut s: usize = 0;
        while s < rows
            invariant
                rows == instance.deadline,
                s <= rows,
                matrix@.len() == s,
                forall|q: int| 0 <= q < s ==> (#[trigger] matrix@[q])@.len() == instance.processors
                    && forall|m: int| 0 <= m < instance.processors ==> matrix@[q]@[m] is None,
            decreases rows - s,
        {
            let mut row: Vec<Option<usize>> = Vec::new();
            let mut m: usize = 0;
            while m < instance.processors
                invariant
                    m <= instance.processors,
                    row@.len() == m,
                    forall|q: int| 0 <= q < m ==> row@[q] is None,
                decreases instance.processors - m,
            {
                row.push(None);
                m = m + 1;
            }
            matrix.push(row);
            s = s + 1;
        }
        let r = GridBuilder { instance, tasks, matrix, scheduled: placements_new() };
        proof {
            assert forall|x: usize| x < instance.tasks@.len() implies #[trigger] r.listed_task(x) by {
                broadcast use vstd::seq_lib::group_to_multiset_ensures;
                let e = (x, instance.tasks@[x as int]);
                assert(before[x as int] == e);
                assert(before.contains(e));
                assert(before.to_multiset().count(e) > 0);
                assert(r.tasks@.to_multiset().count(e) > 0);
                assert(r.tasks@.contains(e));
                let k = choose|k: int| 0 <= k < r.tasks@.len() && r.tasks@[k] == e;
                assert(r.tasks@[k].0 == x);
            }
            assert forall|s: int, m: int|
                0 <= s < r.matrix@.len() && 0 <= m < r.instance.processors implies #[trigger] r.cell_ok(s, m) by {
                assert(r.matrix@[s]@[m] is None);
            }
        }
        r
    }

    fn placement(&self, x: usize) -> (r: Option<(usize, u64)>)
        ensures
            r == (if self.scheduled@.contains_key(x) {
                Some(self.scheduled@[x])
            } else {
                None
            }),
    {
        placements_get(&self.scheduled, x)
    }

    /// Whether the task fits on the machine from `time` on: within the grid, over empty cells.
    fn check_time(&self, time: u64, machine: usize, task: &TaskWithId) -> (r: bool)
        requires
            self.inv(),
            machine < self.instance.processors,
        ensures
            r == (time + task.1.processing_time <= self.matrix@.len() && forall|s: int|
                time <= s < time + task.1.processing_time ==> #[trigger] self.cell(s, machine as int) is None),
    {
        let len = self.matrix.len() as u64;
        if task.1.processing_time > len || time > len - task.1.processing_time {
            return false;
        }
        let end = time + task.1.processing_time;
        let mut instant = time;
        while instant < end
            invariant
                self.inv(),
                machine < self.instance.processors,
                time <= instant <= end,
                end == time + task.1.processing_time,
                end <= self.matrix@.len(),
                self.matrix@.len() <= usize::MAX,
                forall|s: int| time <= s < instant ==> #[trigger] self.cell(s, machine as int) is None,
            decreases end - instant,
        {
            if self.matrix[instant as usize][machine].is_some() {
                assert(self.cell(instant as int, machine as int) is Some);
                return false;
            }
            instant = instant + 1;
        }
        true
    }

    /// Whether the task, started at `time`, overlaps no placed task that it conflicts with.
    fn check_conflicts(&self, task: &TaskWithId, time: u64) -> (r: bool)
        requires
            self.inv(),
            task.0 < self.instance.tasks@.len(),
            task.1 == self.instance.tasks@[task.0 as int],
        ensures
            r == forall|o: usize|
                #![trigger self.scheduled@[o]]
                self.scheduled@.contains_key(o) && self.instance.graph.conflicted(task.0, o) ==> !overlaps(
                    time as int,
                    task.1.processing_time as int,
                    self.scheduled@[o].1 as int,
                    self.p(o),
                ),
    {
        let conflicts = self.instance.graph.conflicts(task.0);
        let mut k: usize = 0;
        while k < conflicts.len()
            invariant
                self.inv(),
                task.0 < self.instance.tasks@.len(),
                task.1 == self.instance.tasks@[task.0 as int],
                k <= conflicts@.len(),
                forall|b: usize| conflicts@.contains(b) <==> self.instance.graph.conflicted(task.0, b),
                forall|j: int|
                    0 <= j < k ==> {
                        let o = #[trigger] conflicts@[j];
                        self.scheduled@.contains_key(o) ==> !overlaps(
                            time as int,
                            task.1.processing_time as int,
                            self.scheduled@[o].1 as int,
                            self.p(o),
                        )
                    },
            decreases conflicts@.len() - k,
        {
            let other = conflicts[k];
            assert(conflicts@.contains(other));
            match self.placement(other) {
                Some((_, other_time)) => {
                    assert(self.placement_ok(other));
                    let other_task: Task = self.instance.tasks[other];
                    if (time as u128) < (other_time as u128) + (other_task.processing_time as u128)
                        && (other_time as u128) < (time as u128) + (task.1.processing_time as u128) {
                        return false;
                    }
                },
                None => {},
            }
            k = k + 1;
        }
        proof {
            assert forall|o: usize|
                #![trigger self.scheduled@[o]]
                self.scheduled@.contains_key(o) && self.instance.graph.conflicted(task.0, o) implies !overlaps(
                    time as int,
                    task.1.processing_time as int,
                    self.scheduled@[o].1 as int,
                    self.p(o),
                ) by {
                assert(conflicts@.contains(o));
                let j = choose|j: int| 0 <= j < conflicts@.len() && conflicts@[j] == o;
            }
        }
        true
    }

    /// Whether the cells that `new_task` needs beyond those of `task` are inside the grid and
    /// empty.
    fn check_hole(&self, task: &TaskWithId, new_task: &TaskWithId) -> (r: bool)
        requires
            self.inv(),
            self.scheduled@.contains_key(task.0),
            task.0 < self.instance.tasks@.len(),
            task.1 == self.instance.tasks@[task.0 as int],
        ensures
            r == (new_task.1.processing_time <= task.1.processing_time || ({
                let (m, t) = self.scheduled@[task.0];
                &&& t + new_task.1.processing_time <= self.matrix@.len()
                &&& forall|s: int|
                    t + task.1.processing_time <= s < t + new_task.1.processing_time ==> #[trigger] self.cell(s, m as int) is None
            })),
    {
        if task.1.processing_time >= new_task.1.processing_time {
            return true;
        }
        let (machine, time) = self.placement(task.0).unwrap();
        assert(self.placement_ok(task.0));
        let len = self.matrix.len() as u64;
        if new_task.1.processing_time > len || time > len - new_task.1.processing_time {
            return false;
        }
        let start = time + task.1.processing_time;
        let end = time + new_task.1.processing_time;
        let mut instant = start;
        while instant < end
            invariant
                self.inv(),
                machine < self.instance.processors,
                start <= instant <= end,
                start == time + task.1.processing_time,
                end == time + new_task.1.processing_time,
                self.scheduled@.contains_key(task.0),
                self.scheduled@[task.0] == (machine, time),
                end <= self.matrix@.len(),
                self.matrix@.len() <= usize::MAX,
                forall|s: int| start <= s < instant ==> #[trigger] self.cell(s, machine as int) is None,
            decreases end - instant,
        {
            if self.matrix[instant as usize][machine].is_some() {
                assert(self.cell(instant as int, machine as int) is Some);
                return false;
            }
            instant = instant + 1;
        }
        true
    }

    /// Places a task that is not placed on empty cells, clear of its conflicts.
    fn place(&mut self, x: usize, m: usize, t: u64)
        requires
            old(self).inv(),
            x < old(self).instance.tasks@.len(),
            !old(self).scheduled@.contains_key(x),
            m < old(self).instance.processors,
            t + old(self).p(x) <= old(self).instance.deadline,
            forall|s: int| t <= s < t + old(self).p(x) ==> #[trigger] old(self).cell(s, m as int) is None,
            forall|o: usize|
                #![trigger old(self).scheduled@[o]]
                old(self).scheduled@.contains_key(o) && old(self).instance.graph.conflicted(x, o)
                    ==> !overlaps(t as int, old(self).p(x), old(self).scheduled@[o].1 as int, old(self).p(o)),
        ensures
            final(self).inv(),
            final(self).instance == old(self).instance,
            final(self).tasks@ == old(self).tasks@,
            final(self).scheduled@ == old(self).scheduled@.insert(x, (m, t)),
            final(self).matrix@.len() == old(self).matrix@.len(),
            forall|q: int, c: int|
                0 <= q < old(self).matrix@.len() && 0 <= c < old(self).instance.processors
                    && old(self).cell(q, c) is Some ==> #[trigger] final(self).cell(q, c) is Some,
    {
        let ghost pre = *self;
        placements_insert(&mut self.scheduled, x, (m, t));
        let end = t + self.instance.tasks[x].processing_time;
        let mut s = t;
        while s < end
            invariant
                pre.inv(),
                self.instance == pre.instance,
                self.tasks@ == pre.tasks@,
                self.scheduled@ == pre.scheduled@.insert(x, (m, t)),
                m < self.instance.processors,
                t <= s <= end,
                end == t + pre.p(x),
                end <= self.instance.deadline,
                self.matrix@.len() == pre.matrix@.len(),
                self.matrix@.len() <= usize::MAX,
                forall|q: int| 0 <= q < self.matrix@.len() ==> (#[trigger] self.matrix@[q])@.len() == self.instance.processors,
                forall|q: int| t <= q < s ==> #[trigger] self.cell(q, m as int) == Some(x),
                forall|q: int, c: int|
                    0 <= q < self.matrix@.len() && 0 <= c < self.instance.processors && !(c == m && t <= q < s)
                        ==> #[trigger] self.cell(q, c) == pre.cell(q, c),
            decreases end - s,
        {
            let ghost before = *self;
            self.matrix[s as usize].set(m, Some(x));
            proof {
                assert(self.matrix@[s as int]@ == before.matrix@[s as int]@.update(m as int, Some(x)));
                assert forall|q: int, c: int|
                    0 <= q < self.matrix@.len() && 0 <= c < self.instance.processors && !(c == m && t <= q < s + 1)
                        implies #[trigger] self.cell(q, c) == pre.cell(q, c) by {
                    if q != s {
                        assert(self.matrix@[q] == before.matrix@[q]);
                    }
                    assert(self.cell(q, c) == before.cell(q, c));
                }
                assert forall|q: int| t <= q < s + 1 implies #[trigger] self.cell(q, m as int) == Some(x) by {
                    if q != s {
                        assert(self.matrix@[q] == before.matrix@[q]);
                        assert(self.cell(q, m as int) == before.cell(q, m as int));
                    }
                }
            }
            s = s + 1;
        }
        proof {
            pre.instance.graph.lemma_symmetric();
            assert forall|y: usize| #[trigger] self.placement_ok(y) by {
                assert(pre.placement_ok(y));
                if y != x && self.scheduled@.contains_key(y) {
                    let (my, ty) = self.scheduled@[y];
                    assert forall|q: int| ty <= q < ty + self.p(y) implies #[trigger] self.cell(q, my as int) == Some(y) by {
                        assert(pre.cell(q, my as int) == Some(y));
                        if my == m && t <= q < end {
                            assert(pre.cell(q, m as int) is None);
                        }
                    }
                }
            }
            assert forall|q: int, c: int|
                0 <= q < self.matrix@.len() && 0 <= c < self.instance.processors implies #[trigger] self.cell_ok(q, c) by {
                assert(pre.cell_ok(q, c));
            }
            assert forall|q: int, c: int|
                0 <= q < pre.matrix@.len() && 0 <= c < pre.instance.processors && pre.cell(q, c) is Some
                    implies #[trigger] self.cell(q, c) is Some by {
                if c == m && t <= q < end {
                    assert(pre.cell(q, m as int) is None);
                }
            }
            assert forall|a: usize, b: usize| #[trigger] self.apart(a, b) by {
                assert(pre.apart(a, b));
                if a == x && b != x && self.scheduled@.contains_key(b) && self.instance.graph.conflicted(a, b) {
                    assert(pre.scheduled@[b] == self.scheduled@[b]);
                }
                if b == x && a != x && self.scheduled@.contains_key(a) && self.instance.graph.conflicted(a, b) {
                    assert(self.instance.graph.conflicted(b, a));
                    assert(pre.scheduled@[a] == self.scheduled@[a]);
                }
            }
        }
    }

    /// Removes a placed task from the grid.
    fn unplace(&mut self, x: usize)
        requires
            old(self).inv(),
            old(self).scheduled@.contains_key(x),
        ensures
            final(self).inv(),
            final(self).instance == old(self).instance,
            final(self).tasks@ == old(self).tasks@,
            final(self).scheduled@ == old(self).scheduled@.remove(x),
            forall|q: int|
                old(self).scheduled@[x].1 <= q < old(self).scheduled@[x].1 + old(self).p(x)
                    ==> #[trigger] final(self).cell(q, old(self).scheduled@[x].0 as int) is None,
            forall|q: int, c: int|
                0 <= q < old(self).matrix@.len() && 0 <= c < old(self).instance.processors && !(c
                    == old(self).scheduled@[x].0 && old(self).scheduled@[x].1 <= q < old(
                    self,
                ).scheduled@[x].1 + old(self).p(x)) ==> #[trigger] final(self).cell(q, c) == old(self).cell(q, c),
            final(self).matrix@.len() == old(self).matrix@.len(),
    {
        let ghost pre = *self;
        let (m, t) = self.placement(x).unwrap();
        proof {
            assert(pre.placement_ok(x));
        }
        let end = t + self.instance.tasks[x].processing_time;
        let mut s = t;
        while s < end
            invariant
                pre.inv(),
                pre.scheduled@.contains_key(x),
                pre.scheduled@[x] == (m, t),
                self.instance == pre.instance,
                self.tasks@ == pre.tasks@,
                self.scheduled@ == pre.scheduled@,
                m < self.instance.processors,
                t <= s <= end,
                end == t + pre.p(x),
                end <= self.instance.deadline,
                self.matrix@.len() == pre.matrix@.len(),
                self.matrix@.len() <= usize::MAX,
                forall|q: int| 0 <= q < self.matrix@.len() ==> (#[trigger] self.matrix@[q])@.len() == self.instance.processors,
                forall|q: int| t <= q < s ==> #[trigger] self.cell(q, m as int) is None,
                forall|q: int, c: int|
                    0 <= q < self.matrix@.len() && 0 <= c < self.instance.processors && !(c == m && t <= q < s)
                        ==> #[trigger] self.cell(q, c) == pre.cell(q, c),
            decreases end - s,
        {
            let ghost before = *self;
            self.matrix[s as usize].set(m, None);
            proof {
                assert(self.matrix@[s as int]@ == before.matrix@[s as int]@.update(m as int, None));
                assert forall|q: int, c: int|
                    0 <= q < self.matrix@.len() && 0 <= c < self.instance.processors && !(c == m && t <= q < s + 1)
                        implies #[trigger] self.cell(q, c) == pre.cell(q, c) by {
                    if q != s {
                        assert(self.matrix@[q] == before.matrix@[q]);
                    }
                    assert(self.cell(q, c) == before.cell(q, c));
                }
                assert forall|q: int| t <= q < s + 1 implies #[trigger] self.cell(q, m as int) is None by {
                    if q != s {
                        assert(self.matrix@[q] == before.matrix@[q]);
                        assert(self.cell(q, m as int) == before.cell(q, m as int));
                    }
                }
            }
            s = s + 1;
        }
        let ghost cleared = *self;
        placements_remove(&mut self.scheduled, x);
        proof {
            assert(self.matrix == cleared.matrix);
            assert forall|q: int, c: int| #[trigger] self.cell(q, c) == cleared.cell(q, c) by {}
            assert forall|y: usize| #[trigger] self.placement_ok(y) by {
                assert(pre.placement_ok(y));
                if y != x && self.scheduled@.contains_key(y) {
                    let (my, ty) = self.scheduled@[y];
                    assert forall|q: int| ty <= q < ty + self.p(y) implies #[trigger] self.cell(q, my as int) == Some(y) by {
                        assert(pre.cell(q, my as int) == Some(y));
                        if my == m && t <= q < end {
                            assert(pre.cell(q, m as int) == Some(x));
                        }
                        assert(cleared.cell(q, my as int) == pre.cell(q, my as int));
                    }
                }
            }
            assert forall|q: int, c: int|
                0 <= q < self.matrix@.len() && 0 <= c < self.instance.processors implies #[trigger] self.cell_ok(q, c) by {
                assert(pre.cell_ok(q, c));
                if !(c == m && t <= q < end) {
                    assert(cleared.cell(q, c) == pre.cell(q, c));
                } else {
                    assert(cleared.cell(q, m as int) is None);
                }
            }
            assert forall|a: usize, b: usize| #[trigger] self.apart(a, b) by {
                assert(pre.apart(a, b));
            }
        }
    }

    /// Scans the empty cells, time first, then processor; places at each the first unplaced
    /// task, in the shuffled order, that fits there. Returns whether anything was placed.
    fn greedy_insert(&mut self) -> (change: bool)
        requires
            old(self).inv(),
        ensures
            final(self).inv(),
            final(self).instance == old(self).instance,
            final(self).tasks@ == old(self).tasks@,
            forall|x: usize|
                #[trigger] old(self).scheduled@.contains_key(x) ==> final(self).scheduled@.contains_key(x)
                    && final(self).scheduled@[x] == old(self).scheduled@[x],
            change == (final(self).scheduled@.dom() != old(self).scheduled@.dom()),
            positive_times(*final(self).instance) ==> final(self).maximal(),
    {
        let ghost pre = *self;
        let ghost mut added: usize = 0;
        let mut change = false;
        let rows = self.matrix.len();
        let processors = self.instance.processors;
        let mut time: usize = 0;
        while time < rows
            invariant
                self.inv(),
                self.instance == pre.instance,
                self.tasks@ == pre.tasks@,
                rows == self.matrix@.len(),
                processors == self.instance.processors,
                time <= rows,
                forall|x: usize|
                    #[trigger] pre.scheduled@.contains_key(x) ==> self.scheduled@.contains_key(x)
                        && self.scheduled@[x] == pre.scheduled@[x],
                !change ==> self.scheduled@ == pre.scheduled@,
                change ==> self.scheduled@.contains_key(added) && !pre.scheduled@.contains_key(added),
                positive_times(*self.instance) ==> forall|k: int, q: int, c: int|
                    0 <= k < self.tasks@.len() && 0 <= q < time && 0 <= c < processors
                        && !self.scheduled@.contains_key(self.tasks@[k].0) ==> !#[trigger] self.fits(self.tasks@[k].0, q, c),
            decreases rows - time,
        {
            let mut machine: usize = 0;
            while machine < processors
                invariant
                    self.inv(),
                    self.instance == pre.instance,
                    self.tasks@ == pre.tasks@,
                    rows == self.matrix@.len(),
                    processors == self.instance.processors,
                    time < rows,
                    machine <= processors,
                    forall|x: usize|
                        #[trigger] pre.scheduled@.contains_key(x) ==> self.scheduled@.contains_key(x)
                            && self.scheduled@[x] == pre.scheduled@[x],
                    !change ==> self.scheduled@ == pre.scheduled@,
                    change ==> self.scheduled@.contains_key(added) && !pre.scheduled@.contains_key(added),
                    positive_times(*self.instance) ==> forall|k: int, q: int, c: int|
                        0 <= k < self.tasks@.len() && 0 <= q <= time && 0 <= c < processors && (q < time
                            || c < machine) && !self.scheduled@.contains_key(self.tasks@[k].0)
                            ==> !#[trigger] self.fits(self.tasks@[k].0, q, c),
                decreases processors - machine,
            {
                if self.matrix[time][machine].is_none() {
                    let mut k: usize = 0;
                    let mut done = false;
                    while k < self.tasks.len() && !done
                        invariant
                            self.inv(),
                            self.instance == pre.instance,
                            self.tasks@ == pre.tasks@,
                            rows == self.matrix@.len(),
                            processors == self.instance.processors,
                            time < rows,
                            machine < processors,
                            k <= self.tasks@.len(),
                            forall|x: usize|
                                #[trigger] pre.scheduled@.contains_key(x) ==> self.scheduled@.contains_key(x)
                                    && self.scheduled@[x] == pre.scheduled@[x],
                            !change ==> self.scheduled@ == pre.scheduled@,
                            change ==> self.scheduled@.contains_key(added) && !pre.scheduled@.contains_key(added),
                            positive_times(*self.instance) ==> forall|k2: int, q: int, c: int|
                                0 <= k2 < self.tasks@.len() && 0 <= q <= time && 0 <= c < processors && (q
                                    < time || c < machine) && !self.scheduled@.contains_key(self.tasks@[k2].0)
                                    ==> !#[trigger] self.fits(self.tasks@[k2].0, q, c),
                            !done ==> self.cell(time as int, machine as int) is None,
                            !done ==> forall|k2: int|
                                0 <= k2 < k && !self.scheduled@.contains_key(self.tasks@[k2].0)
                                    ==> !#[trigger] self.fits(self.tasks@[k2].0, time as int, machine as int),
                            done && positive_times(*self.instance) ==> self.cell(time as int, machine as int) is Some,
                        decreases self.tasks@.len() - k + (if done { 0int } else { 1int }),
                    {
                        let task = self.tasks[k];
                        proof {
                            assert(self.tasks@[k as int] == task);
                        }
                        if self.placement(task.0).is_none() && self.check_time(
                            time as u64,
                            machine,
                            &task,
                        ) && self.check_conflicts(&task, time as u64) {
                            let ghost before = *self;
                            self.place(task.0, machine, time as u64);
                            proof {
                                added = task.0;
                                assert forall|k2: int, q: int, c: int|
                                    0 <= k2 < self.tasks@.len() && 0 <= q <= time && 0 <= c < processors && (q
                                        < time || c < machine) && !self.scheduled@.contains_key(self.tasks@[k2].0)
                                        && positive_times(*self.instance)
                                        implies !#[trigger] self.fits(self.tasks@[k2].0, q, c) by {
                                    assert(before.scheduled@.insert(task.0, (machine, time as u64)) == self.scheduled@);
                                    assert(!before.fits(before.tasks@[k2].0, q, c));
                                    Self::lemma_still_blocked(before, *self, task.0, self.tasks@[k2].0, q, c);
                                }
                                if positive_times(*self.instance) {
                                    assert(self.placement_ok(task.0));
                                    assert(self.p(task.0) > 0);
                                    assert(self.cell(time as int, machine as int) == Some(task.0));
                                }
                            }
                            change = true;
                            done = true;
                        } else {
                            k = k + 1;
                        }
                    }
                    proof {
                        if positive_times(*self.instance) {
                            assert forall|k2: int|
                                0 <= k2 < self.tasks@.len() && !self.scheduled@.contains_key(self.tasks@[k2].0)
                                implies !#[trigger] self.fits(self.tasks@[k2].0, time as int, machine as int) by {
                            }
                        }
                    }
                }
                machine = machine + 1;
            }
            time = time + 1;
        }
        proof {
            if change {
                assert(!pre.scheduled@.dom().contains(added));
                assert(self.scheduled@.dom().contains(added));
            }
        }
        change
    }

    /// Replaces each placed task by the first unplaced one, in the shuffled order, that weighs
    /// more, or as much and is shorter, and fits in its slot. Returns whether anything changed.
    fn local_search(&mut self) -> (change: bool)
        requires
            old(self).inv(),
            old(self).all_listed(),
        ensures
            final(self).inv(),
            final(self).instance == old(self).instance,
            final(self).tasks@ == old(self).tasks@,
            !change ==> final(self).scheduled@ == old(self).scheduled@ && final(self).matrix@ == old(self).matrix@,
            forall|x: usize|
                #[trigger] final(self).scheduled@.contains_key(x) ==> (old(self).scheduled@.contains_key(x)
                    && final(self).scheduled@[x] == old(self).scheduled@[x]) || exists|y: usize|
                    old(self).scheduled@.contains_key(y) && final(self).scheduled@[x] == old(self).scheduled@[y]
                        && #[trigger] better(*old(self).instance, x, y),
            final(self).weight_of() >= old(self).weight_of(),
            final(self).weight_of() == old(self).weight_of() ==> final(self).time_of() <= old(self).time_of(),
            change ==> final(self).weight_of() > old(self).weight_of() || final(self).time_of() < old(self).time_of(),
            change ==> final(self).scheduled@.dom() != old(self).scheduled@.dom(),
            !change ==> forall|y: usize, x: usize| !#[trigger] final(self).can_replace(y, x),
    {
        let ghost pre = *self;
        let n = self.instance.tasks.len();
        let mut change = false;
        let mut k: usize = 0;
        while k < self.tasks.len()
            invariant
                self.inv(),
                self.instance == pre.instance,
                self.tasks@ == pre.tasks@,
                n == self.instance.tasks@.len(),
                k <= self.tasks@.len(),
                pre.all_listed(),
                !change ==> self.scheduled@ == pre.scheduled@ && self.matrix@ == pre.matrix@,
                forall|x: usize|
                    #[trigger] self.scheduled@.contains_key(x) ==> (pre.scheduled@.contains_key(x)
                        && self.scheduled@[x] == pre.scheduled@[x]) || exists|y: usize|
                        pre.scheduled@.contains_key(y) && self.scheduled@[x] == pre.scheduled@[y]
                            && #[trigger] better(*pre.instance, x, y),
                self.weight_of() >= pre.weight_of(),
                self.weight_of() == pre.weight_of() ==> self.time_of() <= pre.time_of(),
                change ==> self.weight_of() > pre.weight_of() || self.time_of() < pre.time_of(),
                !change ==> forall|k2: int, q2: int|
                    0 <= k2 < k && 0 <= q2 < self.tasks@.len() ==> !#[trigger] self.can_replace(
                        self.tasks@[k2].0,
                        self.tasks@[q2].0,
                    ),
            decreases self.tasks@.len() - k,
        {
            let old_task = self.tasks[k];
            match self.placement(old_task.0) {
                Some((machine, time)) => {
                    let mut q: usize = 0;
                    let mut done = false;
                    while q < self.tasks.len() && !done
                        invariant
                            self.inv(),
                            self.instance == pre.instance,
                            self.tasks@ == pre.tasks@,
                            n == self.instance.tasks@.len(),
                            k < self.tasks@.len(),
                            old_task == self.tasks@[k as int],
                            !done ==> self.scheduled@.contains_key(old_task.0) && self.scheduled@[old_task.0]
                                == (machine, time),
                            q <= self.tasks@.len(),
                            !change ==> self.scheduled@ == pre.scheduled@ && self.matrix@ == pre.matrix@,
                            forall|x: usize|
                                #[trigger] self.scheduled@.contains_key(x) ==> (pre.scheduled@.contains_key(x)
                                    && self.scheduled@[x] == pre.scheduled@[x]) || exists|y: usize|
                                    pre.scheduled@.contains_key(y) && self.scheduled@[x] == pre.scheduled@[y]
                                        && #[trigger] better(*pre.instance, x, y),
                            self.weight_of() >= pre.weight_of(),
                            self.weight_of() == pre.weight_of() ==> self.time_of() <= pre.time_of(),
                            change ==> self.weight_of() > pre.weight_of() || self.time_of() < pre.time_of(),
                            !change ==> forall|k2: int, q2: int|
                                0 <= k2 < k && 0 <= q2 < self.tasks@.len() ==> !#[trigger] self.can_replace(
                                    self.tasks@[k2].0,
                                    self.tasks@[q2].0,
                                ),
                            !change && !done ==> forall|q2: int|
                                0 <= q2 < q ==> !#[trigger] self.can_replace(old_task.0, self.tasks@[q2].0),
                            done ==> change,
                        decreases self.tasks@.len() - q + (if done { 0int } else { 1int }),
                    {
                        let task = self.tasks[q];
                        proof {
                            assert(self.tasks@[q as int] == task);
                            assert(self.tasks@[k as int] == old_task);
                        }
                        let better_task = task.1.weight > old_task.1.weight || (task.1.weight
                            == old_task.1.weight && task.1.processing_time
                            < old_task.1.processing_time);
                        if self.placement(task.0).is_none() && better_task && self.check_hole(
                            &old_task,
                            &task,
                        ) && self.check_conflicts(&task, time) {
                            let ghost before = *self;
                            proof {
                                assert(self.placement_ok(old_task.0));
                                assert(self.placement_ok(task.0));
                                lemma_swap_sums(*self.instance, before.scheduled@.dom(), task.0, old_task.0, n as int);
                            }
                            self.unplace(old_task.0);
                            self.place(task.0, machine, time);
                            proof {
                                assert(self.scheduled@.dom() =~= before.scheduled@.dom().remove(old_task.0).insert(task.0));
                                assert(better(*pre.instance, task.0, old_task.0));
                                assert forall|x: usize|
                                    #[trigger] self.scheduled@.contains_key(x) implies (pre.scheduled@.contains_key(x)
                                        && self.scheduled@[x] == pre.scheduled@[x]) || exists|y: usize|
                                        pre.scheduled@.contains_key(y) && self.scheduled@[x] == pre.scheduled@[y]
                                            && #[trigger] better(*pre.instance, x, y) by {
                                    if x == task.0 {
                                        assert(before.scheduled@.contains_key(old_task.0));
                                        let z = old_task.0;
                                        if pre.scheduled@.contains_key(z) && before.scheduled@[z] == pre.scheduled@[z] {
                                            assert(better(*pre.instance, x, z));
                                        } else {
                                            let y = choose|y: usize|
                                                pre.scheduled@.contains_key(y) && before.scheduled@[z] == pre.scheduled@[y]
                                                    && #[trigger] better(*pre.instance, z, y);
                                            assert(better(*pre.instance, x, y));
                                        }
                                    } else {
                                        assert(before.scheduled@.contains_key(x));
                                        assert(self.scheduled@[x] == before.scheduled@[x]);
                                    }
                                }
                            }
                            change = true;
                            done = true;
                        } else {
                            q = q + 1;
                        }
                    }
                },
                None => {},
            }
            k = k + 1;
        }
        proof {
            if change && self.scheduled@.dom() == pre.scheduled@.dom() {
                assert(self.weight_of() == pre.weight_of());
            }
            if !change {
                assert forall|y: usize, x: usize| !#[trigger] self.can_replace(y, x) by {
                    if self.can_replace(y, x) {
                        assert(self.placement_ok(y));
                        assert(pre.listed_task(y));
                        assert(pre.listed_task(x));
                        let k2 = choose|k2: int| 0 <= k2 < pre.tasks@.len() && #[trigger] pre.tasks@[k2].0 == y;
                        let q2 = choose|q2: int| 0 <= q2 < pre.tasks@.len() && #[trigger] pre.tasks@[q2].0 == x;
                        assert(!self.can_replace(self.tasks@[k2].0, self.tasks@[q2].0));
                    }
                }
            }
        }
        change
    }

    /// Moves each placed task to the earliest run of empty cells, over all processors and
    /// before its current start, where it fits clear of its conflicts. Returns whether anything
    /// moved.
    fn compact(&mut self) -> (change: bool)
        requires
            old(self).inv(),
            old(self).all_listed(),
        ensures
            final(self).inv(),
            final(self).instance == old(self).instance,
            final(self).tasks@ == old(self).tasks@,
            final(self).scheduled@.dom() == old(self).scheduled@.dom(),
            forall|x: usize|
                #[trigger] old(self).scheduled@.contains_key(x) ==> final(self).scheduled@[x].1 <= old(
                    self,
                ).scheduled@[x].1,
            !change ==> final(self).scheduled@ == old(self).scheduled@ && final(self).matrix@ == old(self).matrix@,
            change ==> exists|x: usize|
                #[trigger] old(self).scheduled@.contains_key(x) && final(self).scheduled@[x].1 < old(
                    self,
                ).scheduled@[x].1,
            !change ==> forall|x: usize, c: int, q: int|
                final(self).scheduled@.contains_key(x) && 0 <= c < final(self).instance.processors && q
                    < final(self).scheduled@[x].1 ==> !#[trigger] final(self).earlier_window(x, c, q),
    {
        let ghost pre = *self;
        let ghost mut moved: usize = 0;
        let mut change = false;
        let processors = self.instance.processors;
        let mut k: usize = 0;
        while k < self.tasks.len()
            invariant
                self.inv(),
                self.instance == pre.instance,
                self.tasks@ == pre.tasks@,
                processors == self.instance.processors,
                k <= self.tasks@.len(),
                self.scheduled@.dom() == pre.scheduled@.dom(),
                forall|x: usize|
                    #[trigger] pre.scheduled@.contains_key(x) ==> self.scheduled@[x].1 <= pre.scheduled@[x].1,
                !change ==> self.scheduled@ == pre.scheduled@ && self.matrix@ == pre.matrix@,
                change ==> pre.scheduled@.contains_key(moved) && self.scheduled@[moved].1 < pre.scheduled@[moved].1,
                !change ==> forall|k2: int, c: int, q: int|
                    0 <= k2 < k && self.scheduled@.contains_key(self.tasks@[k2].0) && 0 <= c < processors && q
                        < self.scheduled@[self.tasks@[k2].0].1 ==> !#[trigger] self.earlier_window(self.tasks@[k2].0, c, q),
                pre.all_listed(),
            decreases self.tasks@.len() - k,
        {
            let task = self.tasks[k];
            match self.placement(task.0) {
                Some((machine, time)) => {
                    proof {
                        assert(self.placement_ok(task.0));
                    }
                    let p = task.1.processing_time;
                    let mut best_machine = machine;
                    let mut best_time = time;
                    let mut m: usize = 0;
                    while m < processors
                        invariant
                            self.inv(),
                            processors == self.instance.processors,
                            k < self.tasks@.len(),
                            task == self.tasks@[k as int],
                            p == self.p(task.0),
                            self.scheduled@.contains_key(task.0),
                            self.scheduled@[task.0] == (machine, time),
                            m <= processors,
                            best_time == time ==> forall|c: int, q: int|
                                0 <= c < m && q < time ==> !#[trigger] self.earlier_window(task.0, c, q),
                            best_time + p <= self.instance.deadline,
                            best_time <= time,
                            best_time < time ==> {
                                &&& best_machine < processors
                                &&& forall|s: int| best_time <= s < best_time + p ==> #[trigger] self.cell(s, best_machine as int) is None
                                &&& forall|o: usize|
                                    #![trigger self.scheduled@[o]]
                                    self.scheduled@.contains_key(o) && self.instance.graph.conflicted(task.0, o) ==> !overlaps(
                                        best_time as int,
                                        p as int,
                                        self.scheduled@[o].1 as int,
                                        self.p(o),
                                    )
                            },
                        decreases processors - m,
                    {
                        let mut free: u64 = 0;
                        let upper = if best_time + p > 0 {
                            best_time + p - 1
                        } else {
                            0
                        };
                        let mut instant: u64 = 0;
                        let ghost bound = best_time;
                        while instant < upper
                            invariant
                                upper == 0 || upper + 1 == bound + p,
                                bound <= time,
                                best_time <= bound,
                                self.inv(),
                                processors == self.instance.processors,
                                k < self.tasks@.len(),
                                task == self.tasks@[k as int],
                                p == self.p(task.0),
                                self.scheduled@.contains_key(task.0),
                                self.scheduled@[task.0] == (machine, time),
                                m < processors,
                                instant <= upper,
                                upper < self.instance.deadline || upper == 0,
                                free <= instant,
                                forall|s: int| instant - free <= s < instant ==> #[trigger] self.cell(s, m as int) is None,
                                instant - free == 0 || self.cell(instant - free - 1, m as int) is Some,
                                best_time == time ==> forall|c: int, q: int|
                                    0 <= c < m && q < time ==> !#[trigger] self.earlier_window(task.0, c, q),
                                best_time == time ==> forall|q: int|
                                    q + p <= instant ==> !#[trigger] self.earlier_window(task.0, m as int, q),
                                best_time + p <= self.instance.deadline,
                                best_time <= time,
                                best_time < time ==> {
                                    &&& best_machine < processors
                                    &&& forall|s: int| best_time <= s < best_time + p ==> #[trigger] self.cell(s, best_machine as int) is None
                                    &&& forall|o: usize|
                                        #![trigger self.scheduled@[o]]
                                        self.scheduled@.contains_key(o) && self.instance.graph.conflicted(task.0, o) ==> !overlaps(
                                            best_time as int,
                                            p as int,
                                            self.scheduled@[o].1 as int,
                                            self.p(o),
                                        )
                                },
                            decreases upper - instant,
                        {
                            let ghost old_free = free;
                            if self.matrix[instant as usize][m].is_none() {
                                free = free + 1;
                                if free == p {
                                    let start = instant + 1 - free;
                                    if self.check_conflicts(&task, start) {
                                        best_time = start;
                                        best_machine = m;
                                    }
                                }
                            } else {
                                free = 0;
                            }
                            proof {
                                if best_time == time {
                                    assert forall|q: int| q + p <= instant + 1 implies !#[trigger] self.earlier_window(task.0, m as int, q) by {
                                        if q + p == instant + 1 && self.earlier_window(task.0, m as int, q) {
                                            let r = instant - old_free;
                                            assert(self.cell(instant as int, m as int) is None);
                                            if q > r {
                                                assert(self.cell(q - 1, m as int) is None);
                                            } else if q < r {
                                                assert(self.cell(r - 1, m as int) is Some);
                                            }
                                        }
                                    }
                                }
                            }
                            instant = instant + 1;
                        }
                        proof {
                            if best_time == time {
                                assert forall|c: int, q: int|
                                    0 <= c < m + 1 && q < time implies !#[trigger] self.earlier_window(task.0, c, q) by {
                                    if c == m && self.earlier_window(task.0, c, q) {
                                        assert(q + p <= instant);
                                    }
                                }
                            }
                        }
                        m = m + 1;
                    }
                    if best_time < time {
                        let ghost before = *self;
                        self.unplace(task.0);
                        self.place(task.0, best_machine, best_time);
                        proof {
                            assert(self.scheduled@ == before.scheduled@.remove(task.0).insert(task.0, (best_machine, best_time)));
                            assert(self.scheduled@.dom() =~= before.scheduled@.dom());
                            if !change || moved == task.0 {
                                moved = task.0;
                            }
                        }
                        change = true;
                    }
                },
                None => {},
            }
            k = k + 1;
        }
        proof {
            if !change {
                assert forall|x: usize, c: int, q: int|
                    self.scheduled@.contains_key(x) && 0 <= c < self.instance.processors && q
                        < self.scheduled@[x].1 implies !#[trigger] self.earlier_window(x, c, q) by {
                    assert(self.placement_ok(x));
                    assert(pre.listed_task(x));
                    let k2 = choose|k2: int| 0 <= k2 < pre.tasks@.len() && #[trigger] pre.tasks@[k2].0 == x;
                    assert(self.tasks@[k2].0 == x);
                }
            }
        }
        change
    }

    /// The schedule of the placed tasks.
    fn into_schedule(self) -> (r: Schedule<'a>)
        requires
            self.inv(),
        ensures
            r.wf(),
            r.inst() == *self.instance,
            positive_times(*self.instance) ==> r.feasible(),
            self.maximal() && self.all_listed() ==> greedy_maximal(r),
    {
        let mut schedule = Schedule::new(self.instance);
        let entries = placements_entries(&self.scheduled);
        proof {
            assert forall|j: int| 0 <= j < entries@.len() implies (#[trigger] entries@[j]).0 < schedule.slots().len() by {
                assert(self.placement_ok(entries@[j].0));
            }
        }
        let mut i: usize = 0;
        while i < entries.len()
            invariant
                self.inv(),
                schedule.wf(),
                schedule.inst() == *self.instance,
                i <= entries@.len(),
                forall|j: int| 0 <= j < entries@.len() ==> self.scheduled@.contains_key(#[trigger] entries@[j].0) && self.scheduled@[entries@[j].0] == entries@[j].1,
                forall|t: int|
                    0 <= t < schedule.slots().len() ==> (#[trigger] schedule.slots()[t] matches Some(info)
                        ==> self.scheduled@.contains_key(t as usize) && self.scheduled@[t as usize] == (
                        info.processor,
                        info.start_time,
                    )),
                forall|j: int| 0 <= j < entries@.len() ==> (#[trigger] entries@[j]).0 < schedule.slots().len(),
                forall|j: int| 0 <= j < i ==> schedule.slots()[(#[trigger] entries@[j]).0 as int] is Some,
            decreases entries@.len() - i,
        {
            let (task, (machine, time)) = entries[i];
            proof {
                assert(self.placement_ok(task));
            }
            schedule.schedule(task, ScheduleInfo::new(time, machine));
            i = i + 1;
        }
        proof {
            let sc = schedule;
            assert forall|t: usize| self.scheduled@.contains_key(t) implies sc.slots()[t as int] is Some by {
                let j = choose|j: int| 0 <= j < entries@.len() && #[trigger] entries@[j].0 == t;
            }
            assert forall|t: int| 0 <= t < sc.slots().len() implies #[trigger] sc.processor_ok(t) by {
                if sc.slots()[t] is Some {
                    assert(self.placement_ok(t as usize));
                }
            }
            assert forall|t: int| 0 <= t < sc.slots().len() && sc.slots()[t] is Some implies on_time(
                sc.inst(),
                t,
                #[trigger] sc.slots()[t]->0,
            ) by {
                assert(self.placement_ok(t as usize));
            }
            if positive_times(*self.instance) {
                assert forall|a: int, b: int|
                    0 <= a < sc.slots().len() && 0 <= b < sc.slots().len() && a != b implies #[trigger]
                    sc.disjoint_pair(a, b) by {
                    if sc.slots()[a] is Some && sc.slots()[b] is Some {
                        let x = a as usize;
                        let y = b as usize;
                        assert(self.apart(x, y));
                        assert(self.placement_ok(x));
                        assert(self.placement_ok(y));
                        let (mx, tx) = self.scheduled@[x];
                        let (my, ty) = self.scheduled@[y];
                        if mx == my && overlaps(tx as int, self.p(x), ty as int, self.p(y)) {
                            assert(self.instance.tasks@[a].processing_time > 0);
                            assert(self.instance.tasks@[b].processing_time > 0);
                            let s = if tx < ty { ty as int } else { tx as int };
                            assert(self.cell(s, mx as int) == Some(x));
                            assert(self.cell(s, my as int) == Some(y));
                        }
                    }
                }
            }
        }
        proof {
            let sc = schedule;
            if self.maximal() && self.all_listed() {
                assert forall|t: usize| self.scheduled@.contains_key(t) implies sc.slots()[t as int] is Some by {
                    let j = choose|j: int| 0 <= j < entries@.len() && #[trigger] entries@[j].0 == t;
                }
                assert forall|x: usize, m: usize, q: int|
                    x < sc.slots().len() && m < sc.inst().processors && 0 <= q < sc.inst().deadline && sc.slots()[x as int] is None
                        implies !#[trigger] could_start(sc, x, m, q) by {
                    if could_start(sc, x, m, q) {
                        assert(!self.scheduled@.contains_key(x));
                        assert(self.listed_task(x));
                        let k = choose|k: int| 0 <= k < self.tasks@.len() && #[trigger] self.tasks@[k].0 == x;
                        assert forall|s: int| q <= s < q + self.p(x) || s == q implies #[trigger] self.cell(s, m as int) is None by {
                            assert(idle(sc, m, s));
                            if self.cell(s, m as int) is Some {
                                assert(self.cell_ok(s, m as int));
                                let y = self.cell(s, m as int)->0;
                                assert(self.placement_ok(y));
                                assert(sc.slots()[y as int] is Some);
                            }
                        }
                        assert forall|o: usize|
                            #![trigger self.scheduled@[o]]
                            self.scheduled@.contains_key(o) && self.instance.graph.conflicted(x, o) implies !overlaps(
                                q,
                                self.p(x),
                                self.scheduled@[o].1 as int,
                                self.p(o),
                            ) by {
                            assert(self.placement_ok(o));
                            assert(sc.slots()[o as int] is Some);
                            if overlaps(q, self.p(x), self.scheduled@[o].1 as int, self.p(o)) {
                                assert(sc.clashes(x, q as u64, o));
                            }
                        }
                        assert(self.fits(self.tasks@[k].0, q, m as int));
                    }
                }
            }
        }
        schedule
    }
}

} // verus!

verus! {

/// One restart: the tasks in a random order, then greedy insertion, local replacement and
/// compaction on a time-by-processor grid until none changes anything.
fn restart<'a>(instance: &'a Instance, rng: &mut rand::rngs::StdRng) -> (r: Schedule<'a>)
    requires
        instance.wf(),
        instance.deadline <= usize::MAX,
    ensures
        r.wf(),
        r.inst() == *instance,
        positive_times(*instance) ==> r.feasible() && greedy_maximal(r),
{
    let mut solution = GridBuilder::random(instance, rng);
    let mut change = true;
    let mut passes: u64 = 0;
    while change && passes < MAX_PASSES
        invariant
            solution.inv(),
            solution.instance == instance,
            solution.all_listed(),
            positive_times(*instance) && !change ==> solution.maximal(),
        decreases MAX_PASSES - passes,
    {
        let ghost start_it = solution;
        change = solution.greedy_insert();
        let ghost after_insert = solution;
        proof {
            GridBuilder::lemma_listed_kept(start_it, solution);
        }
        let replaced = solution.local_search();
        proof {
            GridBuilder::lemma_listed_kept(start_it, solution);
        }
        let compacted = solution.compact();
        proof {
            GridBuilder::lemma_listed_kept(start_it, solution);
            if !replaced && !compacted && positive_times(*instance) {
                GridBuilder::lemma_maximal_kept(after_insert, solution);
            }
        }
        change = change || replaced || compacted;
        passes = passes + 1;
    }
    if change {
        let ghost before_last = solution;
        solution.greedy_insert();
        proof {
            GridBuilder::lemma_listed_kept(before_last, solution);
        }
    }
    solution.into_schedule()
}

/// Randomized multi-start construct-and-improve heuristic with the given generator: each
/// restart shuffles the tasks and repeats greedy insertion, local replacement and compaction on
/// a time-by-processor grid until none changes anything; the schedule of the best restart by
/// score, the first among equals, is kept.
pub fn tresoldi_with_rng<'a>(instance: &'a Instance, rng: &mut rand::rngs::StdRng) -> (r: Schedule<'a>)
    requires
        instance.wf(),
        instance.deadline <= usize::MAX,
    ensures
        r.wf(),
        r.inst() == *instance,
        positive_times(*instance) ==> r.feasible(),
        positive_times(*instance) ==> greedy_maximal(r),
        positive_times(*instance) ==> r.valid(),
{
    let mut best = restart(instance, rng);
    let mut best_score = best.calculate_score();
    let mut iteration: usize = 1;
    while iteration < ITERATIONS
        invariant
            instance.wf(),
            instance.deadline <= usize::MAX,
            best.wf(),
            best.inst() == *instance,
            positive_times(*instance) ==> best.feasible() && greedy_maximal(best),
            best_score == best.score(),
            iteration <= ITERATIONS,
        decreases ITERATIONS - iteration,
    {
        let schedule = restart(instance, rng);
        let score = schedule.calculate_score();
        if score > best_score {
            best_score = score;
            best = schedule;
        }
        iteration = iteration + 1;
    }
    proof {
        if positive_times(*instance) {
            best.lemma_feasible_is_valid();
        }
    }
    best
}

/// The randomized heuristic with randomness that the seed fixes.
pub fn tresoldi_seeded(instance: &Instance, seed: u64) -> (r: Schedule)
    requires
        instance.wf(),
        instance.deadline <= usize::MAX,
    ensures
        r.wf(),
        r.inst() == *instance,
        positive_times(*instance) ==> r.feasible(),
        positive_times(*instance) ==> greedy_maximal(r),
        positive_times(*instance) ==> r.valid(),
{
    let mut rng = seeded_rng(seed);
    tresoldi_with_rng(instance, &mut rng)
}

/// The randomized heuristic seeded by the operating system.
pub fn tresoldi(instance: &Instance) -> (r: Schedule)
    requires
        instance.wf(),
        instance.deadline <= usize::MAX,
    ensures
        r.wf(),
        r.inst() == *instance,
        positive_times(*instance) ==> r.feasible(),
        positive_times(*instance) ==> greedy_maximal(r),
        positive_times(*instance) ==> r.valid(),
{
    let mut rng = entropy_rng();
    tresoldi_with_rng(instance, &mut rng)
}

} // verus!
