//! A model of builder states, and the repair steps as functions on it.

use crate::builder::{ranks_before, Move};
use crate::neighborhoods::{key_lt, move_key};
use crate::problem::Instance;
use crate::solution::{overlaps, score_upto, ScheduleInfo};
use vstd::prelude::*;

verus! {

/// A builder state: the slot of every task, the task sequence of every machine, and the tardy
/// tasks.
pub struct Plan {
    pub slots: Seq<Option<ScheduleInfo>>,
    pub machines: Seq<Seq<usize>>,
    pub tardy: Seq<usize>,
}

/// Processing time of a task.
pub open spec fn ptime(inst: Instance, t: int) -> int {
    inst.tasks@[t].processing_time as int
}

/// End time of a scheduled task.
pub open spec fn end_in(inst: Instance, slots: Seq<Option<ScheduleInfo>>, t: int) -> int {
    slots[t]->0.start_time + ptime(inst, t)
}

/// When machine `m` is next free: the end of its last task, or 0.
pub open spec fn free_in(inst: Instance, p: Plan, m: int) -> int {
    if p.machines[m].len() == 0 {
        0
    } else {
        end_in(inst, p.slots, p.machines[m].last() as int)
    }
}

/// Task `o` conflicts with `task` and is scheduled over `[start, start + p(task))`.
pub open spec fn clashes_in(
    inst: Instance,
    slots: Seq<Option<ScheduleInfo>>,
    task: usize,
    start: u64,
    o: usize,
) -> bool {
    &&& o < slots.len()
    &&& inst.graph.conflicted(task, o)
    &&& slots[o as int] is Some
    &&& overlaps(start as int, ptime(inst, task as int), slots[o as int]->0.start_time as int, ptime(inst, o as int))
}

/// Some task conflicting with `task` is scheduled over `[start, start + p(task))`.
pub open spec fn conflict_in(inst: Instance, slots: Seq<Option<ScheduleInfo>>, task: usize, start: u64) -> bool {
    exists|o: usize| #[trigger] clashes_in(inst, slots, task, start, o)
}

/// The end of task `o`, which conflicts with `task`, is a feasible start for `task` from `minimum`.
pub open spec fn candidate_from_in(
    inst: Instance,
    slots: Seq<Option<ScheduleInfo>>,
    task: usize,
    minimum: u64,
    o: usize,
) -> bool {
    &&& o < slots.len()
    &&& inst.graph.conflicted(task, o)
    &&& slots[o as int] is Some
    &&& end_in(inst, slots, o as int) >= minimum
    &&& end_in(inst, slots, o as int) + ptime(inst, task as int) <= inst.deadline
    &&& !conflict_in(inst, slots, task, end_in(inst, slots, o as int) as u64)
}

/// `t` is the end of a conflicting task and a feasible start for `task` from `minimum`.
pub open spec fn candidate_in(
    inst: Instance,
    slots: Seq<Option<ScheduleInfo>>,
    task: usize,
    minimum: u64,
    t: u64,
) -> bool {
    exists|o: usize| #[trigger] candidate_from_in(inst, slots, task, minimum, o) && end_in(inst, slots, o as int) == t
}

/// The earliest feasible start among the end times of the conflicting tasks, if any.
#[verifier::opaque]
pub open spec fn least_candidate(
    inst: Instance,
    slots: Seq<Option<ScheduleInfo>>,
    task: usize,
    minimum: u64,
) -> Option<u64> {
    if exists|t: u64| candidate_in(inst, slots, task, minimum, t) {
        Some(
            choose|t: u64|
                candidate_in(inst, slots, task, minimum, t) && forall|u: u64|
                    candidate_in(inst, slots, task, minimum, u) ==> t <= u,
        )
    } else {
        None
    }
}

/// The start a task gets from the free time of its machine: that free time where the task is
/// clear of conflicts there and ends by the deadline; where it is not clear, the earliest
/// feasible end of a conflicting task; none otherwise.
pub open spec fn start_for(inst: Instance, slots: Seq<Option<ScheduleInfo>>, task: usize, free: u64) -> Option<u64> {
    if conflict_in(inst, slots, task, free) {
        least_candidate(inst, slots, task, free)
    } else if free + ptime(inst, task as int) <= inst.deadline {
        Some(free)
    } else {
        None
    }
}

/// The plan with `task` appended to machine `m`, starting at `t`.
pub open spec fn put(p: Plan, task: usize, m: int, t: u64) -> Plan {
    Plan {
        slots: p.slots.update(task as int, Some(ScheduleInfo { processor: m as usize, start_time: t })),
        machines: p.machines.update(m, p.machines[m].push(task)),
        tardy: p.tardy,
    }
}

/// The plan with `task` made tardy.
pub open spec fn defer(p: Plan, task: usize) -> Plan {
    Plan { slots: p.slots, machines: p.machines, tardy: p.tardy.push(task) }
}

/// One repair step: `task` goes at the end of machine `m` at the start it gets there, or
/// becomes tardy.
pub open spec fn place(inst: Instance, p: Plan, task: usize, m: int) -> Plan {
    match start_for(inst, p.slots, task, free_in(inst, p, m) as u64) {
        Some(t) => put(p, task, m, t),
        None => defer(p, task),
    }
}

/// The pending tasks placed one after another on machine `m`.
pub open spec fn place_each(inst: Instance, p: Plan, m: int, pending: Seq<usize>) -> Plan
    decreases pending.len(),
{
    if pending.len() == 0 {
        p
    } else {
        place(inst, place_each(inst, p, m, pending.drop_last()), pending.last(), m)
    }
}

/// The machine among the first `k` that is free earliest, ties by id.
pub open spec fn least_upto(inst: Instance, p: Plan, k: int) -> int
    decreases k,
{
    if k <= 1 {
        0
    } else {
        let b = least_upto(inst, p, k - 1);
        if free_in(inst, p, k - 1) < free_in(inst, p, b) {
            k - 1
        } else {
            b
        }
    }
}

/// `task` placed on the machine that is free earliest, or tardy without machines.
pub open spec fn place_least(inst: Instance, p: Plan, task: usize) -> Plan {
    if p.machines.len() == 0 {
        defer(p, task)
    } else {
        place(inst, p, task, least_upto(inst, p, p.machines.len() as int))
    }
}

/// The tasks placed one after another, each on the machine that is free earliest.
pub open spec fn place_all(inst: Instance, p: Plan, tasks: Seq<usize>) -> Plan
    decreases tasks.len(),
{
    if tasks.len() == 0 {
        p
    } else {
        place_least(inst, place_all(inst, p, tasks.drop_last()), tasks.last())
    }
}

/// Where `x` goes in `s`: before the first task that it ranks before.
pub open spec fn first_after(inst: Instance, s: Seq<usize>, x: usize) -> nat
    decreases s.len(),
{
    if s.len() == 0 {
        0
    } else if ranks_before(inst, x, s[0]) {
        0
    } else {
        1 + first_after(inst, s.drop_first(), x)
    }
}

/// The tasks sorted by priority, by insertion in their order.
pub open spec fn priority_sorted(inst: Instance, s: Seq<usize>) -> Seq<usize>
    decreases s.len(),
{
    if s.len() == 0 {
        s
    } else {
        let r = priority_sorted(inst, s.drop_last());
        r.insert(first_after(inst, r, s.last()) as int, s.last())
    }
}

/// The tardy tasks, by priority, each placed on the machine that is free earliest.
pub open spec fn repaired_tardy(inst: Instance, p: Plan) -> Plan {
    place_all(
        inst,
        Plan { slots: p.slots, machines: p.machines, tardy: Seq::empty() },
        priority_sorted(inst, p.tardy),
    )
}

/// The task ids `0..n`.
pub open spec fn all_ids(n: nat) -> Seq<usize> {
    Seq::new(n, |i: int| i as usize)
}

/// Nothing scheduled, every machine empty, nothing tardy.
pub open spec fn empty_plan(inst: Instance) -> Plan {
    Plan {
        slots: Seq::new(inst.tasks@.len(), |i: int| None),
        machines: Seq::new(inst.processors as nat, |i: int| Seq::empty()),
        tardy: Seq::empty(),
    }
}

/// The starting schedule of the descent: all tasks by priority, each on the machine that is
/// free earliest.
pub open spec fn initial_plan(inst: Instance) -> Plan {
    place_all(inst, empty_plan(inst), priority_sorted(inst, all_ids(inst.tasks@.len())))
}

/// The least candidate is the one that no other candidate undercuts.
pub proof fn lemma_least_candidate(inst: Instance, slots: Seq<Option<ScheduleInfo>>, task: usize, minimum: u64, t: u64)
    requires
        candidate_in(inst, slots, task, minimum, t),
        forall|u: u64| candidate_in(inst, slots, task, minimum, u) ==> t <= u,
    ensures
        least_candidate(inst, slots, task, minimum) == Some(t),
{
    reveal(least_candidate);
    let c = choose|c: u64|
        candidate_in(inst, slots, task, minimum, c) && forall|u: u64|
            candidate_in(inst, slots, task, minimum, u) ==> c <= u;
    assert(c <= t && t <= c);
}

/// Without candidates there is no least one.
pub proof fn lemma_no_candidate(inst: Instance, slots: Seq<Option<ScheduleInfo>>, task: usize, minimum: u64)
    requires
        forall|u: u64| !candidate_in(inst, slots, task, minimum, u),
    ensures
        least_candidate(inst, slots, task, minimum) is None,
{
    reveal(least_candidate);
}

/// Among the first `k` machines, the one giving `task` the earliest feasible start at the end of
/// a conflicting task, from the machine's free time on; ties by free time, then id. With that
/// start.
pub open spec fn timed_upto(inst: Instance, p: Plan, task: usize, k: int) -> Option<(u64, int)>
    decreases k,
{
    if k <= 0 {
        None
    } else {
        let b = timed_upto(inst, p, task, k - 1);
        match least_candidate(inst, p.slots, task, free_in(inst, p, k - 1) as u64) {
            Some(t) => if b is None || t < (b->0).0 || (t == (b->0).0 && free_in(inst, p, k - 1) < free_in(
                inst,
                p,
                (b->0).1,
            )) {
                Some((t, k - 1))
            } else {
                b
            },
            None => b,
        }
    }
}

/// One step of list scheduling: the machine that is free earliest (ties by id) takes the task at
/// its free time if the task is clear of conflicts there and ends by the deadline; else the task
/// goes at the earliest feasible end of a conflicting task over all machines; else it stays
/// unscheduled.
pub open spec fn list_step(inst: Instance, p: Plan, task: usize) -> Plan {
    let n = p.machines.len() as int;
    let u = least_upto(inst, p, n);
    let f = free_in(inst, p, u);
    if n > 0 && !conflict_in(inst, p.slots, task, f as u64) && f + ptime(inst, task as int) <= inst.deadline {
        put(p, task, u, f as u64)
    } else {
        match timed_upto(inst, p, task, n) {
            Some((t, m)) => put(p, task, m, t),
            None => p,
        }
    }
}

/// The tasks scheduled one after another by list scheduling.
pub open spec fn list_all(inst: Instance, p: Plan, tasks: Seq<usize>) -> Plan
    decreases tasks.len(),
{
    if tasks.len() == 0 {
        p
    } else {
        list_step(inst, list_all(inst, p, tasks.drop_last()), tasks.last())
    }
}

/// The result of list scheduling: all tasks by priority, from the empty plan.
pub open spec fn list_plan(inst: Instance) -> Plan {
    list_all(inst, empty_plan(inst), priority_sorted(inst, all_ids(inst.tasks@.len())))
}

/// The slots with those of the given tasks cleared.
pub open spec fn cleared(slots: Seq<Option<ScheduleInfo>>, tasks: Seq<usize>) -> Seq<Option<ScheduleInfo>> {
    Seq::new(slots.len(), |i: int| if tasks.contains(i as usize) { None } else { slots[i] })
}

/// The plan with the tasks of machine `m` from position `idx` on taken off, their slots cleared.
pub open spec fn split_plan(p: Plan, m: int, idx: int) -> Plan {
    Plan {
        slots: cleared(p.slots, p.machines[m].skip(idx)),
        machines: p.machines.update(m, p.machines[m].take(idx)),
        tardy: p.tardy,
    }
}

/// The plan with a different tardy list.
pub open spec fn with_tardy(p: Plan, tardy: Seq<usize>) -> Plan {
    Plan { slots: p.slots, machines: p.machines, tardy }
}

/// The plan after an edit of the six neighborhoods and the repair of the edited machines, before
/// the tardy tasks are placed again.
pub open spec fn edited(inst: Instance, p: Plan, edit: Move) -> Plan {
    match edit {
        Move::SwapSingle { machine, i, j } => {
            let m = machine as int;
            let s = p.machines[m].skip(i as int);
            let d = j - i;
            place_each(inst, split_plan(p, m, i as int), m, s.update(0, s[d]).update(d, s[0]))
        },
        Move::MoveSingle { machine, i, j } => {
            let m = machine as int;
            let low = if i < j { i } else { j };
            let s = p.machines[m].skip(low as int);
            place_each(inst, split_plan(p, m, low as int), m, s.remove(i - low).insert(j - low, s[i - low]))
        },
        Move::SwapTwo { first, second, i, j } => {
            let h = p.machines[first as int].skip(i as int);
            let t = p.machines[second as int].skip(j as int);
            let q = split_plan(split_plan(p, first as int, i as int), second as int, j as int);
            place_each(inst, place_each(inst, q, first as int, h.update(0, t[0])), second as int, t.update(0, h[0]))
        },
        Move::MoveTwo { first, second, i, j } => {
            let h = p.machines[first as int].skip(i as int);
            let t = p.machines[second as int].skip(j as int);
            let q = split_plan(split_plan(p, first as int, i as int), second as int, j as int);
            place_each(inst, place_each(inst, q, first as int, h.remove(0)), second as int, t.insert(0, h[0]))
        },
        Move::ReplaceWithTardy { machine, i, j } => {
            let m = machine as int;
            let s = p.machines[m].skip(i as int);
            let q = split_plan(p, m, i as int);
            place_each(inst, with_tardy(q, q.tardy.update(j as int, s[0])), m, s.update(0, p.tardy[j as int]))
        },
        Move::AddTardy { machine, i, j } => {
            let m = machine as int;
            let s = p.machines[m].skip(i as int);
            let q = split_plan(p, m, i as int);
            place_each(inst, with_tardy(q, q.tardy.remove(j as int)), m, s.insert(0, p.tardy[j as int]))
        },
        Move::Relocate { task, machine, position } => relocation_of(inst, p, task, machine as int, position as int),
    }
}

/// Whether the edit refers to existing machines, positions and tardy tasks of the plan.
pub open spec fn applicable_in(inst: Instance, p: Plan, edit: Move) -> bool {
    match edit {
        Move::SwapSingle { machine, i, j } => machine < p.machines.len() && i < j < p.machines[machine as int].len(),
        Move::MoveSingle { machine, i, j } => machine < p.machines.len() && i < p.machines[machine as int].len()
            && j < p.machines[machine as int].len() && i != j,
        Move::SwapTwo { first, second, i, j } => first < p.machines.len() && second < p.machines.len() && first
            != second && i < p.machines[first as int].len() && j < p.machines[second as int].len(),
        Move::MoveTwo { first, second, i, j } => first < p.machines.len() && second < p.machines.len() && first
            != second && i < p.machines[first as int].len() && j <= p.machines[second as int].len(),
        Move::ReplaceWithTardy { machine, i, j } => machine < p.machines.len() && i < p.machines[machine as int].len()
            && j < p.tardy.len(),
        Move::AddTardy { machine, i, j } => machine < p.machines.len() && i <= p.machines[machine as int].len()
            && j < p.tardy.len(),
        Move::Relocate { task, machine, position } => task < inst.tasks@.len() && machine < p.machines.len(),
    }
}

/// The edits of neighborhood `k` of the plan, in strictly ascending order of their indices.
pub open spec fn lists_moves(inst: Instance, p: Plan, k: nat, s: Seq<Move>) -> bool {
    &&& forall|a: int, b: int| 0 <= a < b < s.len() ==> key_lt(move_key(#[trigger] s[a]), move_key(#[trigger] s[b]))
    &&& forall|e: Move| #[trigger] s.contains(e) <==> applicable_in(inst, p, e) && kind(e) == k
}

/// The edits of neighborhood `k` of the plan in generation order.
pub open spec fn moves_of(inst: Instance, p: Plan, k: nat) -> Seq<Move> {
    choose|s: Seq<Move>| lists_moves(inst, p, k, s)
}

proof fn lemma_key_lt_irreflexive(a: (int, int, int, int), b: (int, int, int, int))
    ensures
        !(key_lt(a, b) && key_lt(b, a)),
        !key_lt(a, a),
{
}

/// Two lists of one neighborhood's edits, both strictly ascending, are the same list.
pub proof fn lemma_lists_unique(inst: Instance, p: Plan, k: nat, s1: Seq<Move>, s2: Seq<Move>)
    requires
        lists_moves(inst, p, k, s1),
        lists_moves(inst, p, k, s2),
    ensures
        s1 == s2,
{
    assert forall|e: Move| #![trigger s1.contains(e)] #![trigger s2.contains(e)] s1.contains(e) <==> s2.contains(e) by {
        assert(s1.contains(e) == (applicable_in(inst, p, e) && kind(e) == k));
        assert(s2.contains(e) == (applicable_in(inst, p, e) && kind(e) == k));
    }
    lemma_tails_unique(s1, s2);
}

/// Two strictly ascending lists with the same members are the same list.
pub proof fn lemma_tails_unique(s1: Seq<Move>, s2: Seq<Move>)
    requires
        forall|a: int, b: int| 0 <= a < b < s1.len() ==> key_lt(move_key(#[trigger] s1[a]), move_key(#[trigger] s1[b])),
        forall|a: int, b: int| 0 <= a < b < s2.len() ==> key_lt(move_key(#[trigger] s2[a]), move_key(#[trigger] s2[b])),
        forall|e: Move| #![trigger s1.contains(e)] #![trigger s2.contains(e)] s1.contains(e) <==> s2.contains(e),
    ensures
        s1 == s2,
    decreases s1.len() + s2.len(),
{
    if s1.len() == 0 {
        if s2.len() > 0 {
            assert(s2.contains(s2[0]));
        }
        assert(s1 =~= s2);
    } else if s2.len() == 0 {
        assert(s1.contains(s1[0]));
    } else {
        assert(s1.contains(s1[0]));
        assert(s2.contains(s2[0]));
        let j = choose|j: int| 0 <= j < s2.len() && s2[j] == s1[0];
        let i = choose|i: int| 0 <= i < s1.len() && s1[i] == s2[0];
        if j > 0 {
            assert(key_lt(move_key(s2[0]), move_key(s2[j])));
            if i > 0 {
                assert(key_lt(move_key(s1[0]), move_key(s1[i])));
            }
        }
        assert(s1[0] == s2[0]);
        let t1 = s1.drop_first();
        let t2 = s2.drop_first();
        assert forall|a: int, b: int| 0 <= a < b < t1.len() implies key_lt(move_key(#[trigger] t1[a]), move_key(#[trigger] t1[b])) by {
            assert(t1[a] == s1[a + 1] && t1[b] == s1[b + 1]);
        }
        assert forall|a: int, b: int| 0 <= a < b < t2.len() implies key_lt(move_key(#[trigger] t2[a]), move_key(#[trigger] t2[b])) by {
            assert(t2[a] == s2[a + 1] && t2[b] == s2[b + 1]);
        }
        assert forall|e: Move| #![trigger t1.contains(e)] #![trigger t2.contains(e)] t1.contains(e) <==> t2.contains(e) by {
            if t1.contains(e) {
                let a = choose|a: int| 0 <= a < t1.len() && t1[a] == e;
                assert(s1[a + 1] == e);
                assert(key_lt(move_key(s1[0]), move_key(e)));
                assert(s1.contains(e));
                let b = choose|b: int| 0 <= b < s2.len() && s2[b] == e;
                if b == 0 {
                    lemma_key_lt_irreflexive(move_key(e), move_key(e));
                }
                assert(t2[b - 1] == e);
            }
            if t2.contains(e) {
                let a = choose|a: int| 0 <= a < t2.len() && t2[a] == e;
                assert(s2[a + 1] == e);
                assert(key_lt(move_key(s2[0]), move_key(e)));
                assert(s2.contains(e));
                let b = choose|b: int| 0 <= b < s1.len() && s1[b] == e;
                if b == 0 {
                    lemma_key_lt_irreflexive(move_key(e), move_key(e));
                }
                assert(t1[b - 1] == e);
            }
        }
        lemma_tails_unique(t1, t2);
        assert forall|x: int| 0 <= x < s1.len() implies s1[x] == s2[x] by {
            if x > 0 {
                assert(s1[x] == t1[x - 1]);
                assert(s2[x] == t2[x - 1]);
            }
        }
        assert(s1 =~= s2);
    }
}

/// The plan with `task` taken from wherever it is and inserted at `position` of machine `m`
/// (clamped to the sequence's length), the edited machines re-derived.
pub open spec fn relocation_of(inst: Instance, p: Plan, task: usize, m: int, position: int) -> Plan {
    match p.slots[task as int] {
        Some(info) => {
            let from = info.processor as int;
            let pos = choose|k: int| 0 <= k < p.machines[from].len() && p.machines[from][k] == task;
            if from == m {
                let len = p.machines[from].len() - 1;
                let target = if position < len { position } else { len };
                let low = if target < pos { target } else { pos };
                let s = p.machines[from].skip(low);
                place_each(inst, split_plan(p, from, low), from, s.remove(pos - low).insert(target - low, task))
            } else {
                let h = p.machines[from].skip(pos);
                let len = p.machines[m].len() as int;
                let target = if position < len { position } else { len };
                let t = p.machines[m].skip(target);
                let q = split_plan(split_plan(p, from, pos), m, target);
                place_each(inst, place_each(inst, q, from, h.remove(0)), m, t.insert(0, task))
            }
        },
        None => {
            let q1 = if p.tardy.contains(task) {
                with_tardy(p, p.tardy.remove(choose|k: int| 0 <= k < p.tardy.len() && p.tardy[k] == task))
            } else {
                p
            };
            let len = p.machines[m].len() as int;
            let target = if position < len { position } else { len };
            let t = p.machines[m].skip(target);
            place_each(inst, split_plan(q1, m, target), m, t.insert(0, task))
        },
    }
}

/// The plan after an edit of the six neighborhoods and the whole repair.
pub open spec fn reorganized(inst: Instance, p: Plan, edit: Move) -> Plan {
    repaired_tardy(inst, edited(inst, p, edit))
}

/// The score of a plan: total weight of the scheduled tasks that end by the deadline.
pub open spec fn plan_score(inst: Instance, p: Plan) -> nat {
    score_upto(inst, p.slots, p.slots.len() as int)
}

/// The neighborhood an edit belongs to, in the order of the descent; 6 for a relocation.
pub open spec fn kind(edit: Move) -> nat {
    match edit {
        Move::SwapSingle { .. } => 0,
        Move::MoveSingle { .. } => 1,
        Move::SwapTwo { .. } => 2,
        Move::MoveTwo { .. } => 3,
        Move::ReplaceWithTardy { .. } => 4,
        Move::AddTardy { .. } => 5,
        Move::Relocate { .. } => 6,
    }
}

/// Taking one more task off the end of a machine.
pub proof fn lemma_split_step(p: Plan, m: int, c: int)
    requires
        0 <= m < p.machines.len(),
        0 < c <= p.machines[m].len(),
        p.slots.len() <= usize::MAX,
        forall|k: int| 0 <= k < p.machines[m].len() ==> (#[trigger] p.machines[m][k]) < p.slots.len(),
    ensures
        split_plan(p, m, c - 1) == (Plan {
            slots: split_plan(p, m, c).slots.update(p.machines[m][c - 1] as int, None),
            machines: split_plan(p, m, c).machines.update(m, p.machines[m].take(c - 1)),
            tardy: p.tardy,
        }),
{
    let x = p.machines[m][c - 1];
    let a = p.machines[m].skip(c - 1);
    let b = p.machines[m].skip(c);
    assert forall|y: usize| a.contains(y) == (b.contains(y) || y == x) by {
        if a.contains(y) {
            let q = choose|q: int| 0 <= q < a.len() && a[q] == y;
            if q > 0 {
                assert(b[q - 1] == y);
            }
        }
        if b.contains(y) {
            let q = choose|q: int| 0 <= q < b.len() && b[q] == y;
            assert(a[q + 1] == y);
        }
        if y == x {
            assert(a[0] == x);
        }
    }
    assert(x < p.slots.len());
    assert forall|i: int| 0 <= i < p.slots.len() implies #[trigger] split_plan(p, m, c - 1).slots[i]
        == split_plan(p, m, c).slots.update(x as int, None)[i] by {
        assert(a.contains(i as usize) == (b.contains(i as usize) || i as usize == x));
        if i == x as int {
            assert(a.contains(x));
        }
    }
    assert(split_plan(p, m, c - 1).slots =~= split_plan(p, m, c).slots.update(x as int, None));
    assert(split_plan(p, m, c - 1).machines =~= split_plan(p, m, c).machines.update(m, p.machines[m].take(c - 1)));
}

/// Taking nothing off a machine changes nothing.
pub proof fn lemma_split_none(p: Plan, m: int)
    requires
        0 <= m < p.machines.len(),
    ensures
        split_plan(p, m, p.machines[m].len() as int) == p,
{
    let s = p.machines[m].skip(p.machines[m].len() as int);
    assert(s.len() == 0);
    assert(split_plan(p, m, p.machines[m].len() as int).slots =~= p.slots);
    assert(p.machines[m].take(p.machines[m].len() as int) =~= p.machines[m]);
    assert(split_plan(p, m, p.machines[m].len() as int).machines =~= p.machines);
}

proof fn lemma_first_after(inst: Instance, s: Seq<usize>, x: usize, pos: int)
    requires
        0 <= pos <= s.len(),
        forall|j: int| 0 <= j < pos ==> !ranks_before(inst, x, #[trigger] s[j]),
        pos == s.len() || ranks_before(inst, x, s[pos]),
    ensures
        first_after(inst, s, x) == pos,
    decreases pos,
{
    if pos > 0 {
        assert(!ranks_before(inst, x, s[0]));
        let t = s.drop_first();
        assert forall|j: int| 0 <= j < pos - 1 implies !ranks_before(inst, x, #[trigger] t[j]) by {
            assert(t[j] == s[j + 1]);
        }
        if pos < s.len() {
            assert(t[pos - 1] == s[pos]);
        }
        lemma_first_after(inst, t, x, pos - 1);
    }
}

/// Placing at `first_after` is where the sort inserts.
pub proof fn lemma_sorted_step(inst: Instance, s: Seq<usize>, x: usize, pos: int)
    requires
        0 <= pos <= s.len(),
        forall|j: int| 0 <= j < pos ==> !ranks_before(inst, x, #[trigger] s[j]),
        pos == s.len() || ranks_before(inst, x, s[pos]),
    ensures
        first_after(inst, s, x) == pos,
{
    lemma_first_after(inst, s, x, pos);
}

} // verus!
