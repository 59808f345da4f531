//! Variable neighborhood descent and search.

use crate::builder::{Move, ScheduleBuilder};
use crate::list::priority_order;
use crate::neighborhoods::{
    add_tardy, move_single_machine, move_two_machines, replace_with_tardy, swap_single_machine,
    swap_two_machines,
};
use crate::neighborhoods::{key_lt, move_key};
use crate::plan::{applicable_in, lemma_lists_unique, lists_moves, moves_of, Plan, all_ids, empty_plan, initial_plan, kind, place_all, plan_score, priority_sorted, reorganized};
use crate::problem::{total_weight, Instance};
use crate::rng::{entropy_rng, random_below, seeded_rng};
use crate::solution::{positive_times, score_upto, Schedule};
use vstd::prelude::*;

verus! {

/// Number of neighborhoods that the descent cycles through.
pub const NEIGHBORHOODS: usize = 6;

/// Number of perturb-and-descend rounds.
pub const SHAKES: usize = 10;

/// The initial schedule: tasks by priority, each on the machine that is free earliest, at its
/// free time or at the earliest feasible end of a conflicting task; tardy where neither fits.
pub fn schedule(instance: &Instance) -> (r: ScheduleBuilder)
    requires
        instance.wf(),
    ensures
        r.inv(),
        r.inst() == *instance,
        forall|t: usize| t < instance.tasks@.len() ==> !#[trigger] r.is_free(t),
        r.plan() == initial_plan(*instance),
{
    let mut builder = ScheduleBuilder::new(instance);
    let tasks = priority_order(instance);
    proof {
        assert(tasks@.take(0) =~= Seq::<usize>::empty());
    }
    let mut i: usize = 0;
    while i < tasks.len()
        invariant
            builder.inv(),
            builder.inst() == *instance,
            i <= tasks@.len(),
            tasks@.no_duplicates(),
            forall|j: int| 0 <= j < tasks@.len() ==> #[trigger] tasks@[j] < instance.tasks@.len(),
            forall|j: int| i <= j < tasks@.len() ==> builder.is_free(#[trigger] tasks@[j]),
            forall|t: usize| #[trigger] tasks@.take(i as int).contains(t) ==> !builder.is_free(t),
            forall|t: usize| #[trigger] tasks@.contains(t) <==> t < instance.tasks@.len(),
            builder.plan() == place_all(*instance, empty_plan(*instance), tasks@.take(i as int)),
            tasks@ == priority_sorted(*instance, all_ids(instance.tasks@.len())),
        decreases tasks@.len() - i,
    {
        let id = tasks[i];
        let ghost before = builder;
        proof {
            assert(tasks@.take(i + 1) =~= tasks@.take(i as int).push(id));
            assert(tasks@.take(i + 1).drop_last() =~= tasks@.take(i as int));
            builder.lemma_plan();
        }
        match builder.least_loaded() {
            Some(machine) => {
                builder.place_or_defer(id, machine);
            },
            None => {
                builder.tardy(id);
                proof {
                    builder.lemma_plan();
                    before.lemma_plan();
                    assert(builder.plan().machines =~= before.plan().machines);
                }
            },
        }
        proof {
            let prefix = tasks@.take(i as int);
            let next = tasks@.take(i + 1);
            assert forall|t: usize| #[trigger] next.contains(t) implies !builder.is_free(t) by {
                if t != id {
                    let q = choose|q: int| 0 <= q < next.len() && next[q] == t;
                    assert(prefix[q] == t);
                    assert(prefix.contains(t));
                    assert(!before.is_free(t));
                }
            }
        }
        i = i + 1;
    }
    proof {
        assert(tasks@.take(i as int) =~= tasks@);
        assert forall|t: usize| t < instance.tasks@.len() implies !#[trigger] builder.is_free(t) by {
            assert(tasks@.contains(t));
            assert(tasks@.take(i as int).contains(t));
        }
    }
    builder
}

/// Applying the edit scores higher than the plan.
pub open spec fn improves(inst: Instance, p: Plan, e: Move) -> bool {
    plan_score(inst, reorganized(inst, p, e)) > plan_score(inst, p)
}

/// The first edit of the list that improves the plan, if any.
pub open spec fn first_improving(inst: Instance, p: Plan, s: Seq<Move>) -> Option<Move>
    decreases s.len(),
{
    if s.len() == 0 {
        None
    } else if improves(inst, p, s[0]) {
        Some(s[0])
    } else {
        first_improving(inst, p, s.drop_first())
    }
}

/// How far the plan's score is below the total weight, plus one; 0 above it.
pub open spec fn headroom(inst: Instance, p: Plan) -> nat {
    if plan_score(inst, p) <= total_weight(inst.tasks@) {
        (total_weight(inst.tasks@) + 1 - plan_score(inst, p)) as nat
    } else {
        0
    }
}

/// Variable neighborhood descent from neighborhood `k` on: adopt the first improving edit of
/// the neighborhood, in generation order, and start over from the first neighborhood; else go
/// to the next one; stop after the last.
pub open spec fn vnd(inst: Instance, p: Plan, k: nat) -> Plan
    decreases headroom(inst, p), 6 - k,
{
    if k >= 6 || plan_score(inst, p) > total_weight(inst.tasks@) {
        p
    } else {
        match first_improving(inst, p, moves_of(inst, p, k)) {
            Some(e) => if improves(inst, p, e) {
                vnd(inst, reorganized(inst, p, e), 0)
            } else {
                p
            },
            None => vnd(inst, p, k + 1),
        }
    }
}

proof fn lemma_listed_exactly(b: ScheduleBuilder, k: usize, s: Seq<Move>)
    requires
        k < NEIGHBORHOODS,
        forall|q: int| 0 <= q < s.len() ==> b.applicable(#[trigger] s[q]) && kind(s[q]) == k,
        forall|e: Move| #[trigger] b.applicable(e) && kind(e) == k ==> s.contains(e),
        forall|x: int, y: int| 0 <= x < y < s.len() ==> key_lt(move_key(#[trigger] s[x]), move_key(#[trigger] s[y])),
    ensures
        s == moves_of(b.inst(), b.plan(), k as nat),
{
    let inst = b.inst();
    let p = b.plan();
    b.lemma_applicable_same();
    assert forall|e: Move| #[trigger] s.contains(e) <==> applicable_in(inst, p, e) && kind(e) == k by {
        if s.contains(e) {
            let q = choose|q: int| 0 <= q < s.len() && s[q] == e;
            assert(b.applicable(s[q]));
        }
        if applicable_in(inst, p, e) && kind(e) == k {
            assert(b.applicable(e));
        }
    }
    assert(lists_moves(inst, p, k as nat, s));
    let c = moves_of(inst, p, k as nat);
    lemma_lists_unique(inst, p, k as nat, s, c);
}

/// The moves of neighborhood `k`, in their order of generation.
pub fn neighborhood(k: usize, schedule: &ScheduleBuilder) -> (r: Vec<Move>)
    requires
        k < NEIGHBORHOODS,
    ensures
        forall|q: int| 0 <= q < r@.len() ==> schedule.applicable(#[trigger] r@[q]) && !(r@[q] is Relocate),
        forall|q: int| 0 <= q < r@.len() ==> kind(#[trigger] r@[q]) == k,
        forall|e: Move| #[trigger] schedule.applicable(e) && kind(e) == k ==> r@.contains(e),
        r@ == moves_of(schedule.inst(), schedule.plan(), k as nat),
{

    if k == 0 {
        let r = swap_single_machine(schedule);
        proof {
            assert forall|e: Move| #[trigger] schedule.applicable(e) && kind(e) == k implies r@.contains(e) by {
                if let Move::SwapSingle { machine, i, j } = e {
                    assert(schedule.applicable(Move::SwapSingle { machine, i, j }));
                }
            }
        }
        proof {
            lemma_listed_exactly(*schedule, k, r@);
        }
        r
    } else if k == 1 {
        let r = move_single_machine(schedule);
        proof {
            assert forall|e: Move| #[trigger] schedule.applicable(e) && kind(e) == k implies r@.contains(e) by {
                if let Move::MoveSingle { machine, i, j } = e {
                    assert(schedule.applicable(Move::MoveSingle { machine, i, j }));
                }
            }
        }
        proof {
            lemma_listed_exactly(*schedule, k, r@);
        }
        r
    } else if k == 2 {
        let r = swap_two_machines(schedule);
        proof {
            assert forall|e: Move| #[trigger] schedule.applicable(e) && kind(e) == k implies r@.contains(e) by {
                if let Move::SwapTwo { first, second, i, j } = e {
                    assert(schedule.applicable(Move::SwapTwo { first, second, i, j }));
                }
            }
        }
        proof {
            lemma_listed_exactly(*schedule, k, r@);
        }
        r
    } else if k == 3 {
        let r = move_two_machines(schedule);
        proof {
            assert forall|e: Move| #[trigger] schedule.applicable(e) && kind(e) == k implies r@.contains(e) by {
                if let Move::MoveTwo { first, second, i, j } = e {
                    assert(schedule.applicable(Move::MoveTwo { first, second, i, j }));
                }
            }
        }
        proof {
            lemma_listed_exactly(*schedule, k, r@);
        }
        r
    } else if k == 4 {
        let r = replace_with_tardy(schedule);
        proof {
            assert forall|e: Move| #[trigger] schedule.applicable(e) && kind(e) == k implies r@.contains(e) by {
                if let Move::ReplaceWithTardy { machine, i, j } = e {
                    assert(schedule.applicable(Move::ReplaceWithTardy { machine, i, j }));
                }
            }
        }
        proof {
            lemma_listed_exactly(*schedule, k, r@);
        }
        r
    } else {
        let r = add_tardy(schedule);
        proof {
            assert forall|e: Move| #[trigger] schedule.applicable(e) && kind(e) == k implies r@.contains(e) by {
                if let Move::AddTardy { machine, i, j } = e {
                    assert(schedule.applicable(Move::AddTardy { machine, i, j }));
                }
            }
        }
        proof {
            lemma_listed_exactly(*schedule, k, r@);
        }
        r
    }
}

/// Variable neighborhood descent: from the first neighborhood on, adopt the first candidate, in
/// generation order, that strictly improves the score and start over, else go to the next
/// neighborhood; stop when none improves. A result that scores no higher than the input is the
/// input itself.
#[verifier::rlimit(60)]
pub fn neighborhood_search<'a>(schedule: ScheduleBuilder<'a>) -> (r: ScheduleBuilder<'a>)
    requires
        schedule.inv(),
    ensures
        r.inv(),
        r.inst() == schedule.inst(),
        r.sched().score() >= schedule.sched().score(),
        forall|t: usize| #[trigger] r.is_free(t) == schedule.is_free(t),
        r.sched().score() == schedule.sched().score() ==> r.plan() == schedule.plan(),
        r.locally_optimal(),
        r.plan() == vnd(schedule.inst(), schedule.plan(), 0),
{
    let ghost inst0 = schedule.inst();
    let ghost total = total_weight(schedule.inst().tasks@);
    let ghost start = schedule.sched().score();
    let mut current = schedule;
    let mut k: usize = 0;
    while k < NEIGHBORHOODS
        invariant
            current.inv(),
            current.inst() == schedule.inst(),
            total == total_weight(current.inst().tasks@),
            current.sched().score() >= start,
            forall|t: usize| #[trigger] current.is_free(t) == schedule.is_free(t),
            current.sched().score() > start || current.plan() == schedule.plan(),
            k <= NEIGHBORHOODS,
            forall|e: Move|
                #[trigger] current.applicable(e) && kind(e) < k ==> plan_score(current.inst(), reorganized(current.inst(), current.plan(), e))
                    <= current.sched().score(),
            inst0 == current.inst(),
            vnd(inst0, current.plan(), k as nat) == vnd(inst0, schedule.plan(), 0),
        decreases total - current.sched().score(), NEIGHBORHOODS - k,
    {
        proof {
            current.sched().lemma_score_bounded();
            current.lemma_plan();
        }
        let ghost p = current.plan();
        let ghost mut chosen: Move = Move::Relocate { task: 0, machine: 0, position: 0 };
        let ghost before = current.sched().score();
        let moves = neighborhood(k, &current);
        let current_score = current.calculate_score();
        let mut best_score = current_score;
        let mut best: Option<ScheduleBuilder<'a>> = None;
        let mut q: usize = 0;
        proof {
            assert(moves@.skip(0) =~= moves@);
        }
        while q < moves.len() && best.is_none()
            invariant
                current.inv(),
                current_score == current.sched().score(),
                forall|j: int| 0 <= j < moves@.len() ==> current.applicable(#[trigger] moves@[j]) && !(moves@[j] is Relocate),
                q <= moves@.len(),
                best is None ==> forall|j: int| 0 <= j < q ==> plan_score(current.inst(), reorganized(current.inst(), current.plan(), #[trigger] moves@[j]))
                    <= current_score,
                match best {
                    Some(b) => b.inv() && b.inst() == current.inst() && best_score
                        == b.sched().score() && best_score > current_score
                        && forall|t: usize| #[trigger] b.is_free(t) == current.is_free(t),
                    None => best_score == current_score,
                },
                p == current.plan(),
                inst0 == current.inst(),
                plan_score(inst0, p) == current_score,
                moves@ == moves_of(inst0, p, k as nat),
                best is None ==> first_improving(inst0, p, moves@) == first_improving(inst0, p, moves@.skip(q as int)),
                best is Some ==> first_improving(inst0, p, moves@) == Some(chosen) && improves(inst0, p, chosen)
                    && best->0.plan() == reorganized(inst0, p, chosen),
            decreases moves@.len() - q + (if best is None { 1int } else { 0int }),
        {
            let mut candidate = current.duplicate();
            proof {
                assert forall|t: usize| #[trigger] candidate.is_free(t) == current.is_free(t) by {}
            }
            candidate.reorganize_schedule(moves[q]);
            let score = candidate.calculate_score();
            proof {
                candidate.lemma_plan();
            }
            proof {
                assert(candidate.plan() == reorganized(inst0, p, moves@[q as int]));
                assert(plan_score(inst0, candidate.plan()) == score);
                let rest = moves@.skip(q as int);
                assert(rest[0] == moves@[q as int]);
                assert(rest.drop_first() =~= moves@.skip(q + 1));
            }
            if score > best_score {
                proof {
                    chosen = moves@[q as int];
                }
                best_score = score;
                best = Some(candidate);
            } else {
                q = q + 1;
            }
        }
        proof {
            if best is None {
                assert(moves@.skip(q as int).len() == 0);
            }
        }
        match best {
            Some(b) => {
                current = b;
                k = 0;
                proof {
                    current.sched().lemma_score_bounded();
                }
            },
            None => {
                proof {
                    assert forall|e: Move|
                        #[trigger] current.applicable(e) && kind(e) < k + 1 implies plan_score(current.inst(), reorganized(current.inst(), current.plan(), e))
                            <= current.sched().score() by {
                        if kind(e) == k {
                            assert(moves@.contains(e));
                            let j = choose|j: int| 0 <= j < moves@.len() && moves@[j] == e;
                        }
                    }
                }
                k = k + 1;
            },
        }
    }
    proof {
        current.sched().lemma_score_bounded();
        current.lemma_plan();
    }
    current
}

/// Moves a random task to a random position of a random machine.
fn shake(builder: &mut ScheduleBuilder, rng: &mut rand::rngs::StdRng)
    requires
        old(builder).inv(),
    ensures
        final(builder).inv(),
        final(builder).inst() == old(builder).inst(),
{
    let n = builder.tasks_len();
    let machines = builder.machines_len();
    if n == 0 || machines == 0 {
        return;
    }
    let task = random_below(rng, n);
    let target = random_below(rng, machines);
    let len = builder.machine_tasks_len(target);
    let on_target = match builder.get_schedule(task) {
        Some(info) => info.processor == target,
        None => false,
    };
    let room = if on_target && len > 0 {
        len - 1
    } else {
        len
    };
    let upper = if room < usize::MAX {
        room + 1
    } else {
        room
    };
    let position = random_below(rng, upper);
    builder.reorganize_schedule(Move::Relocate { task, machine: target, position });
}

/// Variable neighborhood search with the given generator: descend from the initial schedule,
/// then repeatedly perturb the best schedule found and descend again, keeping a strictly better
/// result.
pub fn vns_with_rng<'a>(instance: &'a Instance, rng: &mut rand::rngs::StdRng) -> (r: Schedule<'a>)
    requires
        instance.wf(),
    ensures
        r.wf(),
        r.inst() == *instance,
        r.feasible(),
        positive_times(*instance) ==> r.valid(),
        exists|b: ScheduleBuilder<'a>| #[trigger] b.sched() == r && b.inv() && b.locally_optimal(),
        r.score() >= plan_score(*instance, vnd(*instance, initial_plan(*instance), 0)),
        r.score() >= score_upto(*instance, initial_plan(*instance).slots, instance.tasks@.len() as int),
{
    let start = schedule(instance);
    proof {
        start.lemma_plan();
    }
    let mut best = neighborhood_search(start);
    proof {
        best.lemma_plan();
    }
    let mut best_score = best.calculate_score();
    let per_round = if instance.tasks.len() / 20 > 1 {
        instance.tasks.len() / 20
    } else {
        1
    };
    let mut round: usize = 0;
    while round < SHAKES
        invariant
            best.inv(),
            best.inst() == *instance,
            best_score == best.sched().score(),
            best.sched().score() >= score_upto(*instance, initial_plan(*instance).slots, instance.tasks@.len() as int),
            best.locally_optimal(),
            best.sched().score() >= plan_score(*instance, vnd(*instance, initial_plan(*instance), 0)),
            round <= SHAKES,
        decreases SHAKES - round,
    {
        let mut candidate = best.duplicate();
        let mut s: usize = 0;
        while s < per_round
            invariant
                candidate.inv(),
                candidate.inst() == *instance,
                s <= per_round,
            decreases per_round - s,
        {
            shake(&mut candidate, rng);
            s = s + 1;
        }
        let candidate = neighborhood_search(candidate);
        let score = candidate.calculate_score();
        if score > best_score {
            best_score = score;
            best = candidate;
        }
        round = round + 1;
    }
    proof {
        best.lemma_feasible();
        if positive_times(*instance) {
            best.sched().lemma_feasible_is_valid();
        }
    }
    let ghost witness = best;
    let r = best.into_schedule();
    proof {
        assert(witness.inv() && witness.sched() == r && witness.locally_optimal());
    }
    r
}

/// Variable neighborhood search whose randomness the seed fixes.
pub fn vns_seeded(instance: &Instance, seed: u64) -> (r: Schedule)
    requires
        instance.wf(),
    ensures
        r.wf(),
        r.inst() == *instance,
        r.feasible(),
        positive_times(*instance) ==> r.valid(),
        exists|b: ScheduleBuilder| #[trigger] b.sched() == r && b.inv() && b.locally_optimal(),
        r.score() >= plan_score(*instance, vnd(*instance, initial_plan(*instance), 0)),
        r.score() >= score_upto(*instance, initial_plan(*instance).slots, instance.tasks@.len() as int),
{
    let mut rng = seeded_rng(seed);
    vns_with_rng(instance, &mut rng)
}

/// Variable neighborhood search seeded by the operating system.
pub fn vns(instance: &Instance) -> (r: Schedule)
    requires
        instance.wf(),
    ensures
        r.wf(),
        r.inst() == *instance,
        r.feasible(),
        positive_times(*instance) ==> r.valid(),
        exists|b: ScheduleBuilder| #[trigger] b.sched() == r && b.inv() && b.locally_optimal(),
        r.score() >= plan_score(*instance, vnd(*instance, initial_plan(*instance), 0)),
        r.score() >= score_upto(*instance, initial_plan(*instance).slots, instance.tasks@.len() as int),
{
    let mut rng = entropy_rng();
    vns_with_rng(instance, &mut rng)
}

} // verus!
