use scheduling_conflicts::{
    add_tardy, deserialize, list_algorithm, move_single_machine, move_two_machines, neighborhood,
    neighborhood_search, replace_with_tardy, schedule, swap_single_machine, swap_two_machines,
    to_string, tresoldi_seeded, vns_seeded, weighted_task_comparator, Algorithm, Conflict,
    ConflictGraph, Instance, Machine, Move, Schedule, ScheduleBuilder, ScheduleInfo, Scheduler,
    Task,
};
use std::cmp::Ordering;

fn instance(processors: usize, deadline: u64, tasks: &[(u64, u64)], edges: &[(usize, usize)]) -> Instance {
    let tasks = tasks.iter().map(|&(p, w)| Task::new(p, w)).collect();
    let graph = ConflictGraph::from_conflicts(edges.iter().map(|&(a, b)| Conflict(a, b)).collect());
    Instance::new(processors, deadline, tasks, graph)
}

fn sample_instances() -> Vec<Instance> {
    vec![
        instance(1, 10, &[(4, 5), (4, 3)], &[(0, 1)]),
        instance(2, 10, &[(4, 5), (4, 3)], &[]),
        instance(
            3,
            20,
            &[(3, 4), (5, 9), (2, 2), (7, 8), (4, 4), (6, 1), (1, 3), (8, 10), (2, 5), (3, 3)],
            &[(0, 1), (1, 2), (2, 3), (3, 4), (4, 5), (5, 6), (6, 7), (7, 8), (8, 9), (0, 9), (1, 7)],
        ),
        instance(
            2,
            12,
            &[(5, 5), (5, 5), (5, 5), (5, 5), (2, 1), (2, 1), (3, 7)],
            &[(0, 2), (1, 3), (4, 6), (5, 6), (0, 6)],
        ),
        instance(4, 6, &[(6, 2), (7, 9), (1, 1), (1, 1), (2, 2), (3, 3)], &[(2, 3), (3, 4)]),
        instance(2, 0, &[(1, 1)], &[]),
    ]
}

fn consistent(builder: &ScheduleBuilder) -> bool {
    let mut seen = vec![false; builder.tasks_len()];
    for m in 0..builder.machines_len() {
        for k in 0..builder.machine_tasks_len(m) {
            let task = builder.machine_task(m, k);
            match builder.get_schedule(task) {
                Some(info) if info.processor == m => {}
                _ => return false,
            }
            if seen[task] {
                return false;
            }
            seen[task] = true;
        }
    }
    true
}

#[test]
fn test_list_algorithm() {
    for inst in sample_instances() {
        assert!(inst.check());
        assert!(list_algorithm(&inst).verify(), "Invalid schedule created");
    }
}

#[test]
fn test_vns() {
    for inst in sample_instances() {
        for seed in 0..3 {
            assert!(vns_seeded(&inst, seed).verify(), "Invalid schedule created");
        }
    }
}

#[test]
fn test_tresoldi() {
    for inst in sample_instances() {
        for seed in 0..3 {
            assert!(tresoldi_seeded(&inst, seed).verify(), "Invalid schedule created");
        }
    }
}

#[test]
fn algorithms_through_scheduler() {
    for inst in sample_instances() {
        for algorithm in [Algorithm::List, Algorithm::Vns, Algorithm::Tresoldi] {
            assert!(algorithm.schedule(&inst).verify());
        }
    }
}

#[test]
fn list_one_processor_conflicting_pair() {
    let inst = instance(1, 10, &[(4, 5), (4, 3)], &[(0, 1)]);
    let s = list_algorithm(&inst);
    assert_eq!(s.get_schedule(0), Some(ScheduleInfo::new(0, 0)));
    assert_eq!(s.get_schedule(1), Some(ScheduleInfo::new(4, 0)));
    assert_eq!(s.calculate_score(), 8);
    assert!(s.verify());
}

#[test]
fn list_conflicting_pair_that_cannot_fit() {
    let inst = instance(1, 7, &[(4, 5), (4, 3)], &[(0, 1)]);
    let s = list_algorithm(&inst);
    assert_eq!(s.get_schedule(0), Some(ScheduleInfo::new(0, 0)));
    assert_eq!(s.get_schedule(1), None);
    assert_eq!(s.calculate_score(), 5);
}

#[test]
fn list_two_processors_no_conflict() {
    let inst = instance(2, 10, &[(4, 5), (4, 3)], &[]);
    let s = list_algorithm(&inst);
    let first = s.get_schedule(0).unwrap();
    let second = s.get_schedule(1).unwrap();
    assert_eq!(first.start_time, 0);
    assert_eq!(second.start_time, 0);
    assert_ne!(first.processor, second.processor);
    assert_eq!(s.calculate_score(), 8);
}

#[test]
fn conflicts_are_symmetric() {
    let graph = ConflictGraph::from_conflicts(vec![Conflict(0, 1), Conflict(3, 1)]);
    for a in 0..6 {
        for b in 0..6 {
            assert_eq!(graph.are_conflicted(a, b), graph.are_conflicted(b, a));
        }
    }
    assert!(graph.are_conflicted(1, 3));
    assert!(!graph.are_conflicted(0, 3));
    assert!(!graph.are_conflicted(100, 1));
    assert_eq!(graph.len(), 4);
    let mut around = graph.conflicts(1).to_vec();
    around.sort();
    assert_eq!(around, vec![0, 3]);
    assert!(graph.conflicts(2).is_empty());
    assert!(graph.conflicts(50).is_empty());
}

#[test]
fn edge_list_round_trip() {
    let graph = ConflictGraph::from_conflicts(vec![Conflict(0, 1), Conflict(1, 2)]);
    let mut edges = graph.to_conflicts();
    edges.sort_by_key(|c| (c.0, c.1));
    assert_eq!(edges, vec![Conflict(0, 1), Conflict(1, 2)]);

    let graph = ConflictGraph::from_conflicts(vec![Conflict(2, 1), Conflict(1, 2), Conflict(3, 3)]);
    assert_eq!(graph.to_conflicts(), vec![Conflict(1, 2)]);
}

#[test]
fn score_counts_only_tasks_ending_by_deadline() {
    let inst = instance(2, 10, &[(4, 5), (4, 3), (2, 7)], &[]);
    let mut s = Schedule::new(&inst);
    assert_eq!(s.calculate_score(), 0);
    s.schedule(0, ScheduleInfo::new(6, 0));
    s.schedule(1, ScheduleInfo::new(7, 1));
    assert_eq!(s.calculate_score(), 5);
    assert_eq!(s.calculate_score(), 5);
    s.schedule(2, ScheduleInfo::new(0, 1));
    assert_eq!(s.calculate_score(), 12);
    s.remove_schedule(0);
    assert_eq!(s.calculate_score(), 7);
    s.remove_schedule(0);
    assert_eq!(s.get_schedule(0), None);
}

#[test]
fn verify_rejects_overlaps_and_conflicts() {
    let inst = instance(2, 10, &[(4, 5), (4, 3)], &[(0, 1)]);
    let mut s = Schedule::new(&inst);
    s.schedule(0, ScheduleInfo::new(0, 0));
    s.schedule(1, ScheduleInfo::new(2, 1));
    assert!(s.in_conflict(1, 2));
    assert!(!s.in_conflict(1, 4));
    assert!(!s.verify());
    s.schedule(1, ScheduleInfo::new(4, 1));
    assert!(s.verify());

    let inst = instance(1, 10, &[(4, 5), (4, 3)], &[]);
    let mut s = Schedule::new(&inst);
    s.schedule(0, ScheduleInfo::new(0, 0));
    s.schedule(1, ScheduleInfo::new(3, 0));
    assert!(!s.verify());
    s.schedule(1, ScheduleInfo::new(0, 0));
    assert!(!s.verify());
    s.schedule(1, ScheduleInfo::new(4, 0));
    assert!(s.verify());
    s.schedule(1, ScheduleInfo::new(4, 5));
    assert!(!s.verify());
}

#[test]
fn comparator_orders_by_weight_per_time() {
    let a = (0, Task::new(4, 5));
    let b = (1, Task::new(4, 3));
    assert_eq!(weighted_task_comparator(&a, &b), Ordering::Less);
    assert_eq!(weighted_task_comparator(&b, &a), Ordering::Greater);
    let c = (2, Task::new(8, 10));
    assert_eq!(weighted_task_comparator(&a, &c), Ordering::Equal);
    let huge = (3, Task::new(u64::MAX, u64::MAX));
    assert_eq!(weighted_task_comparator(&huge, &huge), Ordering::Equal);
}

#[test]
fn machines_order_by_free_time_then_id() {
    let m = Machine::new(3);
    assert_eq!(m.free_time, 0);
    assert_eq!(m.id, 3);
    let busy = Machine::with_free_time(1, 5);
    assert!(m.precedes(&busy));
    assert!(!busy.precedes(&m));
    assert!(Machine::with_free_time(0, 5).precedes(&busy));
}

#[test]
fn initial_schedule_free_times() {
    let inst = instance(2, 20, &[(4, 5), (3, 3), (5, 1)], &[]);
    let builder = schedule(&inst);
    let machines = builder.new_machine_free_times();
    assert_eq!(machines.len(), 2);
    assert_eq!(machines[0].id, 0);
    assert_eq!(machines[0].free_time, 4);
    assert_eq!(machines[1].free_time, 8);
    assert_eq!(builder.calculate_score(), 9);
    assert_eq!(builder.tardy_len(), 0);
    assert_eq!(builder.calculate_non_conflict_time(0, 0), None);
}

#[test]
fn reorganize_keeps_builder_consistent() {
    let inst = &sample_instances()[2];
    let builder = schedule(inst);
    assert!(consistent(&builder));
    for k in 0..6 {
        for edit in neighborhood(k, &builder) {
            let mut candidate = builder.duplicate();
            candidate.reorganize_schedule(edit);
            assert!(consistent(&candidate));
            assert!(candidate.into_schedule().verify());
        }
    }
    for task in 0..inst.tasks.len() {
        for machine in 0..inst.processors {
            for position in 0..4 {
                let mut candidate = builder.duplicate();
                candidate.reorganize_schedule(Move::Relocate { task, machine, position });
                assert!(consistent(&candidate));
                assert!(candidate.into_schedule().verify());
            }
        }
    }
}

#[test]
fn neighborhoods_enumerate_every_move() {
    let inst = instance(2, 30, &[(1, 1), (1, 1), (1, 1), (1, 1), (1, 1), (30, 1)], &[]);
    let builder = schedule(&inst);
    let first = builder.machine_tasks_len(0);
    let second = builder.machine_tasks_len(1);
    let tardy = builder.tardy_len();
    assert_eq!(tardy, 1);
    assert_eq!(swap_single_machine(&builder).len(), first * (first - 1) / 2 + second * (second - 1) / 2);
    assert_eq!(move_single_machine(&builder).len(), first * (first - 1) + second * (second - 1));
    assert_eq!(swap_two_machines(&builder).len(), 2 * first * second);
    assert_eq!(move_two_machines(&builder).len(), first * (second + 1) + second * (first + 1));
    assert_eq!(replace_with_tardy(&builder).len(), (first + second) * tardy);
    assert_eq!(add_tardy(&builder).len(), (first + 1 + second + 1) * tardy);
}

#[test]
fn descent_never_lowers_the_score() {
    for inst in sample_instances() {
        let builder = schedule(&inst);
        let before = builder.calculate_score();
        let after = neighborhood_search(builder);
        assert!(after.calculate_score() >= before);
    }
}

#[test]
fn descent_improves_a_poor_start() {
    let inst = instance(1, 10, &[(6, 1), (5, 4), (5, 4)], &[]);
    let builder = schedule(&inst);
    assert_eq!(builder.calculate_score(), 8);
    let mut poor = builder.duplicate();
    poor.reorganize_schedule(Move::ReplaceWithTardy { machine: 0, i: 0, j: 0 });
    assert_eq!(poor.calculate_score(), 1);
    assert_eq!(neighborhood_search(poor).calculate_score(), 8);
}

#[test]
fn instance_text_round_trip() {
    let inst = deserialize("2 10\n4 5\n4 3\n\n0 1\n\n").unwrap();
    assert_eq!(inst.processors, 2);
    assert_eq!(inst.deadline, 10);
    assert_eq!(inst.tasks, vec![Task::new(4, 5), Task::new(4, 3)]);
    assert!(inst.graph.are_conflicted(1, 0));
    assert!(inst.check());
    let s = list_algorithm(&inst);
    assert_eq!(to_string(&s), "0 0\n1 4\n\n");
    let mut partial = Schedule::new(&inst);
    partial.schedule(1, ScheduleInfo::new(3, 1));
    assert_eq!(to_string(&partial), "-\n1 3\n\n");
    assert!(deserialize("2 x\n").is_err());
    assert!(deserialize("2 10\n4 5\n").is_err());
}

#[test]
fn instance_check_rejects_bad_instances() {
    assert!(!instance(1, 10, &[(1, 1)], &[(0, 3)]).check());
    assert!(!instance(1, 10, &[(1, u64::MAX), (1, 1)], &[]).check());
    assert!(instance(1, 10, &[(1, u64::MAX - 1), (1, 1)], &[]).check());
}

#[test]
fn list_ties_broken_by_task_id() {
    let inst = instance(1, 4, &[(4, 1), (4, 1)], &[]);
    let s = list_algorithm(&inst);
    assert_eq!(s.get_schedule(0), Some(ScheduleInfo::new(0, 0)));
    assert_eq!(s.get_schedule(1), None);
}

#[test]
fn neighborhood_moves_ascend_without_repeats() {
    let inst = instance(3, 30, &[(1, 1), (2, 1), (3, 1), (1, 2), (2, 2), (3, 3), (29, 1)], &[]);
    let builder = schedule(&inst);
    for k in 0..6 {
        let moves = neighborhood(k, &builder);
        let keys: Vec<(usize, usize, usize, usize)> = moves
            .iter()
            .map(|m| match *m {
                Move::SwapSingle { machine, i, j }
                | Move::MoveSingle { machine, i, j }
                | Move::ReplaceWithTardy { machine, i, j }
                | Move::AddTardy { machine, i, j } => (machine, i, j, 0),
                Move::SwapTwo { first, second, i, j } | Move::MoveTwo { first, second, i, j } => {
                    (first, second, i, j)
                }
                Move::Relocate { task, machine, position } => (task, machine, position, 0),
            })
            .collect();
        for pair in keys.windows(2) {
            assert!(pair[0] < pair[1]);
        }
    }
}

#[test]
fn descent_result_is_locally_optimal() {
    for inst in sample_instances() {
        let result = neighborhood_search(schedule(&inst));
        let score = result.calculate_score();
        for k in 0..6 {
            for edit in neighborhood(k, &result) {
                let mut candidate = result.duplicate();
                candidate.reorganize_schedule(edit);
                assert!(candidate.calculate_score() <= score);
            }
        }
    }
}

#[test]
fn tresoldi_leaves_no_task_that_could_be_inserted() {
    let inst = instance(2, 8, &[(3, 4), (5, 9), (2, 2), (4, 4), (1, 3), (6, 1)], &[(0, 1), (1, 2), (3, 4)]);
    for seed in 0..4 {
        let s = tresoldi_seeded(&inst, seed);
        assert!(s.verify());
        let placed: Vec<Option<ScheduleInfo>> = (0..inst.tasks.len()).map(|t| s.get_schedule(t)).collect();
        for x in 0..inst.tasks.len() {
            if placed[x].is_some() {
                continue;
            }
            let p = inst.tasks[x].processing_time;
            for m in 0..inst.processors {
                for q in 0..inst.deadline {
                    if q + p > inst.deadline {
                        continue;
                    }
                    let idle = (q..q + p).all(|cell| {
                        placed.iter().enumerate().all(|(y, info)| match info {
                            Some(i) if i.processor == m => {
                                !(i.start_time <= cell && cell < i.start_time + inst.tasks[y].processing_time)
                            }
                            _ => true,
                        })
                    });
                    assert!(!(idle && !s.in_conflict(x, q)), "task {x} fits on {m} at {q}");
                }
            }
        }
    }
}

#[test]
fn instance_check_rejects_self_conflict() {
    assert!(!instance(1, 10, &[(1, 1), (2, 2)], &[(1, 1)]).check());
    assert!(instance(1, 10, &[(1, 1), (2, 2)], &[(0, 1)]).check());
}

#[test]
fn list_falls_back_to_earliest_conflict_end() {
    let inst = instance(2, 10, &[(4, 5), (4, 3)], &[(0, 1)]);
    let s = list_algorithm(&inst);
    assert_eq!(s.get_schedule(0), Some(ScheduleInfo::new(0, 0)));
    assert_eq!(s.get_schedule(1), Some(ScheduleInfo::new(4, 1)));
    assert!(s.verify());
}

#[test]
fn free_times_ordered_by_load_then_id() {
    let inst = instance(3, 20, &[(5, 5), (2, 2)], &[]);
    let builder = schedule(&inst);
    let machines = builder.new_machine_free_times();
    let order: Vec<(u64, usize)> = machines.iter().map(|m| (m.free_time, m.id)).collect();
    assert_eq!(order, vec![(0, 2), (2, 1), (5, 0)]);
}
