//! Selecting a strategy.

use crate::list::list_algorithm;
use crate::problem::Instance;
use crate::builder::ScheduleBuilder;
use crate::plan::{initial_plan, list_plan, plan_score};
use crate::solution::{positive_times, score_upto, Schedule};
use crate::tresoldi::greedy_maximal;
use crate::tresoldi::tresoldi;
use crate::vns::{vnd, vns};
use vstd::prelude::*;

verus! {

/// A scheduler. Schedules the tasks of an instance.
pub trait Scheduler {
    fn schedule(self, instance: &Instance) -> (r: Schedule)
        requires
            instance.wf(),
            instance.deadline <= usize::MAX,
        ensures
            r.wf(),
            r.inst() == *instance,
            positive_times(*instance) ==> r.feasible() && r.valid(),
    ;
}

/// The scheduling strategies.
#[derive(Clone, Copy, Debug, PartialEq, Eq, Structural)]
pub enum Algorithm {
    /// Greedy list scheduling.
    List,
    /// Variable neighborhood search.
    Vns,
    /// Randomized multi-start construct-and-improve heuristic.
    Tresoldi,
}

impl Algorithm {
    /// Runs the strategy; the result is what that strategy promises.
    pub fn run(self, instance: &Instance) -> (r: Schedule)
        requires
            instance.wf(),
            instance.deadline <= usize::MAX,
        ensures
            r.wf(),
            r.inst() == *instance,
            positive_times(*instance) ==> r.feasible() && r.valid(),
            self == Algorithm::List ==> r.feasible() && r.slots() == list_plan(*instance).slots,
            self == Algorithm::Vns ==> r.feasible() && r.score() >= score_upto(
                *instance,
                initial_plan(*instance).slots,
                instance.tasks@.len() as int,
            ) && exists|b: ScheduleBuilder| #[trigger] b.sched() == r && b.inv() && b.locally_optimal()
                && r.score() >= plan_score(*instance, vnd(*instance, initial_plan(*instance), 0)),
            self == Algorithm::Tresoldi ==> (positive_times(*instance) ==> greedy_maximal(r)),
    {
        match self {
            Algorithm::List => list_algorithm(instance),
            Algorithm::Vns => vns(instance),
            Algorithm::Tresoldi => tresoldi(instance),
        }
    }
}

impl Scheduler for Algorithm {
    fn schedule(self, instance: &Instance) -> (r: Schedule) {
        self.run(instance)
    }
}

} // verus!
