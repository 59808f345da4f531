//! Parallel-machine scheduling with pairwise task conflicts: a fixed number of identical
//! processors, a shared deadline, weighted tasks, and a conflict relation that keeps two
//! conflicting tasks from ever running at the same time. Three strategies build schedules that
//! keep every processor and every conflict apart: greedy list scheduling, variable neighborhood
//! search, and a randomized construct-and-improve heuristic.

mod builder;
mod codec;
mod deserializer;
mod error;
mod list;
mod neighborhoods;
mod plan;
mod problem;
mod rng;
mod schedulers;
mod serializer;
mod solution;
mod tresoldi;
mod vns;

pub use builder::{weighted_task_comparator, Machine, Move, ScheduleBuilder, TaskWithId};
pub use codec::{decode_instance, deserialize, encode_schedule, to_string};
pub use deserializer::Deserializer;
pub use error::{Error, Result};
pub use list::list_algorithm;
pub use neighborhoods::{
    add_tardy, move_single_machine, move_two_machines, replace_with_tardy, swap_single_machine,
    swap_two_machines,
};
pub use problem::{Conflict, ConflictGraph, Instance, Task};
pub use schedulers::{Algorithm, Scheduler};
pub use serializer::Serializer;
pub use solution::{Schedule, ScheduleInfo};
pub use tresoldi::{tresoldi, tresoldi_seeded, tresoldi_with_rng};
pub use vns::{neighborhood, neighborhood_search, schedule, vns, vns_seeded, vns_with_rng};
