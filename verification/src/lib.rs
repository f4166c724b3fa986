//! Solver library for the parallel machine scheduling problem with
//! sequence-dependent setup times.
//!
//! An instance assigns `n` tasks to `m` identical machines; the objective is
//! the total completion time (TCT) over all tasks, where the completion time
//! of a task is the cumulative sum of processing and setup times before it
//! finishes on its machine.  The library offers constructive heuristics,
//! eight local-search neighbourhoods with a descent driver, and the GRASP and
//! VNS metaheuristics on top of them.

mod problem_instance;
pub mod problem_solution;
pub use problem_instance::{ProblemInstance, ProblemInstanceError};
pub mod problem_solver;
