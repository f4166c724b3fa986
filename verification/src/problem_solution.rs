//! Self-contained construction heuristics: each builds a complete solution
//! for an instance and reports its costs.

use vstd::prelude::*;

mod fast_greedy_solution;
mod greedy_solution;

pub use fast_greedy_solution::FastGreedySolution;
pub use greedy_solution::GreedySolution;

use crate::problem_instance::ProblemInstance;

verus! {

/// What a construction heuristic produces: a complete, well-formed
/// assignment of every task, with its per-machine costs.
pub trait ProblemSolution: Sized {
    /// The underlying solution the heuristic built.
    spec fn solution(self) -> crate::problem_solver::ProblemSolution;

    /// How this heuristic builds its assignment: which append each of its
    /// construction steps picks.
    spec fn construction(instance: ProblemInstance, rows: Seq<Seq<usize>>) -> bool;

    /// Builds a complete solution for the instance, step by step as
    /// `construction` says.
    fn solve(instance: &ProblemInstance) -> (r: Self)
        requires
            instance.wf(),
            instance.fits(),
            instance.task_count() >= 1 ==> instance.machine_count() >= 1,
        ensures
            r.solution().wf(*instance),
            r.solution().complete(*instance),
            r.solution().rows().len() == vstd::math::min(
                instance.machine_count(),
                instance.task_count(),
            ),
            Self::construction(*instance, r.solution().rows()),
    ;

    /// The total completion time of the solution.
    fn get_total_completion_time(&self) -> (r: usize)
        requires
            crate::problem_solver::problem_solution::usize_seq_sum(self.solution().caches())
                <= usize::MAX as int,
        ensures
            r as int == crate::problem_solver::problem_solution::usize_seq_sum(
                self.solution().caches(),
            ),
    ;

    /// The total completion time of each machine.
    fn get_tcts_by_machine(&self) -> (r: &Vec<usize>)
        ensures
            r@ == self.solution().caches(),
    ;

    /// The tasks assigned to each machine, in order.
    fn get_tasks_by_machine(&self) -> (r: &Vec<Vec<usize>>)
        ensures
            r@.map_values(|v: Vec<usize>| v@) == self.solution().rows(),
    ;
}

} // verus!
