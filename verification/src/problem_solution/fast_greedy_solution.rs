//! The fast greedy construction: candidate appends are ranked by their
//! marginal cost delta against the machine's cached cost, instead of by
//! the recomputed resulting cost.  Per machine the two rankings order the
//! appends alike; across machines with different loads they can depart,
//! so the two heuristics may build different solutions.

use vstd::prelude::*;

use crate::problem_instance::ProblemInstance;
use crate::problem_solution::ProblemSolution;
use crate::problem_solver::{constructed_greedily, construct_append, AppendRule};

verus! {

/// A solution built by ranking each candidate append by its marginal cost
/// delta: the receiving machine's new cost minus its cached cost.
pub struct FastGreedySolution {
    pub solution: crate::problem_solver::ProblemSolution,
}

impl ProblemSolution for FastGreedySolution {
    open spec fn solution(self) -> crate::problem_solver::ProblemSolution {
        self.solution
    }

    /// A greedy seeding, then greedy appends ranked by the marginal cost
    /// delta against the cached machine cost.
    open spec fn construction(instance: ProblemInstance, rows: Seq<Seq<usize>>) -> bool {
        constructed_greedily(AppendRule::MarginalDelta, instance, rows)
    }

    fn solve(instance: &ProblemInstance) -> (r: Self) {
        FastGreedySolution { solution: construct_append(&AppendRule::MarginalDelta, instance) }
    }

    fn get_total_completion_time(&self) -> (r: usize) {
        self.solution.get_total_completion_time()
    }

    fn get_tcts_by_machine(&self) -> (r: &Vec<usize>) {
        &self.solution.tcts_by_machine
    }

    fn get_tasks_by_machine(&self) -> (r: &Vec<Vec<usize>>) {
        &self.solution.task_assignment_matrix
    }
}

} // verus!
