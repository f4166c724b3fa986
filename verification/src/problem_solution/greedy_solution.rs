//! The plain greedy construction: each appended task is the one that
//! minimizes the resulting machine's full cost, recomputed from scratch.

use vstd::prelude::*;

use crate::problem_instance::ProblemInstance;
use crate::problem_solution::ProblemSolution;
use crate::problem_solver::{constructed_greedily, construct_append, AppendRule};

verus! {

/// A solution built by recomputing, for every candidate append, the full
/// cost of the receiving machine.
pub struct GreedySolution {
    pub solution: crate::problem_solver::ProblemSolution,
}

impl ProblemSolution for GreedySolution {
    open spec fn solution(self) -> crate::problem_solver::ProblemSolution {
        self.solution
    }

    /// A greedy seeding, then greedy appends ranked by the receiving
    /// machine's full resulting cost.
    open spec fn construction(instance: ProblemInstance, rows: Seq<Seq<usize>>) -> bool {
        constructed_greedily(AppendRule::ResultingCost, instance, rows)
    }

    fn solve(instance: &ProblemInstance) -> (r: Self) {
        GreedySolution { solution: construct_append(&AppendRule::ResultingCost, instance) }
    }

    fn get_total_completion_time(&self) -> (r: usize) {
        self.solution.get_total_completion_time()
    }

    fn get_tcts_by_machine(&self) -> (r: &Vec<usize>) {
        &self.solution.tcts_by_machine
    }

    fn get_tasks_by_machine(&self) -> (r: &Vec<Vec<usize>>) {
        &self.solution.task_assignment_matrix
    }
}

} // verus!
