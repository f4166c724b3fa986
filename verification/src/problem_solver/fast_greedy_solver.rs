//! A greedy construction that always appends at the end of a machine's
//! sequence, ranking candidates by their marginal cost delta against the
//! cached per-machine cost.

use vstd::prelude::*;

use crate::problem_instance::ProblemInstance;
use crate::problem_solver::problem_solution::ProblemSolution;
use crate::problem_solver::{constructed_greedily, construct_append, AppendRule, ProblemSolver};

verus! {

/// A greedy algorithm that creates a solution for the problem by evaluating
/// in each step the best machine to add a determined task to the solution.
/// It always adds the new tasks at the end.
pub struct FastGreedySolver {}

impl ProblemSolver for FastGreedySolver {
    open spec fn pre(self, instance: ProblemInstance) -> bool {
        &&& instance.wf()
        &&& instance.fits()
        &&& (instance.task_count() >= 1 ==> instance.machine_count() >= 1)
    }

    /// The result is built by a greedy seeding and then greedy appends
    /// ranked by the marginal cost delta.
    open spec fn post(self, instance: ProblemInstance, rows: Seq<Seq<usize>>) -> bool {
        constructed_greedily(AppendRule::MarginalDelta, instance, rows)
    }

    fn solve(&mut self, instance: &ProblemInstance) -> (r: ProblemSolution) {
        construct_append(&AppendRule::MarginalDelta, instance)
    }
}

impl FastGreedySolver {
    /// Creates a new solver.
    pub fn new() -> (r: Self)
        ensures
            r == (FastGreedySolver {  }),
    {
        FastGreedySolver {  }
    }
}

} // verus!
