//! A self-contained greedy assignment on the instance itself: machines are
//! seeded and then grown by appending, at each step, the task whose
//! completion time (the chain of segments) grows least.

use vstd::prelude::*;

use crate::problem_instance::cost::{full_task_mset, rows_mset};
use crate::problem_instance::ProblemInstance;
use crate::problem_solver::{constructed_greedily, construct_append, AppendRule};

verus! {

impl ProblemInstance {
    /// Builds a complete assignment greedily: every task appears in exactly
    /// one machine's sequence, exactly once.
    pub fn solve_greedy(&self) -> (r: Vec<Vec<usize>>)
        requires
            self.wf(),
            self.fits(),
            self.task_count() >= 1 ==> self.machine_count() >= 1,
        ensures
            r@.map_values(|v: Vec<usize>| v@).len() == vstd::math::min(
                self.machine_count(),
                self.task_count(),
            ),
            self.rows_valid(r@.map_values(|v: Vec<usize>| v@)),
            rows_mset(r@.map_values(|v: Vec<usize>| v@)) == full_task_mset(self.task_count()),
            constructed_greedily(
                AppendRule::ChainStep,
                *self,
                r@.map_values(|v: Vec<usize>| v@),
            ),
    {
        let solution = construct_append(&AppendRule::ChainStep, self);
        solution.task_assignment_matrix
    }
}

} // verus!
