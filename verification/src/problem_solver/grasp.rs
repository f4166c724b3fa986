//! An implementation of a GRASP algorithm: repeated randomized construction
//! plus local descent, keeping the best solution found until the stop
//! criterion fires.

use vstd::prelude::*;

pub mod local_search;
pub mod stop_criterion;

use crate::problem_instance::ProblemInstance;
use crate::problem_solver::problem_solution::ProblemSolution;
use crate::problem_solver::{ProblemSolver, RandomizedGreedySolver};
use local_search::LocalSearch;
use stop_criterion::StopCriterion;

verus! {

/// An implementation of a GRASP algorithm.  The stop criterion and the
/// local search to be used can be chosen and passed to the constructor.
/// For the constructive phase it uses the randomized greedy solver, whose
/// `k` can also be passed as an argument to the constructor.
pub struct GRASP<L: LocalSearch, S: StopCriterion> {
    pub size_to_choose_from: usize,
    pub local_search: L,
    pub stop_criterion: S,
}

impl<L: LocalSearch, S: StopCriterion> ProblemSolver for GRASP<L, S> {
    open spec fn pre(self, instance: ProblemInstance) -> bool {
        &&& self.size_to_choose_from >= 1
        &&& self.stop_criterion.inv()
        &&& instance.wf()
        &&& instance.fits()
        &&& (instance.task_count() >= 1 ==> instance.machine_count() >= 1)
    }

    /// Every returned solution has been descended to a local optimum of
    /// the configured local search.
    open spec fn post(self, instance: ProblemInstance, rows: Seq<Seq<usize>>) -> bool {
        L::local_optimum(instance, rows)
    }

    fn solve(&mut self, instance: &ProblemInstance) -> (r: ProblemSolution) {
        let mut solver = RandomizedGreedySolver::new(self.size_to_choose_from);
        let first = solver.solve(instance);
        proof {
            assert(self.size_to_choose_from >= 1);
        }
        let mut solution = self.local_search.improve(instance, first);
        proof {
            solution.lemma_total_fits(*instance);
        }
        let mut solution_tct = solution.get_total_completion_time();
        if self.stop_criterion.stop(solution_tct, solution_tct) {
            return solution;
        }
        loop
            invariant
                instance.wf(),
                instance.fits(),
                instance.task_count() >= 1 ==> instance.machine_count() >= 1,
                self.size_to_choose_from >= 1,
                self.stop_criterion.inv(),
                solution.wf(*instance),
                solution.complete(*instance),
                solution.rows().len() == vstd::math::min(
                    instance.machine_count(),
                    instance.task_count(),
                ),
                L::local_optimum(*instance, solution.rows()),
                solution_tct as int == solution.total(*instance),
            decreases solution_tct as int, self.stop_criterion.fuel(),
        {
            let mut solver = RandomizedGreedySolver::new(self.size_to_choose_from);
            let cand = solver.solve(instance);
            let new_solution = self.local_search.improve(instance, cand);
            proof {
                new_solution.lemma_total_fits(*instance);
                solution.lemma_total_fits(*instance);
            }
            let new_solution_tct = new_solution.get_total_completion_time();
            if self.stop_criterion.stop(solution_tct, new_solution_tct) {
                if solution_tct <= new_solution_tct {
                    return solution;
                } else {
                    return new_solution;
                }
            }
            if new_solution_tct < solution_tct {
                solution = new_solution;
                solution_tct = new_solution_tct;
            }
        }
    }
}

impl<L: LocalSearch, S: StopCriterion> GRASP<L, S> {
    /// Creates a new GRASP with the specified arguments.  The candidate
    /// pool size must be positive.
    pub fn new(size_to_choose_from: usize, local_search: L, stop_criterion: S) -> (r: Self)
        requires
            size_to_choose_from >= 1,
        ensures
            r.size_to_choose_from == size_to_choose_from,
            r.local_search == local_search,
            r.stop_criterion == stop_criterion,
    {
        GRASP { size_to_choose_from, local_search, stop_criterion }
    }
}

} // verus!
