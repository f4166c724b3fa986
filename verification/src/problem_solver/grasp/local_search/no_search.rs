//! The identity search: it never proposes a move, so a GRASP built on it
//! runs construction only.

use vstd::prelude::*;

use crate::problem_instance::ProblemInstance;
use crate::problem_solver::grasp::local_search::LocalSearch;
use crate::problem_solver::problem_solution::ProblemSolution;

verus! {

/// A struct to allow a GRASP to execute without performing a local search.
pub struct NoSearch {}

impl LocalSearch for NoSearch {
    /// The empty neighbourhood: every assignment is a local optimum of it.
    open spec fn local_optimum(instance: ProblemInstance, rows: Seq<Seq<usize>>) -> bool {
        true
    }

    /// The empty neighbourhood proposes nothing: the search always reports
    /// no move.
    open spec fn proposes(
        instance: ProblemInstance,
        rows: Seq<Seq<usize>>,
        rows2: Seq<Seq<usize>>,
    ) -> bool {
        false
    }

    open spec fn selects(
        instance: ProblemInstance,
        rows: Seq<Seq<usize>>,
        rows2: Seq<Seq<usize>>,
    ) -> bool {
        false
    }

    open spec fn exhausted(instance: ProblemInstance, rows: Seq<Seq<usize>>) -> bool {
        true
    }

    fn perform_search(instance: &ProblemInstance, solution: &ProblemSolution) -> (r: Option<
        ProblemSolution,
    >) {
        proof {
            assert(Self::exhausted(*instance, solution.rows()));
        }
        None
    }
}

impl NoSearch {
    /// Returns an instance.
    pub fn new() -> (r: Self)
        ensures
            r == (NoSearch {  }),
    {
        NoSearch {  }
    }
}

} // verus!
