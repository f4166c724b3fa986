//! Anxious (first-improvement) search over swaps of two tasks inside one
//! machine: candidates are scanned machine by machine, source position by
//! source position, and the first strictly better one is taken.

use vstd::prelude::*;

use crate::problem_instance::ProblemInstance;
use crate::problem_solver::grasp::local_search::{
    intra_swap_cost, intra_swap_ok, scanned_before3, LocalSearch,
};
use crate::problem_solver::problem_solution::{swap_seq, ProblemSolution};

verus! {

/// An anxious local search that consists on doing swaps between tasks in
/// the same machine.
pub struct IntraMachineSwapAnxious {}

impl LocalSearch for IntraMachineSwapAnxious {
    /// No swap inside any one machine costs less than the assignment as it
    /// stands.
    open spec fn local_optimum(instance: ProblemInstance, rows: Seq<Seq<usize>>) -> bool {
        forall|k: int, i: int, j: int|
            intra_swap_ok(rows, k, i, j) ==> #[trigger] intra_swap_cost(instance, rows, k, i, j)
                >= instance.rows_cost(rows)
    }

    /// One swap inside one machine: positions `i` and `j` of machine `k`
    /// exchanged, everything else untouched.
    open spec fn proposes(
        instance: ProblemInstance,
        rows: Seq<Seq<usize>>,
        rows2: Seq<Seq<usize>>,
    ) -> bool {
        exists|k: int, i: int, j: int|
            intra_swap_ok(rows, k, i, j) && rows2 == #[trigger] rows.update(
                k,
                swap_seq(rows[k], i, j),
            )
    }

    /// The returned assignment is a strictly improving swap, and no swap
    /// earlier in the scan order improves.
    open spec fn selects(
        instance: ProblemInstance,
        rows: Seq<Seq<usize>>,
        rows2: Seq<Seq<usize>>,
    ) -> bool {
        exists|k: int, i: int, j: int|
            intra_swap_ok(rows, k, i, j) && rows2 == rows.update(k, swap_seq(rows[k], i, j))
                && #[trigger] intra_swap_cost(instance, rows, k, i, j) < instance.rows_cost(rows)
                && (forall|k2: int, i2: int, j2: int|
                intra_swap_ok(rows, k2, i2, j2) && scanned_before3(k2, i2, j2, k, i, j)
                    ==> #[trigger] intra_swap_cost(instance, rows, k2, i2, j2)
                    >= instance.rows_cost(rows))
    }

    /// For a first-improvement search, nothing to return means exactly a
    /// local optimum.
    open spec fn exhausted(instance: ProblemInstance, rows: Seq<Seq<usize>>) -> bool {
        forall|k: int, i: int, j: int|
            intra_swap_ok(rows, k, i, j) ==> #[trigger] intra_swap_cost(instance, rows, k, i, j)
                >= instance.rows_cost(rows)
    }

    fn perform_search(instance: &ProblemInstance, solution: &ProblemSolution) -> (r: Option<
        ProblemSolution,
    >) {
        let ghost rows = solution.rows();
        let m_count = solution.task_assignment_matrix.len();
        let mut k: usize = 0;
        while k < m_count
            invariant
                instance.wf(),
                instance.fits(),
                solution.wf(*instance),
                rows == solution.rows(),
                m_count == rows.len(),
                k <= m_count,
                forall|k2: int, i2: int, j2: int|
                    intra_swap_ok(rows, k2, i2, j2) && k2 < k ==> #[trigger] intra_swap_cost(
                        *instance,
                        rows,
                        k2,
                        i2,
                        j2,
                    ) >= instance.rows_cost(rows),
            decreases m_count - k,
        {
            let len_k = solution.task_assignment_matrix[k].len();
            let mut i: usize = 0;
            while i < len_k
                invariant
                    instance.wf(),
                    instance.fits(),
                    solution.wf(*instance),
                    rows == solution.rows(),
                    m_count == rows.len(),
                    k < m_count,
                    len_k == rows[k as int].len(),
                    i <= len_k,
                    forall|k2: int, i2: int, j2: int|
                        intra_swap_ok(rows, k2, i2, j2) && (k2 < k || (k2 == k && i2 < i)) ==> (
                        #[trigger] intra_swap_cost(*instance, rows, k2, i2, j2))
                            >= instance.rows_cost(rows),
                decreases len_k - i,
            {
                let mut j: usize = 0;
                while j < len_k
                    invariant
                        instance.wf(),
                        instance.fits(),
                        solution.wf(*instance),
                        rows == solution.rows(),
                        m_count == rows.len(),
                        k < m_count,
                        len_k == rows[k as int].len(),
                        i < len_k,
                        j <= len_k,
                        forall|k2: int, i2: int, j2: int|
                            intra_swap_ok(rows, k2, i2, j2) && (k2 < k || (k2 == k && i2 < i) || (
                            k2 == k && i2 == i && j2 < j)) ==> (#[trigger] intra_swap_cost(
                                *instance,
                                rows,
                                k2,
                                i2,
                                j2,
                            )) >= instance.rows_cost(rows),
                    decreases len_k - j,
                {
                    if j != i {
                        let cand_new = solution.eval_intra_swap(instance, k, i, j);
                        let old_k = solution.tcts_by_machine[k];
                        proof {
                            instance.lemma_rows_cost_update(
                                rows,
                                k as int,
                                swap_seq(rows[k as int], i as int, j as int),
                            );
                        }
                        if cand_new < old_k {
                            let mut out = solution.clone();
                            out.apply_intra_swap(instance, k, i, j);
                            proof {
                                assert(out.rows() == rows.update(
                                    k as int,
                                    swap_seq(rows[k as int], i as int, j as int),
                                ));
                                assert(Self::proposes(*instance, rows, out.rows()));
                                assert(intra_swap_cost(*instance, rows, k as int, i as int, j as int)
                                    < instance.rows_cost(rows));
                                assert forall|k2: int, i2: int, j2: int|
                                    intra_swap_ok(rows, k2, i2, j2) && scanned_before3(
                                        k2,
                                        i2,
                                        j2,
                                        k as int,
                                        i as int,
                                        j as int,
                                    ) implies #[trigger] intra_swap_cost(
                                    *instance,
                                    rows,
                                    k2,
                                    i2,
                                    j2,
                                ) >= instance.rows_cost(rows) by {}
                                assert(Self::selects(*instance, rows, out.rows()));
                            }
                            return Some(out);
                        }
                    }
                    j = j + 1;
                }
                i = i + 1;
            }
            k = k + 1;
        }
        proof {
            assert(Self::exhausted(*instance, solution.rows()));
        }
        None
    }
}

impl IntraMachineSwapAnxious {
    pub fn new() -> (r: Self)
        ensures
            r == (IntraMachineSwapAnxious {  }),
    {
        IntraMachineSwapAnxious {  }
    }
}

} // verus!
