//! Greedy (best-improvement) search over swaps of two tasks inside one
//! machine.

use vstd::prelude::*;

use crate::problem_instance::ProblemInstance;
use crate::problem_solver::grasp::local_search::{intra_swap_cost, intra_swap_ok, LocalSearch};
use crate::problem_solver::problem_solution::{swap_seq, ProblemSolution};

verus! {

/// A local search that consists on doing swaps between tasks in the same
/// machine, taking the best exchange of the whole neighbourhood.
pub struct IntraMachineSwap {}

impl LocalSearch for IntraMachineSwap {
    /// No swap inside any one machine costs less than the assignment as it
    /// stands.
    open spec fn local_optimum(instance: ProblemInstance, rows: Seq<Seq<usize>>) -> bool {
        forall|k: int, i: int, j: int|
            intra_swap_ok(rows, k, i, j) ==> #[trigger] intra_swap_cost(instance, rows, k, i, j)
                >= instance.rows_cost(rows)
    }

    /// One swap inside one machine: positions `i` and `j` of machine `k`
    /// exchanged, everything else untouched.
    open spec fn proposes(
        instance: ProblemInstance,
        rows: Seq<Seq<usize>>,
        rows2: Seq<Seq<usize>>,
    ) -> bool {
        exists|k: int, i: int, j: int|
            intra_swap_ok(rows, k, i, j) && rows2 == #[trigger] rows.update(
                k,
                swap_seq(rows[k], i, j),
            )
    }

    /// The returned assignment costs no more than any swap of the whole
    /// neighbourhood.
    open spec fn selects(
        instance: ProblemInstance,
        rows: Seq<Seq<usize>>,
        rows2: Seq<Seq<usize>>,
    ) -> bool {
        forall|k: int, i: int, j: int|
            intra_swap_ok(rows, k, i, j) ==> instance.rows_cost(rows2) <= #[trigger]
            intra_swap_cost(instance, rows, k, i, j)
    }

    /// No machine offers two positions to exchange.
    open spec fn exhausted(instance: ProblemInstance, rows: Seq<Seq<usize>>) -> bool {
        forall|k: int, i: int, j: int| !(#[trigger] intra_swap_ok(rows, k, i, j))
    }

    fn perform_search(instance: &ProblemInstance, solution: &ProblemSolution) -> (r: Option<
        ProblemSolution,
    >) {
        let ghost rows = solution.rows();
        let m_count = solution.task_assignment_matrix.len();
        let mut has_best: bool = false;
        let mut bk: usize = 0;
        let mut bi: usize = 0;
        let mut bj: usize = 0;
        let mut bnew: usize = 0;
        let mut k: usize = 0;
        while k < m_count
            invariant
                instance.wf(),
                instance.fits(),
                solution.wf(*instance),
                rows == solution.rows(),
                m_count == rows.len(),
                k <= m_count,
                has_best ==> intra_swap_ok(rows, bk as int, bi as int, bj as int) && bnew as int
                    == instance.cost(swap_seq(rows[bk as int], bi as int, bj as int)),
                !has_best ==> forall|k2: int, i2: int, j2: int|
                    !(intra_swap_ok(rows, k2, i2, j2) && k2 < k),
                has_best ==> forall|k2: int, i2: int, j2: int|
                    intra_swap_ok(rows, k2, i2, j2) && k2 < k ==> #[trigger] intra_swap_cost(
                        *instance,
                        rows,
                        k2,
                        i2,
                        j2,
                    ) >= intra_swap_cost(*instance, rows, bk as int, bi as int, bj as int),
            decreases m_count - k,
        {
            let len_k = solution.task_assignment_matrix[k].len();
            let mut i: usize = 0;
            while i < len_k
                invariant
                    instance.wf(),
                    instance.fits(),
                    solution.wf(*instance),
                    rows == solution.rows(),
                    m_count == rows.len(),
                    k < m_count,
                    len_k == rows[k as int].len(),
                    i <= len_k,
                    has_best ==> intra_swap_ok(rows, bk as int, bi as int, bj as int) && bnew
                        as int == instance.cost(swap_seq(rows[bk as int], bi as int, bj as int)),
                    !has_best ==> forall|k2: int, i2: int, j2: int|
                        !(intra_swap_ok(rows, k2, i2, j2) && (k2 < k || (k2 == k && i2 < i))),
                    has_best ==> forall|k2: int, i2: int, j2: int|
                        intra_swap_ok(rows, k2, i2, j2) && (k2 < k || (k2 == k && i2 < i))
                            ==> #[trigger] intra_swap_cost(*instance, rows, k2, i2, j2)
                            >= intra_swap_cost(*instance, rows, bk as int, bi as int, bj as int),
                decreases len_k - i,
            {
                let mut j: usize = 0;
                while j < len_k
                    invariant
                        instance.wf(),
                        instance.fits(),
                        solution.wf(*instance),
                        rows == solution.rows(),
                        m_count == rows.len(),
                        k < m_count,
                        len_k == rows[k as int].len(),
                        i < len_k,
                        j <= len_k,
                        has_best ==> intra_swap_ok(rows, bk as int, bi as int, bj as int) && bnew
                            as int == instance.cost(
                            swap_seq(rows[bk as int], bi as int, bj as int),
                        ),
                        !has_best ==> forall|k2: int, i2: int, j2: int|
                            !(intra_swap_ok(rows, k2, i2, j2) && (k2 < k || (k2 == k && i2 < i)
                                || (k2 == k && i2 == i && j2 < j))),
                        has_best ==> forall|k2: int, i2: int, j2: int|
                            intra_swap_ok(rows, k2, i2, j2) && (k2 < k || (k2 == k && i2 < i) || (
                            k2 == k && i2 == i && j2 < j)) ==> #[trigger] intra_swap_cost(
                                *instance,
                                rows,
                                k2,
                                i2,
                                j2,
                            ) >= intra_swap_cost(*instance, rows, bk as int, bi as int, bj as int),
                    decreases len_k - j,
                {
                    if j != i {
                        let cand_new = solution.eval_intra_swap(instance, k, i, j);
                        proof {
                            instance.lemma_rows_cost_update(
                                rows,
                                k as int,
                                swap_seq(rows[k as int], i as int, j as int),
                            );
                            if has_best {
                                instance.lemma_rows_cost_update(
                                    rows,
                                    bk as int,
                                    swap_seq(rows[bk as int], bi as int, bj as int),
                                );
                            }
                        }
                        let take_it = if !has_best {
                            true
                        } else {
                            let old_k = solution.tcts_by_machine[k];
                            let old_bk = solution.tcts_by_machine[bk];
                            (cand_new as u128) + (old_bk as u128) < (bnew as u128) + (old_k
                                as u128)
                        };
                        if take_it {
                            has_best = true;
                            bk = k;
                            bi = i;
                            bj = j;
                            bnew = cand_new;
                        }
                    }
                    j = j + 1;
                }
                i = i + 1;
            }
            k = k + 1;
        }
        if !has_best {
            proof {
                assert forall|k2: int, i2: int, j2: int|
                    !(#[trigger] intra_swap_ok(rows, k2, i2, j2)) by {
                    if intra_swap_ok(rows, k2, i2, j2) {
                        assert(k2 < m_count);
                    }
                }
                assert(Self::exhausted(*instance, rows));
                assert(Self::exhausted(*instance, solution.rows()));
            }
            return None;
        }
        let mut out = solution.clone();
        proof {
            instance.lemma_rows_cost_update(
                rows,
                bk as int,
                swap_seq(rows[bk as int], bi as int, bj as int),
            );
        }
        out.apply_intra_swap(instance, bk, bi, bj);
        proof {
            assert(out.rows() == rows.update(
                bk as int,
                swap_seq(rows[bk as int], bi as int, bj as int),
            ));
            assert(Self::proposes(*instance, rows, out.rows()));
            assert(instance.rows_cost(out.rows()) == intra_swap_cost(
                *instance,
                rows,
                bk as int,
                bi as int,
                bj as int,
            ));
            assert forall|k2: int, i2: int, j2: int|
                intra_swap_ok(rows, k2, i2, j2) implies instance.rows_cost(out.rows())
                <= #[trigger] intra_swap_cost(*instance, rows, k2, i2, j2) by {
                assert(k2 < m_count);
            }
            assert(Self::selects(*instance, rows, out.rows()));
        }
        Some(out)
    }
}

impl IntraMachineSwap {
    pub fn new() -> (r: Self)
        ensures
            r == (IntraMachineSwap {  }),
    {
        IntraMachineSwap {  }
    }
}

} // verus!
