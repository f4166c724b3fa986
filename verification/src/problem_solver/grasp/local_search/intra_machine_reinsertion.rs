//! Greedy (best-improvement) search over reinsertions of one task at
//! another position of the same machine.

use vstd::prelude::*;

use crate::problem_instance::ProblemInstance;
use crate::problem_solver::grasp::local_search::{
    intra_reins_cost, intra_reins_ok, reins_target, LocalSearch,
};
use crate::problem_solver::problem_solution::{reinsert_seq, ProblemSolution};

verus! {

/// A local search that consists on reinserting a task in the same machine,
/// taking the best relocation of the whole neighbourhood.
pub struct IntraMachineReinsertion {}

impl LocalSearch for IntraMachineReinsertion {
    /// No relocation inside any one machine costs less than the assignment
    /// as it stands.
    open spec fn local_optimum(instance: ProblemInstance, rows: Seq<Seq<usize>>) -> bool {
        forall|k: int, from: int, toraw: int|
            intra_reins_ok(rows, k, from, toraw) ==> #[trigger] intra_reins_cost(
                instance,
                rows,
                k,
                from,
                toraw,
            ) >= instance.rows_cost(rows)
    }

    /// One reinsertion inside one machine: the task at `from` of machine
    /// `k` moved to the slot `toraw` names, everything else untouched.
    open spec fn proposes(
        instance: ProblemInstance,
        rows: Seq<Seq<usize>>,
        rows2: Seq<Seq<usize>>,
    ) -> bool {
        exists|k: int, from: int, toraw: int|
            intra_reins_ok(rows, k, from, toraw) && rows2 == #[trigger] rows.update(
                k,
                reinsert_seq(rows[k], from, reins_target(from, toraw)),
            )
    }

    /// The returned assignment costs no more than any reinsertion of the
    /// whole neighbourhood.
    open spec fn selects(
        instance: ProblemInstance,
        rows: Seq<Seq<usize>>,
        rows2: Seq<Seq<usize>>,
    ) -> bool {
        forall|k: int, from: int, toraw: int|
            intra_reins_ok(rows, k, from, toraw) ==> instance.rows_cost(rows2) <= #[trigger]
            intra_reins_cost(instance, rows, k, from, toraw)
    }

    /// No machine holds two tasks, so there is nothing to move.
    open spec fn exhausted(instance: ProblemInstance, rows: Seq<Seq<usize>>) -> bool {
        forall|k: int, from: int, toraw: int| !(#[trigger] intra_reins_ok(rows, k, from, toraw))
    }

    fn perform_search(instance: &ProblemInstance, solution: &ProblemSolution) -> (r: Option<
        ProblemSolution,
    >) {
        let ghost rows = solution.rows();
        let m_count = solution.task_assignment_matrix.len();
        let mut has_best: bool = false;
        let mut bk: usize = 0;
        let mut bfrom: usize = 0;
        let mut bt: usize = 0;
        let mut bnew: usize = 0;
        let ghost mut best_rows_cost: int = 0;
        let mut k: usize = 0;
        while k < m_count
            invariant
                instance.wf(),
                instance.fits(),
                solution.wf(*instance),
                rows == solution.rows(),
                m_count == rows.len(),
                k <= m_count,
                has_best ==> (bk as int) < rows.len() && rows[bk as int].len() >= 2 && (bfrom
                    as int) < rows[bk as int].len() && (bt as int) < rows[bk as int].len() && bnew as int == instance.cost(
                    reinsert_seq(rows[bk as int], bfrom as int, bt as int),
                ) && best_rows_cost == instance.rows_cost(
                    rows.update(bk as int, reinsert_seq(rows[bk as int], bfrom as int, bt as int)),
                ),
                !has_best ==> forall|k2: int, from2: int, toraw2: int|
                    !(intra_reins_ok(rows, k2, from2, toraw2) && k2 < k),
                has_best ==> forall|k2: int, from2: int, toraw2: int|
                    intra_reins_ok(rows, k2, from2, toraw2) && k2 < k ==> #[trigger]
                    intra_reins_cost(*instance, rows, k2, from2, toraw2) >= best_rows_cost,
            decreases m_count - k,
        {
            let len_k = solution.task_assignment_matrix[k].len();
            if len_k >= 2 {
                let mut from: usize = 0;
                while from < len_k
                    invariant
                        instance.wf(),
                        instance.fits(),
                        solution.wf(*instance),
                        rows == solution.rows(),
                        m_count == rows.len(),
                        k < m_count,
                        len_k == rows[k as int].len(),
                        len_k >= 2,
                        from <= len_k,
                        has_best ==> (bk as int) < rows.len() && rows[bk as int].len() >= 2 && (bfrom as int) < rows[bk as int].len()
                            && (bt as int) < rows[bk as int].len() && bnew as int == instance.cost(
                            reinsert_seq(rows[bk as int], bfrom as int, bt as int),
                        ) && best_rows_cost == instance.rows_cost(
                            rows.update(
                                bk as int,
                                reinsert_seq(rows[bk as int], bfrom as int, bt as int),
                            ),
                        ),
                        !has_best ==> forall|k2: int, from2: int, toraw2: int|
                            !(intra_reins_ok(rows, k2, from2, toraw2) && (k2 < k || (k2 == k
                                && from2 < from))),
                        has_best ==> forall|k2: int, from2: int, toraw2: int|
                            intra_reins_ok(rows, k2, from2, toraw2) && (k2 < k || (k2 == k && from2
                                < from)) ==> #[trigger] intra_reins_cost(
                                *instance,
                                rows,
                                k2,
                                from2,
                                toraw2,
                            ) >= best_rows_cost,
                    decreases len_k - from,
                {
                    let mut t: usize = 0;
                    while t < len_k
                        invariant
                            instance.wf(),
                            instance.fits(),
                            solution.wf(*instance),
                            rows == solution.rows(),
                            m_count == rows.len(),
                            k < m_count,
                            len_k == rows[k as int].len(),
                            len_k >= 2,
                            from < len_k,
                            t <= len_k,
                            has_best ==> (bk as int) < rows.len() && rows[bk as int].len() >= 2 && (bfrom as int) < rows[bk as int].len()
                                && (bt as int) < rows[bk as int].len() && bnew as int
                                == instance.cost(
                                reinsert_seq(rows[bk as int], bfrom as int, bt as int),
                            ) && best_rows_cost == instance.rows_cost(
                                rows.update(
                                    bk as int,
                                    reinsert_seq(rows[bk as int], bfrom as int, bt as int),
                                ),
                            ),
                            !has_best ==> forall|k2: int, from2: int, toraw2: int|
                                !(intra_reins_ok(rows, k2, from2, toraw2) && (k2 < k || (k2 == k
                                    && from2 < from) || (k2 == k && from2 == from && reins_target(
                                    from2,
                                    toraw2,
                                ) < t))),
                            has_best ==> forall|k2: int, from2: int, toraw2: int|
                                intra_reins_ok(rows, k2, from2, toraw2) && (k2 < k || (k2 == k
                                    && from2 < from) || (k2 == k && from2 == from && reins_target(
                                    from2,
                                    toraw2,
                                ) < t)) ==> #[trigger] intra_reins_cost(
                                    *instance,
                                    rows,
                                    k2,
                                    from2,
                                    toraw2,
                                ) >= best_rows_cost,
                        decreases len_k - t,
                    {
                        let cand_new = solution.eval_intra_reinsert(instance, k, from, t);
                        proof {
                            instance.lemma_rows_cost_update(
                                rows,
                                k as int,
                                reinsert_seq(rows[k as int], from as int, t as int),
                            );
                        }
                        let take_it = if !has_best {
                            true
                        } else {
                            let old_k = solution.tcts_by_machine[k];
                            let old_bk = solution.tcts_by_machine[bk];
                            (cand_new as u128) + (old_bk as u128) < (bnew as u128) + (old_k
                                as u128)
                        };
                        proof {
                            if has_best {
                                instance.lemma_rows_cost_update(
                                    rows,
                                    bk as int,
                                    reinsert_seq(rows[bk as int], bfrom as int, bt as int),
                                );
                            }
                        }
                        if take_it {
                            has_best = true;
                            bk = k;
                            bfrom = from;
                            bt = t;
                            bnew = cand_new;
                            proof {
                                best_rows_cost = instance.rows_cost(
                                    rows.update(
                                        k as int,
                                        reinsert_seq(rows[k as int], from as int, t as int),
                                    ),
                                );
                            }
                        }
                        t = t + 1;
                    }
                    from = from + 1;
                }
            }
            k = k + 1;
        }
        if !has_best {
            proof {
                assert forall|k2: int, from2: int, toraw2: int|
                    !(#[trigger] intra_reins_ok(rows, k2, from2, toraw2)) by {
                    if intra_reins_ok(rows, k2, from2, toraw2) {
                        assert(k2 < m_count);
                    }
                }
                assert(Self::exhausted(*instance, rows));
                assert(Self::exhausted(*instance, solution.rows()));
            }
            return None;
        }
        let mut out = solution.clone();
        proof {
            instance.lemma_rows_cost_update(
                rows,
                bk as int,
                reinsert_seq(rows[bk as int], bfrom as int, bt as int),
            );
        }
        out.apply_intra_reinsert(instance, bk, bfrom, bt);
        proof {
            let toraw_w: int = if (bt as int) < (bfrom as int) {
                bt as int
            } else {
                bt as int + 1
            };
            assert(reins_target(bfrom as int, toraw_w) == bt as int);
            assert(intra_reins_ok(rows, bk as int, bfrom as int, toraw_w));
            assert(out.rows() == rows.update(
                bk as int,
                reinsert_seq(rows[bk as int], bfrom as int, reins_target(bfrom as int, toraw_w)),
            ));
            assert(Self::proposes(*instance, rows, out.rows()));
            assert(instance.rows_cost(out.rows()) == best_rows_cost);
            assert forall|k2: int, from2: int, toraw2: int|
                intra_reins_ok(rows, k2, from2, toraw2) implies instance.rows_cost(out.rows())
                <= #[trigger] intra_reins_cost(*instance, rows, k2, from2, toraw2) by {
                assert(k2 < m_count);
            }
            assert(Self::selects(*instance, rows, out.rows()));
        }
        Some(out)
    }
}

impl IntraMachineReinsertion {
    pub fn new() -> (r: Self)
        ensures
            r == (IntraMachineReinsertion {  }),
    {
        IntraMachineReinsertion {  }
    }
}

} // verus!
