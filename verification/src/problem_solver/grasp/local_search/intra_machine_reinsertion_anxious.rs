//! Anxious (first-improvement) search over reinsertions of one task at
//! another position of the same machine.

use vstd::prelude::*;

use crate::problem_instance::ProblemInstance;
use crate::problem_solver::grasp::local_search::{
    intra_reins_cost, intra_reins_ok, reins_target, scanned_before3, LocalSearch,
};
use crate::problem_solver::problem_solution::{reinsert_seq, ProblemSolution};

verus! {

/// An anxious local search that consists on reinserting a task in the same
/// machine.
pub struct IntraMachineReinsertionAnxious {}

impl LocalSearch for IntraMachineReinsertionAnxious {
    /// No relocation inside any one machine costs less than the assignment
    /// as it stands.
    open spec fn local_optimum(instance: ProblemInstance, rows: Seq<Seq<usize>>) -> bool {
        forall|k: int, from: int, toraw: int|
            intra_reins_ok(rows, k, from, toraw) ==> #[trigger] intra_reins_cost(
                instance,
                rows,
                k,
                from,
                toraw,
            ) >= instance.rows_cost(rows)
    }

    /// One reinsertion inside one machine: the task at `from` of machine
    /// `k` moved to the slot `toraw` names, everything else untouched.
    open spec fn proposes(
        instance: ProblemInstance,
        rows: Seq<Seq<usize>>,
        rows2: Seq<Seq<usize>>,
    ) -> bool {
        exists|k: int, from: int, toraw: int|
            intra_reins_ok(rows, k, from, toraw) && rows2 == #[trigger] rows.update(
                k,
                reinsert_seq(rows[k], from, reins_target(from, toraw)),
            )
    }

    /// The returned assignment is a strictly improving reinsertion, and no
    /// reinsertion earlier in the scan order improves.
    open spec fn selects(
        instance: ProblemInstance,
        rows: Seq<Seq<usize>>,
        rows2: Seq<Seq<usize>>,
    ) -> bool {
        exists|k: int, from: int, toraw: int|
            intra_reins_ok(rows, k, from, toraw) && rows2 == rows.update(
                k,
                reinsert_seq(rows[k], from, reins_target(from, toraw)),
            ) && #[trigger] intra_reins_cost(instance, rows, k, from, toraw)
                < instance.rows_cost(rows) && (forall|k2: int, from2: int, toraw2: int|
                intra_reins_ok(rows, k2, from2, toraw2) && scanned_before3(
                    k2,
                    from2,
                    reins_target(from2, toraw2),
                    k,
                    from,
                    reins_target(from, toraw),
                ) ==> #[trigger] intra_reins_cost(instance, rows, k2, from2, toraw2)
                    >= instance.rows_cost(rows))
    }

    /// For a first-improvement search, nothing to return means exactly a
    /// local optimum.
    open spec fn exhausted(instance: ProblemInstance, rows: Seq<Seq<usize>>) -> bool {
        forall|k: int, from: int, toraw: int|
            intra_reins_ok(rows, k, from, toraw) ==> #[trigger] intra_reins_cost(
                instance,
                rows,
                k,
                from,
                toraw,
            ) >= instance.rows_cost(rows)
    }

    fn perform_search(instance: &ProblemInstance, solution: &ProblemSolution) -> (r: Option<
        ProblemSolution,
    >) {
        let ghost rows = solution.rows();
        let m_count = solution.task_assignment_matrix.len();
        let mut k: usize = 0;
        while k < m_count
            invariant
                instance.wf(),
                instance.fits(),
                solution.wf(*instance),
                rows == solution.rows(),
                m_count == rows.len(),
                k <= m_count,
                forall|k2: int, from2: int, toraw2: int|
                    intra_reins_ok(rows, k2, from2, toraw2) && k2 < k ==> #[trigger]
                    intra_reins_cost(*instance, rows, k2, from2, toraw2) >= instance.rows_cost(
                        rows,
                    ),
            decreases m_count - k,
        {
            let len_k = solution.task_assignment_matrix[k].len();
            if len_k >= 2 {
                let mut from: usize = 0;
                while from < len_k
                    invariant
                        instance.wf(),
                        instance.fits(),
                        solution.wf(*instance),
                        rows == solution.rows(),
                        m_count == rows.len(),
                        k < m_count,
                        len_k == rows[k as int].len(),
                        len_k >= 2,
                        from <= len_k,
                        forall|k2: int, from2: int, toraw2: int|
                            intra_reins_ok(rows, k2, from2, toraw2) && (k2 < k || (k2 == k && from2
                                < from)) ==> #[trigger] intra_reins_cost(
                                *instance,
                                rows,
                                k2,
                                from2,
                                toraw2,
                            ) >= instance.rows_cost(rows),
                    decreases len_k - from,
                {
                    let mut t: usize = 0;
                    while t < len_k
                        invariant
                            instance.wf(),
                            instance.fits(),
                            solution.wf(*instance),
                            rows == solution.rows(),
                            m_count == rows.len(),
                            k < m_count,
                            len_k == rows[k as int].len(),
                            len_k >= 2,
                            from < len_k,
                            t <= len_k,
                            forall|k2: int, from2: int, toraw2: int|
                                intra_reins_ok(rows, k2, from2, toraw2) && (k2 < k || (k2 == k
                                    && from2 < from) || (k2 == k && from2 == from && reins_target(
                                    from2,
                                    toraw2,
                                ) < t)) ==> #[trigger] intra_reins_cost(
                                    *instance,
                                    rows,
                                    k2,
                                    from2,
                                    toraw2,
                                ) >= instance.rows_cost(rows),
                        decreases len_k - t,
                    {
                        let cand_new = solution.eval_intra_reinsert(instance, k, from, t);
                        let old_k = solution.tcts_by_machine[k];
                        proof {
                            instance.lemma_rows_cost_update(
                                rows,
                                k as int,
                                reinsert_seq(rows[k as int], from as int, t as int),
                            );
                        }
                        if cand_new < old_k {
                            let mut out = solution.clone();
                            out.apply_intra_reinsert(instance, k, from, t);
                            proof {
                                let toraw_w: int = if (t as int) < (from as int) {
                                    t as int
                                } else {
                                    t as int + 1
                                };
                                assert(reins_target(from as int, toraw_w) == t as int);
                                assert(intra_reins_ok(rows, k as int, from as int, toraw_w));
                                assert(out.rows() == rows.update(
                                    k as int,
                                    reinsert_seq(
                                        rows[k as int],
                                        from as int,
                                        reins_target(from as int, toraw_w),
                                    ),
                                ));
                                assert(Self::proposes(*instance, rows, out.rows()));
                                assert(intra_reins_cost(
                                    *instance,
                                    rows,
                                    k as int,
                                    from as int,
                                    toraw_w,
                                ) < instance.rows_cost(rows));
                                assert forall|k2: int, from2: int, toraw2: int|
                                    intra_reins_ok(rows, k2, from2, toraw2) && scanned_before3(
                                        k2,
                                        from2,
                                        reins_target(from2, toraw2),
                                        k as int,
                                        from as int,
                                        reins_target(from as int, toraw_w),
                                    ) implies #[trigger] intra_reins_cost(
                                    *instance,
                                    rows,
                                    k2,
                                    from2,
                                    toraw2,
                                ) >= instance.rows_cost(rows) by {}
                                assert(Self::selects(*instance, rows, out.rows()));
                            }
                            return Some(out);
                        }
                        t = t + 1;
                    }
                    from = from + 1;
                }
            }
            k = k + 1;
        }
        proof {
            assert(Self::exhausted(*instance, solution.rows()));
        }
        None
    }
}

impl IntraMachineReinsertionAnxious {
    pub fn new() -> (r: Self)
        ensures
            r == (IntraMachineReinsertionAnxious {  }),
    {
        IntraMachineReinsertionAnxious {  }
    }
}

} // verus!
