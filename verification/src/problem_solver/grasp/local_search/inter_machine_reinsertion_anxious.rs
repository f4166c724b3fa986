//! Anxious (first-improvement) search over relocations of one task of a
//! machine to any position of another machine.

use vstd::prelude::*;

use crate::problem_instance::ProblemInstance;
use crate::problem_solver::grasp::local_search::{
    inter_reins_cost, inter_reins_ok, inter_reins_rows, scanned_before4, LocalSearch,
};
use crate::problem_solver::problem_solution::ProblemSolution;

verus! {

/// An anxious local search that consists on reinserting a task in a
/// different machine.
pub struct InterMachineReinsertionAnxious {}

impl LocalSearch for InterMachineReinsertionAnxious {
    /// No relocation between two machines costs less than the assignment as
    /// it stands.
    open spec fn local_optimum(instance: ProblemInstance, rows: Seq<Seq<usize>>) -> bool {
        forall|a: int, i: int, b: int, pos: int|
            inter_reins_ok(rows, a, i, b, pos) ==> #[trigger] inter_reins_cost(
                instance,
                rows,
                a,
                i,
                b,
                pos,
            ) >= instance.rows_cost(rows)
    }

    /// One relocation between two machines: the task at position `i` of
    /// machine `a` removed and inserted at position `pos` of machine `b`,
    /// everything else untouched.
    open spec fn proposes(
        instance: ProblemInstance,
        rows: Seq<Seq<usize>>,
        rows2: Seq<Seq<usize>>,
    ) -> bool {
        exists|a: int, i: int, b: int, pos: int|
            inter_reins_ok(rows, a, i, b, pos) && rows2 == #[trigger] inter_reins_rows(
                rows,
                a,
                i,
                b,
                pos,
            )
    }

    /// The returned assignment is a strictly improving relocation, and no
    /// relocation earlier in the scan order improves.
    open spec fn selects(
        instance: ProblemInstance,
        rows: Seq<Seq<usize>>,
        rows2: Seq<Seq<usize>>,
    ) -> bool {
        exists|a: int, i: int, b: int, pos: int|
            inter_reins_ok(rows, a, i, b, pos) && rows2 == inter_reins_rows(rows, a, i, b, pos)
                && #[trigger] inter_reins_cost(instance, rows, a, i, b, pos)
                < instance.rows_cost(rows) && (forall|a2: int, i2: int, b2: int, pos2: int|
                inter_reins_ok(rows, a2, i2, b2, pos2) && scanned_before4(
                    a2,
                    i2,
                    b2,
                    pos2,
                    a,
                    i,
                    b,
                    pos,
                ) ==> #[trigger] inter_reins_cost(instance, rows, a2, i2, b2, pos2)
                    >= instance.rows_cost(rows))
    }

    /// For a first-improvement search, nothing to return means exactly a
    /// local optimum.
    open spec fn exhausted(instance: ProblemInstance, rows: Seq<Seq<usize>>) -> bool {
        forall|a: int, i: int, b: int, pos: int|
            inter_reins_ok(rows, a, i, b, pos) ==> #[trigger] inter_reins_cost(
                instance,
                rows,
                a,
                i,
                b,
                pos,
            ) >= instance.rows_cost(rows)
    }

    fn perform_search(instance: &ProblemInstance, solution: &ProblemSolution) -> (r: Option<
        ProblemSolution,
    >) {
        let ghost rows = solution.rows();
        let m_count = solution.task_assignment_matrix.len();
        let n_tasks = instance.task_times.len();
        let mut a: usize = 0;
        while a < m_count
            invariant
                instance.wf(),
                instance.fits(),
                solution.wf(*instance),
                rows == solution.rows(),
                m_count == rows.len(),
                n_tasks as int == instance.task_count(),
                a <= m_count,
                forall|a2: int, i2: int, b2: int, pos2: int|
                    inter_reins_ok(rows, a2, i2, b2, pos2) && a2 < a ==> #[trigger]
                    inter_reins_cost(*instance, rows, a2, i2, b2, pos2) >= instance.rows_cost(
                        rows,
                    ),
            decreases m_count - a,
        {
            let len_a = solution.task_assignment_matrix[a].len();
            let mut i: usize = 0;
            while i < len_a
                invariant
                    instance.wf(),
                    instance.fits(),
                    solution.wf(*instance),
                    rows == solution.rows(),
                    m_count == rows.len(),
                    n_tasks as int == instance.task_count(),
                    a < m_count,
                    len_a == rows[a as int].len(),
                    i <= len_a,
                    forall|a2: int, i2: int, b2: int, pos2: int|
                        inter_reins_ok(rows, a2, i2, b2, pos2) && (a2 < a || (a2 == a && i2 < i))
                            ==> #[trigger] inter_reins_cost(*instance, rows, a2, i2, b2, pos2)
                            >= instance.rows_cost(rows),
                decreases len_a - i,
            {
                let mut b: usize = 0;
                while b < m_count
                    invariant
                        instance.wf(),
                        instance.fits(),
                        solution.wf(*instance),
                        rows == solution.rows(),
                        m_count == rows.len(),
                        n_tasks as int == instance.task_count(),
                        a < m_count,
                        len_a == rows[a as int].len(),
                        i < len_a,
                        b <= m_count,
                        forall|a2: int, i2: int, b2: int, pos2: int|
                            inter_reins_ok(rows, a2, i2, b2, pos2) && (a2 < a || (a2 == a && i2 < i)
                                || (a2 == a && i2 == i && b2 < b)) ==> #[trigger] inter_reins_cost(
                                *instance,
                                rows,
                                a2,
                                i2,
                                b2,
                                pos2,
                            ) >= instance.rows_cost(rows),
                    decreases m_count - b,
                {
                    if b != a {
                        let len_b = solution.task_assignment_matrix[b].len();
                        proof {
                            solution.lemma_other_row_not_full(
                                *instance,
                                a as int,
                                b as int,
                                i as int,
                            );
                        }
                        let mut pos: usize = 0;
                        while pos <= len_b
                            invariant
                                instance.wf(),
                                instance.fits(),
                                solution.wf(*instance),
                                rows == solution.rows(),
                                m_count == rows.len(),
                                n_tasks as int == instance.task_count(),
                                a < m_count,
                                len_a == rows[a as int].len(),
                                i < len_a,
                                b < m_count,
                                b != a,
                                len_b == rows[b as int].len(),
                                len_b < n_tasks,
                                pos <= len_b + 1,
                                forall|a2: int, i2: int, b2: int, pos2: int|
                                    inter_reins_ok(rows, a2, i2, b2, pos2) && (a2 < a || (a2 == a
                                        && i2 < i) || (a2 == a && i2 == i && b2 < b) || (a2 == a
                                        && i2 == i && b2 == b && pos2 < pos)) ==> #[trigger]
                                    inter_reins_cost(*instance, rows, a2, i2, b2, pos2)
                                        >= instance.rows_cost(rows),
                            decreases len_b + 1 - pos,
                        {
                            let c = solution.eval_inter_reinsert(instance, a, i, b, pos);
                            let ghost ra = rows[a as int].remove(i as int);
                            let ghost rb = rows[b as int].insert(
                                pos as int,
                                rows[a as int][i as int],
                            );
                            proof {
                                instance.lemma_rows_cost_update(rows, a as int, ra);
                                instance.lemma_rows_cost_update(
                                    rows.update(a as int, ra),
                                    b as int,
                                    rb,
                                );
                                assert(rows.update(a as int, ra)[b as int] == rows[b as int]);
                            }
                            let old_a = solution.tcts_by_machine[a];
                            let old_b = solution.tcts_by_machine[b];
                            if (c.0 as u128) + (c.1 as u128) < (old_a as u128) + (old_b as u128) {
                                let mut out = solution.clone();
                                out.apply_inter_reinsert(instance, a, i, b, pos);
                                proof {
                                    assert(out.rows() == inter_reins_rows(
                                        rows,
                                        a as int,
                                        i as int,
                                        b as int,
                                        pos as int,
                                    ));
                                    assert(Self::proposes(*instance, rows, out.rows()));
                                    assert(inter_reins_cost(
                                        *instance,
                                        rows,
                                        a as int,
                                        i as int,
                                        b as int,
                                        pos as int,
                                    ) < instance.rows_cost(rows));
                                    assert forall|a2: int, i2: int, b2: int, pos2: int|
                                        inter_reins_ok(rows, a2, i2, b2, pos2) && scanned_before4(
                                            a2,
                                            i2,
                                            b2,
                                            pos2,
                                            a as int,
                                            i as int,
                                            b as int,
                                            pos as int,
                                        ) implies #[trigger] inter_reins_cost(
                                        *instance,
                                        rows,
                                        a2,
                                        i2,
                                        b2,
                                        pos2,
                                    ) >= instance.rows_cost(rows) by {}
                                    assert(Self::selects(*instance, rows, out.rows()));
                                }
                                return Some(out);
                            }
                            pos = pos + 1;
                        }
                    }
                    b = b + 1;
                }
                i = i + 1;
            }
            a = a + 1;
        }
        proof {
            assert(Self::exhausted(*instance, solution.rows()));
        }
        None
    }
}

impl InterMachineReinsertionAnxious {
    pub fn new() -> (r: Self)
        ensures
            r == (InterMachineReinsertionAnxious {  }),
    {
        InterMachineReinsertionAnxious {  }
    }
}

} // verus!
