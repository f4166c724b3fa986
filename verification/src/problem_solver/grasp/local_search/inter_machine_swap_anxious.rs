//! Anxious (first-improvement) search over exchanges of one task of a
//! machine with one task of another machine.

use vstd::prelude::*;

use crate::problem_instance::ProblemInstance;
use crate::problem_solver::grasp::local_search::{
    inter_swap_cost, inter_swap_ok, inter_swap_rows, scanned_before4, LocalSearch,
};
use crate::problem_solver::problem_solution::ProblemSolution;

verus! {

/// An anxious local search that consists on doing swaps between tasks in
/// different machines.
pub struct InterMachineSwapAnxious {}

impl LocalSearch for InterMachineSwapAnxious {
    /// No exchange between two machines costs less than the assignment as
    /// it stands.
    open spec fn local_optimum(instance: ProblemInstance, rows: Seq<Seq<usize>>) -> bool {
        forall|a: int, i: int, b: int, j: int|
            inter_swap_ok(rows, a, i, b, j) ==> #[trigger] inter_swap_cost(
                instance,
                rows,
                a,
                i,
                b,
                j,
            ) >= instance.rows_cost(rows)
    }

    /// One exchange between two machines: the tasks at position `i` of
    /// machine `a` and position `j` of machine `b` swapped, everything
    /// else untouched.
    open spec fn proposes(
        instance: ProblemInstance,
        rows: Seq<Seq<usize>>,
        rows2: Seq<Seq<usize>>,
    ) -> bool {
        exists|a: int, i: int, b: int, j: int|
            inter_swap_ok(rows, a, i, b, j) && rows2 == #[trigger] inter_swap_rows(
                rows,
                a,
                i,
                b,
                j,
            )
    }

    /// The returned assignment is a strictly improving exchange, and no
    /// exchange earlier in the scan order improves.
    open spec fn selects(
        instance: ProblemInstance,
        rows: Seq<Seq<usize>>,
        rows2: Seq<Seq<usize>>,
    ) -> bool {
        exists|a: int, i: int, b: int, j: int|
            inter_swap_ok(rows, a, i, b, j) && rows2 == inter_swap_rows(rows, a, i, b, j)
                && #[trigger] inter_swap_cost(instance, rows, a, i, b, j) < instance.rows_cost(
                rows,
            ) && (forall|a2: int, i2: int, b2: int, j2: int|
                inter_swap_ok(rows, a2, i2, b2, j2) && scanned_before4(a2, i2, b2, j2, a, i, b, j)
                    ==> #[trigger] inter_swap_cost(instance, rows, a2, i2, b2, j2)
                    >= instance.rows_cost(rows))
    }

    /// For a first-improvement search, nothing to return means exactly a
    /// local optimum.
    open spec fn exhausted(instance: ProblemInstance, rows: Seq<Seq<usize>>) -> bool {
        forall|a: int, i: int, b: int, j: int|
            inter_swap_ok(rows, a, i, b, j) ==> #[trigger] inter_swap_cost(
                instance,
                rows,
                a,
                i,
                b,
                j,
            ) >= instance.rows_cost(rows)
    }

    fn perform_search(instance: &ProblemInstance, solution: &ProblemSolution) -> (r: Option<
        ProblemSolution,
    >) {
        let ghost rows = solution.rows();
        let m_count = solution.task_assignment_matrix.len();
        let mut a: usize = 0;
        while a < m_count
            invariant
                instance.wf(),
                instance.fits(),
                solution.wf(*instance),
                rows == solution.rows(),
                m_count == rows.len(),
                a <= m_count,
                forall|a2: int, i2: int, b2: int, j2: int|
                    inter_swap_ok(rows, a2, i2, b2, j2) && a2 < a ==> #[trigger] inter_swap_cost(
                        *instance,
                        rows,
                        a2,
                        i2,
                        b2,
                        j2,
                    ) >= instance.rows_cost(rows),
            decreases m_count - a,
        {
            let len_a = solution.task_assignment_matrix[a].len();
            let mut i: usize = 0;
            while i < len_a
                invariant
                    instance.wf(),
                    instance.fits(),
                    solution.wf(*instance),
                    rows == solution.rows(),
                    m_count == rows.len(),
                    a < m_count,
                    len_a == rows[a as int].len(),
                    i <= len_a,
                    forall|a2: int, i2: int, b2: int, j2: int|
                        inter_swap_ok(rows, a2, i2, b2, j2) && (a2 < a || (a2 == a && i2 < i))
                            ==> #[trigger] inter_swap_cost(*instance, rows, a2, i2, b2, j2)
                            >= instance.rows_cost(rows),
                decreases len_a - i,
            {
                let mut b: usize = 0;
                while b < m_count
                    invariant
                        instance.wf(),
                        instance.fits(),
                        solution.wf(*instance),
                        rows == solution.rows(),
                        m_count == rows.len(),
                        a < m_count,
                        len_a == rows[a as int].len(),
                        i < len_a,
                        b <= m_count,
                        forall|a2: int, i2: int, b2: int, j2: int|
                            inter_swap_ok(rows, a2, i2, b2, j2) && (a2 < a || (a2 == a && i2 < i)
                                || (a2 == a && i2 == i && b2 < b)) ==> #[trigger] inter_swap_cost(
                                *instance,
                                rows,
                                a2,
                                i2,
                                b2,
                                j2,
                            ) >= instance.rows_cost(rows),
                    decreases m_count - b,
                {
                    if b != a {
                        let len_b = solution.task_assignment_matrix[b].len();
                        let mut j: usize = 0;
                        while j < len_b
                            invariant
                                instance.wf(),
                                instance.fits(),
                                solution.wf(*instance),
                                rows == solution.rows(),
                                m_count == rows.len(),
                                a < m_count,
                                len_a == rows[a as int].len(),
                                i < len_a,
                                b < m_count,
                                b != a,
                                len_b == rows[b as int].len(),
                                j <= len_b,
                                forall|a2: int, i2: int, b2: int, j2: int|
                                    inter_swap_ok(rows, a2, i2, b2, j2) && (a2 < a || (a2 == a && i2
                                        < i) || (a2 == a && i2 == i && b2 < b) || (a2 == a && i2
                                        == i && b2 == b && j2 < j)) ==> #[trigger] inter_swap_cost(
                                        *instance,
                                        rows,
                                        a2,
                                        i2,
                                        b2,
                                        j2,
                                    ) >= instance.rows_cost(rows),
                            decreases len_b - j,
                        {
                            let c = solution.eval_inter_swap(instance, a, i, b, j);
                            let ghost ra = rows[a as int].update(i as int, rows[b as int][j as int]);
                            let ghost rb = rows[b as int].update(j as int, rows[a as int][i as int]);
                            proof {
                                instance.lemma_rows_cost_update(rows, a as int, ra);
                                instance.lemma_rows_cost_update(
                                    rows.update(a as int, ra),
                                    b as int,
                                    rb,
                                );
                                assert(rows.update(a as int, ra)[b as int] == rows[b as int]);
                            }
                            let old_a = solution.tcts_by_machine[a];
                            let old_b = solution.tcts_by_machine[b];
                            if (c.0 as u128) + (c.1 as u128) < (old_a as u128) + (old_b as u128) {
                                let mut out = solution.clone();
                                out.apply_inter_swap(instance, a, i, b, j);
                                proof {
                                    assert(out.rows() == inter_swap_rows(
                                        rows,
                                        a as int,
                                        i as int,
                                        b as int,
                                        j as int,
                                    ));
                                    assert(Self::proposes(*instance, rows, out.rows()));
                                    assert(inter_swap_cost(
                                        *instance,
                                        rows,
                                        a as int,
                                        i as int,
                                        b as int,
                                        j as int,
                                    ) < instance.rows_cost(rows));
                                    assert forall|a2: int, i2: int, b2: int, j2: int|
                                        inter_swap_ok(rows, a2, i2, b2, j2) && scanned_before4(
                                            a2,
                                            i2,
                                            b2,
                                            j2,
                                            a as int,
                                            i as int,
                                            b as int,
                                            j as int,
                                        ) implies #[trigger] inter_swap_cost(
                                        *instance,
                                        rows,
                                        a2,
                                        i2,
                                        b2,
                                        j2,
                                    ) >= instance.rows_cost(rows) by {}
                                    assert(Self::selects(*instance, rows, out.rows()));
                                }
                                return Some(out);
                            }
                            j = j + 1;
                        }
                    }
                    b = b + 1;
                }
                i = i + 1;
            }
            a = a + 1;
        }
        proof {
            assert(Self::exhausted(*instance, solution.rows()));
        }
        None
    }
}

impl InterMachineSwapAnxious {
    pub fn new() -> (r: Self)
        ensures
            r == (InterMachineSwapAnxious {  }),
    {
        InterMachineSwapAnxious {  }
    }
}

} // verus!
