//! Greedy (best-improvement) search over exchanges of one task of a machine
//! with one task of another machine.

use vstd::prelude::*;

use crate::problem_instance::ProblemInstance;
use crate::problem_solver::grasp::local_search::{
    inter_swap_cost, inter_swap_ok, inter_swap_rows, LocalSearch,
};
use crate::problem_solver::problem_solution::ProblemSolution;

verus! {

/// A local search that consists on doing swaps between tasks in different
/// machines, taking the best exchange of the whole neighbourhood.
pub struct InterMachineSwap {}

impl LocalSearch for InterMachineSwap {
    /// No exchange between two machines costs less than the assignment as
    /// it stands.
    open spec fn local_optimum(instance: ProblemInstance, rows: Seq<Seq<usize>>) -> bool {
        forall|a: int, i: int, b: int, j: int|
            inter_swap_ok(rows, a, i, b, j) ==> #[trigger] inter_swap_cost(
                instance,
                rows,
                a,
                i,
                b,
                j,
            ) >= instance.rows_cost(rows)
    }

    /// One exchange between two machines: the tasks at position `i` of
    /// machine `a` and position `j` of machine `b` swapped, everything
    /// else untouched.
    open spec fn proposes(
        instance: ProblemInstance,
        rows: Seq<Seq<usize>>,
        rows2: Seq<Seq<usize>>,
    ) -> bool {
        exists|a: int, i: int, b: int, j: int|
            inter_swap_ok(rows, a, i, b, j) && rows2 == #[trigger] inter_swap_rows(
                rows,
                a,
                i,
                b,
                j,
            )
    }

    /// The returned assignment costs no more than any exchange of the
    /// whole neighbourhood.
    open spec fn selects(
        instance: ProblemInstance,
        rows: Seq<Seq<usize>>,
        rows2: Seq<Seq<usize>>,
    ) -> bool {
        forall|a: int, i: int, b: int, j: int|
            inter_swap_ok(rows, a, i, b, j) ==> instance.rows_cost(rows2) <= #[trigger]
            inter_swap_cost(instance, rows, a, i, b, j)
    }

    /// No two machines both hold a task to exchange.
    open spec fn exhausted(instance: ProblemInstance, rows: Seq<Seq<usize>>) -> bool {
        forall|a: int, i: int, b: int, j: int| !(#[trigger] inter_swap_ok(rows, a, i, b, j))
    }

    fn perform_search(instance: &ProblemInstance, solution: &ProblemSolution) -> (r: Option<
        ProblemSolution,
    >) {
        let ghost rows = solution.rows();
        let m_count = solution.task_assignment_matrix.len();
        let mut has_best: bool = false;
        let mut ba: usize = 0;
        let mut bi: usize = 0;
        let mut bb: usize = 0;
        let mut bj: usize = 0;
        let mut bna: usize = 0;
        let mut bnb: usize = 0;
        let ghost mut best_rows_cost: int = 0;
        let mut a: usize = 0;
        while a < m_count
            invariant
                instance.wf(),
                instance.fits(),
                solution.wf(*instance),
                rows == solution.rows(),
                m_count == rows.len(),
                a <= m_count,
                has_best ==> inter_swap_ok(rows, ba as int, bi as int, bb as int, bj as int)
                    && best_rows_cost == inter_swap_cost(
                    *instance,
                    rows,
                    ba as int,
                    bi as int,
                    bb as int,
                    bj as int,
                ) && bna as int + bnb as int == best_rows_cost - instance.rows_cost(rows)
                    + instance.cost(rows[ba as int]) + instance.cost(rows[bb as int]),
                !has_best ==> forall|a2: int, i2: int, b2: int, j2: int|
                    !(inter_swap_ok(rows, a2, i2, b2, j2) && a2 < a),
                has_best ==> forall|a2: int, i2: int, b2: int, j2: int|
                    inter_swap_ok(rows, a2, i2, b2, j2) && a2 < a ==> #[trigger] inter_swap_cost(
                        *instance,
                        rows,
                        a2,
                        i2,
                        b2,
                        j2,
                    ) >= best_rows_cost,
            decreases m_count - a,
        {
            let len_a = solution.task_assignment_matrix[a].len();
            let mut i: usize = 0;
            while i < len_a
                invariant
                    instance.wf(),
                    instance.fits(),
                    solution.wf(*instance),
                    rows == solution.rows(),
                    m_count == rows.len(),
                    a < m_count,
                    len_a == rows[a as int].len(),
                    i <= len_a,
                    has_best ==> inter_swap_ok(rows, ba as int, bi as int, bb as int, bj as int)
                        && best_rows_cost == inter_swap_cost(
                        *instance,
                        rows,
                        ba as int,
                        bi as int,
                        bb as int,
                        bj as int,
                    ) && bna as int + bnb as int == best_rows_cost - instance.rows_cost(rows)
                        + instance.cost(rows[ba as int]) + instance.cost(rows[bb as int]),
                    !has_best ==> forall|a2: int, i2: int, b2: int, j2: int|
                        !(inter_swap_ok(rows, a2, i2, b2, j2) && (a2 < a || (a2 == a && i2 < i))),
                    has_best ==> forall|a2: int, i2: int, b2: int, j2: int|
                        inter_swap_ok(rows, a2, i2, b2, j2) && (a2 < a || (a2 == a && i2 < i))
                            ==> #[trigger] inter_swap_cost(*instance, rows, a2, i2, b2, j2)
                            >= best_rows_cost,
                decreases len_a - i,
            {
                let mut b: usize = 0;
                while b < m_count
                    invariant
                        instance.wf(),
                        instance.fits(),
                        solution.wf(*instance),
                        rows == solution.rows(),
                        m_count == rows.len(),
                        a < m_count,
                        len_a == rows[a as int].len(),
                        i < len_a,
                        b <= m_count,
                        has_best ==> inter_swap_ok(
                            rows,
                            ba as int,
                            bi as int,
                            bb as int,
                            bj as int,
                        ) && best_rows_cost == inter_swap_cost(
                            *instance,
                            rows,
                            ba as int,
                            bi as int,
                            bb as int,
                            bj as int,
                        ) && bna as int + bnb as int == best_rows_cost - instance.rows_cost(rows)
                            + instance.cost(rows[ba as int]) + instance.cost(rows[bb as int]),
                        !has_best ==> forall|a2: int, i2: int, b2: int, j2: int|
                            !(inter_swap_ok(rows, a2, i2, b2, j2) && (a2 < a || (a2 == a && i2 < i)
                                || (a2 == a && i2 == i && b2 < b))),
                        has_best ==> forall|a2: int, i2: int, b2: int, j2: int|
                            inter_swap_ok(rows, a2, i2, b2, j2) && (a2 < a || (a2 == a && i2 < i)
                                || (a2 == a && i2 == i && b2 < b)) ==> #[trigger] inter_swap_cost(
                                *instance,
                                rows,
                                a2,
                                i2,
                                b2,
                                j2,
                            ) >= best_rows_cost,
                    decreases m_count - b,
                {
                    if b != a {
                        let len_b = solution.task_assignment_matrix[b].len();
                        let mut j: usize = 0;
                        while j < len_b
                            invariant
                                instance.wf(),
                                instance.fits(),
                                solution.wf(*instance),
                                rows == solution.rows(),
                                m_count == rows.len(),
                                a < m_count,
                                len_a == rows[a as int].len(),
                                i < len_a,
                                b < m_count,
                                b != a,
                                len_b == rows[b as int].len(),
                                j <= len_b,
                                has_best ==> inter_swap_ok(
                                    rows,
                                    ba as int,
                                    bi as int,
                                    bb as int,
                                    bj as int,
                                ) && best_rows_cost == inter_swap_cost(
                                    *instance,
                                    rows,
                                    ba as int,
                                    bi as int,
                                    bb as int,
                                    bj as int,
                                ) && bna as int + bnb as int == best_rows_cost
                                    - instance.rows_cost(rows) + instance.cost(rows[ba as int])
                                    + instance.cost(rows[bb as int]),
                                !has_best ==> forall|a2: int, i2: int, b2: int, j2: int|
                                    !(inter_swap_ok(rows, a2, i2, b2, j2) && (a2 < a || (a2 == a
                                        && i2 < i) || (a2 == a && i2 == i && b2 < b) || (a2 == a
                                        && i2 == i && b2 == b && j2 < j))),
                                has_best ==> forall|a2: int, i2: int, b2: int, j2: int|
                                    inter_swap_ok(rows, a2, i2, b2, j2) && (a2 < a || (a2 == a && i2
                                        < i) || (a2 == a && i2 == i && b2 < b) || (a2 == a && i2
                                        == i && b2 == b && j2 < j)) ==> #[trigger] inter_swap_cost(
                                        *instance,
                                        rows,
                                        a2,
                                        i2,
                                        b2,
                                        j2,
                                    ) >= best_rows_cost,
                            decreases len_b - j,
                        {
                            let c = solution.eval_inter_swap(instance, a, i, b, j);
                            let ghost ra = rows[a as int].update(i as int, rows[b as int][j as int]);
                            let ghost rb = rows[b as int].update(j as int, rows[a as int][i as int]);
                            proof {
                                instance.lemma_rows_cost_update(rows, a as int, ra);
                                instance.lemma_rows_cost_update(
                                    rows.update(a as int, ra),
                                    b as int,
                                    rb,
                                );
                                assert(rows.update(a as int, ra)[b as int] == rows[b as int]);
                            }
                            let take_it = if !has_best {
                                true
                            } else {
                                let old_a = solution.tcts_by_machine[a];
                                let old_b = solution.tcts_by_machine[b];
                                let old_ba = solution.tcts_by_machine[ba];
                                let old_bb = solution.tcts_by_machine[bb];
                                (c.0 as u128) + (c.1 as u128) + (old_ba as u128) + (old_bb as u128)
                                    < (bna as u128) + (bnb as u128) + (old_a as u128) + (old_b
                                    as u128)
                            };
                            if take_it {
                                has_best = true;
                                ba = a;
                                bi = i;
                                bb = b;
                                bj = j;
                                bna = c.0;
                                bnb = c.1;
                                proof {
                                    best_rows_cost = inter_swap_cost(
                                        *instance,
                                        rows,
                                        a as int,
                                        i as int,
                                        b as int,
                                        j as int,
                                    );
                                }
                            }
                            j = j + 1;
                        }
                    }
                    b = b + 1;
                }
                i = i + 1;
            }
            a = a + 1;
        }
        if !has_best {
            proof {
                assert forall|a2: int, i2: int, b2: int, j2: int|
                    !(#[trigger] inter_swap_ok(rows, a2, i2, b2, j2)) by {
                    if inter_swap_ok(rows, a2, i2, b2, j2) {
                        assert(a2 < m_count);
                    }
                }
                assert(Self::exhausted(*instance, rows));
                assert(Self::exhausted(*instance, solution.rows()));
            }
            return None;
        }
        let mut out = solution.clone();
        proof {
            let bra = rows[ba as int].update(bi as int, rows[bb as int][bj as int]);
            let brb = rows[bb as int].update(bj as int, rows[ba as int][bi as int]);
            instance.lemma_rows_cost_update(rows, ba as int, bra);
            instance.lemma_rows_cost_update(rows.update(ba as int, bra), bb as int, brb);
            assert(rows.update(ba as int, bra)[bb as int] == rows[bb as int]);
        }
        out.apply_inter_swap(instance, ba, bi, bb, bj);
        proof {
            assert(out.rows() == inter_swap_rows(rows, ba as int, bi as int, bb as int, bj as int));
            assert(Self::proposes(*instance, rows, out.rows()));
            assert(instance.rows_cost(out.rows()) == best_rows_cost);
            assert forall|a2: int, i2: int, b2: int, j2: int|
                inter_swap_ok(rows, a2, i2, b2, j2) implies instance.rows_cost(out.rows())
                <= #[trigger] inter_swap_cost(*instance, rows, a2, i2, b2, j2) by {
                assert(a2 < m_count);
            }
            assert(Self::selects(*instance, rows, out.rows()));
        }
        Some(out)
    }
}

impl InterMachineSwap {
    pub fn new() -> (r: Self)
        ensures
            r == (InterMachineSwap {  }),
    {
        InterMachineSwap {  }
    }
}

} // verus!
