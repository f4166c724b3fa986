//! Local searches: eight interchangeable neighbourhood structures behind one
//! contract, plus an identity search.  A greedy search explores its whole
//! neighbourhood and moves to the best solution in it; an anxious search
//! moves to the first strictly better solution it finds.

use vstd::prelude::*;

mod inter_machine_reinsertion;
mod inter_machine_reinsertion_anxious;
mod inter_machine_swap;
mod inter_machine_swap_anxious;
mod intra_machine_reinsertion;
mod intra_machine_reinsertion_anxious;
mod intra_machine_swap;
mod intra_machine_swap_anxious;
mod no_search;

pub use inter_machine_reinsertion::InterMachineReinsertion;
pub use inter_machine_reinsertion_anxious::InterMachineReinsertionAnxious;
pub use inter_machine_swap::InterMachineSwap;
pub use inter_machine_swap_anxious::InterMachineSwapAnxious;
pub use intra_machine_reinsertion::IntraMachineReinsertion;
pub use intra_machine_reinsertion_anxious::IntraMachineReinsertionAnxious;
pub use intra_machine_swap::IntraMachineSwap;
pub use intra_machine_swap_anxious::IntraMachineSwapAnxious;
pub use no_search::NoSearch;

use crate::problem_instance::ProblemInstance;
use crate::problem_solver::problem_solution::{ProblemSolution, reinsert_seq, swap_seq};

verus! {

/// `(k, i, j)` names a swap inside one machine: two distinct positions of
/// machine `k`.
pub open spec fn intra_swap_ok(rows: Seq<Seq<usize>>, k: int, i: int, j: int) -> bool {
    &&& 0 <= k < rows.len()
    &&& 0 <= i < rows[k].len()
    &&& 0 <= j < rows[k].len()
    &&& i != j
}

/// Cost of the whole assignment after the swap `(k, i, j)`.
pub open spec fn intra_swap_cost(
    instance: ProblemInstance,
    rows: Seq<Seq<usize>>,
    k: int,
    i: int,
    j: int,
) -> int {
    instance.rows_cost(rows.update(k, swap_seq(rows[k], i, j)))
}

/// Where a task removed from position `from` lands when the requested slot
/// was `toraw`, counted before the removal.
pub open spec fn reins_target(from: int, toraw: int) -> int {
    if toraw > from {
        toraw - 1
    } else {
        toraw
    }
}

/// `(k, from, toraw)` names a reinsertion inside machine `k`: the machine
/// has at least two tasks, and the requested slot differs from the source.
pub open spec fn intra_reins_ok(rows: Seq<Seq<usize>>, k: int, from: int, toraw: int) -> bool {
    &&& 0 <= k < rows.len()
    &&& rows[k].len() >= 2
    &&& 0 <= from < rows[k].len()
    &&& 0 <= toraw <= rows[k].len()
    &&& toraw != from
}

/// Cost of the whole assignment after the reinsertion `(k, from, toraw)`.
pub open spec fn intra_reins_cost(
    instance: ProblemInstance,
    rows: Seq<Seq<usize>>,
    k: int,
    from: int,
    toraw: int,
) -> int {
    instance.rows_cost(rows.update(k, reinsert_seq(rows[k], from, reins_target(from, toraw))))
}

/// `(a, i, b, j)` names an exchange of the task at position `i` of machine
/// `a` with the task at position `j` of machine `b`.
pub open spec fn inter_swap_ok(rows: Seq<Seq<usize>>, a: int, i: int, b: int, j: int) -> bool {
    &&& 0 <= a < rows.len()
    &&& 0 <= b < rows.len()
    &&& a != b
    &&& 0 <= i < rows[a].len()
    &&& 0 <= j < rows[b].len()
}

/// The assignment after the exchange `(a, i, b, j)`.
pub open spec fn inter_swap_rows(rows: Seq<Seq<usize>>, a: int, i: int, b: int, j: int) -> Seq<
    Seq<usize>,
> {
    rows.update(a, rows[a].update(i, rows[b][j])).update(b, rows[b].update(j, rows[a][i]))
}

/// Cost of the whole assignment after the exchange `(a, i, b, j)`.
pub open spec fn inter_swap_cost(
    instance: ProblemInstance,
    rows: Seq<Seq<usize>>,
    a: int,
    i: int,
    b: int,
    j: int,
) -> int {
    instance.rows_cost(inter_swap_rows(rows, a, i, b, j))
}

/// `(a, i, b, pos)` names a relocation of the task at position `i` of
/// machine `a` to slot `pos` of machine `b`.
pub open spec fn inter_reins_ok(rows: Seq<Seq<usize>>, a: int, i: int, b: int, pos: int) -> bool {
    &&& 0 <= a < rows.len()
    &&& 0 <= b < rows.len()
    &&& a != b
    &&& 0 <= i < rows[a].len()
    &&& 0 <= pos <= rows[b].len()
}

/// The assignment after the relocation `(a, i, b, pos)`.
pub open spec fn inter_reins_rows(rows: Seq<Seq<usize>>, a: int, i: int, b: int, pos: int) -> Seq<
    Seq<usize>,
> {
    rows.update(a, rows[a].remove(i)).update(b, rows[b].insert(pos, rows[a][i]))
}

/// Cost of the whole assignment after the relocation `(a, i, b, pos)`.
pub open spec fn inter_reins_cost(
    instance: ProblemInstance,
    rows: Seq<Seq<usize>>,
    a: int,
    i: int,
    b: int,
    pos: int,
) -> int {
    instance.rows_cost(inter_reins_rows(rows, a, i, b, pos))
}

/// A trait that specifies how a local search should behave.  A local search
/// looks for better solutions inside one neighbourhood of the current
/// solution, and `improve` repeats it until no better solution is found.
pub trait LocalSearch: Sized {
    /// No move of this neighbourhood lowers the cost of the assignment
    /// `rows`: the assignment is a local optimum of the neighbourhood.
    spec fn local_optimum(instance: ProblemInstance, rows: Seq<Seq<usize>>) -> bool;

    /// `rows2` arises from `rows` by one move of this neighbourhood.
    spec fn proposes(
        instance: ProblemInstance,
        rows: Seq<Seq<usize>>,
        rows2: Seq<Seq<usize>>,
    ) -> bool;

    /// What the returned move satisfies beyond being one move of the
    /// neighbourhood: the greedy searches return a minimum-cost move of the
    /// whole neighbourhood, the anxious ones the first strictly improving
    /// move of their fixed scan order.
    spec fn selects(
        instance: ProblemInstance,
        rows: Seq<Seq<usize>>,
        rows2: Seq<Seq<usize>>,
    ) -> bool;

    /// What `None` reports beyond local optimality: the greedy searches
    /// return nothing only on an empty neighbourhood, the anxious ones
    /// exactly on a local optimum.
    spec fn exhausted(instance: ProblemInstance, rows: Seq<Seq<usize>>) -> bool;

    /// Performs a local search **only** in the environment of the actual
    /// solution.  `None` means the neighbourhood offers nothing (see
    /// `exhausted`) and the current solution is a local optimum of it; a
    /// returned solution is one move of this neighbourhood away, chosen as
    /// `selects` says, places exactly the same tasks and, if it does not
    /// beat the current cost, the current solution is a local optimum too.
    fn perform_search(instance: &ProblemInstance, solution: &ProblemSolution) -> (r: Option<
        ProblemSolution,
    >)
        requires
            instance.wf(),
            instance.fits(),
            solution.wf(*instance),
        ensures
            match r {
                None => Self::local_optimum(*instance, solution.rows()) && Self::exhausted(
                    *instance,
                    solution.rows(),
                ),
                Some(s2) => {
                    &&& s2.wf(*instance)
                    &&& s2.task_mset() == solution.task_mset()
                    &&& s2.caches().len() == solution.caches().len()
                    &&& Self::proposes(*instance, solution.rows(), s2.rows())
                    &&& Self::selects(*instance, solution.rows(), s2.rows())
                    &&& (s2.total(*instance) >= solution.total(*instance)
                        ==> Self::local_optimum(*instance, solution.rows()))
                },
            },
    ;

    /// Performs local searches until there is no better solution in the
    /// neighbourhood: the result is reached from the argument by a chain of
    /// moves of this neighbourhood, costs no more, places the same tasks,
    /// and is a local optimum of this neighbourhood.
    fn improve(&self, instance: &ProblemInstance, solution: ProblemSolution) -> (r:
        ProblemSolution)
        requires
            instance.wf(),
            instance.fits(),
            solution.wf(*instance),
        ensures
            r.wf(*instance),
            r.task_mset() == solution.task_mset(),
            r.caches().len() == solution.caches().len(),
            r.total(*instance) <= solution.total(*instance),
            r.total(*instance) == solution.total(*instance) ==> r.rows() == solution.rows(),
            Self::local_optimum(*instance, r.rows()),
            exists|trace: Seq<Seq<Seq<usize>>>|
                #![trigger trace.len()]
                {
                    &&& trace.len() >= 1
                    &&& trace.first() == solution.rows()
                    &&& trace.last() == r.rows()
                    &&& forall|q: int|
                        0 <= q < trace.len() - 1 ==> Self::proposes(
                            *instance,
                            #[trigger] trace[q],
                            trace[q + 1],
                        )
                },
    {
        let ghost start = solution;
        let ghost mut trace: Seq<Seq<Seq<usize>>> = seq![solution.rows()];
        let mut cur = solution;
        loop
            invariant
                start == solution,
                instance.wf(),
                instance.fits(),
                cur.wf(*instance),
                cur.task_mset() == start.task_mset(),
                cur.caches().len() == start.caches().len(),
                cur.total(*instance) <= start.total(*instance),
                cur.total(*instance) == start.total(*instance) ==> cur.rows() == start.rows(),
                trace.len() >= 1,
                trace.first() == start.rows(),
                trace.last() == cur.rows(),
                forall|q: int|
                    0 <= q < trace.len() - 1 ==> Self::proposes(
                        *instance,
                        #[trigger] trace[q],
                        trace[q + 1],
                    ),
            decreases cur.total(*instance),
        {
            proof {
                cur.lemma_total_fits(*instance);
            }
            match Self::perform_search(instance, &cur) {
                None => {
                    proof {
                        assert(exists|trace2: Seq<Seq<Seq<usize>>>|
                            #![trigger trace2.len()]
                            {
                                &&& trace2.len() >= 1
                                &&& trace2.first() == solution.rows()
                                &&& trace2.last() == cur.rows()
                                &&& forall|q: int|
                                    0 <= q < trace2.len() - 1 ==> Self::proposes(
                                        *instance,
                                        #[trigger] trace2[q],
                                        trace2[q + 1],
                                    )
                            }) by {
                            assert(trace.len() >= 1 && trace.first() == solution.rows()
                                && trace.last() == cur.rows());
                        }
                    }
                    return cur;
                },
                Some(next) => {
                    proof {
                        next.lemma_total_fits(*instance);
                    }
                    let next_tct = next.get_total_completion_time();
                    let cur_tct = cur.get_total_completion_time();
                    if next_tct >= cur_tct {
                        proof {
                            assert(exists|trace2: Seq<Seq<Seq<usize>>>|
                                #![trigger trace2.len()]
                                {
                                    &&& trace2.len() >= 1
                                    &&& trace2.first() == solution.rows()
                                    &&& trace2.last() == cur.rows()
                                    &&& forall|q: int|
                                        0 <= q < trace2.len() - 1 ==> Self::proposes(
                                            *instance,
                                            #[trigger] trace2[q],
                                            trace2[q + 1],
                                        )
                                }) by {
                                assert(trace.len() >= 1 && trace.first() == solution.rows()
                                    && trace.last() == cur.rows());
                            }
                        }
                        return cur;
                    }
                    proof {
                        assert(Self::proposes(*instance, cur.rows(), next.rows()));
                        let grown = trace.push(next.rows());
                        assert(grown.last() == next.rows());
                        assert(grown.first() == start.rows());
                        assert forall|q: int|
                            0 <= q < grown.len() - 1 implies Self::proposes(
                            *instance,
                            #[trigger] grown[q],
                            grown[q + 1],
                        ) by {
                            if q < trace.len() - 1 {
                                assert(grown[q] == trace[q]);
                                assert(grown[q + 1] == trace[q + 1]);
                            } else {
                                assert(grown[q] == trace[trace.len() - 1]);
                                assert(grown[q + 1] == next.rows());
                            }
                        }
                        trace = grown;
                    }
                    cur = next;
                },
            }
        }
    }
}

/// Scan order of a three-index neighbourhood: machine first, then source
/// position, then target index.
pub open spec fn scanned_before3(k2: int, i2: int, j2: int, k: int, i: int, j: int) -> bool {
    k2 < k || (k2 == k && i2 < i) || (k2 == k && i2 == i && j2 < j)
}

/// Scan order of a four-index neighbourhood: source machine, source
/// position, target machine, target index.
pub open spec fn scanned_before4(
    a2: int,
    i2: int,
    b2: int,
    p2: int,
    a: int,
    i: int,
    b: int,
    p: int,
) -> bool {
    a2 < a || (a2 == a && i2 < i) || (a2 == a && i2 == i && b2 < b) || (a2 == a && i2 == i && b2
        == b && p2 < p)
}

} // verus!
