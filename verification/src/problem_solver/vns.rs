//! A general VNS implementation: it seeds with one deterministic GRASP
//! pass, then repeatedly perturbs the solution with random inter-machine
//! relocations (the shake) and descends it through an ordered list of
//! neighbourhoods (the VND), keeping improvements; an outer loop repeats
//! the whole search until the stop criterion fires.

use vstd::prelude::*;

use crate::problem_instance::ProblemInstance;
use crate::problem_solver::grasp::local_search::{
    inter_reins_ok, inter_reins_rows, InterMachineReinsertion, InterMachineReinsertionAnxious,
    InterMachineSwap, InterMachineSwapAnxious, IntraMachineReinsertion,
    IntraMachineReinsertionAnxious, IntraMachineSwap, IntraMachineSwapAnxious, LocalSearch,
    NoSearch,
};
use crate::problem_solver::grasp::stop_criterion::{StopCriterion, TotalIterations};
use crate::problem_solver::grasp::GRASP;
use crate::problem_solver::problem_solution::ProblemSolution;
use crate::problem_solver::rng::random_below;
use crate::problem_solver::ProblemSolver;

verus! {

/// One elementary perturbation: a task of one non-empty machine relocated
/// to some position of a different machine.
pub open spec fn shake_step(rows: Seq<Seq<usize>>, rows2: Seq<Seq<usize>>) -> bool {
    exists|a: int, i: int, b: int, pos: int|
        inter_reins_ok(rows, a, i, b, pos) && rows2 == #[trigger] inter_reins_rows(
            rows,
            a,
            i,
            b,
            pos,
        )
}

/// `rows2` arises from `rows` by exactly `k` elementary perturbations.
pub open spec fn shaken(rows: Seq<Seq<usize>>, rows2: Seq<Seq<usize>>, k: nat) -> bool
    decreases k,
{
    if k == 0 {
        rows2 == rows
    } else {
        exists|mid: Seq<Seq<usize>>|
            shaken(rows, mid, (k - 1) as nat) && #[trigger] shake_step(mid, rows2)
    }
}

/// One of the interchangeable local searches, as a value: what the VND
/// walks through.
pub enum SearchKind {
    IntraMachineSwap,
    IntraMachineSwapAnxious,
    IntraMachineReinsertion,
    IntraMachineReinsertionAnxious,
    InterMachineSwap,
    InterMachineSwapAnxious,
    InterMachineReinsertion,
    InterMachineReinsertionAnxious,
    NoSearch,
}

/// What it means for an assignment to be locally optimal for one search
/// kind.
pub open spec fn kind_local_optimum(
    kind: SearchKind,
    instance: ProblemInstance,
    rows: Seq<Seq<usize>>,
) -> bool {
    match kind {
        SearchKind::IntraMachineSwap => IntraMachineSwap::local_optimum(instance, rows),
        SearchKind::IntraMachineSwapAnxious => IntraMachineSwapAnxious::local_optimum(
            instance,
            rows,
        ),
        SearchKind::IntraMachineReinsertion => IntraMachineReinsertion::local_optimum(
            instance,
            rows,
        ),
        SearchKind::IntraMachineReinsertionAnxious => IntraMachineReinsertionAnxious::local_optimum(
            instance,
            rows,
        ),
        SearchKind::InterMachineSwap => InterMachineSwap::local_optimum(instance, rows),
        SearchKind::InterMachineSwapAnxious => InterMachineSwapAnxious::local_optimum(
            instance,
            rows,
        ),
        SearchKind::InterMachineReinsertion => InterMachineReinsertion::local_optimum(
            instance,
            rows,
        ),
        SearchKind::InterMachineReinsertionAnxious => InterMachineReinsertionAnxious::local_optimum(
            instance,
            rows,
        ),
        SearchKind::NoSearch => NoSearch::local_optimum(instance, rows),
    }
}

/// Runs the kind's `improve` on the solution.
fn improve_kind(
    kind: &SearchKind,
    instance: &ProblemInstance,
    solution: ProblemSolution,
) -> (r: ProblemSolution)
    requires
        instance.wf(),
        instance.fits(),
        solution.wf(*instance),
    ensures
        r.wf(*instance),
        r.task_mset() == solution.task_mset(),
        r.caches().len() == solution.caches().len(),
        r.total(*instance) <= solution.total(*instance),
        r.total(*instance) == solution.total(*instance) ==> r.rows() == solution.rows(),
        kind_local_optimum(*kind, *instance, r.rows()),
{
    match kind {
        SearchKind::IntraMachineSwap => (IntraMachineSwap {  }).improve(instance, solution),
        SearchKind::IntraMachineSwapAnxious => (IntraMachineSwapAnxious {  }).improve(
            instance,
            solution,
        ),
        SearchKind::IntraMachineReinsertion => (IntraMachineReinsertion {  }).improve(
            instance,
            solution,
        ),
        SearchKind::IntraMachineReinsertionAnxious => (IntraMachineReinsertionAnxious {  }).improve(
            instance,
            solution,
        ),
        SearchKind::InterMachineSwap => (InterMachineSwap {  }).improve(instance, solution),
        SearchKind::InterMachineSwapAnxious => (InterMachineSwapAnxious {  }).improve(
            instance,
            solution,
        ),
        SearchKind::InterMachineReinsertion => (InterMachineReinsertion {  }).improve(
            instance,
            solution,
        ),
        SearchKind::InterMachineReinsertionAnxious => (InterMachineReinsertionAnxious {  }).improve(
            instance,
            solution,
        ),
        SearchKind::NoSearch => (NoSearch {  }).improve(instance, solution),
    }
}

/// Number of non-empty machines among the first `upto`.
spec fn nonempty_upto(rows: Seq<Seq<usize>>, upto: int) -> int
    decreases upto,
{
    if upto <= 0 {
        0
    } else {
        nonempty_upto(rows, upto - 1) + if rows[upto - 1].len() > 0 {
            1int
        } else {
            0int
        }
    }
}

proof fn lemma_nonempty_upto_nonneg(rows: Seq<Seq<usize>>, upto: int)
    ensures
        0 <= nonempty_upto(rows, upto),
    decreases upto,
{
    if upto > 0 {
        lemma_nonempty_upto_nonneg(rows, upto - 1);
    }
}

proof fn lemma_no_nonempty_sum(rows: Seq<Seq<usize>>, upto: int)
    requires
        0 <= upto <= rows.len(),
        nonempty_upto(rows, upto) == 0,
    ensures
        forall|q: int| 0 <= q < upto ==> (#[trigger] rows[q]).len() == 0,
    decreases upto,
{
    if upto > 0 {
        lemma_nonempty_upto_nonneg(rows, upto - 1);
        lemma_no_nonempty_sum(rows, upto - 1);
    }
}

proof fn lemma_empty_rows_len_sum(rows: Seq<Seq<usize>>)
    requires
        forall|q: int| 0 <= q < rows.len() ==> (#[trigger] rows[q]).len() == 0,
    ensures
        crate::problem_instance::cost::rows_len_sum(rows) == 0,
    decreases rows.len(),
{
    if rows.len() > 0 {
        assert forall|q: int|
            0 <= q < rows.drop_last().len() implies (#[trigger] rows.drop_last()[q]).len()
            == 0 by {
            assert(rows.drop_last()[q] == rows[q]);
        }
        lemma_empty_rows_len_sum(rows.drop_last());
    }
}

/// Picks a uniformly random machine among those with at least one task.
fn pick_random_nonempty_machine(solution: &ProblemSolution) -> (fm: usize)
    requires
        solution.task_mset().len() >= 1,
    ensures
        (fm as int) < solution.rows().len(),
        solution.rows()[fm as int].len() >= 1,
{
    let ghost rows = solution.rows();
    let m_count = solution.task_assignment_matrix.len();
    let mut c: usize = 0;
    let mut idx: usize = 0;
    while idx < m_count
        invariant
            rows == solution.rows(),
            m_count == rows.len(),
            idx <= m_count,
            c as int == nonempty_upto(rows, idx as int),
            c <= idx,
        decreases m_count - idx,
    {
        if solution.task_assignment_matrix[idx].len() > 0 {
            c = c + 1;
        }
        idx = idx + 1;
    }
    proof {
        if c == 0 {
            lemma_no_nonempty_sum(rows, m_count as int);
            lemma_empty_rows_len_sum(rows);
            crate::problem_instance::cost::lemma_rows_mset_len(rows);
            assert(false);
        }
    }
    let j = random_below(c);
    let mut cnt: usize = 0;
    let mut k: usize = 0;
    while k < m_count
        invariant
            rows == solution.rows(),
            m_count == rows.len(),
            k <= m_count,
            cnt as int == nonempty_upto(rows, k as int),
            cnt <= j,
            (j as int) < nonempty_upto(rows, m_count as int),
        decreases m_count - k,
    {
        if solution.task_assignment_matrix[k].len() > 0 {
            if cnt == j {
                return k;
            }
            cnt = cnt + 1;
        }
        k = k + 1;
    }
    proof {
        assert(false);
    }
    0
}

/// A VNS implementation.  The neighbourhoods used and the stop criterion
/// can be specified in the constructor.  It creates new solutions until the
/// stop criterion is fulfilled: each is built with a deterministic GRASP
/// pass and then repeatedly shaken and descended; a solution found that is
/// better than the actual one replaces it.  The number of random
/// relocations of the shake increases each time the solution found was
/// worse or equal than the actual one, up to a maximum given in the
/// constructor.
pub struct VNS<S: StopCriterion> {
    pub max_k: usize,
    pub stop_criterion: S,
    pub searches: Vec<SearchKind>,
}

impl<S: StopCriterion> ProblemSolver for VNS<S> {
    open spec fn pre(self, instance: ProblemInstance) -> bool {
        &&& self.max_k >= 1
        &&& self.max_k < usize::MAX
        &&& self.stop_criterion.inv()
        &&& instance.wf()
        &&& instance.fits()
        &&& instance.task_count() >= 2
        &&& instance.machine_count() >= 2
        &&& instance.task_count() <= usize::MAX as int
    }

    /// Every returned solution is a local optimum of the seeding descent's
    /// neighbourhood, or of every neighbourhood in the configured list
    /// (what the variable neighbourhood descent leaves behind).
    open spec fn post(self, instance: ProblemInstance, rows: Seq<Seq<usize>>) -> bool {
        ||| InterMachineReinsertion::local_optimum(instance, rows)
        ||| forall|si: int|
            0 <= si < self.searches@.len() ==> kind_local_optimum(
                #[trigger] self.searches@[si],
                instance,
                rows,
            )
    }

    fn solve(&mut self, instance: &ProblemInstance) -> (r: ProblemSolution) {
        let mut solution = self.search(instance);
        proof {
            solution.lemma_total_fits(*instance);
        }
        let mut solution_tct = solution.get_total_completion_time();
        if self.stop_criterion.stop(solution_tct, solution_tct) {
            return solution;
        }
        loop
            invariant
                instance.wf(),
                instance.fits(),
                instance.task_count() >= 2,
                instance.machine_count() >= 2,
                instance.task_count() <= usize::MAX as int,
                self.max_k >= 1,
                self.max_k < usize::MAX,
                self.stop_criterion.inv(),
                solution.wf(*instance),
                solution.complete(*instance),
                solution.rows().len() == vstd::math::min(
                    instance.machine_count(),
                    instance.task_count(),
                ),
                self.searches == old(self).searches,
                self.max_k == old(self).max_k,
                InterMachineReinsertion::local_optimum(*instance, solution.rows()) || (forall|
                    si: int,
                |
                    0 <= si < self.searches@.len() ==> kind_local_optimum(
                        #[trigger] self.searches@[si],
                        *instance,
                        solution.rows(),
                    )),
                solution_tct as int == solution.total(*instance),
            decreases solution_tct as int, self.stop_criterion.fuel(),
        {
            let new_solution = self.search(instance);
            proof {
                new_solution.lemma_total_fits(*instance);
                solution.lemma_total_fits(*instance);
            }
            let new_solution_tct = new_solution.get_total_completion_time();
            if self.stop_criterion.stop(solution_tct, new_solution_tct) {
                if solution_tct <= new_solution_tct {
                    return solution;
                } else {
                    return new_solution;
                }
            }
            if new_solution_tct < solution_tct {
                solution = new_solution;
                solution_tct = new_solution_tct;
            }
        }
    }
}

impl<S: StopCriterion> VNS<S> {
    /// Creates a new instance with the specified maximum number of random
    /// relocations, stop criterion and local searches.  The maximum must be
    /// positive; the order of the searches in the vector is preserved and
    /// can affect the performance of the algorithm.
    pub fn new(max_k: usize, stop_criterion: S, searches: Vec<SearchKind>) -> (r: Self)
        requires
            max_k >= 1,
        ensures
            r.max_k == max_k,
            r.stop_criterion == stop_criterion,
            r.searches == searches,
    {
        VNS { max_k, stop_criterion, searches }
    }

    /// One full search: a deterministic GRASP seed, then shake-and-descend
    /// with growing perturbation strength until it exceeds the maximum.
    fn search(&self, instance: &ProblemInstance) -> (r: ProblemSolution)
        requires
            instance.wf(),
            instance.fits(),
            self.max_k >= 1,
            self.max_k < usize::MAX,
            instance.task_count() >= 2,
            instance.machine_count() >= 2,
            instance.task_count() <= usize::MAX as int,
        ensures
            r.wf(*instance),
            r.complete(*instance),
            r.rows().len() == vstd::math::min(instance.machine_count(), instance.task_count()),
            InterMachineReinsertion::local_optimum(*instance, r.rows()) || (forall|si: int|
                0 <= si < self.searches@.len() ==> kind_local_optimum(
                    #[trigger] self.searches@[si],
                    *instance,
                    r.rows(),
                )),
    {
        let mut grasp = GRASP::new(1, InterMachineReinsertion::new(), TotalIterations::new(1));
        let mut solution = grasp.solve(instance);
        let mut k: usize = 1;
        while k <= self.max_k
            invariant
                instance.wf(),
                instance.fits(),
                instance.task_count() >= 2,
                instance.machine_count() >= 2,
                instance.task_count() <= usize::MAX as int,
                self.max_k < usize::MAX,
                solution.wf(*instance),
                solution.complete(*instance),
                solution.rows().len() == vstd::math::min(
                    instance.machine_count(),
                    instance.task_count(),
                ),
                InterMachineReinsertion::local_optimum(*instance, solution.rows()) || (forall|
                    si: int,
                |
                    0 <= si < self.searches@.len() ==> kind_local_optimum(
                        #[trigger] self.searches@[si],
                        *instance,
                        solution.rows(),
                    )),
                k >= 1,
            decreases solution.total(*instance), self.max_k + 1 - k,
        {
            proof {
                solution.lemma_total_fits(*instance);
                crate::problem_instance::cost::lemma_full_task_mset_len(instance.task_count());
            }
            let mut new_solution = Self::shake(instance, solution.clone(), k);
            new_solution = self.vnd(instance, new_solution);
            proof {
                new_solution.lemma_total_fits(*instance);
            }
            let new_tct = new_solution.get_total_completion_time();
            let cur_tct = solution.get_total_completion_time();
            if cur_tct <= new_tct {
                k = k + 1;
            } else {
                solution = new_solution;
                k = 1;
            }
        }
        solution
    }

    /// Performs `number_of_shakes` random elementary moves: each relocates a
    /// random task of a random non-empty machine to a random position of a
    /// random different machine, keeping both machines' cached costs fresh.
    fn shake(
        instance: &ProblemInstance,
        solution: ProblemSolution,
        number_of_shakes: usize,
    ) -> (r: ProblemSolution)
        requires
            instance.wf(),
            instance.fits(),
            solution.wf(*instance),
            solution.rows().len() >= 2,
            solution.task_mset().len() >= 1,
            instance.task_count() <= usize::MAX as int,
        ensures
            r.wf(*instance),
            r.task_mset() == solution.task_mset(),
            r.rows().len() == solution.rows().len(),
            shaken(solution.rows(), r.rows(), number_of_shakes as nat),
    {
        let mut sol = solution;
        let mut s: usize = 0;
        while s < number_of_shakes
            invariant
                instance.wf(),
                instance.fits(),
                instance.task_count() <= usize::MAX as int,
                sol.wf(*instance),
                sol.task_mset() == solution.task_mset(),
                sol.rows().len() == solution.rows().len(),
                sol.rows().len() >= 2,
                sol.task_mset().len() >= 1,
                s <= number_of_shakes,
                shaken(solution.rows(), sol.rows(), s as nat),
            decreases number_of_shakes - s,
        {
            let from_machine = pick_random_nonempty_machine(&sol);
            let from_pos = random_below(sol.task_assignment_matrix[from_machine].len());
            let to_draw = random_below(sol.task_assignment_matrix.len() - 1);
            let to_machine = if to_draw >= from_machine {
                to_draw + 1
            } else {
                to_draw
            };
            proof {
                sol.lemma_other_row_not_full(
                    *instance,
                    from_machine as int,
                    to_machine as int,
                    from_pos as int,
                );
            }
            let to_pos = random_below(sol.task_assignment_matrix[to_machine].len() + 1);
            let ghost prev_rows = sol.rows();
            sol.apply_inter_reinsert(instance, from_machine, from_pos, to_machine, to_pos);
            proof {
                assert(inter_reins_ok(
                    prev_rows,
                    from_machine as int,
                    from_pos as int,
                    to_machine as int,
                    to_pos as int,
                ));
                assert(sol.rows() == inter_reins_rows(
                    prev_rows,
                    from_machine as int,
                    from_pos as int,
                    to_machine as int,
                    to_pos as int,
                ));
                assert(shake_step(prev_rows, sol.rows()));
                assert(shaken(solution.rows(), sol.rows(), (s + 1) as nat));
            }
            s = s + 1;
        }
        sol
    }

    /// Variable neighbourhood descent: walks the list of searches, running
    /// each to a local optimum; any strict improvement restarts the walk.
    /// The result costs no more than the argument and is a local optimum of
    /// every search in the list.
    fn vnd(&self, instance: &ProblemInstance, solution: ProblemSolution) -> (r: ProblemSolution)
        requires
            instance.wf(),
            instance.fits(),
            solution.wf(*instance),
        ensures
            r.wf(*instance),
            r.task_mset() == solution.task_mset(),
            r.rows().len() == solution.rows().len(),
            r.total(*instance) <= solution.total(*instance),
            forall|si: int|
                0 <= si < self.searches@.len() ==> kind_local_optimum(
                    #[trigger] self.searches@[si],
                    *instance,
                    r.rows(),
                ),
    {
        let ghost start = solution;
        let mut cur = solution;
        let mut search_index: usize = 0;
        while search_index < self.searches.len()
            invariant
                instance.wf(),
                instance.fits(),
                cur.wf(*instance),
                cur.task_mset() == start.task_mset(),
                cur.caches().len() == start.caches().len(),
                cur.total(*instance) <= start.total(*instance),
                start == solution,
                search_index <= self.searches@.len(),
                forall|si: int|
                    0 <= si < search_index ==> kind_local_optimum(
                        #[trigger] self.searches@[si],
                        *instance,
                        cur.rows(),
                    ),
            decreases cur.total(*instance), self.searches@.len() - search_index,
        {
            proof {
                cur.lemma_total_fits(*instance);
            }
            let cloned = cur.clone();
            let cand = improve_kind(&self.searches[search_index], instance, cloned);
            proof {
                cand.lemma_total_fits(*instance);
                assert(cand.total(*instance) <= cur.total(*instance));
            }
            let cand_tct = cand.get_total_completion_time();
            let cur_tct = cur.get_total_completion_time();
            if cand_tct < cur_tct {
                cur = cand;
                search_index = 0;
            } else {
                proof {
                    assert(cand.rows() == cur.rows());
                }
                search_index = search_index + 1;
            }
        }
        cur
    }
}

} // verus!
