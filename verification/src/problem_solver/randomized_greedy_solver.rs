//! A greedy construction that creates a solution by evaluating, in each
//! step, every machine, unassigned task and insertion position, taking the
//! candidates with the lowest marginal cost and choosing randomly between
//! them.

use vstd::prelude::*;
use vstd::multiset::Multiset;

use crate::problem_instance::ProblemInstance;
use crate::problem_solver::problem_solution::ProblemSolution;
use crate::problem_solver::rng::random_below;
use crate::problem_solver::{
    assigned_matches, cand_delta, cand_ok, choose_initial_tasks, constructed_by_insertions,
    inserted_from, inserted_step, pick_k_lowest, seeded_greedily, NewTask, ProblemSolver,
};

verus! {

/// `(m2, t, pos)` names the insertion of the unassigned task `t` at
/// position `pos` of machine `m2`.
pub(crate) open spec fn ins_ok(
    sol: ProblemSolution,
    assigned: Seq<bool>,
    m2: int,
    t: int,
    pos: int,
) -> bool {
    &&& 0 <= m2 < sol.rows().len()
    &&& 0 <= pos <= sol.rows()[m2].len()
    &&& 0 <= t < assigned.len()
    &&& !assigned[t]
}

/// The marginal cost delta of inserting task `t` at `pos` of machine `m2`.
pub(crate) open spec fn ins_delta(
    instance: ProblemInstance,
    sol: ProblemSolution,
    m2: int,
    t: int,
    pos: int,
) -> int {
    instance.cost(sol.rows()[m2].insert(pos, t as usize)) - instance.cost(sol.rows()[m2])
}

/// Whether the candidate list holds the insertion `(m2, t, pos)`.
pub(crate) open spec fn tri_selected(rs: Seq<NewTask>, m2: int, t: int, pos: int) -> bool {
    exists|idx: int|
        0 <= idx < rs.len() && (#[trigger] rs[idx]).machine == m2 && rs[idx].task == t
            && rs[idx].position == pos
}

/// A greedy algorithm that creates a solution for the problem by evaluating
/// in each step the best position and machine to add a determined task to
/// the solution and taking the k best possible insertions.  It then chooses
/// randomly between those.
pub struct RandomizedGreedySolver {
    pub size_to_choose_from: usize,
}

impl ProblemSolver for RandomizedGreedySolver {
    open spec fn pre(self, instance: ProblemInstance) -> bool {
        &&& self.size_to_choose_from >= 1
        &&& instance.wf()
        &&& instance.fits()
        &&& (instance.task_count() >= 1 ==> instance.machine_count() >= 1)
    }

    /// The result is built by a greedy seeding and then insertions of
    /// unplaced tasks; which of the lowest-delta insertions each step
    /// takes is random, so no more is promised of the choice.
    open spec fn post(self, instance: ProblemInstance, rows: Seq<Seq<usize>>) -> bool {
        constructed_by_insertions(instance, rows)
    }

    fn solve(&mut self, instance: &ProblemInstance) -> (r: ProblemSolution) {
        let n_tasks = instance.task_times.len();
        let mut assigned: Vec<bool> = vec![false; n_tasks];
        let mut solution = ProblemSolution {
            tcts_by_machine: Vec::new(),
            task_assignment_matrix: Vec::new(),
        };
        proof {
            assert(assigned@ =~= Seq::new(n_tasks as nat, |i: int| false));
        }
        choose_initial_tasks(instance, &mut solution, &mut assigned);
        let ghost seed = solution.rows();
        let ghost mut steps: nat = 0;
        let mut done = solution.task_assignment_matrix.len();
        proof {
            crate::problem_instance::cost::lemma_rows_mset_len(solution.rows());
        }
        while done < n_tasks
            invariant
                instance.wf(),
                instance.fits(),
                self.size_to_choose_from >= 1,
                n_tasks as int == instance.task_count(),
                solution.wf(*instance),
                assigned_matches(*instance, solution, assigned@),
                solution.rows().len() == vstd::math::min(
                    instance.machine_count(),
                    instance.task_count(),
                ),
                done <= n_tasks,
                done as int == solution.task_mset().len(),
                n_tasks >= 1 ==> solution.rows().len() >= 1,
                seeded_greedily(*instance, seed),
                seed.len() == vstd::math::min(instance.machine_count(), instance.task_count()),
                inserted_from(*instance, seed, solution.rows(), steps),
            decreases n_tasks - done,
        {
            let ghost prev_rows = solution.rows();
            self.add_task(&mut solution, instance, &mut assigned);
            proof {
                assert(inserted_from(*instance, seed, solution.rows(), (steps + 1) as nat));
                steps = (steps + 1) as nat;
            }
            done = done + 1;
        }
        proof {
            crate::problem_instance::cost::lemma_complete_from_len(
                solution.task_mset(),
                instance.task_count(),
            );
            assert(constructed_by_insertions(*instance, solution.rows()));
        }
        solution
    }
}

impl RandomizedGreedySolver {
    /// Creates a new solver that will use the argument passed as k.
    pub fn new(size_to_choose_from: usize) -> (r: Self)
        ensures
            r.size_to_choose_from == size_to_choose_from,
    {
        RandomizedGreedySolver { size_to_choose_from }
    }

    /// Inserts one more task: the candidates with the `k` lowest marginal
    /// costs are gathered and one of them is drawn at random.
    fn add_task(
        &self,
        solution: &mut ProblemSolution,
        instance: &ProblemInstance,
        assigned: &mut Vec<bool>,
    )
        requires
            instance.wf(),
            instance.fits(),
            self.size_to_choose_from >= 1,
            old(solution).wf(*instance),
            assigned_matches(*instance, *old(solution), old(assigned)@),
            old(solution).task_mset().len() < instance.task_count(),
            old(solution).rows().len() >= 1,
            instance.task_count() <= usize::MAX as int,
        ensures
            final(solution).wf(*instance),
            assigned_matches(*instance, *final(solution), final(assigned)@),
            final(solution).rows().len() == old(solution).rows().len(),
            final(solution).task_mset().len() == old(solution).task_mset().len() + 1,
            inserted_step(*instance, old(solution).rows(), final(solution).rows()),
    {
        let possible_tasks = self.get_best_new_tasks(solution, instance, assigned);
        let election = random_below(possible_tasks.len());
        let machine = possible_tasks[election].machine;
        let task = possible_tasks[election].task;
        let position = possible_tasks[election].position;
        proof {
            assert(cand_ok(*instance, *solution, assigned@, possible_tasks@[election as int]));
            assert(solution.task_mset().count(task) == 0);
        }
        let ghost prev_sol = *solution;
        let ghost prev_assigned = assigned@;
        solution.apply_insert(instance, machine, position, task);
        assigned[task] = true;
        proof {
            broadcast use vstd::multiset::group_multiset_axioms;

            assert(assigned_matches(*instance, prev_sol, prev_assigned));
            assert(assigned@ == prev_assigned.update(task as int, true));
            assert forall|x: usize|
                solution.task_mset().count(x) == if (x as int) < assigned@.len()
                    && assigned@[x as int] {
                    1int
                } else {
                    0int
                } by {
                assert(prev_sol.task_mset().count(x) == if (x as int) < prev_assigned.len()
                    && prev_assigned[x as int] {
                    1int
                } else {
                    0int
                });
                assert(solution.task_mset().count(x) == prev_sol.task_mset().count(x) + if x
                    == task {
                    1int
                } else {
                    0int
                });
            }
            assert(solution.task_mset() =~= prev_sol.task_mset().insert(task));
            assert(solution.task_mset().len() == prev_sol.task_mset().len() + 1);
            assert(solution.rows() == prev_sol.rows().update(
                machine as int,
                prev_sol.rows()[machine as int].insert(position as int, task),
            ));
            assert(prev_sol.task_mset().count(task) == 0);
            assert(inserted_step(*instance, prev_sol.rows(), solution.rows()));
        }
    }

    /// Evaluates every legal (machine, task, insertion position) combination
    /// and returns candidates with the lowest marginal cost deltas: every
    /// combination left out is no better than any returned one, and fewer
    /// than `k` come back only when every combination was returned.
    fn get_best_new_tasks(
        &self,
        solution: &ProblemSolution,
        instance: &ProblemInstance,
        assigned: &Vec<bool>,
    ) -> (r: Vec<NewTask>)
        requires
            instance.wf(),
            instance.fits(),
            self.size_to_choose_from >= 1,
            solution.wf(*instance),
            assigned_matches(*instance, *solution, assigned@),
            solution.task_mset().len() < instance.task_count(),
            solution.rows().len() >= 1,
            instance.task_count() <= usize::MAX as int,
        ensures
            1 <= r@.len() <= self.size_to_choose_from,
            forall|idx: int|
                0 <= idx < r@.len() ==> cand_ok(*instance, *solution, assigned@, #[trigger] r@[idx]),
            forall|m2: int, t: int, pos: int|
                ins_ok(*solution, assigned@, m2, t, pos) ==> tri_selected(r@, m2, t, pos) || (
                forall|idx: int|
                    0 <= idx < r@.len() ==> cand_delta(#[trigger] r@[idx]) <= ins_delta(
                        *instance,
                        *solution,
                        m2,
                        t,
                        pos,
                    )),
            r@.len() < self.size_to_choose_from ==> forall|m2: int, t: int, pos: int|
                ins_ok(*solution, assigned@, m2, t, pos) ==> tri_selected(r@, m2, t, pos),
            forall|i1: int, i2: int|
                0 <= i1 < i2 < r@.len() ==> cand_delta(#[trigger] r@[i1]) <= cand_delta(
                    #[trigger] r@[i2],
                ),
    {
        let m_count = solution.task_assignment_matrix.len();
        let n_tasks = instance.task_times.len();
        let mut cands: Vec<NewTask> = Vec::new();
        let mut m2: usize = 0;
        while m2 < m_count
            invariant
                instance.wf(),
                instance.fits(),
                solution.wf(*instance),
                assigned_matches(*instance, *solution, assigned@),
                m_count == solution.rows().len(),
                n_tasks as int == instance.task_count(),
                n_tasks as int == assigned@.len(),
                instance.task_count() <= usize::MAX as int,
                m2 <= m_count,
                forall|idx: int|
                    0 <= idx < cands@.len() ==> cand_ok(
                        *instance,
                        *solution,
                        assigned@,
                        #[trigger] cands@[idx],
                    ) && (cands@[idx].machine as int) < m2,
                forall|q2: int, t2: int, p2: int|
                    ins_ok(*solution, assigned@, q2, t2, p2) && q2 < m2 ==> tri_selected(
                        cands@,
                        q2,
                        t2,
                        p2,
                    ),
            decreases m_count - m2,
        {
            let mut t: usize = 0;
            while t < n_tasks
                invariant
                    instance.wf(),
                    instance.fits(),
                    solution.wf(*instance),
                    assigned_matches(*instance, *solution, assigned@),
                    m_count == solution.rows().len(),
                    n_tasks as int == instance.task_count(),
                    n_tasks as int == assigned@.len(),
                    instance.task_count() <= usize::MAX as int,
                    m2 < m_count,
                    t <= n_tasks,
                    forall|idx: int|
                        0 <= idx < cands@.len() ==> cand_ok(
                            *instance,
                            *solution,
                            assigned@,
                            #[trigger] cands@[idx],
                        ) && ((cands@[idx].machine as int) < m2 || (cands@[idx].machine as int)
                            == m2 && (cands@[idx].task as int) < t),
                    forall|q2: int, t2: int, p2: int|
                        ins_ok(*solution, assigned@, q2, t2, p2) && (q2 < m2 || (q2 == m2 && t2
                            < t)) ==> tri_selected(cands@, q2, t2, p2),
                decreases n_tasks - t,
            {
                if !assigned[t] {
                    proof {
                        solution.lemma_fresh_insert_row_ok(*instance, m2 as int, 0, t);
                    }
                    let len_m = solution.task_assignment_matrix[m2].len();
                    let old_cost = solution.tcts_by_machine[m2];
                    let mut pos: usize = 0;
                    while pos <= len_m
                        invariant
                            instance.wf(),
                            instance.fits(),
                            solution.wf(*instance),
                            assigned_matches(*instance, *solution, assigned@),
                            m_count == solution.rows().len(),
                            n_tasks as int == instance.task_count(),
                            n_tasks as int == assigned@.len(),
                            instance.task_count() <= usize::MAX as int,
                            m2 < m_count,
                            t < n_tasks,
                            !assigned@[t as int],
                            len_m == solution.rows()[m2 as int].len(),
                            len_m < n_tasks,
                            old_cost as int == instance.cost(solution.rows()[m2 as int]),
                            pos <= len_m + 1,
                            forall|idx: int|
                                0 <= idx < cands@.len() ==> cand_ok(
                                    *instance,
                                    *solution,
                                    assigned@,
                                    #[trigger] cands@[idx],
                                ) && ((cands@[idx].machine as int) < m2 || (cands@[idx].machine
                                    as int) == m2 && ((cands@[idx].task as int) < t || (
                                cands@[idx].task as int) == t && (cands@[idx].position as int)
                                    < pos)),
                            forall|q2: int, t2: int, p2: int|
                                ins_ok(*solution, assigned@, q2, t2, p2) && (q2 < m2 || (q2 == m2
                                    && t2 < t) || (q2 == m2 && t2 == t && p2 < pos))
                                    ==> tri_selected(cands@, q2, t2, p2),
                        decreases len_m + 1 - pos,
                    {
                        let new_cost = solution.eval_insert(instance, m2, pos, t);
                        let ghost before = cands@;
                        cands.push(
                            NewTask { machine: m2, task: t, position: pos, new_cost, old_cost },
                        );
                        proof {
                            assert(cands@ == before.push(
                                NewTask { machine: m2, task: t, position: pos, new_cost, old_cost },
                            ));
                            assert forall|q2: int, t2: int, p2: int|
                                ins_ok(*solution, assigned@, q2, t2, p2) && (q2 < m2 || (q2 == m2
                                    && t2 < t) || (q2 == m2 && t2 == t && p2 < pos + 1)) implies
                                tri_selected(cands@, q2, t2, p2) by {
                                if q2 == m2 as int && t2 == t as int && p2 == pos as int {
                                    assert(cands@[cands@.len() - 1].machine == m2);
                                } else {
                                    assert(tri_selected(before, q2, t2, p2));
                                    let widx = choose|widx: int|
                                        0 <= widx < before.len() && (#[trigger] before[widx]).machine
                                            == q2 && before[widx].task == t2 && before[widx].position
                                            == p2;
                                    assert(cands@[widx].machine == q2);
                                }
                            }
                        }
                        pos = pos + 1;
                    }
                }
                t = t + 1;
            }
            m2 = m2 + 1;
        }
        proof {
            broadcast use vstd::multiset::group_multiset_axioms;

            let x = crate::problem_instance::cost::lemma_missing_task(
                solution.task_mset(),
                instance.task_count(),
            );
            assert(!assigned@[x as int]);
            assert(ins_ok(*solution, assigned@, 0, x as int, 0));
            assert(tri_selected(cands@, 0, x as int, 0));
            assert(cands@.len() >= 1);
        }
        let ghost all_cands = cands@;
        let r = pick_k_lowest(&mut cands, self.size_to_choose_from);
        proof {
            broadcast use vstd::multiset::group_multiset_axioms;

            assert forall|idx: int|
                0 <= idx < r@.len() implies cand_ok(
                *instance,
                *solution,
                assigned@,
                #[trigger] r@[idx]) by {
                vstd::seq_lib::to_multiset_contains::<NewTask>(r@, r@[idx]);
                assert(r@.contains(r@[idx]));
                assert(r@.to_multiset().count(r@[idx]) > 0);
                assert(all_cands.to_multiset().count(r@[idx]) > 0);
                vstd::seq_lib::to_multiset_contains::<NewTask>(all_cands, r@[idx]);
                assert(all_cands.contains(r@[idx]));
                let widx = choose|widx: int|
                    0 <= widx < all_cands.len() && all_cands[widx] == r@[idx];
                assert(cand_ok(*instance, *solution, assigned@, all_cands[widx]));
            }
            assert forall|q2: int, t2: int, p2: int|
                ins_ok(*solution, assigned@, q2, t2, p2) implies tri_selected(r@, q2, t2, p2) || (
            forall|idx: int|
                0 <= idx < r@.len() ==> cand_delta(#[trigger] r@[idx]) <= ins_delta(
                    *instance,
                    *solution,
                    q2,
                    t2,
                    p2,
                )) by {
                assert(tri_selected(all_cands, q2, t2, p2));
                let widx = choose|widx: int|
                    0 <= widx < all_cands.len() && (#[trigger] all_cands[widx]).machine == q2
                        && all_cands[widx].task == t2 && all_cands[widx].position == p2;
                let nt = all_cands[widx];
                assert(cand_ok(*instance, *solution, assigned@, nt));
                assert(cand_delta(nt) == ins_delta(*instance, *solution, q2, t2, p2));
                vstd::seq_lib::to_multiset_contains::<NewTask>(all_cands, nt);
                assert(all_cands.to_multiset().count(nt) > 0);
                if r@.to_multiset().count(nt) > 0 {
                    vstd::seq_lib::to_multiset_contains::<NewTask>(r@, nt);
                    assert(r@.contains(nt));
                    let ridx = choose|ridx: int| 0 <= ridx < r@.len() && r@[ridx] == nt;
                    assert(r@[ridx].machine == q2);
                    assert(tri_selected(r@, q2, t2, p2));
                } else {
                    assert(cands@.to_multiset().count(nt) > 0);
                    vstd::seq_lib::to_multiset_contains::<NewTask>(cands@, nt);
                    assert(cands@.contains(nt));
                    let cidx = choose|cidx: int| 0 <= cidx < cands@.len() && cands@[cidx] == nt;
                    assert forall|idx: int|
                        0 <= idx < r@.len() implies cand_delta(#[trigger] r@[idx]) <= ins_delta(
                        *instance,
                        *solution,
                        q2,
                        t2,
                        p2,
                    ) by {
                        assert(cand_delta(r@[idx]) <= cand_delta(cands@[cidx]));
                    }
                }
            }
            if r@.len() < self.size_to_choose_from {
                assert(r@.len() == all_cands.len());
                assert(cands@.len() == 0);
                assert forall|q2: int, t2: int, p2: int|
                    ins_ok(*solution, assigned@, q2, t2, p2) implies tri_selected(
                    r@,
                    q2,
                    t2,
                    p2) by {
                    assert(tri_selected(all_cands, q2, t2, p2));
                    let widx = choose|widx: int|
                        0 <= widx < all_cands.len() && (#[trigger] all_cands[widx]).machine == q2
                            && all_cands[widx].task == t2 && all_cands[widx].position == p2;
                    let nt = all_cands[widx];
                    vstd::seq_lib::to_multiset_contains::<NewTask>(all_cands, nt);
                    assert(all_cands.contains(nt));
                    assert(all_cands.to_multiset().count(nt) > 0);
                    vstd::seq_lib::to_multiset_len::<NewTask>(cands@);
                    assert(cands@.to_multiset().count(nt) == 0);
                    assert(r@.to_multiset().count(nt) > 0);
                    vstd::seq_lib::to_multiset_contains::<NewTask>(r@, nt);
                    assert(r@.contains(nt));
                    let ridx = choose|ridx: int| 0 <= ridx < r@.len() && r@[ridx] == nt;
                    assert(r@[ridx].machine == q2);
                }
            }
        }
        r
    }
}

} // verus!
