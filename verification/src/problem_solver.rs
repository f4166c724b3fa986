//! The solvers: construction heuristics, local search, GRASP and VNS.

use vstd::prelude::*;
use vstd::multiset::Multiset;

pub mod problem_solution;
mod rng;

pub use problem_solution::ProblemSolution;

use crate::problem_instance::ProblemInstance;

verus! {

/// A trait for an algorithm that is able to solve an instance of the
/// problem.
pub trait ProblemSolver: Sized {
    /// What the solver asks of the instance (and of its own parameters)
    /// before it can run.
    spec fn pre(self, instance: ProblemInstance) -> bool;

    /// What every assignment this solver returns satisfies beyond being a
    /// complete well-formed solution: how it was built, or how far it was
    /// optimized.
    spec fn post(self, instance: ProblemInstance, rows: Seq<Seq<usize>>) -> bool;

    /// Solves an instance of the problem: the result is a well-formed
    /// solution in which every task of the instance appears exactly once,
    /// built or optimized as `post` says.
    fn solve(&mut self, instance: &ProblemInstance) -> (r: ProblemSolution)
        requires
            old(self).pre(*instance),
        ensures
            r.wf(*instance),
            r.complete(*instance),
            r.rows().len() == vstd::math::min(instance.machine_count(), instance.task_count()),
            old(self).post(*instance, r.rows()),
    ;
}

/// Candidate insertion record: a task, the machine and position to insert
/// it at, the machine's sequence cost after the insertion and its current
/// cost.  Candidates are ranked by the marginal cost delta
/// `new_cost - old_cost`, which can be negative for inner insertions.
pub(crate) struct NewTask {
    pub machine: usize,
    pub task: usize,
    pub position: usize,
    pub new_cost: usize,
    pub old_cost: usize,
}

/// The marginal cost delta a candidate is ranked by.
pub(crate) open spec fn cand_delta(nt: NewTask) -> int {
    nt.new_cost - nt.old_cost
}

/// A valid candidate: an unassigned task, a position inside one machine,
/// and the two costs as the cost function gives them.
pub(crate) open spec fn cand_ok(
    instance: ProblemInstance,
    sol: ProblemSolution,
    assigned: Seq<bool>,
    nt: NewTask,
) -> bool {
    &&& (nt.machine as int) < sol.rows().len()
    &&& (nt.position as int) <= sol.rows()[nt.machine as int].len()
    &&& (nt.task as int) < instance.task_count()
    &&& (nt.task as int) < assigned.len()
    &&& !assigned[nt.task as int]
    &&& nt.new_cost as int == instance.cost(
        sol.rows()[nt.machine as int].insert(nt.position as int, nt.task),
    )
    &&& nt.old_cost as int == instance.cost(sol.rows()[nt.machine as int])
}

/// The `assigned` vector marks exactly the tasks the solution places, each
/// of which it places once.
pub(crate) open spec fn assigned_matches(
    instance: ProblemInstance,
    sol: ProblemSolution,
    assigned: Seq<bool>,
) -> bool {
    &&& assigned.len() == instance.task_count()
    &&& forall|x: usize|
        #[trigger] sol.task_mset().count(x) == if (x as int) < assigned.len() && assigned[x as int] {
            1int
        } else {
            0int
        }
}

/// A greedy seeding: every machine holds exactly one task, and each
/// machine's task minimizes idle setup plus processing time among the
/// tasks not seeded on an earlier machine.
pub open spec fn seeded_greedily(instance: ProblemInstance, rows: Seq<Seq<usize>>) -> bool {
    &&& forall|q: int| 0 <= q < rows.len() ==> (#[trigger] rows[q]).len() == 1
    &&& forall|q: int, x: int|
        #![trigger rows[q], instance.cost(seq![x as usize])]
        0 <= q < rows.len() && 0 <= x < instance.task_count() && (forall|p: int|
            0 <= p < q ==> (#[trigger] rows[p])[0] != x as usize) ==> instance.cost(
            seq![rows[q][0]],
        ) <= instance.cost(seq![x as usize])
}

/// `(m, t)` names a legal append on the assignment itself: a machine and a
/// task the assignment does not place yet.
pub open spec fn append_rows_ok(
    instance: ProblemInstance,
    rows: Seq<Seq<usize>>,
    m: int,
    t: int,
) -> bool {
    &&& 0 <= m < rows.len()
    &&& 0 <= t < instance.task_count()
    &&& crate::problem_instance::cost::rows_mset(rows).count(t as usize) == 0
}

/// The assignment after appending task `t` to machine `m`.
pub open spec fn append_rows(rows: Seq<Seq<usize>>, m: int, t: int) -> Seq<Seq<usize>> {
    rows.update(m, rows[m].push(t as usize))
}

/// One greedy append under the rule: `rows2` extends `rows` by an append
/// that no legal append scores below.
pub open spec fn best_append_step(
    rule: AppendRule,
    instance: ProblemInstance,
    rows: Seq<Seq<usize>>,
    rows2: Seq<Seq<usize>>,
) -> bool {
    exists|m: int, t: int|
        append_rows_ok(instance, rows, m, t) && rows2 == #[trigger] append_rows(rows, m, t) && (
        forall|m2: int, t2: int|
            append_rows_ok(instance, rows, m2, t2) ==> #[trigger] append_score(
                rule,
                instance,
                rows,
                m2,
                t2,
            ) >= append_score(rule, instance, rows, m, t))
}

/// `rows2` arises from `rows` by `steps` greedy appends under the rule.
pub open spec fn appended_greedily(
    rule: AppendRule,
    instance: ProblemInstance,
    rows: Seq<Seq<usize>>,
    rows2: Seq<Seq<usize>>,
    steps: nat,
) -> bool
    decreases steps,
{
    if steps == 0 {
        rows2 == rows
    } else {
        exists|mid: Seq<Seq<usize>>|
            appended_greedily(rule, instance, rows, mid, (steps - 1) as nat) && #[trigger]
            best_append_step(rule, instance, mid, rows2)
    }
}

/// How an append-only construction builds its assignment: a greedy seeding
/// of `min(machines, tasks)` machines, extended by greedy appends under
/// the rule.
pub open spec fn constructed_greedily(
    rule: AppendRule,
    instance: ProblemInstance,
    rows2: Seq<Seq<usize>>,
) -> bool {
    exists|seed: Seq<Seq<usize>>, steps: nat|
        #![trigger appended_greedily(rule, instance, seed, rows2, steps)]
        seeded_greedily(instance, seed) && seed.len() == vstd::math::min(
            instance.machine_count(),
            instance.task_count(),
        ) && appended_greedily(rule, instance, seed, rows2, steps)
}

/// One construction insertion: a task the assignment does not place yet,
/// inserted at some position of some machine.
pub open spec fn inserted_step(
    instance: ProblemInstance,
    rows: Seq<Seq<usize>>,
    rows2: Seq<Seq<usize>>,
) -> bool {
    exists|m: int, t: usize, pos: int|
        0 <= m < rows.len() && (t as int) < instance.task_count()
            && crate::problem_instance::cost::rows_mset(rows).count(t) == 0 && 0 <= pos
            <= rows[m].len() && rows2 == #[trigger] rows.update(m, rows[m].insert(pos, t))
}

/// `rows2` arises from `rows` by `steps` construction insertions.
pub open spec fn inserted_from(
    instance: ProblemInstance,
    rows: Seq<Seq<usize>>,
    rows2: Seq<Seq<usize>>,
    steps: nat,
) -> bool
    decreases steps,
{
    if steps == 0 {
        rows2 == rows
    } else {
        exists|mid: Seq<Seq<usize>>|
            inserted_from(instance, rows, mid, (steps - 1) as nat) && #[trigger] inserted_step(
                instance,
                mid,
                rows2,
            )
    }
}

/// How the randomized construction builds its assignment: a greedy seeding
/// of `min(machines, tasks)` machines, extended by insertions of unplaced
/// tasks (the position picked among the lowest-delta candidates at
/// random).
pub open spec fn constructed_by_insertions(
    instance: ProblemInstance,
    rows2: Seq<Seq<usize>>,
) -> bool {
    exists|seed: Seq<Seq<usize>>, steps: nat|
        #![trigger inserted_from(instance, seed, rows2, steps)]
        seeded_greedily(instance, seed) && seed.len() == vstd::math::min(
            instance.machine_count(),
            instance.task_count(),
        ) && inserted_from(instance, seed, rows2, steps)
}

/// In an assignment of one-task machines, a task is placed exactly when
/// some machine's single slot holds it.
proof fn lemma_singleton_rows_member(rows: Seq<Seq<usize>>, x: usize)
    requires
        forall|q: int| 0 <= q < rows.len() ==> (#[trigger] rows[q]).len() == 1,
    ensures
        (crate::problem_instance::cost::rows_mset(rows).count(x) > 0) <==> (exists|p: int|
            0 <= p < rows.len() && (#[trigger] rows[p])[0] == x),
    decreases rows.len(),
{
    broadcast use vstd::multiset::group_multiset_axioms;
    broadcast use vstd::seq_lib::group_to_multiset_ensures;

    if rows.len() > 0 {
        let front = rows.drop_last();
        assert forall|q: int| 0 <= q < front.len() implies (#[trigger] front[q]).len() == 1 by {
            assert(front[q] == rows[q]);
        }
        lemma_singleton_rows_member(front, x);
        let last = rows.last();
        assert(last.len() == 1);
        if crate::problem_instance::cost::rows_mset(rows).count(x) > 0 {
            if last.to_multiset().count(x) > 0 {
                assert(last.contains(x));
                let w = choose|w: int| 0 <= w < last.len() && last[w] == x;
                assert(rows[rows.len() - 1][0] == x);
            } else {
                assert(crate::problem_instance::cost::rows_mset(front).count(x) > 0);
                let p = choose|p: int| 0 <= p < front.len() && (#[trigger] front[p])[0] == x;
                assert(rows[p][0] == x);
            }
        }
        if exists|p: int| 0 <= p < rows.len() && (#[trigger] rows[p])[0] == x {
            let p = choose|p: int| 0 <= p < rows.len() && (#[trigger] rows[p])[0] == x;
            if p == rows.len() - 1 {
                assert(last.contains(x));
                assert(last.to_multiset().count(x) > 0);
            } else {
                assert(front[p][0] == x);
                assert(crate::problem_instance::cost::rows_mset(front).count(x) > 0);
            }
        }
    }
}

/// Seeds every machine with the unassigned task that minimizes idle setup
/// plus processing time, stopping early when the tasks run out.  All three
/// construction heuristics start this way.
pub(crate) fn choose_initial_tasks(
    instance: &ProblemInstance,
    solution: &mut ProblemSolution,
    assigned: &mut Vec<bool>,
)
    requires
        instance.wf(),
        instance.fits(),
        old(solution).rows().len() == 0,
        old(solution).caches().len() == 0,
        old(assigned)@.len() == instance.task_count(),
        forall|t: int| 0 <= t < old(assigned)@.len() ==> !old(assigned)@[t],
    ensures
        final(solution).wf(*instance),
        assigned_matches(*instance, *final(solution), final(assigned)@),
        final(assigned)@.len() == old(assigned)@.len(),
        final(solution).rows().len() == vstd::math::min(
            instance.machine_count(),
            instance.task_count(),
        ),
        final(solution).task_mset().len() == final(solution).rows().len(),
        forall|q: int|
            0 <= q < final(solution).rows().len() ==> (#[trigger] final(solution).rows()[q]).len()
                == 1,
        seeded_greedily(*instance, final(solution).rows()),
{
    let n_tasks = instance.task_times.len();
    let m_machines = instance.number_of_machines;
    let mut done: usize = 0;
    let mut machine: usize = 0;
    let mut exhausted = false;
    proof {
        assert(solution.task_mset() =~= Multiset::<usize>::empty());
    }
    while machine < m_machines && !exhausted
        invariant
            instance.wf(),
            instance.fits(),
            n_tasks as int == instance.task_count(),
            m_machines as int == instance.machine_count(),
            solution.wf(*instance),
            assigned_matches(*instance, *solution, assigned@),
            assigned@.len() == n_tasks as int,
            machine <= m_machines,
            done as int == vstd::math::min(machine as int, n_tasks as int),
            solution.rows().len() == done,
            solution.task_mset().len() == done,
            exhausted ==> done == n_tasks,
            forall|q: int|
                0 <= q < solution.rows().len() ==> (#[trigger] solution.rows()[q]).len() == 1,
            seeded_greedily(*instance, solution.rows()),
        decreases m_machines - machine, (if exhausted { 0int } else { 1int }),
    {
        let mut found = false;
        let mut best_t: usize = 0;
        let mut best_c: usize = 0;
        let mut t: usize = 0;
        while t < n_tasks
            invariant
                instance.wf(),
                instance.fits(),
                n_tasks as int == instance.task_count(),
                assigned@.len() == n_tasks as int,
                t <= n_tasks,
                found ==> (best_t as int) < n_tasks as int && !assigned@[best_t as int] && best_c
                    as int == instance.cost(seq![best_t]),
                found ==> forall|x: int|
                    0 <= x < t && !assigned@[x] ==> best_c as int <= #[trigger] instance.cost(
                        seq![x as usize],
                    ),
                !found ==> forall|q: int| 0 <= q < t ==> assigned@[q],
            decreases n_tasks - t,
        {
            if !assigned[t] {
                proof {
                    lemma_singleton_fits(*instance, t);
                }
                let c = instance.task_times[t] + instance.setup_times[0][t + 1];
                proof {
                    assert(c as int == instance.cost(seq![(t as int) as usize]));
                }
                if !found || c < best_c {
                    found = true;
                    best_t = t;
                    best_c = c;
                }
            }
            t = t + 1;
        }
        if found {
            let ghost prev_sol = *solution;
            let ghost prev_assigned = assigned@;
            proof {
                broadcast use vstd::multiset::group_multiset_axioms;

                assert(assigned_matches(*instance, prev_sol, prev_assigned));
                assert(prev_sol.task_mset().count(best_t) == 0);
                let n = instance.task_count();
                let grown = prev_sol.task_mset().insert(best_t);
                assert forall|t2: usize| grown.count(t2) <= 1 by {
                    assert(prev_sol.task_mset().count(t2) == if (t2 as int) < prev_assigned.len()
                        && prev_assigned[t2 as int] {
                        1int
                    } else {
                        0int
                    });
                }
                assert forall|t2: usize| grown.count(t2) > 0 implies (t2 as int) < n by {
                    assert(prev_sol.task_mset().count(t2) == if (t2 as int) < prev_assigned.len()
                        && prev_assigned[t2 as int] {
                        1int
                    } else {
                        0int
                    });
                }
                crate::problem_instance::cost::lemma_bounded_mset_len(grown, n);
                assert(grown.len() == prev_sol.task_mset().len() + 1);
                assert(done < n_tasks);
            }
            let ghost best_over_unassigned: bool = forall|x: int|
                0 <= x < n_tasks as int && !prev_assigned[x] ==> best_c as int
                    <= #[trigger] instance.cost(seq![x as usize]);
            proof {
                assert(best_over_unassigned);
            }
            solution.push_singleton_row(instance, best_t, best_c);
            assigned[best_t] = true;
            proof {
                broadcast use vstd::multiset::group_multiset_axioms;

                assert(assigned@ == prev_assigned.update(best_t as int, true));
                assert forall|x: usize|
                    solution.task_mset().count(x) == if (x as int) < assigned@.len()
                        && assigned@[x as int] {
                        1int
                    } else {
                        0int
                    } by {
                    assert(prev_sol.task_mset().count(x) == if (x as int) < prev_assigned.len()
                        && prev_assigned[x as int] {
                        1int
                    } else {
                        0int
                    });
                    assert(solution.task_mset().count(x) == prev_sol.task_mset().count(x) + if x
                        == best_t {
                        1int
                    } else {
                        0int
                    });
                }
                assert(solution.task_mset() =~= prev_sol.task_mset().insert(best_t));
                assert(solution.task_mset().len() == prev_sol.task_mset().len() + 1);
                assert forall|q: int, x: int|
                    #![trigger solution.rows()[q], instance.cost(seq![x as usize])]
                    0 <= q < solution.rows().len() && 0 <= x < instance.task_count() && (forall|
                        p: int,
                    | 0 <= p < q ==> (#[trigger] solution.rows()[p])[0] != x as usize) implies
                    instance.cost(seq![solution.rows()[q][0]]) <= instance.cost(
                    seq![x as usize]) by {
                    let rows2 = solution.rows();
                    let prev_rows = prev_sol.rows();
                    assert(rows2 == prev_rows.push(seq![best_t]));
                    if q < rows2.len() - 1 {
                        assert(rows2[q] == prev_rows[q]);
                        assert forall|p: int|
                            0 <= p < q implies (#[trigger] prev_rows[p])[0] != x as usize by {
                            assert(prev_rows[p] == rows2[p]);
                        }
                        assert(instance.cost(seq![prev_rows[q][0]]) <= instance.cost(
                            seq![x as usize],
                        ));
                    } else {
                        assert(rows2[q] == seq![best_t]);
                        assert(rows2[q][0] == best_t);
                        assert forall|p: int|
                            0 <= p < prev_rows.len() implies (#[trigger] prev_rows[p])[0] != x
                                as usize by {
                            assert(prev_rows[p] == rows2[p]);
                        }
                        lemma_singleton_rows_member(prev_rows, x as usize);
                        assert(prev_sol.task_mset().count(x as usize) == 0);
                        assert(!prev_assigned[x]);
                        assert(best_c as int <= instance.cost(seq![x as usize]));
                    }
                }
            }
            done = done + 1;
            machine = machine + 1;
        } else {
            proof {
                broadcast use vstd::multiset::group_multiset_axioms;

                let n = instance.task_count();
                let ghost cur_sol = *solution;
                assert(assigned_matches(*instance, cur_sol, assigned@));
                assert forall|x: usize|
                    cur_sol.task_mset().count(x)
                        == crate::problem_instance::cost::full_task_mset(n).count(x) by {
                    crate::problem_instance::cost::lemma_full_task_mset_count(n, x);
                    assert(cur_sol.task_mset().count(x) == if (x as int) < assigned@.len()
                        && assigned@[x as int] {
                        1int
                    } else {
                        0int
                    });
                    if (x as int) < n {
                        assert(assigned@[x as int]);
                    }
                }
                assert(cur_sol.task_mset() =~= crate::problem_instance::cost::full_task_mset(n));
                crate::problem_instance::cost::lemma_full_task_mset_len(n);
                assert(solution.task_mset().len() == n);
            }
            exhausted = true;
        }
    }
}

/// A one-task sequence is a valid assignment row whose cost fits.
pub(crate) proof fn lemma_singleton_fits(instance: ProblemInstance, t: usize)
    requires
        instance.fits(),
        (t as int) < instance.task_count(),
    ensures
        instance.cost(seq![t]) == instance.task_time_of(t as int) + instance.setup_entry(
            0,
            t as int + 1,
        ),
        0 <= instance.cost(seq![t]) <= usize::MAX as int,
        instance.valid_tasks(seq![t]),
        seq![t].no_duplicates(),
{
    let single = seq![t];
    assert(single.len() == 1);
    assert(single[0] == t);
    assert(instance.valid_tasks(single));
    assert(single.no_duplicates());
    assert(instance.cost(single) == instance.weighted_sum(single, 1, 1));
    assert(instance.weighted_sum(single, 1, 1) == instance.weighted_sum(single, 1, 0) + (1 - 0)
        * instance.seg_at(single, 0));
    assert((1 - 0) * instance.seg_at(single, 0) == instance.seg_at(single, 0)) by (nonlinear_arith);
    instance.lemma_single_seq_fits(single);
}

/// Extracts, one by one, the candidates with the lowest marginal delta:
/// what comes back are `k` (or all, if fewer) candidates in non-decreasing
/// delta order, no worse than any candidate left behind.
pub(crate) fn pick_k_lowest(cands: &mut Vec<NewTask>, k: usize) -> (r: Vec<NewTask>)
    ensures
        r@.len() == vstd::math::min(k as int, old(cands)@.len() as int),
        r@.len() + final(cands)@.len() == old(cands)@.len(),
        r@.to_multiset().add(final(cands)@.to_multiset()) == old(cands)@.to_multiset(),
        forall|i: int, j: int|
            0 <= i < r@.len() && 0 <= j < final(cands)@.len() ==> cand_delta(#[trigger] r@[i])
                <= cand_delta(#[trigger] final(cands)@[j]),
        forall|i: int, j: int|
            0 <= i < j < r@.len() ==> cand_delta(#[trigger] r@[i]) <= cand_delta(
                #[trigger] r@[j],
            ),
{
    broadcast use vstd::seq_lib::group_to_multiset_ensures;

    let ghost orig = cands@;
    let mut r: Vec<NewTask> = Vec::new();
    while r.len() < k && cands.len() > 0
        invariant
            r@.len() <= k,
            r@.len() + cands@.len() == orig.len(),
            r@.to_multiset().add(cands@.to_multiset()) == orig.to_multiset(),
            forall|i: int, j: int|
                0 <= i < r@.len() && 0 <= j < cands@.len() ==> cand_delta(#[trigger] r@[i])
                    <= cand_delta(#[trigger] cands@[j]),
            forall|i: int, j: int|
                0 <= i < j < r@.len() ==> cand_delta(#[trigger] r@[i]) <= cand_delta(
                    #[trigger] r@[j],
                ),
        decreases k - r@.len(),
    {
        let mut mi: usize = 0;
        let mut ii: usize = 1;
        while ii < cands.len()
            invariant
                cands@.len() > 0,
                (mi as int) < cands@.len(),
                ii <= cands@.len(),
                forall|q: int|
                    0 <= q < ii ==> cand_delta(cands@[mi as int]) <= cand_delta(
                        #[trigger] cands@[q],
                    ),
            decreases cands@.len() - ii,
        {
            let better = (cands[ii].new_cost as u128) + (cands[mi].old_cost as u128) < (
            cands[mi].new_cost as u128) + (cands[ii].old_cost as u128);
            if better {
                mi = ii;
            }
            ii = ii + 1;
        }
        let ghost before = cands@;
        let ghost r_before = r@;
        let nt = cands.remove(mi);
        let ghost ntg = before[mi as int];
        r.push(nt);
        proof {
            broadcast use vstd::multiset::group_multiset_axioms;

            assert(cands@ == before.remove(mi as int));
            vstd::seq_lib::to_multiset_remove::<NewTask>(before, mi as int);
            assert(before.contains(before[mi as int]));
            vstd::seq_lib::to_multiset_contains::<NewTask>(before, before[mi as int]);
            assert(before.to_multiset().count(before[mi as int]) > 0);
            assert(r@ == r_before.push(ntg));
            vstd::seq_lib::to_multiset_build::<NewTask>(r_before, ntg);
            assert forall|j: int|
                0 <= j < cands@.len() implies cand_delta(ntg) <= cand_delta(
                #[trigger] cands@[j]) by {
                if j < mi as int {
                    assert(cands@[j] == before[j]);
                } else {
                    assert(cands@[j] == before[j + 1]);
                }
            }
            assert forall|i: int, j: int|
                0 <= i < r@.len() && 0 <= j < cands@.len() implies cand_delta(#[trigger] r@[i])
                <= cand_delta(#[trigger] cands@[j]) by {
                if i < r@.len() - 1 {
                    if j < mi as int {
                        assert(cands@[j] == before[j]);
                    } else {
                        assert(cands@[j] == before[j + 1]);
                    }
                } else {
                    assert(r@[i] == ntg);
                }
            }
            assert(r@.to_multiset().add(cands@.to_multiset()) =~= orig.to_multiset());
        }
    }
    r
}


/// The ranking an append-only construction uses to pick its next task.
pub enum AppendRule {
    /// The marginal delta: the machine's new cost minus its current cost.
    MarginalDelta,
    /// The machine's full cost after the append.
    ResultingCost,
    /// The completion time of the appended task: the machine's chain of
    /// segments plus the new segment.
    ChainStep,
}

/// `(m, t)` names the append of the unassigned task `t` to machine `m`.
pub(crate) open spec fn append_ok(
    sol: ProblemSolution,
    assigned: Seq<bool>,
    m: int,
    t: int,
) -> bool {
    &&& 0 <= m < sol.rows().len()
    &&& 0 <= t < assigned.len()
    &&& !assigned[t]
}

/// The score of the append `(m, t)` under the given rule; lower is better.
pub open spec fn append_score(
    rule: AppendRule,
    instance: ProblemInstance,
    rows: Seq<Seq<usize>>,
    m: int,
    t: int,
) -> int {
    let row = rows[m];
    let grown = row.push(t as usize);
    match rule {
        AppendRule::MarginalDelta => instance.cost(grown) - instance.cost(row),
        AppendRule::ResultingCost => instance.cost(grown),
        AppendRule::ChainStep => instance.seg_sum(grown, grown.len() as int),
    }
}

/// The chain of one machine: the plain sum of its segments, which is the
/// completion time of its last task.
fn calculate_chain(instance: &ProblemInstance, row: &Vec<usize>) -> (r: usize)
    requires
        instance.wf(),
        instance.valid_tasks(row@),
        instance.cost(row@) <= usize::MAX as int,
    ensures
        r as int == instance.seg_sum(row@, row@.len() as int),
{
    let len = row.len();
    let n_tasks = instance.task_times.len();
    let mut acc: usize = 0;
    let mut i: usize = 0;
    while i < len
        invariant
            instance.wf(),
            instance.valid_tasks(row@),
            instance.cost(row@) <= usize::MAX as int,
            i <= len,
            len == row@.len(),
            n_tasks as int == instance.task_count(),
            acc as int == instance.seg_sum(row@, i as int),
        decreases len - i,
    {
        proof {
            instance.lemma_seg_sum_le_weighted(row@, len as int, i as int);
            instance.lemma_seg_sum_le_weighted(row@, len as int, i + 1);
            instance.lemma_weighted_sum_nonneg_mono(row@, len as int, i + 1, len as int);
            assert(instance.seg_sum(row@, i + 1) == instance.seg_sum(row@, i as int)
                + instance.seg_at(row@, i as int));
        }
        let t = row[i];
        let prev_row = if i == 0 { 0 } else { row[i - 1] + 1 };
        let seg_val = instance.task_times[t] + instance.setup_times[prev_row][t + 1];
        assert(seg_val as int == instance.seg_at(row@, i as int));
        acc = acc + seg_val;
        i = i + 1;
    }
    acc
}

/// Score parts of the append `(m, t)`: two machine words whose difference
/// is the append's score under the rule.
fn append_score_parts(
    rule: &AppendRule,
    instance: &ProblemInstance,
    solution: &ProblemSolution,
    m: usize,
    t: usize,
) -> (p: (usize, usize))
    requires
        instance.wf(),
        instance.fits(),
        solution.wf(*instance),
        (m as int) < solution.rows().len(),
        (t as int) < instance.task_count(),
        solution.task_mset().count(t) == 0,
        instance.task_count() <= usize::MAX as int,
    ensures
        p.0 - p.1 == append_score(*rule, *instance, solution.rows(), m as int, t as int),
{
    let ghost row = solution.rows()[m as int];
    let ghost grown = row.push(t);
    proof {
        solution.lemma_fresh_insert_row_ok(*instance, m as int, row.len() as int, t);
        assert(row.insert(row.len() as int, t) =~= grown);
        instance.lemma_cost_push(row, t);
        instance.lemma_cost_nonneg(row);
        instance.lemma_seg_sum_le_weighted(row, row.len() as int, row.len() as int);
        assert(instance.seg_at(grown, row.len() as int) >= 0);
        assert forall|q: int| 0 <= q < row.len() implies grown[q] == row[q] by {}
        instance.lemma_sums_congruent(row, grown, row.len() as int, row.len() as int);
    }
    let len_m = solution.task_assignment_matrix[m].len();
    match rule {
        AppendRule::MarginalDelta => {
            let new_cost = solution.eval_insert(instance, m, len_m, t);
            let old_cost = solution.tcts_by_machine[m];
            (new_cost, old_cost)
        },
        AppendRule::ResultingCost => {
            let new_cost = solution.eval_insert(instance, m, len_m, t);
            (new_cost, 0)
        },
        AppendRule::ChainStep => {
            let row_vec = clone_row_of(solution, m);
            proof {
                instance.lemma_cost_le_rows_cost(solution.rows(), m as int);
                solution.lemma_total_fits(*instance);
            }
            let chain = calculate_chain(instance, &row_vec);
            let prev_row = if len_m == 0 { 0 } else { row_vec[len_m - 1] + 1 };
            let seg_val = instance.task_times[t] + instance.setup_times[prev_row][t + 1];
            proof {
                assert(seg_val as int == instance.seg_at(grown, row.len() as int));
                assert(instance.seg_sum(grown, grown.len() as int) == instance.seg_sum(
                    grown,
                    row.len() as int,
                ) + instance.seg_at(grown, row.len() as int));
            }
            (chain + seg_val, 0)
        },
    }
}

/// Copy of machine `m`'s sequence.
fn clone_row_of(solution: &ProblemSolution, m: usize) -> (r: Vec<usize>)
    requires
        (m as int) < solution.rows().len(),
    ensures
        r@ == solution.rows()[m as int],
{
    crate::problem_solver::problem_solution::clone_row(&solution.task_assignment_matrix[m])
}

/// Finds the append with the lowest score under the rule: no legal append
/// scores less than the returned pair.
fn best_append(
    rule: &AppendRule,
    instance: &ProblemInstance,
    solution: &ProblemSolution,
    assigned: &Vec<bool>,
) -> (r: (usize, usize))
    requires
        instance.wf(),
        instance.fits(),
        solution.wf(*instance),
        assigned_matches(*instance, *solution, assigned@),
        solution.task_mset().len() < instance.task_count(),
        solution.rows().len() >= 1,
        instance.task_count() <= usize::MAX as int,
    ensures
        append_ok(*solution, assigned@, r.0 as int, r.1 as int),
        forall|m: int, t: int|
            append_ok(*solution, assigned@, m, t) ==> #[trigger] append_score(
                *rule,
                *instance,
                solution.rows(),
                m,
                t,
            ) >= append_score(*rule, *instance, solution.rows(), r.0 as int, r.1 as int),
{
    let ghost rows_g = solution.rows();
    let m_count = solution.task_assignment_matrix.len();
    let n_tasks = instance.task_times.len();
    let mut has_best: bool = false;
    let mut bm: usize = 0;
    let mut bt: usize = 0;
    let mut bp: (usize, usize) = (0, 0);
    let mut m: usize = 0;
    while m < m_count
        invariant
            instance.wf(),
            instance.fits(),
            solution.wf(*instance),
            assigned_matches(*instance, *solution, assigned@),
            rows_g == solution.rows(),
            m_count == solution.rows().len(),
            n_tasks as int == instance.task_count(),
            n_tasks as int == assigned@.len(),
            instance.task_count() <= usize::MAX as int,
            m <= m_count,
            has_best ==> append_ok(*solution, assigned@, bm as int, bt as int) && bp.0 - bp.1
                == append_score(*rule, *instance, rows_g, bm as int, bt as int),
            !has_best ==> forall|m2: int, t2: int|
                !(append_ok(*solution, assigned@, m2, t2) && m2 < m),
            has_best ==> forall|m2: int, t2: int|
                append_ok(*solution, assigned@, m2, t2) && m2 < m ==> #[trigger] append_score(
                    *rule,
                    *instance,
                    rows_g,
                    m2,
                    t2,
                ) >= append_score(*rule, *instance, rows_g, bm as int, bt as int),
        decreases m_count - m,
    {
        let mut t: usize = 0;
        while t < n_tasks
            invariant
                instance.wf(),
                instance.fits(),
                solution.wf(*instance),
                assigned_matches(*instance, *solution, assigned@),
                rows_g == solution.rows(),
                m_count == solution.rows().len(),
                n_tasks as int == instance.task_count(),
                n_tasks as int == assigned@.len(),
                instance.task_count() <= usize::MAX as int,
                m < m_count,
                t <= n_tasks,
                has_best ==> append_ok(*solution, assigned@, bm as int, bt as int) && bp.0 - bp.1
                    == append_score(*rule, *instance, rows_g, bm as int, bt as int),
                !has_best ==> forall|m2: int, t2: int|
                    !(append_ok(*solution, assigned@, m2, t2) && (m2 < m || (m2 == m && t2 < t))),
                has_best ==> forall|m2: int, t2: int|
                    append_ok(*solution, assigned@, m2, t2) && (m2 < m || (m2 == m && t2 < t))
                        ==> #[trigger] append_score(*rule, *instance, rows_g, m2, t2)
                        >= append_score(*rule, *instance, rows_g, bm as int, bt as int),
            decreases n_tasks - t,
        {
            if !assigned[t] {
                let p = append_score_parts(rule, instance, solution, m, t);
                let take_it = if !has_best {
                    true
                } else {
                    (p.0 as u128) + (bp.1 as u128) < (bp.0 as u128) + (p.1 as u128)
                };
                if take_it {
                    has_best = true;
                    bm = m;
                    bt = t;
                    bp = p;
                }
            }
            t = t + 1;
        }
        m = m + 1;
    }
    proof {
        if !has_best {
            broadcast use vstd::multiset::group_multiset_axioms;

            let x = crate::problem_instance::cost::lemma_missing_task(
                solution.task_mset(),
                instance.task_count(),
            );
            assert(!assigned@[x as int]);
            assert(append_ok(*solution, assigned@, 0, x as int));
            assert(false);
        }
    }
    (bm, bt)
}

/// Builds a complete solution by seeding every machine and then appending,
/// step by step, the task the rule ranks best.
pub(crate) fn construct_append(rule: &AppendRule, instance: &ProblemInstance) -> (r:
    ProblemSolution)
    requires
        instance.wf(),
        instance.fits(),
        instance.task_count() >= 1 ==> instance.machine_count() >= 1,
    ensures
        r.wf(*instance),
        r.complete(*instance),
        r.rows().len() == vstd::math::min(instance.machine_count(), instance.task_count()),
        constructed_greedily(*rule, *instance, r.rows()),
{
    let n_tasks = instance.task_times.len();
    let mut assigned: Vec<bool> = vec![false; n_tasks];
    let mut solution = ProblemSolution {
        tcts_by_machine: Vec::new(),
        task_assignment_matrix: Vec::new(),
    };
    proof {
        assert(assigned@ =~= Seq::new(n_tasks as nat, |i: int| false));
    }
    choose_initial_tasks(instance, &mut solution, &mut assigned);
    let ghost seed = solution.rows();
    let ghost mut steps: nat = 0;
    let mut done = solution.task_assignment_matrix.len();
    proof {
        crate::problem_instance::cost::lemma_rows_mset_len(solution.rows());
    }
    while done < n_tasks
        invariant
            instance.wf(),
            instance.fits(),
            n_tasks as int == instance.task_count(),
            solution.wf(*instance),
            assigned_matches(*instance, solution, assigned@),
            solution.rows().len() == vstd::math::min(
                instance.machine_count(),
                instance.task_count(),
            ),
            done <= n_tasks,
            done as int == solution.task_mset().len(),
            n_tasks >= 1 ==> solution.rows().len() >= 1,
            forall|q: int|
                0 <= q < solution.rows().len() ==> (#[trigger] solution.rows()[q]).len() >= 1,
            seeded_greedily(*instance, seed),
            seed.len() == vstd::math::min(instance.machine_count(), instance.task_count()),
            appended_greedily(*rule, *instance, seed, solution.rows(), steps),
        decreases n_tasks - done,
    {
        let choice = best_append(rule, instance, &solution, &assigned);
        let m = choice.0;
        let t = choice.1;
        let len_m = solution.task_assignment_matrix[m].len();
        proof {
            assert(solution.task_mset().count(t) == 0);
        }
        let ghost prev_sol = solution;
        let ghost prev_assigned = assigned@;
        solution.apply_insert(instance, m, len_m, t);
        assigned[t] = true;
        proof {
            broadcast use vstd::multiset::group_multiset_axioms;

            assert(assigned_matches(*instance, prev_sol, prev_assigned));
            assert(assigned@ == prev_assigned.update(t as int, true));
            assert forall|x: usize|
                solution.task_mset().count(x) == if (x as int) < assigned@.len()
                    && assigned@[x as int] {
                    1int
                } else {
                    0int
                } by {
                assert(prev_sol.task_mset().count(x) == if (x as int) < prev_assigned.len()
                    && prev_assigned[x as int] {
                    1int
                } else {
                    0int
                });
                assert(solution.task_mset().count(x) == prev_sol.task_mset().count(x) + if x == t {
                    1int
                } else {
                    0int
                });
            }
            assert(solution.task_mset() =~= prev_sol.task_mset().insert(t));
            assert(solution.task_mset().len() == prev_sol.task_mset().len() + 1);
            assert forall|q: int|
                0 <= q < solution.rows().len() implies (#[trigger] solution.rows()[q]).len()
                >= 1 by {
                if q != m as int {
                    assert(solution.rows()[q] == prev_sol.rows()[q]);
                }
            }
            let prev_rows = prev_sol.rows();
            assert(prev_rows[m as int].insert(prev_rows[m as int].len() as int, t)
                =~= prev_rows[m as int].push(t));
            assert(solution.rows() == append_rows(prev_rows, m as int, t as int));
            assert(append_rows_ok(*instance, prev_rows, m as int, t as int));
            assert forall|m2: int, t2: int|
                append_rows_ok(*instance, prev_rows, m2, t2) implies #[trigger] append_score(
                *rule,
                *instance,
                prev_rows,
                m2,
                t2,
            ) >= append_score(*rule, *instance, prev_rows, m as int, t as int) by {
                assert(prev_sol.task_mset().count(t2 as usize) == 0);
                assert(!prev_assigned[t2]);
                assert(append_ok(prev_sol, prev_assigned, m2, t2));
            }
            assert(best_append_step(*rule, *instance, prev_rows, solution.rows()));
            assert(appended_greedily(*rule, *instance, seed, solution.rows(), (steps + 1) as nat));
            steps = (steps + 1) as nat;
        }
        done = done + 1;
    }
    proof {
        crate::problem_instance::cost::lemma_complete_from_len(
            solution.task_mset(),
            instance.task_count(),
        );
        assert(constructed_greedily(*rule, *instance, solution.rows()));
    }
    solution
}

} // verus!

pub mod grasp;
pub mod vns;

mod fast_greedy_solver;
mod randomized_greedy_solver;

pub use fast_greedy_solver::FastGreedySolver;
pub use grasp::GRASP;
pub use vns::VNS;
pub use randomized_greedy_solver::RandomizedGreedySolver;
