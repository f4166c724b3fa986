use daap7::problem_solution::{FastGreedySolution, GreedySolution, ProblemSolution};
use daap7::problem_solver::grasp::local_search::{
    InterMachineReinsertion, IntraMachineSwap, IntraMachineSwapAnxious, LocalSearch, NoSearch,
};
use daap7::problem_solver::grasp::stop_criterion::{
    IterationsWithoutChange, StopCriterion, TotalIterations,
};
use daap7::problem_solver::vns::SearchKind;
use daap7::problem_solver::{
    FastGreedySolver, ProblemSolver, RandomizedGreedySolver, GRASP, VNS,
};
use daap7::ProblemInstance;

fn sample_instance() -> ProblemInstance {
    ProblemInstance::new(
        vec![
            vec![0, 0, 2, 3],
            vec![1, 0, 4, 3],
            vec![3, 2, 0, 2],
            vec![1, 0, 2, 0],
        ],
        vec![1, 2, 4],
        2,
    )
    .unwrap()
}

/// Completion-time summation written out directly, against the library's
/// weighted computation.
fn brute_force_tct(instance: &ProblemInstance, order: &[usize]) -> usize {
    let mut total = 0;
    let mut completion = 0;
    for (i, &t) in order.iter().enumerate() {
        let setup = if i == 0 {
            instance.setup_times()[0][t + 1]
        } else {
            instance.setup_times()[order[i - 1] + 1][t + 1]
        };
        completion += setup + instance.task_times()[t];
        total += completion;
    }
    total
}

fn assert_is_partition(tasks: &Vec<Vec<usize>>, n: usize) {
    let mut seen: Vec<usize> = tasks.iter().flatten().copied().collect();
    seen.sort();
    let expected: Vec<usize> = (0..n).collect();
    assert_eq!(seen, expected);
}

#[test]
fn tct() {
    let instance = sample_instance();
    assert_eq!(
        instance.calculate_total_completion_time(&vec![0, 1, 2]),
        21
    );
}

#[test]
fn tct_matches_brute_force_on_short_sequences() {
    let instance = sample_instance();
    let orders: Vec<Vec<usize>> = vec![
        vec![0],
        vec![1],
        vec![2],
        vec![0, 1],
        vec![1, 0],
        vec![2, 1],
        vec![0, 1, 2],
        vec![0, 2, 1],
        vec![1, 0, 2],
        vec![1, 2, 0],
        vec![2, 0, 1],
        vec![2, 1, 0],
    ];
    for order in orders {
        assert_eq!(
            instance.calculate_total_completion_time(&order),
            brute_force_tct(&instance, &order),
            "disagreement on {:?}",
            order
        );
    }
}

#[test]
fn empty_sequence_costs_nothing() {
    let instance = sample_instance();
    assert_eq!(instance.calculate_total_completion_time(&vec![]), 0);
}

#[test]
fn instance_shape_is_checked() {
    assert!(ProblemInstance::new(vec![vec![0, 0], vec![0, 0]], vec![1, 2], 1).is_none());
    assert!(ProblemInstance::new(vec![vec![0, 0, 0], vec![0, 0], vec![0, 0, 0]], vec![1, 2], 1)
        .is_none());
    assert!(sample_instance().check_fits());
}

#[test]
fn constructions_place_every_task_once() {
    let instance = sample_instance();
    let mut fast = FastGreedySolver::new();
    let fast_solution = fast.solve(&instance);
    assert_is_partition(fast_solution.get_tasks_by_machine(), 3);

    let mut randomized = RandomizedGreedySolver::new(2);
    let random_solution = randomized.solve(&instance);
    assert_is_partition(random_solution.get_tasks_by_machine(), 3);

    let greedy = GreedySolution::solve(&instance);
    assert_is_partition(greedy.get_tasks_by_machine(), 3);

    let fast_greedy = FastGreedySolution::solve(&instance);
    assert_is_partition(fast_greedy.get_tasks_by_machine(), 3);

    assert_is_partition(&instance.solve_greedy(), 3);
}

#[test]
fn machine_costs_sum_to_the_total() {
    let instance = sample_instance();
    let mut solver = FastGreedySolver::new();
    let solution = solver.solve(&instance);
    let by_machine: usize = solution.get_tcts_by_machine().iter().sum();
    assert_eq!(by_machine, solution.get_total_completion_time());
    let greedy = GreedySolution::solve(&instance);
    let greedy_sum: usize = greedy.get_tcts_by_machine().iter().sum();
    assert_eq!(greedy_sum, greedy.get_total_completion_time());
}

#[test]
fn cached_costs_match_recomputation() {
    let instance = sample_instance();
    let mut solver = RandomizedGreedySolver::new(3);
    let solution = solver.solve(&instance);
    let tasks = solution.get_tasks_by_machine();
    let caches = solution.get_tcts_by_machine();
    for (row, cache) in tasks.iter().zip(caches.iter()) {
        assert_eq!(instance.calculate_total_completion_time(row), *cache);
    }
}

#[test]
fn improve_reaches_a_fixed_point() {
    let instance = sample_instance();
    let mut solver = RandomizedGreedySolver::new(2);
    let solution = solver.solve(&instance);
    let before = solution.get_total_completion_time();
    let improved = IntraMachineSwap::new().improve(&instance, solution);
    let after = improved.get_total_completion_time();
    assert!(after <= before);
    // At the fixed point another search pass finds nothing strictly better.
    match IntraMachineSwap::perform_search(&instance, &improved) {
        None => {}
        Some(candidate) => {
            assert!(candidate.get_total_completion_time() >= after);
        }
    }
    match IntraMachineSwapAnxious::perform_search(&instance, &improved) {
        None => {}
        Some(candidate) => {
            assert!(candidate.get_total_completion_time() < after);
        }
    }
}

#[test]
fn grasp_without_search_returns_a_complete_solution() {
    let instance = sample_instance();
    let mut grasp = GRASP::new(1, NoSearch::new(), TotalIterations::new(5));
    let solution = grasp.solve(&instance);
    assert_is_partition(solution.get_tasks_by_machine(), 3);
}

#[test]
fn grasp_with_descent_never_loses_to_its_own_descent() {
    let instance = sample_instance();
    let mut grasp = GRASP::new(
        2,
        InterMachineReinsertion::new(),
        IterationsWithoutChange::new(3),
    );
    let solution = grasp.solve(&instance);
    assert_is_partition(solution.get_tasks_by_machine(), 3);
    let settled = InterMachineReinsertion::new().improve(&instance, solution.clone());
    assert_eq!(
        settled.get_total_completion_time(),
        solution.get_total_completion_time()
    );
}

#[test]
fn vns_returns_a_complete_solution() {
    let instance = sample_instance();
    let mut vns = VNS::new(
        2,
        TotalIterations::new(3),
        vec![
            SearchKind::InterMachineReinsertion,
            SearchKind::IntraMachineSwap,
        ],
    );
    let solution = vns.solve(&instance);
    assert_is_partition(solution.get_tasks_by_machine(), 3);
}

#[test]
fn total_iterations_fires_exactly_on_schedule() {
    let mut criterion = TotalIterations::new(3);
    for round in 0..4 {
        assert!(!criterion.stop(10, 5), "round {}", round);
        assert!(!criterion.stop(10, 20), "round {}", round);
        assert!(criterion.stop(10, 10), "round {}", round);
    }
}

#[test]
fn iterations_without_change_fires_and_resets() {
    let mut criterion = IterationsWithoutChange::new(3);
    // Two non-improving calls, then an improving one: the run restarts.
    assert!(!criterion.stop(10, 10));
    assert!(!criterion.stop(10, 15));
    assert!(!criterion.stop(10, 5));
    // The third consecutive non-improving call fires.
    assert!(!criterion.stop(10, 11));
    assert!(!criterion.stop(10, 12));
    assert!(criterion.stop(10, 13));
    // Having fired, the criterion starts over.
    assert!(!criterion.stop(10, 14));
    assert!(!criterion.stop(10, 15));
    assert!(criterion.stop(10, 16));
}

#[test]
fn grasp_with_a_single_candidate_is_deterministic() {
    // With a candidate pool of one, every randomized construction collapses
    // to the same deterministic best insertion, so repeated searches agree.
    let instance = sample_instance();
    let mut first = GRASP::new(1, NoSearch::new(), TotalIterations::new(4));
    let mut second = GRASP::new(1, NoSearch::new(), TotalIterations::new(4));
    let mut plain = RandomizedGreedySolver::new(1);
    let a = first.solve(&instance).get_total_completion_time();
    let b = second.solve(&instance).get_total_completion_time();
    let c = plain.solve(&instance).get_total_completion_time();
    assert_eq!(a, b);
    assert_eq!(a, c);
}

#[test]
fn more_machines_than_tasks_leaves_machines_unseeded() {
    let instance = ProblemInstance::new(
        vec![vec![0, 1, 2], vec![3, 0, 4], vec![5, 6, 0]],
        vec![7, 9],
        4,
    )
    .unwrap();
    assert!(instance.check_fits());
    let mut solver = FastGreedySolver::new();
    let solution = solver.solve(&instance);
    assert_eq!(solution.get_tasks_by_machine().len(), 2);
    assert_is_partition(solution.get_tasks_by_machine(), 2);
}

#[test]
fn an_instance_without_tasks_solves_to_nothing() {
    let instance = ProblemInstance::new(vec![vec![0]], vec![], 3).unwrap();
    assert!(instance.check_fits());
    let mut solver = FastGreedySolver::new();
    let solution = solver.solve(&instance);
    assert_eq!(solution.get_total_completion_time(), 0);
    assert!(solution.get_tasks_by_machine().is_empty());
}

#[test]
fn metaheuristics_agree_on_completeness_of_a_larger_instance() {
    let instance = ProblemInstance::new(
        vec![
            vec![0, 2, 1, 3, 4, 2],
            vec![1, 0, 3, 2, 1, 5],
            vec![2, 3, 0, 1, 2, 1],
            vec![3, 1, 2, 0, 4, 2],
            vec![1, 2, 3, 4, 0, 1],
            vec![2, 1, 1, 3, 2, 0],
        ],
        vec![4, 2, 7, 3, 1],
        2,
    )
    .unwrap();
    assert!(instance.check_fits());
    let mut grasp = GRASP::new(
        3,
        IntraMachineSwapAnxious::new(),
        IterationsWithoutChange::new(4),
    );
    assert_is_partition(grasp.solve(&instance).get_tasks_by_machine(), 5);
    let mut vns = VNS::new(
        3,
        TotalIterations::new(2),
        vec![
            SearchKind::InterMachineReinsertionAnxious,
            SearchKind::IntraMachineReinsertion,
            SearchKind::InterMachineSwap,
        ],
    );
    assert_is_partition(vns.solve(&instance).get_tasks_by_machine(), 5);
}
