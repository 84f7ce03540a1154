use assignment_solver::network::feasibility_error::FeasibilityKind;
use assignment_solver::network::Network;

/// A small problem: bounds of the tasks, and for each worker the cost of each
/// task it accepts.
struct Problem {
    tasks: Vec<(usize, usize)>,
    workers: Vec<Vec<Option<i64>>>,
}

fn build(problem: &Problem) -> Network {
    let mut network = Network::new();
    for (t, (min, max)) in problem.tasks.iter().enumerate() {
        network.add_task(format!("T{}", t), *min, *max).unwrap();
    }
    for (w, costs) in problem.workers.iter().enumerate() {
        let list: Vec<(String, i64)> = costs
            .iter()
            .enumerate()
            .filter_map(|(t, cost)| cost.map(|c| (format!("T{}", t), c)))
            .collect();
        network.add_worker(format!("W{}", w), &list).unwrap();
    }
    network
}

/// The least cost of any plan, found by trying them all.
fn cheapest_plan(problem: &Problem) -> Option<i64> {
    fn place(problem: &Problem, w: usize, loads: &mut Vec<usize>, cost: i64, best: &mut Option<i64>) {
        if w == problem.workers.len() {
            let within = problem.tasks.iter().zip(loads.iter()).all(|((min, max), load)| min <= load && load <= max);
            if within && best.map_or(true, |b| cost < b) {
                *best = Some(cost);
            }
            return;
        }
        for (t, entry) in problem.workers[w].iter().enumerate() {
            if let Some(c) = entry {
                loads[t] += 1;
                place(problem, w + 1, loads, cost + c, best);
                loads[t] -= 1;
            }
        }
    }
    let mut best = None;
    place(problem, 0, &mut vec![0; problem.tasks.len()], 0, &mut best);
    best
}

/// A stream of numbers that looks random and is the same on every run.
fn next(seed: &mut u64) -> u64 {
    *seed = seed.wrapping_mul(6364136223846793005).wrapping_add(1442695040888963407);
    *seed >> 33
}

fn some_problem(seed: &mut u64) -> Problem {
    let num_tasks = 1 + (next(seed) % 3) as usize;
    let num_workers = (next(seed) % 5) as usize;
    let tasks = (0..num_tasks)
        .map(|_| {
            let min = (next(seed) % 3) as usize;
            (min, min + (next(seed) % 3) as usize)
        })
        .collect();
    let workers = (0..num_workers)
        .map(|_| {
            (0..num_tasks)
                .map(|_| if next(seed) % 4 == 0 { None } else { Some((next(seed) % 21) as i64 - 10) })
                .collect()
        })
        .collect();
    Problem { tasks, workers }
}

#[test]
fn the_score_is_the_least_cost_of_any_plan() {
    let mut seed = 7;
    let mut solved = 0;
    let mut failed = 0;
    for _ in 0..400 {
        let problem = some_problem(&mut seed);
        let mut network = build(&problem);
        let sum_min: usize = problem.tasks.iter().map(|(min, _)| min).sum();
        let sum_max: usize = problem.tasks.iter().map(|(_, max)| max).sum();
        let result = network.find_min_cost_max_flow();
        match cheapest_plan(&problem) {
            Some(best) => {
                assert!(result.is_ok());
                assert_eq!(network.total_score(), best as i128);
                assert_eq!(network.num_unassigned_workers(), 0);
                solved += 1;
            }
            None => {
                let error = result.unwrap_err();
                let expected = if problem.workers.len() < sum_min {
                    FeasibilityKind::InsufficientWorkers
                } else if problem.workers.len() > sum_max {
                    FeasibilityKind::InsufficientCapacity
                } else {
                    FeasibilityKind::Infeasible
                };
                assert_eq!(error.kind, expected);
                assert_eq!(network.num_unassigned_workers(), problem.workers.len());
                assert_eq!(network.total_score(), 0);
                failed += 1;
            }
        }
    }
    assert!(solved > 50 && failed > 50);
}

#[test]
fn every_task_ends_within_its_bounds_and_every_worker_with_one_task() {
    let mut seed = 99;
    for _ in 0..200 {
        let problem = some_problem(&mut seed);
        let mut network = build(&problem);
        if network.find_min_cost_max_flow().is_err() {
            continue;
        }
        let assignments = network.get_worker_assignments();
        assert_eq!(assignments.len(), problem.tasks.len());
        let mut seen = vec![0; problem.workers.len()];
        let mut cost = 0;
        for (t, (name, workers)) in assignments.iter().enumerate() {
            assert_eq!(name, &format!("T{}", t));
            assert!(problem.tasks[t].0 <= workers.len() && workers.len() <= problem.tasks[t].1);
            for worker in workers {
                let w: usize = worker[1..].parse().unwrap();
                seen[w] += 1;
                cost += problem.workers[w][t].unwrap();
            }
        }
        assert!(seen.iter().all(|count| *count == 1));
        assert_eq!(network.total_score(), cost as i128);
        for (t, (_, workers)) in assignments.iter().enumerate() {
            for worker in workers {
                let w: usize = worker[1..].parse().unwrap();
                let worker_id = 2 + problem.tasks.len() + w;
                assert_eq!(network.task_of_worker(worker_id), Some(2 + t));
            }
        }
    }
}

#[test]
fn assigning_one_by_one_is_assigning_all() {
    let mut seed = 2024;
    for _ in 0..100 {
        let problem = some_problem(&mut seed);
        let mut whole = build(&problem);
        let mut stepwise = build(&problem);
        let expected = whole.find_min_cost_max_flow();
        let mut result = stepwise.begin_assignment();
        let mut steps = 0;
        while result.is_ok() && stepwise.num_unassigned_workers() > 0 {
            result = stepwise.augment();
            steps += 1;
        }
        assert_eq!(expected.is_ok(), result.is_ok());
        if let (Err(a), Err(b)) = (&expected, &result) {
            assert_eq!(a.kind, b.kind);
        }
        if expected.is_ok() {
            assert_eq!(steps, problem.workers.len());
            assert_eq!(whole.total_score(), stepwise.total_score());
            assert_eq!(whole.get_worker_assignments(), stepwise.get_worker_assignments());
        }
    }
}

#[test]
fn the_worker_count_is_checked_first() {
    let problem = Problem { tasks: vec![(2, 2)], workers: vec![vec![None]] };
    let mut network = build(&problem);
    assert_eq!(network.check_worker_count().unwrap_err().kind, FeasibilityKind::InsufficientWorkers);
    assert_eq!(network.begin_assignment().unwrap_err().kind, FeasibilityKind::InsufficientWorkers);
    let problem = Problem { tasks: vec![(0, 1)], workers: vec![vec![None], vec![None]] };
    let mut network = build(&problem);
    assert_eq!(network.check_worker_count().unwrap_err().kind, FeasibilityKind::InsufficientCapacity);
    assert_eq!(network.find_min_cost_max_flow().unwrap_err().kind, FeasibilityKind::InsufficientCapacity);
    let problem = Problem { tasks: vec![(0, 2)], workers: vec![vec![Some(1)], vec![Some(2)]] };
    let mut network = build(&problem);
    assert!(network.check_worker_count().is_ok());
    assert_eq!(network.task_of_worker(3), None);
    assert_eq!(network.room_for_minima(), usize::MAX);
    assert_eq!(network.room_for_maxima(), usize::MAX - 2);
    assert!(network.begin_assignment().is_ok());
    assert!(network.is_min_flow_satisfied());
}

#[test]
fn a_larger_problem_is_solved_too() {
    let mut seed = 5;
    let num_tasks = 30;
    let num_workers = 240;
    let mut network = Network::new();
    for t in 0..num_tasks {
        network.add_task(format!("T{}", t), 4, 10).unwrap();
    }
    let mut cheapest_each = 0i128;
    for w in 0..num_workers {
        let list: Vec<(String, i64)> =
            (0..num_tasks).map(|t| (format!("T{}", t), (next(&mut seed) % 1000) as i64)).collect();
        cheapest_each += *list.iter().map(|(_, cost)| cost).min().unwrap() as i128;
        network.add_worker(format!("W{}", w), &list).unwrap();
    }
    network.find_min_cost_max_flow().unwrap();
    assert_eq!(network.num_unassigned_workers(), 0);
    let assignments = network.get_worker_assignments();
    let total: usize = assignments.iter().map(|(_, workers)| workers.len()).sum();
    assert_eq!(total, num_workers);
    assert!(assignments.iter().all(|(_, workers)| 4 <= workers.len() && workers.len() <= 10));
    // No assignment is cheaper than giving every worker its cheapest task.
    assert!(network.total_score() >= cheapest_each);
    assert!(network.total_score() < cheapest_each + 1000 * num_workers as i128);
}
