use assignment_solver::network::feasibility_error::FeasibilityKind;
use assignment_solver::network::model::InputError;
use assignment_solver::network::Network;

/// Costs are given in thousandths.
fn cost(value: f32) -> i64 {
    (value as f64 * 1000.0).round() as i64
}

fn affinities(list: &[(&str, f32)]) -> Vec<(String, i64)> {
    list.iter().map(|(name, value)| (name.to_string(), cost(*value))).collect()
}

fn names(list: &[&str]) -> Vec<String> {
    list.iter().map(|name| name.to_string()).collect()
}

fn score(network: &Network) -> f64 {
    network.total_score() as f64 / 1000.0
}

#[test]
fn test_push_flow() {
    let node_a_id = 0;
    let node_b_id = 1;
    let arc_cost = cost(16.8);
    let mut network = Network::new();
    network.add_arc(node_a_id, node_b_id, arc_cost, 1, 1);

    assert_eq!(network.node(node_a_id).get_num_connections(), 1);
    assert_eq!(network.node(node_b_id).get_num_connections(), 0);
    assert_eq!(
        network
            .arc(network.node(node_a_id).get_first_connected_arc_id().unwrap())
            .get_end_node_id(),
        node_b_id
    );
    network.push_flow_down_path(&vec![0, 1]);
    assert_eq!(network.node(node_a_id).get_num_connections(), 0);
    assert_eq!(network.node(node_b_id).get_num_connections(), 1);
    assert_eq!(
        network
            .arc(network.node(node_b_id).get_first_connected_arc_id().unwrap())
            .get_end_node_id(),
        node_a_id
    );
    assert_eq!(network.arc(0).get_cost(), -arc_cost);
    assert_eq!(network.arc(0).get_start_node_id(), node_b_id);
    assert_eq!(network.arc(0).get_end_node_id(), node_a_id);
}

#[test]
fn test_shortest_path() {
    let mut network = Network::new();
    let task_names: Vec<String> = vec!["Task 1".into(), "Task 2".into()];
    network.add_task(task_names[0].clone(), 1, 1).unwrap();
    network.add_task(task_names[1].clone(), 1, 1).unwrap();
    network
        .add_worker("Worker 1".into(), &affinities(&[("Task 1", 2.5_f32), ("Task 2", 3.0_f32)]))
        .unwrap();
    network
        .add_worker("Worker 2".into(), &affinities(&[("Task 1", 2.6_f32), ("Task 2", 1.9_f32)]))
        .unwrap();

    assert_eq!(network.num_nodes(), 6);
    assert_eq!(network.num_arcs(), 8);
    let mut path = network.find_shortest_path().unwrap();
    assert_eq!(path.len(), 4);
    assert_eq!(*path.first().unwrap(), 0);
    assert_eq!(*path.last().unwrap(), 1);
    assert_eq!(network.get_path_cost(&path), cost(1.9_f32) as i128);
    network.push_flow_down_path(&path);
    path.reverse();
    for node_pair in path.windows(2) {
        assert!(
            network.find_connecting_arc_id(node_pair[0], node_pair[1]).is_some(),
            "Arc between {} and {} not inverted!",
            node_pair[1],
            node_pair[0]
        );
    }
}

fn ten_to_five() -> (Network, Vec<String>) {
    let mut network = Network::new();
    let task_names = names(&["Task 1", "Task 2", "Task 3", "Task 4", "Task 5"]);
    let worker_names = names(&[
        "Worker 1", "Worker 2", "Worker 3", "Worker 4", "Worker 5", "Worker 6", "Worker 7",
        "Worker 8", "Worker 9", "Worker 10",
    ]);
    network.add_task(task_names[0].clone(), 1, 2).unwrap();
    network.add_task(task_names[1].clone(), 2, 2).unwrap();
    network.add_task(task_names[2].clone(), 0, 2).unwrap();
    network.add_task(task_names[3].clone(), 2, 3).unwrap();
    network.add_task(task_names[4].clone(), 1, 2).unwrap();
    let matrix: [[f32; 5]; 10] = [
        [3.0, 4.0, 1.5, 1.5, 5.0],
        [4.0, 3.0, 6.0, 2.0, 1.0],
        [2.0, 5.0, 4.0, 1.0, 3.0],
        [3.0, 5.0, 1.0, 4.0, 0.0],
        [1.0, 4.0, 2.0, 3.0, 5.0],
        [5.0, 3.0, 1.0, 4.0, 2.0],
        [1.0, 3.0, 5.0, 4.0, 2.0],
        [4.0, 3.0, 5.0, 1.0, 2.0],
        [5.0, 2.0, 3.0, 4.0, 1.0],
        [2.0, 5.0, 1.0, 3.0, 4.0],
    ];
    for (worker, row) in worker_names.iter().zip(matrix.iter()) {
        let list: Vec<(String, i64)> =
            task_names.iter().zip(row.iter()).map(|(task, value)| (task.clone(), cost(*value))).collect();
        network.add_worker(worker.clone(), &list).unwrap();
    }
    (network, task_names)
}

#[test]
fn test_min_cost_augmentation() {
    let (mut network, task_names) = ten_to_five();

    assert_eq!(network.num_nodes(), 17);
    assert_eq!(network.num_arcs(), 65);
    assert_eq!(network.node(0).get_num_connections(), 10);
    assert_eq!(network.node(1).get_num_connections(), 1);
    network.find_min_cost_max_flow().unwrap();
    let total_cost = -network.get_cost_of_arcs_from_nodes(&task_names) as f32 / 1000.0;
    assert_eq!(network.node(0).get_num_connections(), 0);
    assert_eq!(network.node(1).get_num_connections(), 4);
    assert!((total_cost - 12.5_f32).abs() / 12.5_f32 < 5e-10_f32);
}

#[test]
fn basic_assignment_picks_the_cheaper_pairing() {
    let mut network = Network::new();
    network.add_task("T1".into(), 1, 1).unwrap();
    network.add_task("T2".into(), 1, 1).unwrap();
    network.add_worker("W1".into(), &affinities(&[("T1", 2.5), ("T2", 3.0)])).unwrap();
    network.add_worker("W2".into(), &affinities(&[("T1", 2.6), ("T2", 1.9)])).unwrap();
    network.find_min_cost_max_flow().unwrap();
    assert_eq!(network.total_score(), 4400);
    assert_eq!(
        network.get_worker_assignments(),
        vec![("T1".to_string(), names(&["W1"])), ("T2".to_string(), names(&["W2"]))]
    );
}

#[test]
fn ten_workers_on_five_tasks() {
    let (mut network, _) = ten_to_five();
    network.find_min_cost_max_flow().unwrap();
    assert_eq!(network.total_score(), 12500);
    let relative = (score(&network) - 12.5).abs() / 12.5;
    assert!(relative < 5e-10);
    let bounds = [(1, 2), (2, 2), (0, 2), (2, 3), (1, 2)];
    let assignments = network.get_worker_assignments();
    assert_eq!(assignments.len(), 5);
    let mut seen: Vec<String> = Vec::new();
    for ((_, workers), (min, max)) in assignments.iter().zip(bounds.iter()) {
        assert!(*min <= workers.len() && workers.len() <= *max);
        for worker in workers {
            assert!(!seen.contains(worker));
            seen.push(worker.clone());
        }
    }
    assert_eq!(seen.len(), 10);
}

#[test]
fn too_few_workers_for_the_minima() {
    let mut network = Network::new();
    network.add_task("T1".into(), 3, 3).unwrap();
    network.add_task("T2".into(), 3, 4).unwrap();
    for worker in ["W1", "W2", "W3"] {
        network.add_worker(worker.into(), &affinities(&[("T1", 1.0), ("T2", 1.0)])).unwrap();
    }
    let error = network.find_min_cost_max_flow().unwrap_err();
    assert_eq!(error.kind, FeasibilityKind::InsufficientWorkers);
    assert_eq!(error.message, "Not enough workers to assign!");
    assert_eq!(error.to_text(), "Not enough workers to assign!");
    assert_eq!(network.node(0).get_num_connections(), 3);
}

#[test]
fn too_many_workers_for_the_maxima() {
    let mut network = Network::new();
    network.add_task("T1".into(), 0, 1).unwrap();
    network.add_worker("W1".into(), &affinities(&[("T1", 1.0)])).unwrap();
    network.add_worker("W2".into(), &affinities(&[("T1", 1.0)])).unwrap();
    let error = network.find_min_cost_max_flow().unwrap_err();
    assert_eq!(error.kind, FeasibilityKind::InsufficientCapacity);
    assert_eq!(error.message, "Not enough capacity for workers!");
}

#[test]
fn workers_that_all_want_the_same_task() {
    let mut network = Network::new();
    network.add_task("T1".into(), 1, 1).unwrap();
    network.add_task("T2".into(), 1, 1).unwrap();
    network.add_worker("W1".into(), &affinities(&[("T1", 1.0)])).unwrap();
    network.add_worker("W2".into(), &affinities(&[("T1", 2.0)])).unwrap();
    let error = network.find_min_cost_max_flow().unwrap_err();
    assert_eq!(error.kind, FeasibilityKind::Infeasible);
    assert_eq!(error.message, "Unable to assign all workers!");
    // The network is as it was before the attempt.
    assert_eq!(network.node(0).get_num_connections(), 2);
    assert!(!network.is_min_flow_satisfied());
    assert_eq!(network.total_score(), 0);
    for arc_id in 0..network.num_arcs() {
        assert_eq!(network.arc(arc_id).get_current_flow(), 0);
    }
}

#[test]
fn tasks_without_minima_skip_the_first_phase() {
    let mut network = Network::new();
    for task in ["T1", "T2", "T3"] {
        network.add_task(task.into(), 0, 2).unwrap();
    }
    network.add_worker("W1".into(), &affinities(&[("T1", 1.0), ("T2", 5.0), ("T3", 9.0)])).unwrap();
    network.add_worker("W2".into(), &affinities(&[("T1", 2.0), ("T2", 6.0), ("T3", 9.0)])).unwrap();
    network.add_worker("W3".into(), &affinities(&[("T1", 3.0), ("T2", 4.0), ("T3", 9.0)])).unwrap();
    assert_eq!(network.node(1).get_num_connections(), 3);
    network.find_min_cost_max_flow().unwrap();
    assert!(network.is_min_flow_satisfied());
    // T1 takes its two cheapest workers, the third goes to T2.
    assert_eq!(network.total_score(), 1000 + 2000 + 4000);
    let assignments = network.get_worker_assignments();
    let total: usize = assignments.iter().map(|(_, workers)| workers.len()).sum();
    assert_eq!(total, 3);
    assert_eq!(assignments[2].1.len(), 0);
}

#[test]
fn a_task_without_capacity_gets_nobody() {
    let mut network = Network::new();
    network.add_task("Closed".into(), 0, 0).unwrap();
    network.add_task("Open".into(), 0, 2).unwrap();
    network.add_worker("W1".into(), &affinities(&[("Closed", 1.0), ("Open", 50.0)])).unwrap();
    network.add_worker("W2".into(), &affinities(&[("Closed", 1.0), ("Open", 60.0)])).unwrap();
    network.find_min_cost_max_flow().unwrap();
    let assignments = network.get_worker_assignments();
    assert_eq!(assignments[0], ("Closed".to_string(), Vec::<String>::new()));
    assert_eq!(assignments[1].1.len(), 2);
    assert_eq!(network.total_score(), 110_000);
}

#[test]
fn a_worker_without_tasks_makes_it_infeasible() {
    let mut network = Network::new();
    network.add_task("T1".into(), 1, 1).unwrap();
    network.add_task("T2".into(), 1, 2).unwrap();
    network.add_worker("W1".into(), &affinities(&[("T1", 1.0), ("T2", 1.0)])).unwrap();
    network.add_worker("Idle".into(), &Vec::new()).unwrap();
    assert_eq!(network.num_workers(), 2);
    let error = network.find_min_cost_max_flow().unwrap_err();
    assert_eq!(error.kind, FeasibilityKind::Infeasible);
}

#[test]
fn solving_twice_changes_nothing() {
    let (mut network, _) = ten_to_five();
    network.find_min_cost_max_flow().unwrap();
    let first = network.get_worker_assignments();
    let first_score = network.total_score();
    let sink_arcs = network.node(1).get_num_connections();
    network.find_min_cost_max_flow().unwrap();
    assert_eq!(network.get_worker_assignments(), first);
    assert_eq!(network.total_score(), first_score);
    assert_eq!(network.node(1).get_num_connections(), sink_arcs);

    let mut empty = Network::new();
    empty.add_task("T".into(), 0, 1).unwrap();
    empty.find_min_cost_max_flow().unwrap();
    let sink_arcs = empty.node(1).get_num_connections();
    empty.find_min_cost_max_flow().unwrap();
    assert_eq!(empty.node(1).get_num_connections(), sink_arcs);
}

#[test]
fn the_order_of_tasks_and_workers_does_not_change_the_score() {
    let rows: [(&str, [f32; 3]); 4] = [
        ("W1", [4.0, 1.5, 3.0]),
        ("W2", [2.0, 2.5, 3.5]),
        ("W3", [1.0, 4.5, 0.5]),
        ("W4", [3.0, 3.0, 2.0]),
    ];
    let tasks: [(&str, usize, usize); 3] = [("A", 1, 2), ("B", 1, 1), ("C", 0, 2)];
    let mut scores = Vec::new();
    for task_order in [[0, 1, 2], [2, 1, 0], [1, 2, 0]] {
        for worker_order in [[0, 1, 2, 3], [3, 2, 1, 0], [1, 3, 0, 2]] {
            let mut network = Network::new();
            for t in task_order {
                network.add_task(tasks[t].0.into(), tasks[t].1, tasks[t].2).unwrap();
            }
            for w in worker_order {
                let list: Vec<(String, i64)> =
                    task_order.iter().map(|t| (tasks[*t].0.to_string(), cost(rows[w].1[*t]))).collect();
                network.add_worker(rows[w].0.into(), &list).unwrap();
            }
            network.find_min_cost_max_flow().unwrap();
            scores.push(network.total_score());
        }
    }
    assert!(scores.iter().all(|s| *s == scores[0]));
    assert_eq!(scores[0], 1500 + 2000 + 500 + 2000);
}

#[test]
fn flows_stay_within_bounds_and_lists_hold_no_arc_twice() {
    let (mut network, _) = ten_to_five();
    let check = |network: &Network| {
        for arc_id in 0..network.num_arcs() {
            let arc = network.arc(arc_id);
            assert!(arc.get_current_flow() <= arc.get_max_flow());
            assert!(arc.get_min_flow() <= arc.get_max_flow());
        }
        for node_id in 0..network.num_nodes() {
            let list = network.node(node_id).get_connections();
            for (i, a) in list.iter().enumerate() {
                assert!(!list[..i].contains(a));
                assert_eq!(network.arc(*a).get_start_node_id(), node_id);
            }
        }
    };
    check(&network);
    while network.num_unassigned_workers() > 0 {
        network.augment().unwrap();
        check(&network);
    }
    assert_eq!(network.total_score(), 12500);
}

#[test]
fn tasks_and_workers_that_are_not_taken() {
    let mut network = Network::new();
    assert_eq!(network.add_task("T".into(), 2, 1), Err(InputError::MaxBelowMin));
    assert_eq!(network.add_task("T".into(), 1, usize::MAX), Ok(2));
    assert_eq!(network.add_task("U".into(), 0, 1), Err(InputError::TotalTooLarge));
    assert_eq!(network.add_task("U".into(), usize::MAX, usize::MAX), Err(InputError::TotalTooLarge));
    assert_eq!(network.num_nodes(), 3);
    assert_eq!(network.add_worker("W".into(), &affinities(&[("X", 1.0)])), Err(InputError::UnknownTask));
    assert_eq!(
        network.add_worker("W".into(), &affinities(&[("T", 1.0), ("T", 2.0)])),
        Err(InputError::RepeatedTask)
    );
    assert_eq!(
        network.add_worker("W".into(), &vec![("T".to_string(), i64::MAX)]),
        Err(InputError::CostOutOfRange)
    );
    assert_eq!(
        network.add_worker("W".into(), &vec![("T".to_string(), i64::MIN)]),
        Err(InputError::CostOutOfRange)
    );
    assert_eq!(network.num_nodes(), 3);
    assert_eq!(network.num_arcs(), 1);
    assert_eq!(network.add_worker("W".into(), &vec![("T".to_string(), -(1i64 << 62))]), Ok(3));
    assert_eq!(network.num_workers(), 1);
    assert!(network.has_task("T"));
    assert!(!network.has_task("W"));
    assert_eq!(network.task_id_of("T"), Some(2));
    assert_eq!(network.task_id_of("U"), None);
}

#[test]
fn a_later_task_takes_over_a_name() {
    let mut network = Network::new();
    network.add_task("T".into(), 0, 1).unwrap();
    network.add_task("T".into(), 0, 1).unwrap();
    network.add_worker("W".into(), &affinities(&[("T", 1.0)])).unwrap();
    network.find_min_cost_max_flow().unwrap();
    assert_eq!(network.get_worker_assignments(), vec![("T".to_string(), names(&["W"]))]);
    assert_eq!(network.workers_of_task(2), Vec::<String>::new());
    assert_eq!(network.workers_of_task(3), names(&["W"]));
}

#[test]
fn negative_costs_are_found_cheapest() {
    let mut network = Network::new();
    network.add_task("T1".into(), 1, 1).unwrap();
    network.add_task("T2".into(), 0, 1).unwrap();
    network.add_worker("W1".into(), &affinities(&[("T1", -2.0), ("T2", -5.0)])).unwrap();
    network.add_worker("W2".into(), &affinities(&[("T1", -1.0), ("T2", -7.0)])).unwrap();
    network.find_min_cost_max_flow().unwrap();
    assert_eq!(network.total_score(), -9000);
    assert_eq!(network.get_cost_of_flow_from_node(2), 2000);
    assert_eq!(network.get_cost_of_arcs_from_nodes(&names(&["T1", "T2", "T1"])), 2000 + 7000 + 2000);
}

#[test]
fn a_sink_out_of_reach_is_reported() {
    let mut network = Network::new();
    network.add_task("A".into(), 0, 1).unwrap();
    network.add_arc(0, 2, 1, 1, 1);
    network.add_arc(1, 2, 1, 1, 1);
    let error = network.find_shortest_path().unwrap_err();
    assert_eq!(error.kind, FeasibilityKind::Infeasible);
}

#[test]
fn the_phase_change_turns_unsaturated_arcs_round() {
    let mut network = Network::new();
    network.add_task("Full".into(), 0, 0).unwrap();
    network.add_task("Room".into(), 0, 3).unwrap();
    assert_eq!(network.node(1).get_connections(), &vec![0, 1]);
    network.reset_arcs_for_second_phase();
    assert!(network.is_min_flow_satisfied());
    assert_eq!(network.node(1).get_connections(), &vec![0]);
    assert_eq!(network.node(3).get_connections(), &vec![1]);
    assert_eq!(network.arc(1).get_start_node_id(), 3);
    assert_eq!(network.arc(1).get_end_node_id(), 1);
    assert_eq!(network.arc(1).get_current_flow(), 0);
    assert_eq!(network.arc(0).get_start_node_id(), 1);
}

#[test]
fn the_arcs_that_leave_the_tasks_cost_the_score_negated() {
    let (mut network, task_names) = ten_to_five();
    network.find_min_cost_max_flow().unwrap();
    assert_eq!(network.total_score(), 12_500);
    assert_eq!(network.get_cost_of_arcs_from_nodes(&task_names), -12_500);
    let mut turned = task_names.clone();
    turned.reverse();
    turned.swap(1, 3);
    assert_eq!(network.get_cost_of_arcs_from_nodes(&turned), -network.total_score());
}

#[test]
fn every_worker_stands_once_in_the_lists() {
    let (mut network, _) = ten_to_five();
    network.find_min_cost_max_flow().unwrap();
    let assignments = network.get_worker_assignments();
    let mut found: Vec<String> = assignments.iter().flat_map(|(_, workers)| workers.iter().cloned()).collect();
    assert_eq!(found.len(), network.num_workers());
    found.sort();
    let mut expected: Vec<String> = (1..=10).map(|i| format!("Worker {}", i)).collect();
    expected.sort();
    assert_eq!(found, expected);
}
