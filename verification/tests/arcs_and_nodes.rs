use assignment_solver::network::arc::{Arc, COST_LIMIT};
use assignment_solver::network::node::Node;

#[test]
fn a_new_arc_carries_no_flow() {
    let arc = Arc::new(3, 4, -7, 1, 2);
    assert_eq!(arc.get_start_node_id(), 3);
    assert_eq!(arc.get_end_node_id(), 4);
    assert_eq!(arc.get_cost(), -7);
    assert_eq!(arc.get_min_flow(), 1);
    assert_eq!(arc.get_max_flow(), 2);
    assert_eq!(arc.get_current_flow(), 0);
}

#[test]
fn an_arc_inverts_at_its_minimum_while_minima_are_met() {
    let mut arc = Arc::new(3, 4, 7, 2, 5);
    assert!(!arc.push_flow(false));
    assert_eq!(arc.get_current_flow(), 1);
    assert!(arc.push_flow(false));
    assert_eq!(arc.get_current_flow(), 0);
    assert_eq!(arc.get_start_node_id(), 4);
    assert_eq!(arc.get_end_node_id(), 3);
    assert_eq!(arc.get_cost(), -7);
}

#[test]
fn an_arc_inverts_at_its_maximum_afterwards() {
    let mut arc = Arc::new(3, 4, 7, 1, 3);
    assert!(!arc.push_flow(true));
    assert!(!arc.push_flow(true));
    assert_eq!(arc.get_current_flow(), 2);
    assert_eq!(arc.get_start_node_id(), 3);
    assert!(arc.push_flow(true));
    assert_eq!(arc.get_current_flow(), 0);
    assert_eq!(arc.get_start_node_id(), 4);
}

#[test]
fn inverting_twice_gives_the_arc_back() {
    let mut arc = Arc::new(1, 2, COST_LIMIT, 0, 1);
    arc.invert();
    assert_eq!(arc.get_cost(), -COST_LIMIT);
    assert_eq!((arc.get_start_node_id(), arc.get_end_node_id()), (2, 1));
    arc.invert();
    assert_eq!(arc.get_cost(), COST_LIMIT);
    assert_eq!((arc.get_start_node_id(), arc.get_end_node_id()), (1, 2));
}

#[test]
fn the_phase_change_keeps_the_minimum_as_flow() {
    let mut arc = Arc::new(1, 5, 0, 2, 4);
    assert!(arc.update_for_second_phase());
    assert_eq!((arc.get_start_node_id(), arc.get_end_node_id()), (5, 1));
    assert_eq!(arc.get_current_flow(), 2);
    let mut full = Arc::new(1, 5, 0, 3, 3);
    assert!(!full.update_for_second_phase());
    assert_eq!((full.get_start_node_id(), full.get_end_node_id()), (1, 5));
    assert_eq!(full.get_current_flow(), 0);
    let mut none = Arc::new(1, 5, 0, 0, 0);
    assert!(!none.update_for_second_phase());
}

#[test]
fn a_node_lists_each_arc_once() {
    let mut node = Node::with_capacity(4);
    assert_eq!(node.get_num_connections(), 0);
    assert_eq!(node.get_first_connected_arc_id(), None);
    node.add_connection(5);
    node.add_connection(7);
    node.add_connection(5);
    assert_eq!(node.get_connections(), &vec![5, 7]);
    assert_eq!(node.get_first_connected_arc_id(), Some(5));
    assert!(node.is_connected(7));
    assert!(!node.is_connected(6));
}

#[test]
fn removing_moves_the_last_arc_into_the_gap() {
    let mut node = Node::new();
    for arc_id in [10, 11, 12, 13] {
        node.add_connection(arc_id);
    }
    node.remove_connection(11);
    assert_eq!(node.get_connections(), &vec![10, 13, 12]);
    node.remove_connection(12);
    assert_eq!(node.get_connections(), &vec![10, 13]);
    node.remove_connection(10);
    node.remove_connection(13);
    assert_eq!(node.get_num_connections(), 0);
    let copy = node.duplicate();
    assert_eq!(copy.get_num_connections(), 0);
}
