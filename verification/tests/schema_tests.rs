use graph_traffic::schema::{group_by_graph, RoutingMethod, SimulationConfigurationItem};
use graph_traffic::tracker::SimulationTracker;

fn cfg(graph: &str) -> SimulationConfigurationItem {
    SimulationConfigurationItem {
        graph_file_name: graph.to_string(),
        max_iterations: 10,
        uuid: uuid::Uuid::new_v4().to_string(),
        random_seed: Some(123),
        routing_method: RoutingMethod::RandomWalk,
        warm_up_iterations: Some(0),
    }
}

#[test]
fn group_by_graph_groups_items_by_graph_file_name() {
    let input = vec![cfg("a.edgelist"), cfg("b.edgelist"), cfg("a.edgelist")];

    let grouped = group_by_graph(&input);

    assert_eq!(grouped.len(), 2);
    assert_eq!(grouped.get(&"a.edgelist".to_string()).unwrap().len(), 2);
    assert_eq!(grouped.get(&"b.edgelist".to_string()).unwrap().len(), 1);
}

#[test]
fn group_by_graph_empty_input_returns_empty_map() {
    let input: Vec<SimulationConfigurationItem> = Vec::new();
    let grouped = group_by_graph(&input);
    assert!(grouped.is_empty());
}

#[test]
fn group_by_graph_keeps_first_appearance_and_item_order() {
    let input = vec![cfg("b"), cfg("a"), cfg("b"), cfg("c"), cfg("a")];
    let grouped = group_by_graph(&input);
    assert_eq!(grouped.len(), 3);
    let (name, items) = grouped.group(0);
    assert_eq!(name, "b");
    assert_eq!(items.len(), 2);
    assert_eq!(items[0].uuid, input[0].uuid);
    assert_eq!(items[1].uuid, input[2].uuid);
    let (name, items) = grouped.group(1);
    assert_eq!(name, "a");
    assert_eq!(items[1].uuid, input[4].uuid);
    assert_eq!(grouped.group(2).0, "c");
    assert!(grouped.get(&"d".to_string()).is_none());
}

#[test]
fn simulation_tracker_record_increments_finished_counter() {
    let mut tracker = SimulationTracker::new(3);
    tracker.record();
    tracker.record();

    let finished = tracker.finished();
    assert_eq!(finished, 2);
}

#[test]
fn simulation_tracker_counts_down_to_zero() {
    let mut tracker = SimulationTracker::new(2);
    assert_eq!(tracker.record(), (1, 1));
    assert_eq!(tracker.record(), (2, 0));
    assert_eq!(tracker.record(), (3, 0));
    assert_eq!(tracker.total(), 2);
}
