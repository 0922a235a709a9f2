use graph_traffic::graph_dynamics::{Edge, Message, MessageState, RoutingError, Vertex};
use graph_traffic::schema::RoutingMethod;

#[test]
fn test_edge_new() {
    let edge = Edge::new(10);
    assert!(edge.is_ok());
    let edge = edge.unwrap();
    assert_eq!(edge.capacity(), 10);
    assert_eq!(edge.queue_size(), 0);
    assert_eq!(edge.total_num_messages_processed(), 0);

    let edge = Edge::new(0);
    assert!(edge.is_err());
}

#[test]
fn teste_edge_set_capacity() {
    let mut edge = Edge::new(10).unwrap();
    edge.set_capacity(20);
    assert_eq!(edge.capacity(), 20);

    edge.set_capacity(0);
    assert_eq!(edge.capacity(), 1);
}

#[test]
fn test_edge_add_message() {
    let mut edge = Edge::new(10).unwrap();
    let msg = Message::new(0, 1, 0).unwrap();
    edge.add_message(msg, true);

    assert_eq!(edge.queue_size(), 1);
    assert_eq!(edge.total_num_messages_processed(), 1);
}

#[test]
fn test_message_source_to_destination() {
    assert!(Message::new(0, 0, 0).is_none())
}

#[test]
fn test_edge_messages_to_deliver() {
    let mut edge = Edge::new(2).unwrap();
    let msg1 = Message::new(0, 1, 0).unwrap();
    let msg2 = Message::new(0, 1, 1).unwrap();
    let msg3 = Message::new(0, 1, 2).unwrap();

    edge.add_message(msg1, true);
    edge.add_message(msg2, true);
    edge.add_message(msg3, true);

    assert_eq!(edge.queue_size(), 3);

    let delivered = edge.messages_to_deliver_mut();
    assert_eq!(delivered.len(), 2);
    assert_eq!(edge.queue_size(), 1);

    let delivered = edge.messages_to_deliver_mut();
    assert_eq!(delivered.len(), 1);
    assert_eq!(edge.queue_size(), 0);

    let delivered = edge.messages_to_deliver_mut();
    assert_eq!(delivered.len(), 0);
}

#[test]
fn test_vertex_new() {
    let vertex = Vertex::default();
    assert_eq!(vertex.num_arrived_msgs(), 0);
    assert_eq!(vertex.num_traveling_msgs(), 0);
    assert_eq!(vertex.total_distance(), 0);
    assert_eq!(vertex.total_traveling_time(), 0);
    assert_eq!(vertex.num_messages_generated(), 0);
}

#[test]
fn test_vertex_increment_num_traveling_msgs() {
    let mut vertex = Vertex::default();
    vertex.increment_num_traveling_msgs();
    assert_eq!(vertex.num_traveling_msgs(), 1);
    vertex.increment_num_traveling_msgs();
    assert_eq!(vertex.num_traveling_msgs(), 2);
}

#[test]
fn test_vertex_increment_num_created_messages() {
    let mut vertex = Vertex::default();
    vertex.increment_num_created_messages();
    assert_eq!(vertex.num_messages_generated(), 1);
    vertex.increment_num_created_messages();
    assert_eq!(vertex.num_messages_generated(), 2);
}

#[test]
fn test_vertex_update_statistics() {
    let mut vertex = Vertex::default();

    let mut msg = Message::new(0, 1, 10).unwrap();
    msg.set_state(MessageState::Arrived { time_arrived: 20 });

    let ideal_distance = 5;
    vertex.update_statistics(&msg, ideal_distance, true);

    assert_eq!(vertex.num_arrived_msgs(), 1);
    assert_eq!(vertex.total_traveling_time(), 10); // 20 - 10
    assert_eq!(vertex.total_distance(), 5);

    assert_eq!(vertex.num_arrived_msgs(), 1);
    assert_eq!(vertex.total_traveling_time(), 10);
    assert_eq!(vertex.total_distance(), 5);

    let mut msg2 = Message::new(0, 1, 5).unwrap();
    msg2.set_state(MessageState::Arrived { time_arrived: 15 });
    let ideal_distance2 = 8;

    vertex.update_statistics(&msg2, ideal_distance2, true);

    assert_eq!(vertex.num_arrived_msgs(), 2);
    assert_eq!(vertex.total_traveling_time(), 20);
    assert_eq!(vertex.total_distance(), 13);
}

#[test]
fn vertex_update_statistics_outside_observation_changes_nothing() {
    let mut vertex = Vertex::default();
    let mut msg = Message::new(2, 3, 4).unwrap();
    msg.set_state(MessageState::Arrived { time_arrived: 9 });
    vertex.update_statistics(&msg, 3, false);
    assert_eq!(vertex.num_arrived_msgs(), 0);
    assert_eq!(vertex.total_traveling_time(), 0);
    assert_eq!(vertex.total_distance(), 0);
}

#[test]
fn edge_delivers_in_arrival_order_and_keeps_the_rest() {
    let mut edge = Edge::new(2).unwrap();
    for t in 0..5u64 {
        edge.add_message(Message::new(0, 1, t).unwrap(), false);
    }
    assert_eq!(edge.total_num_messages_processed(), 0);
    let first = edge.messages_to_deliver_mut();
    let times: Vec<u64> = first.iter().map(|m| m.time_creation()).collect();
    assert_eq!(times, vec![0, 1]);
    edge.set_capacity(10);
    let rest = edge.messages_to_deliver_mut();
    let times: Vec<u64> = rest.iter().map(|m| m.time_creation()).collect();
    assert_eq!(times, vec![2, 3, 4]);
    assert_eq!(edge.capacity(), 10);
}

#[test]
fn edge_to_hdf5_copies_capacity_and_count() {
    let mut edge = Edge::new(3).unwrap();
    edge.add_message(Message::new(4, 5, 0).unwrap(), true);
    edge.add_message(Message::new(5, 4, 0).unwrap(), true);
    let record = edge.to_hdf5();
    assert_eq!(record.capacity, 3);
    assert_eq!(record.total_num_messages_processed, 2);
}

#[test]
fn message_new_keeps_its_fields() {
    let msg = Message::new(7, 3, 42).unwrap();
    assert_eq!(msg.source(), 7);
    assert_eq!(msg.destination(), 3);
    assert_eq!(msg.time_creation(), 42);
    assert!(matches!(msg.state(), MessageState::Created));
}

fn cycle_of_five() -> graph_traffic::graph_structure::PreComputedGraph {
    graph_traffic::graph_structure::PreComputedGraph::from_edge_list(b"5\n5\n0 1\n1 2\n2 3\n3 4\n4 0\n")
        .ok()
        .unwrap()
        .0
}

#[test]
fn step_to_refuses_a_hop_that_stays_in_place() {
    let g = cycle_of_five();
    let mut msg = Message::new(0, 2, 0).unwrap();
    let r = msg.step_to(&g, 0, RoutingMethod::MinimalPaths, 1);
    assert_eq!(r, Err(RoutingError::StaysInPlace));
    assert!(matches!(msg.state(), MessageState::Created));
}

#[test]
fn step_to_refuses_a_vertex_that_is_not_a_neighbour() {
    let g = cycle_of_five();
    let mut msg = Message::new(0, 2, 0).unwrap();
    assert_eq!(msg.step_to(&g, 2, RoutingMethod::RandomWalk, 1), Err(RoutingError::NotAnEdge));
    assert!(matches!(msg.state(), MessageState::Created));
}

#[test]
fn step_to_refuses_a_hop_away_from_the_destination_on_shortest_paths() {
    let g = cycle_of_five();
    let mut msg = Message::new(0, 1, 0).unwrap();
    assert_eq!(msg.step_to(&g, 4, RoutingMethod::MinimalPaths, 1), Err(RoutingError::NotCloser));
    let mut walker = Message::new(0, 1, 0).unwrap();
    assert_eq!(walker.step_to(&g, 4, RoutingMethod::RandomWalk, 1), Ok(()));
    assert!(matches!(walker.state(), MessageState::InEdge { edge: (0, 4) }));
}

#[test]
fn step_to_moves_closer_then_arrives() {
    let g = cycle_of_five();
    let mut msg = Message::new(0, 1, 3).unwrap();
    assert_eq!(msg.step_to(&g, 1, RoutingMethod::MinimalPaths, 4), Ok(()));
    assert!(matches!(msg.state(), MessageState::InEdge { edge: (0, 1) }));
    assert_eq!(msg.step_to(&g, 3, RoutingMethod::MinimalPaths, 5), Ok(()));
    assert!(matches!(msg.state(), MessageState::Arrived { time_arrived: 5 }));
    assert_eq!((msg.source(), msg.destination(), msg.time_creation()), (0, 1, 3));
}

#[test]
fn edge_capacity_never_drops_below_one() {
    let mut edge = Edge::new(3).unwrap();
    edge.set_capacity(0);
    assert_eq!(edge.capacity(), 1);
    edge.add_message(Message::new(0, 1, 0).unwrap(), false);
    let delivered = edge.messages_to_deliver_mut();
    assert_eq!(delivered.len(), 1);
    assert_eq!(edge.capacity(), 1);
}

#[test]
fn edge_clone_keeps_capacity_counts_and_queue() {
    let mut edge = Edge::new(2).unwrap();
    edge.add_message(Message::new(0, 1, 0).unwrap(), true);
    let copy = edge.clone();
    assert_eq!(copy.capacity(), 2);
    assert_eq!(copy.total_num_messages_processed(), 1);
    assert_eq!(copy.queue_size(), 1);
}
