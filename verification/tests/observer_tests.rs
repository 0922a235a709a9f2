use graph_traffic::graph_dynamics::{Edge, Message, Vertex};
use graph_traffic::observers::{ObserverEdgeCapacity, ObserverEdgeQueue, ObserverEdgeReceivedMessages, ObserverTotalMessages};
use std::num::NonZero;

#[test]
fn total_messages_records_iterations() {
    let mut observer = ObserverTotalMessages::default();
    let edges = Vec::<Edge>::new();
    let vertices = Vec::<Vertex>::new();

    for i in 0..3 {
        observer.measure(i, &edges, &vertices);
    }

    assert_eq!(observer.total_messages_over_time().len(), 3);
    assert!(observer.total_messages_over_time().iter().all(|&v| v == 0));
}

#[test]
fn edge_capacity_records_iterations_on_measure() {
    let mut observer = ObserverEdgeCapacity::new(NonZero::new(2).unwrap().get());
    let edges = Vec::<Edge>::new();
    let vertices = Vec::<Vertex>::new();

    for i in 0..5 {
        observer.measure(i, &edges, &vertices);
    }

    assert_eq!(observer.capacities_over_time().len(), 3);
    assert!(observer.capacities_over_time().contains_key(&0));
    assert!(observer.capacities_over_time().contains_key(&2));
    assert!(observer.capacities_over_time().contains_key(&4));
}

#[test]
fn edge_queue_handles_empty_edges() {
    let mut observer = ObserverEdgeQueue::new(0);
    let edges = Vec::<Edge>::new();
    let vertices = Vec::<Vertex>::new();

    observer.measure(0, &edges, &vertices);

    assert_eq!(observer.queue_histograms.len(), 0);
}

#[test]
fn edge_received_messages_handles_empty_edges() {
    let mut observer = ObserverEdgeReceivedMessages::new(0);
    let edges = Vec::<Edge>::new();
    let vertices = Vec::<Vertex>::new();

    observer.measure(0, &edges, &vertices);

    assert_eq!(observer.received_histograms().len(), 0);
}

fn edges_with_queues(lengths: &[usize]) -> Vec<Edge> {
    lengths
        .iter()
        .map(|&len| {
            let mut edge = Edge::new(1).unwrap();
            for t in 0..len {
                edge.add_message(Message::new(0, 1, t as u64).unwrap(), true);
            }
            edge
        })
        .collect()
}

#[test]
fn edge_queue_counts_queue_lengths() {
    let mut observer = ObserverEdgeQueue::new(2);
    let vertices = Vec::<Vertex>::new();
    let edges = edges_with_queues(&[0, 3]);
    assert!(observer.has_room_to_measure(&edges));
    observer.measure(1, &edges, &vertices);
    observer.measure(2, &edges, &vertices);
    let edges = edges_with_queues(&[1, 3]);
    observer.measure(3, &edges, &vertices);
    assert_eq!(observer.queue_histograms[0].get(&0), Some(&2));
    assert_eq!(observer.queue_histograms[0].get(&1), Some(&1));
    assert_eq!(observer.queue_histograms[1].get(&3), Some(&3));
    assert_eq!(observer.queue_histograms[1].len(), 1);
}

#[test]
fn edge_received_messages_counts_processed_totals() {
    let mut observer = ObserverEdgeReceivedMessages::new(2);
    let vertices = Vec::<Vertex>::new();
    let edges = edges_with_queues(&[2, 0]);
    assert!(observer.has_room_to_measure(&edges));
    observer.measure(0, &edges, &vertices);
    observer.measure(1, &edges, &vertices);
    assert_eq!(observer.received_histograms()[0].get(&2), Some(&2));
    assert_eq!(observer.received_histograms()[1].get(&0), Some(&2));
}

#[test]
fn edge_capacity_records_every_capacity() {
    let mut observer = ObserverEdgeCapacity::new(3);
    let vertices = Vec::<Vertex>::new();
    let mut edges = edges_with_queues(&[0, 0]);
    edges[1].set_capacity(7);
    observer.measure(3, &edges, &vertices);
    observer.measure(4, &edges, &vertices);
    assert_eq!(observer.capacities_over_time().len(), 1);
    assert_eq!(observer.capacities_over_time()[&3], vec![1, 7]);
}

#[test]
fn total_messages_sums_the_queues() {
    let mut observer = ObserverTotalMessages::default();
    let vertices = Vec::<Vertex>::new();
    let edges = edges_with_queues(&[2, 0, 5]);
    observer.measure(0, &edges, &vertices);
    assert_eq!(observer.total_messages_over_time(), &vec![7]);
}
