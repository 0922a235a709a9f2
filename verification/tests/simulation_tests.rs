use graph_traffic::graph_dynamics::{Message, MessageState, RoutingError, Vertex};
use graph_traffic::graph_structure::{CloserNeighborSampler, PreComputedGraph};
use graph_traffic::random_engine::RandomEngine;
use graph_traffic::schema::RoutingMethod;
use graph_traffic::simulation::{Simulation, SimulationError};
use rand::distr::Bernoulli;
use rand::SeedableRng;
use rand_pcg::Pcg64;
use std::sync::Arc;

/// Moves to the first neighbour one step closer to the destination.
struct FirstCloser(Arc<PreComputedGraph>);

impl CloserNeighborSampler for FirstCloser {
    fn answers(&self, source: usize, destination: usize, next: usize) -> bool {
        self.0.neighbors_slice(source).contains(&next)
            && self.0.get_distance(next, destination) + 1 == self.0.get_distance(source, destination)
    }

    fn sample_closer_neighbor(&self, source: usize, destination: usize, _rng: &mut Pcg64) -> usize {
        let d = self.0.get_distance(source, destination);
        *self
            .0
            .neighbors_slice(source)
            .iter()
            .find(|&&w| self.0.get_distance(w, destination) + 1 == d)
            .unwrap()
    }
}

/// Always answers the same vertex.
struct Fixed(usize);

impl CloserNeighborSampler for Fixed {
    fn answers(&self, _source: usize, _destination: usize, next: usize) -> bool {
        next == self.0
    }

    fn sample_closer_neighbor(&self, _source: usize, _destination: usize, _rng: &mut Pcg64) -> usize {
        self.0
    }
}

fn graph(text: &[u8]) -> Arc<PreComputedGraph> {
    Arc::new(PreComputedGraph::from_edge_list(text).ok().unwrap().0)
}

fn engine(seed: u64, rho: f64, v: usize) -> RandomEngine {
    RandomEngine::from_parts(Pcg64::seed_from_u64(seed), Bernoulli::new(rho).unwrap(), v).unwrap()
}

fn totals(sim: &Simulation) -> (u64, u64, u64) {
    let generated: u64 = sim.vertices().iter().map(|v: &Vertex| v.num_messages_generated()).sum();
    let arrived: u64 = sim.vertices().iter().map(|v: &Vertex| v.num_arrived_msgs()).sum();
    let queued: u64 = sim.edges().iter().map(|e| e.queue_size() as u64).sum();
    (generated, arrived, queued)
}

#[test]
fn simulation_initializes_internal_state() {
    let graph_cache = graph(b"3\n2\n0 1\n1 2\n");
    let simulation = Simulation::new(graph_cache.clone(), RoutingMethod::MinimalPaths, engine(42, 1.0, 3));
    assert_eq!(simulation.current_time_step(), 0);
    assert_eq!(simulation.vertices().len(), graph_cache.node_count());
    assert_eq!(simulation.edges().len(), graph_cache.edge_count());
    assert_eq!(simulation.shuffled_edge_indices(), &(0..graph_cache.edge_count()).collect::<Vec<_>>());
}

#[test]
fn every_created_message_is_queued_or_delivered() {
    let g = graph(b"5\n5\n0 1\n1 2\n2 3\n3 4\n4 0\n");
    let sampler = FirstCloser(g.clone());
    let mut sim = Simulation::new(g.clone(), RoutingMethod::MinimalPaths, engine(7, 1.0, 5));
    for round in 0..20u64 {
        let ready = sim.begin_round(&sampler, 0).unwrap();
        assert!(ready);
        assert_eq!(sim.current_time_step(), round + 1);
        sim.forward_messages_on_edges(&sampler, true).unwrap();
        let (generated, arrived, queued) = totals(&sim);
        assert_eq!(generated, arrived + queued);
    }
    let (generated, _, _) = totals(&sim);
    assert_eq!(generated, 5 * 20);
}

#[test]
fn warm_up_rounds_are_not_counted() {
    let g = graph(b"3\n2\n0 1\n1 2\n");
    let sampler = FirstCloser(g.clone());
    let mut sim = Simulation::new(g.clone(), RoutingMethod::RandomWalk, engine(3, 1.0, 3));
    for _ in 0..2 {
        assert!(!sim.begin_round(&sampler, 2).unwrap());
        sim.forward_messages_on_edges(&sampler, false).unwrap();
    }
    let (generated, arrived, _) = totals(&sim);
    assert_eq!((generated, arrived), (0, 0));
    assert!(sim.edges().iter().all(|e| e.total_num_messages_processed() == 0));
    assert!(sim.begin_round(&sampler, 2).unwrap());
    let (generated, _, _) = totals(&sim);
    assert_eq!(generated, 3);
}

#[test]
fn arrivals_record_travel_time_and_ideal_distance() {
    let g = graph(b"2\n1\n0 1\n");
    let sampler = FirstCloser(g.clone());
    let mut sim = Simulation::new(g.clone(), RoutingMethod::MinimalPaths, engine(11, 1.0, 2));
    sim.begin_round(&sampler, 0).unwrap();
    assert_eq!(sim.edges()[0].queue_size(), 2);
    sim.set_edge_capacity(0, 5);
    sim.forward_messages_on_edges(&sampler, true).unwrap();
    for v in sim.vertices() {
        assert_eq!(v.num_arrived_msgs(), 1);
        assert_eq!(v.total_traveling_time(), 1);
        assert_eq!(v.total_distance(), 1);
        assert_eq!(v.num_messages_generated(), 1);
    }
    assert_eq!(sim.edges()[0].queue_size(), 0);
    assert_eq!(sim.edges()[0].capacity(), 5);
    assert_eq!(sim.edges()[0].total_num_messages_processed(), 2);
}

#[test]
fn a_message_at_its_destination_arrives() {
    let g = graph(b"3\n2\n0 1\n1 2\n");
    let mut rng = engine(1, 0.5, 3);
    let mut msg = Message::new(0, 1, 4).unwrap();
    msg.set_state(MessageState::InEdge { edge: (0, 1) });
    msg.step(&g, &Fixed(0), &mut rng, RoutingMethod::MinimalPaths, 9).unwrap();
    assert!(matches!(msg.state(), MessageState::Arrived { time_arrived: 9 }));
}

#[test]
fn shortest_path_steps_move_one_step_closer() {
    let g = graph(b"6\n6\n0 1\n1 2\n2 3\n3 4\n4 5\n5 0\n");
    let mut rng = engine(1, 0.5, 6);
    let mut msg = Message::new(0, 2, 0).unwrap();
    msg.step(&g, &FirstCloser(g.clone()), &mut rng, RoutingMethod::MinimalPaths, 0).unwrap();
    assert!(matches!(msg.state(), MessageState::InEdge { edge: (0, 1) }));

    let mut msg = Message::new(0, 2, 0).unwrap();
    assert_eq!(msg.step(&g, &Fixed(5), &mut rng, RoutingMethod::MinimalPaths, 0), Err(RoutingError::NotCloser));
    assert!(matches!(msg.state(), MessageState::Created));
    assert_eq!(msg.step(&g, &Fixed(3), &mut rng, RoutingMethod::MinimalPaths, 0), Err(RoutingError::NotAnEdge));
    assert_eq!(msg.step(&g, &Fixed(0), &mut rng, RoutingMethod::MinimalPaths, 0), Err(RoutingError::StaysInPlace));
}

#[test]
fn limited_visibility_walks_randomly_when_far() {
    let g = graph(b"6\n5\n0 1\n1 2\n2 3\n3 4\n4 5\n");
    let mut rng = engine(2, 0.5, 6);
    // The destination is 5 steps away, beyond a visibility of 2: the sampler
    // is not asked.
    let mut msg = Message::new(0, 5, 0).unwrap();
    msg.step(&g, &Fixed(3), &mut rng, RoutingMethod::LimitedVisibility(2), 0).unwrap();
    assert!(matches!(msg.state(), MessageState::InEdge { edge: (0, 1) }));
    // Within the visibility, the sampler is asked and checked.
    let mut msg = Message::new(4, 5, 0).unwrap();
    assert_eq!(msg.step(&g, &Fixed(3), &mut rng, RoutingMethod::LimitedVisibility(2), 0), Err(RoutingError::NotCloser));
}

#[test]
fn counters_have_room_after_a_few_rounds() {
    let g = graph(b"2\n1\n0 1\n");
    let sampler = FirstCloser(g.clone());
    let mut sim = Simulation::new(g.clone(), RoutingMethod::RandomWalk, engine(5, 1.0, 2));
    for _ in 0..3 {
        sim.begin_round(&sampler, 0).unwrap();
        sim.forward_messages_on_edges(&sampler, true).unwrap();
    }
    assert!(sim.has_room_to_generate());
    assert!(sim.has_room_to_forward());
    let (_, _, queued) = totals(&sim);
    assert_eq!(sim.total_queued_messages(), Some(queued));
    assert_ne!(sim.begin_round(&sampler, 0), Err(SimulationError::CounterOverflow));
}

#[test]
fn create_message_at_queues_one_message_on_an_edge_leaving_its_source() {
    let g = graph(b"3\n2\n0 1\n1 2\n");
    let sampler = FirstCloser(g.clone());
    let mut sim = Simulation::new(g.clone(), RoutingMethod::MinimalPaths, engine(5, 1.0, 3));
    sim.create_message_at(&sampler, 0, true, 2, true).unwrap();
    assert_eq!(sim.vertices()[0].num_messages_generated(), 1);
    let e01 = g.get_edge_id(0, 1);
    assert_eq!(sim.edges()[e01].queue_size(), 1);
    assert_eq!(sim.edges()[e01].total_num_messages_processed(), 1);
    let total: usize = sim.edges().iter().map(|e| e.queue_size()).sum();
    assert_eq!(total, 1);
}

#[test]
fn create_message_at_without_a_draw_changes_nothing() {
    let g = graph(b"3\n2\n0 1\n1 2\n");
    let sampler = FirstCloser(g.clone());
    let mut sim = Simulation::new(g.clone(), RoutingMethod::MinimalPaths, engine(5, 1.0, 3));
    sim.create_message_at(&sampler, 1, false, 0, true).unwrap();
    assert!(sim.vertices().iter().all(|v| v.num_messages_generated() == 0));
    assert!(sim.edges().iter().all(|e| e.queue_size() == 0 && e.total_num_messages_processed() == 0));
}

#[test]
fn create_message_at_reports_a_refused_hop() {
    let g = graph(b"3\n2\n0 1\n1 2\n");
    let mut sim = Simulation::new(g.clone(), RoutingMethod::MinimalPaths, engine(5, 1.0, 3));
    let r = sim.create_message_at(&Fixed(2), 0, true, 2, true);
    assert_eq!(r, Err(SimulationError::Routing(RoutingError::NotAnEdge)));
    assert!(sim.edges().iter().all(|e| e.queue_size() == 0));
    assert_eq!(sim.vertices()[0].num_messages_generated(), 0);
}

#[test]
fn forwarded_messages_join_the_back_of_their_next_queue() {
    // A path 0 - 1 - 2: both ends send to the other end; after one round of
    // deliveries each message waits on the second edge of its path.
    let g = graph(b"3\n2\n0 1\n1 2\n");
    let sampler = FirstCloser(g.clone());
    let mut sim = Simulation::new(g.clone(), RoutingMethod::MinimalPaths, engine(5, 1.0, 3));
    sim.create_message_at(&sampler, 0, true, 2, true).unwrap();
    sim.create_message_at(&sampler, 2, true, 0, true).unwrap();
    sim.advance_time();
    sim.forward_messages_on_edges(&sampler, true).unwrap();
    let e01 = g.get_edge_id(0, 1);
    let e12 = g.get_edge_id(1, 2);
    assert_eq!(sim.edges()[e01].queue_size(), 1);
    assert_eq!(sim.edges()[e12].queue_size(), 1);
    assert_eq!(sim.edges()[e01].total_num_messages_processed(), 2);
    assert_eq!(sim.edges()[e12].total_num_messages_processed(), 2);
    assert_eq!(sim.vertices()[1].num_traveling_msgs(), 2);
    assert!(sim.vertices().iter().all(|v| v.num_arrived_msgs() == 0));
}

#[test]
fn unobserved_deliveries_keep_every_message() {
    let g = graph(b"3\n2\n0 1\n1 2\n");
    let sampler = FirstCloser(g.clone());
    let mut sim = Simulation::new(g.clone(), RoutingMethod::MinimalPaths, engine(5, 1.0, 3));
    sim.create_message_at(&sampler, 0, true, 2, false).unwrap();
    sim.create_message_at(&sampler, 2, true, 0, false).unwrap();
    sim.advance_time();
    sim.forward_messages_on_edges(&sampler, false).unwrap();
    let total: usize = sim.edges().iter().map(|e| e.queue_size()).sum();
    assert_eq!(total, 2);
}

#[test]
fn every_processed_message_entered_its_edge_once() {
    let g = graph(b"6\n7\n0 1\n1 2\n2 3\n3 4\n4 5\n5 0\n0 3\n");
    let sampler = FirstCloser(g.clone());
    let mut sim = Simulation::new(g.clone(), RoutingMethod::MinimalPaths, engine(13, 0.5, 6));
    for _ in 0..15 {
        assert!(sim.begin_round(&sampler, 0).unwrap());
        sim.forward_messages_on_edges(&sampler, true).unwrap();
        let processed: u64 = sim.edges().iter().map(|e| e.total_num_messages_processed()).sum();
        let generated: u64 = sim.vertices().iter().map(|v| v.num_messages_generated()).sum();
        let traveling: u64 = sim.vertices().iter().map(|v| v.num_traveling_msgs()).sum();
        assert_eq!(processed, generated + traveling);
        let (generated, arrived, queued) = totals(&sim);
        assert_eq!(generated, arrived + queued);
        assert!(sim.vertices().iter().all(|v| v.num_arrived_msgs() <= v.total_distance()));
        assert!(sim.vertices().iter().all(|v| v.total_distance() <= v.total_traveling_time()));
    }
}

#[test]
fn random_walks_take_at_least_their_distance_in_time() {
    let g = graph(b"6\n7\n0 1\n1 2\n2 3\n3 4\n4 5\n5 0\n0 3\n");
    let sampler = FirstCloser(g.clone());
    let mut sim = Simulation::new(g.clone(), RoutingMethod::RandomWalk, engine(21, 0.7, 6));
    for _ in 0..25 {
        sim.begin_round(&sampler, 0).unwrap();
        sim.forward_messages_on_edges(&sampler, true).unwrap();
        for v in sim.vertices() {
            assert!(v.num_arrived_msgs() <= v.total_distance());
            assert!(v.total_distance() <= v.total_traveling_time());
        }
    }
}

#[test]
fn shortest_path_rounds_with_a_good_sampler_never_fail() {
    let g = graph(b"4\n4\n0 1\n1 2\n2 3\n3 0\n");
    let sampler = FirstCloser(g.clone());
    let mut sim = Simulation::new(g.clone(), RoutingMethod::MinimalPaths, engine(3, 1.0, 4));
    for _ in 0..10 {
        assert!(sim.begin_round(&sampler, 0).is_ok());
        assert!(sim.forward_messages_on_edges(&sampler, true).is_ok());
    }
}
