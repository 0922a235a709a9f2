//! Observers: what is measured of the edges while a simulation runs.
use crate::graph_dynamics::{Edge, Vertex};
use crate::simulation::total_queued;
use std::collections::HashMap;
use vstd::prelude::*;

verus! {

broadcast use vstd::std_specs::hash::group_hash_axioms;

/// `hist` after one more occurrence of `key`.
pub open spec fn count_one_more<K>(hist: Map<K, usize>, key: K) -> Map<K, usize> {
    hist.insert(key, (if hist.contains_key(key) { hist[key] + 1 } else { 1 }) as usize)
}

/// `hist` after one more occurrence of `key`, with `u64` counts.
pub open spec fn count_one_more_u64(hist: Map<u64, u64>, key: u64) -> Map<u64, u64> {
    hist.insert(key, (if hist.contains_key(key) { hist[key] + 1 } else { 1 }) as u64)
}

/// For every edge, how many times each queue length was seen.
pub struct ObserverEdgeQueue {
    pub queue_histograms: Vec<HashMap<usize, usize>>,
}

impl ObserverEdgeQueue {
    /// An observer of `num_edges` edges that has seen nothing yet.
    pub fn new(num_edges: usize) -> (r: Self)
        ensures
            r.queue_histograms@.len() == num_edges,
            forall|i: int| 0 <= i < num_edges ==> (#[trigger] r.queue_histograms@[i])@ == Map::<usize, usize>::empty(),
    {
        let mut queue_histograms: Vec<HashMap<usize, usize>> = Vec::new();
        let mut i: usize = 0;
        while i < num_edges
            invariant
                i <= num_edges,
                queue_histograms@.len() == i,
                forall|j: int| 0 <= j < i ==> (#[trigger] queue_histograms@[j])@ == Map::<usize, usize>::empty(),
            decreases num_edges - i,
        {
            queue_histograms.push(HashMap::new());
            i = i + 1;
        }
        ObserverEdgeQueue { queue_histograms }
    }

    /// The count that `measure` would raise, for every edge, is below
    /// `usize::MAX`.
    pub open spec fn room_to_measure(&self, edges: Seq<Edge>) -> bool {
        forall|i: int| 0 <= i < edges.len() && #[trigger] self.queue_histograms@[i]@.contains_key(edges[i]@.queue.len() as usize)
            ==> self.queue_histograms@[i]@[edges[i]@.queue.len() as usize] < usize::MAX
    }

    /// Whether `room_to_measure` holds.
    pub fn has_room_to_measure(&self, edges: &[Edge]) -> (r: bool)
        requires
            edges@.len() <= self.queue_histograms@.len(),
        ensures
            r == self.room_to_measure(edges@),
    {
        let mut edge_id: usize = 0;
        while edge_id < edges.len()
            invariant
                edge_id <= edges@.len(),
                edges@.len() <= self.queue_histograms@.len(),
                forall|i: int| 0 <= i < edge_id && #[trigger] self.queue_histograms@[i]@.contains_key(edges@[i]@.queue.len() as usize)
                    ==> self.queue_histograms@[i]@[edges@[i]@.queue.len() as usize] < usize::MAX,
            decreases edges@.len() - edge_id,
        {
            let num_messages = edges[edge_id].queue_size();
            assert(num_messages == edges@[edge_id as int]@.queue.len() as usize);
            match self.queue_histograms[edge_id].get(&num_messages) {
                Some(c) => {
                    if *c == usize::MAX {
                        assert(self.queue_histograms@[edge_id as int]@.contains_key(edges@[edge_id as int]@.queue.len() as usize));
                        return false;
                    }
                },
                None => {},
            }
            edge_id = edge_id + 1;
        }
        true
    }

    /// Counts, for every edge, one more occurrence of its current queue length.
    pub fn measure(&mut self, _iteration: u64, edges: &[Edge], _vertices: &[Vertex])
        requires
            edges@.len() <= old(self).queue_histograms@.len(),
            old(self).room_to_measure(edges@),
        ensures
            final(self).queue_histograms@.len() == old(self).queue_histograms@.len(),
            forall|i: int| 0 <= i < edges@.len() ==> (#[trigger] final(self).queue_histograms@[i])@
                == count_one_more(old(self).queue_histograms@[i]@, edges@[i]@.queue.len() as usize),
            forall|i: int| edges@.len() <= i < final(self).queue_histograms@.len()
                ==> #[trigger] final(self).queue_histograms@[i] == old(self).queue_histograms@[i],
    {
        let mut edge_id: usize = 0;
        while edge_id < edges.len()
            invariant
                edge_id <= edges@.len(),
                edges@.len() <= self.queue_histograms@.len(),
                self.queue_histograms@.len() == old(self).queue_histograms@.len(),
                old(self).room_to_measure(edges@),
                forall|i: int| 0 <= i < edge_id ==> (#[trigger] self.queue_histograms@[i])@
                    == count_one_more(old(self).queue_histograms@[i]@, edges@[i]@.queue.len() as usize),
                forall|i: int| edge_id <= i < self.queue_histograms@.len()
                    ==> #[trigger] self.queue_histograms@[i] == old(self).queue_histograms@[i],
            decreases edges@.len() - edge_id,
        {
            let num_messages = edges[edge_id].queue_size();
            assert(num_messages == edges@[edge_id as int]@.queue.len() as usize);
            assert(self.queue_histograms@[edge_id as int] == old(self).queue_histograms@[edge_id as int]);
            let current = match self.queue_histograms[edge_id].get(&num_messages) {
                Some(c) => *c,
                None => 0,
            };
            assert(self.queue_histograms@[edge_id as int] == old(self).queue_histograms@[edge_id as int]);
            self.queue_histograms[edge_id].insert(num_messages, current + 1);
            edge_id = edge_id + 1;
        }
    }
}

/// For every edge, how many times each count of processed messages was seen.
pub struct ObserverEdgeReceivedMessages {
    received_histograms: Vec<HashMap<u64, u64>>,
}

impl ObserverEdgeReceivedMessages {
    pub closed spec fn histograms(&self) -> Seq<Map<u64, u64>> {
        self.received_histograms@.map_values(|h: HashMap<u64, u64>| h@)
    }

    /// An observer of `num_edges` edges that has seen nothing yet.
    pub fn new(num_edges: usize) -> (r: Self)
        ensures
            r.histograms().len() == num_edges,
            forall|i: int| 0 <= i < num_edges ==> #[trigger] r.histograms()[i] == Map::<u64, u64>::empty(),
    {
        let mut received_histograms: Vec<HashMap<u64, u64>> = Vec::new();
        let mut i: usize = 0;
        while i < num_edges
            invariant
                i <= num_edges,
                received_histograms@.len() == i,
                forall|j: int| 0 <= j < i ==> (#[trigger] received_histograms@[j])@ == Map::<u64, u64>::empty(),
            decreases num_edges - i,
        {
            received_histograms.push(HashMap::new());
            i = i + 1;
        }
        ObserverEdgeReceivedMessages { received_histograms }
    }

    pub fn received_histograms(&self) -> (r: &Vec<HashMap<u64, u64>>)
        ensures
            r@.map_values(|h: HashMap<u64, u64>| h@) == self.histograms(),
    {
        &self.received_histograms
    }

    /// The count that `measure` would raise, for every edge, is below
    /// `u64::MAX`.
    pub open spec fn room_to_measure(&self, edges: Seq<Edge>) -> bool {
        forall|i: int| 0 <= i < edges.len() && #[trigger] self.histograms()[i].contains_key(edges[i]@.processed as u64)
            ==> self.histograms()[i][edges[i]@.processed as u64] < u64::MAX
    }

    /// Whether `room_to_measure` holds.
    pub fn has_room_to_measure(&self, edges: &[Edge]) -> (r: bool)
        requires
            edges@.len() <= self.histograms().len(),
        ensures
            r == self.room_to_measure(edges@),
    {
        let mut edge_id: usize = 0;
        while edge_id < edges.len()
            invariant
                edge_id <= edges@.len(),
                edges@.len() <= self.histograms().len(),
                forall|i: int| 0 <= i < edge_id && #[trigger] self.histograms()[i].contains_key(edges@[i]@.processed as u64)
                    ==> self.histograms()[i][edges@[i]@.processed as u64] < u64::MAX,
            decreases edges@.len() - edge_id,
        {
            let num_messages = edges[edge_id].total_num_messages_processed();
            assert(num_messages == edges@[edge_id as int]@.processed as u64);
            assert(self.histograms()[edge_id as int] == self.received_histograms@[edge_id as int]@);
            match self.received_histograms[edge_id].get(&num_messages) {
                Some(c) => {
                    if *c == u64::MAX {
                        assert(self.histograms()[edge_id as int].contains_key(edges@[edge_id as int]@.processed as u64));
                        return false;
                    }
                },
                None => {},
            }
            edge_id = edge_id + 1;
        }
        true
    }

    /// Counts, for every edge, one more occurrence of its current number of
    /// processed messages.
    pub fn measure(&mut self, _iteration: u64, edges: &[Edge], _vertices: &[Vertex])
        requires
            edges@.len() <= old(self).histograms().len(),
            old(self).room_to_measure(edges@),
        ensures
            final(self).histograms().len() == old(self).histograms().len(),
            forall|i: int| 0 <= i < edges@.len() ==> #[trigger] final(self).histograms()[i]
                == count_one_more_u64(old(self).histograms()[i], edges@[i]@.processed as u64),
            forall|i: int| edges@.len() <= i < final(self).histograms().len()
                ==> #[trigger] final(self).histograms()[i] == old(self).histograms()[i],
    {
        proof {
            assert forall|i: int| 0 <= i < edges@.len() && #[trigger] old(self).received_histograms@[i]@.contains_key(edges@[i]@.processed as u64)
                implies old(self).received_histograms@[i]@[edges@[i]@.processed as u64] < u64::MAX by {
                assert(old(self).histograms()[i] == old(self).received_histograms@[i]@);
            }
        }
        let mut edge_id: usize = 0;
        while edge_id < edges.len()
            invariant
                edge_id <= edges@.len(),
                edges@.len() <= self.received_histograms@.len(),
                self.received_histograms@.len() == old(self).received_histograms@.len(),
                forall|i: int| 0 <= i < edges@.len() && #[trigger] old(self).received_histograms@[i]@.contains_key(edges@[i]@.processed as u64)
                    ==> old(self).received_histograms@[i]@[edges@[i]@.processed as u64] < u64::MAX,
                forall|i: int| 0 <= i < edge_id ==> (#[trigger] self.received_histograms@[i])@
                    == count_one_more_u64(old(self).received_histograms@[i]@, edges@[i]@.processed as u64),
                forall|i: int| edge_id <= i < self.received_histograms@.len()
                    ==> #[trigger] self.received_histograms@[i] == old(self).received_histograms@[i],
            decreases edges@.len() - edge_id,
        {
            let num_messages = edges[edge_id].total_num_messages_processed();
            assert(num_messages == edges@[edge_id as int]@.processed as u64);
            assert(self.received_histograms@[edge_id as int] == old(self).received_histograms@[edge_id as int]);
            let current = match self.received_histograms[edge_id].get(&num_messages) {
                Some(c) => *c,
                None => 0,
            };
            assert(self.received_histograms@[edge_id as int] == old(self).received_histograms@[edge_id as int]);
            self.received_histograms[edge_id].insert(num_messages, current + 1);
            edge_id = edge_id + 1;
        }
        proof {
            assert forall|i: int| 0 <= i < edges@.len() implies #[trigger] self.histograms()[i]
                == count_one_more_u64(old(self).histograms()[i], edges@[i]@.processed as u64) by {
                assert(self.histograms()[i] == self.received_histograms@[i]@);
                assert(old(self).histograms()[i] == old(self).received_histograms@[i]@);
            }
        }
    }
}

/// The capacity of every edge, recorded every `update_interval` iterations.
pub struct ObserverEdgeCapacity {
    update_interval: u64,
    capacities_over_time: HashMap<u64, Vec<usize>>,
}

impl ObserverEdgeCapacity {
    #[verifier::type_invariant]
    spec fn interval_is_positive(&self) -> bool {
        self.update_interval > 0
    }

    pub closed spec fn interval(&self) -> u64 {
        self.update_interval
    }

    pub closed spec fn records(&self) -> Map<u64, Seq<usize>> {
        self.capacities_over_time@.map_values(|v: Vec<usize>| v@)
    }

    /// An observer that records every `update_interval` iterations, which
    /// must not be zero.
    pub fn new(update_interval: u64) -> (r: Self)
        requires
            update_interval > 0,
        ensures
            r.interval() == update_interval,
            r.records() == Map::<u64, Seq<usize>>::empty(),
    {
        let r = ObserverEdgeCapacity { update_interval, capacities_over_time: HashMap::new() };
        assert(r.records() =~= Map::<u64, Seq<usize>>::empty());
        r
    }

    pub fn capacities_over_time(&self) -> (r: &HashMap<u64, Vec<usize>>)
        ensures
            r@.map_values(|v: Vec<usize>| v@) == self.records(),
    {
        &self.capacities_over_time
    }

    /// At the iterations that are multiples of the interval, records the
    /// capacity of every edge.
    pub fn measure(&mut self, iteration: u64, edges: &[Edge], _vertices: &[Vertex])
        ensures
            final(self).interval() == old(self).interval(),
            final(self).records() == if iteration % old(self).interval() == 0 {
                old(self).records().insert(iteration, edges@.map_values(|e: Edge| e@.capacity as usize))
            } else {
                old(self).records()
            },
    {
        proof {
            use_type_invariant(&*self);
        }
        if iteration % self.update_interval == 0 {
            let mut capacities: Vec<usize> = Vec::new();
            let mut i: usize = 0;
            while i < edges.len()
                invariant
                    i <= edges@.len(),
                    capacities@ == edges@.take(i as int).map_values(|e: Edge| e@.capacity as usize),
                decreases edges@.len() - i,
            {
                capacities.push(edges[i].capacity());
                assert(edges@.take(i + 1).map_values(|e: Edge| e@.capacity as usize)
                    =~= edges@.take(i as int).map_values(|e: Edge| e@.capacity as usize).push(edges@[i as int]@.capacity as usize));
                i = i + 1;
            }
            assert(edges@.take(edges@.len() as int) =~= edges@);
            let ghost before = self.capacities_over_time@;
            let mut records: HashMap<u64, Vec<usize>> = HashMap::new();
            std::mem::swap(&mut records, &mut self.capacities_over_time);
            records.insert(iteration, capacities);
            self.capacities_over_time = records;
            assert(self.records() =~= before.map_values(|v: Vec<usize>| v@).insert(iteration, edges@.map_values(|e: Edge| e@.capacity as usize)));
        }
    }
}

/// The number of messages waiting in all the queues, at every measure.
pub struct ObserverTotalMessages {
    total_messages_over_time: Vec<u64>,
}

impl Default for ObserverTotalMessages {
    fn default() -> (r: Self)
        ensures
            r.history() == Seq::<u64>::empty(),
    {
        ObserverTotalMessages { total_messages_over_time: Vec::new() }
    }
}

impl ObserverTotalMessages {
    pub closed spec fn history(&self) -> Seq<u64> {
        self.total_messages_over_time@
    }

    pub fn total_messages_over_time(&self) -> (r: &Vec<u64>)
        ensures
            r@ == self.history(),
    {
        &self.total_messages_over_time
    }

    /// Records the number of messages waiting in all the queues.
    pub fn measure(&mut self, _iteration: u64, edges: &[Edge], _vertices: &[Vertex])
        requires
            total_queued(edges@) <= u64::MAX,
        ensures
            final(self).history() == old(self).history().push(total_queued(edges@) as u64),
    {
        let mut total: u64 = 0;
        let mut i: usize = 0;
        while i < edges.len()
            invariant
                i <= edges@.len(),
                total == total_queued(edges@.take(i as int)),
                total_queued(edges@) <= u64::MAX,
            decreases edges@.len() - i,
        {
            proof {
                assert(edges@.take(i + 1).drop_last() =~= edges@.take(i as int));
                crate::simulation::lemma_total_queued_prefix(edges@, i as int + 1);
            }
            total = total + edges[i].queue_size() as u64;
            i = i + 1;
        }
        assert(edges@.take(edges@.len() as int) =~= edges@);
        self.total_messages_over_time.push(total);
    }
}

} // verus!
