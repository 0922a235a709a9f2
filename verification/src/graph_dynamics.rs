//! Vertices, edges and messages: the moving parts of a traffic simulation.
use std::collections::VecDeque;
use crate::graph_structure::{rows_wf, CloserNeighborSampler, PreComputedGraph};
use crate::random_engine::{Draw, RandomEngine};
use crate::schema::RoutingMethod;
use vstd::prelude::*;

verus! {

/// The counters of a vertex, as mathematical values.
pub struct VertexCounters {
    pub arrived: nat,
    pub traveling: nat,
    pub distance: nat,
    pub traveling_time: nat,
    pub generated: nat,
}

/// Per-vertex statistics gathered while a simulation runs.
#[derive(Debug, Clone)]
pub struct Vertex {
    num_arrived_msgs: u64,
    num_traveling_messages: u64,
    total_distance: u64,
    total_traveling_time: u64,
    num_messages_generated: u64,
}

impl View for Vertex {
    type V = VertexCounters;

    closed spec fn view(&self) -> VertexCounters {
        VertexCounters {
            arrived: self.num_arrived_msgs as nat,
            traveling: self.num_traveling_messages as nat,
            distance: self.total_distance as nat,
            traveling_time: self.total_traveling_time as nat,
            generated: self.num_messages_generated as nat,
        }
    }
}

impl Default for Vertex {
    fn default() -> (v: Self)
        ensures
            v@ == (VertexCounters { arrived: 0, traveling: 0, distance: 0, traveling_time: 0, generated: 0 }),
    {
        Vertex {
            num_arrived_msgs: 0,
            num_traveling_messages: 0,
            total_distance: 0,
            total_traveling_time: 0,
            num_messages_generated: 0,
        }
    }
}

impl Vertex {
    pub fn num_arrived_msgs(&self) -> (r: u64)
        ensures
            r == self@.arrived,
    {
        self.num_arrived_msgs
    }

    pub fn num_traveling_msgs(&self) -> (r: u64)
        ensures
            r == self@.traveling,
    {
        self.num_traveling_messages
    }

    pub fn total_distance(&self) -> (r: u64)
        ensures
            r == self@.distance,
    {
        self.total_distance
    }

    pub fn total_traveling_time(&self) -> (r: u64)
        ensures
            r == self@.traveling_time,
    {
        self.total_traveling_time
    }

    pub fn num_messages_generated(&self) -> (r: u64)
        ensures
            r == self@.generated,
    {
        self.num_messages_generated
    }

    pub fn increment_num_traveling_msgs(&mut self)
        requires
            old(self)@.traveling < u64::MAX,
        ensures
            final(self)@ == (VertexCounters { traveling: old(self)@.traveling + 1, ..old(self)@ }),
    {
        self.num_traveling_messages = self.num_traveling_messages + 1;
    }

    pub fn increment_num_created_messages(&mut self)
        requires
            old(self)@.generated < u64::MAX,
        ensures
            final(self)@ == (VertexCounters { generated: old(self)@.generated + 1, ..old(self)@ }),
    {
        self.num_messages_generated = self.num_messages_generated + 1;
    }

    /// Records a message that arrived at this vertex. When `ready_to_observe`
    /// holds, the arrival count grows by one, the travelling time by the time
    /// the message spent in the network and the distance by `ideal_distance`;
    /// otherwise nothing changes.
    pub fn update_statistics(&mut self, message: &Message, ideal_distance: u16, ready_to_observe: bool)
        requires
            message.state() is Arrived,
            ready_to_observe ==> old(self).can_record(*message, ideal_distance),
        ensures
            final(self)@ == (if ready_to_observe {
                old(self)@.record_arrival(*message, ideal_distance)
            } else {
                old(self)@
            }),
    {
        if let MessageState::Arrived { time_arrived } = message.state {
            if ready_to_observe {
                self.num_arrived_msgs = self.num_arrived_msgs + 1;
                let incremented_travalled_time = time_arrived - message.time_creation;
                self.total_traveling_time = self.total_traveling_time + incremented_travalled_time;
                self.total_distance = self.total_distance + ideal_distance as u64;
            }
        }
    }

    /// The arrival of `message` can be recorded: it arrived strictly after it
    /// was created and no counter overflows.
    pub open spec fn can_record(self, message: Message, ideal_distance: u16) -> bool {
        &&& message.state() is Arrived
        &&& message.time_creation() < message.state()->time_arrived
        &&& self@.arrived < u64::MAX
        &&& self@.traveling_time + message.travel_time() <= u64::MAX
        &&& self@.distance + ideal_distance <= u64::MAX
    }
}

impl VertexCounters {
    /// The counters after the arrival of `message`, whose ideal distance is
    /// `ideal_distance`, has been recorded.
    pub open spec fn record_arrival(self, message: Message, ideal_distance: u16) -> VertexCounters {
        VertexCounters {
            arrived: self.arrived + 1,
            traveling_time: (self.traveling_time + message.travel_time()) as nat,
            distance: self.distance + ideal_distance as nat,
            ..self
        }
    }
}

/// The part of an edge that is written to the result file.
pub struct HDF5Edge {
    pub capacity: usize,
    pub total_num_messages_processed: u64,
}

/// The contents of an edge, as mathematical values.
pub struct EdgeView {
    pub queue: Seq<Message>,
    pub capacity: nat,
    pub processed: nat,
}

/// The number of `true` entries of `s`.
pub open spec fn count_true(s: Seq<bool>) -> nat
    decreases s.len(),
{
    if s.len() == 0 {
        0
    } else {
        count_true(s.drop_last()) + if s.last() { 1nat } else { 0nat }
    }
}

/// An edge counts as processed exactly the messages added to it in observed
/// rounds. `views` are the contents of an edge before and after each call of
/// a sequence that starts from a new edge; call `i` raises the count by one
/// when it is an observed `add_message` (`observed[i]`), and otherwise keeps
/// it, as `add_message` with `ready_to_observe` false, `set_capacity` and
/// `messages_to_deliver_mut` do. After the sequence the count is the number
/// of observed additions.
pub proof fn lemma_processed_counts_observed_additions(views: Seq<EdgeView>, observed: Seq<bool>)
    requires
        views.len() == observed.len() + 1,
        views[0].processed == 0,
        forall|i: int| 0 <= i < observed.len()
            ==> views[i + 1].processed == views[i].processed + if #[trigger] observed[i] { 1nat } else { 0nat },
    ensures
        views.last().processed == count_true(observed),
    decreases observed.len(),
{
    if observed.len() > 0 {
        let o = observed.drop_last();
        let v = views.drop_last();
        assert forall|i: int| 0 <= i < o.len()
            implies v[i + 1].processed == v[i].processed + if #[trigger] o[i] { 1nat } else { 0nat } by {
            assert(observed[i] == o[i]);
        }
        lemma_processed_counts_observed_additions(v, o);
        let k = observed.len() - 1;
        assert(observed[k] == observed.last());
    }
}

/// An edge: a first-in first-out queue of messages that delivers at most
/// `capacity` messages per time step.
#[derive(Debug)]
pub struct Edge {
    queue: VecDeque<Message>,
    capacity: usize,
    total_num_messages_processed: u64,
}

impl Clone for Edge {
    /// A copy of the edge, with the same queued messages.
    fn clone(&self) -> (r: Self)
        ensures
            r@.capacity == self@.capacity,
            r@.processed == self@.processed,
            r@.queue == self@.queue,
    {
        proof {
            use_type_invariant(self);
        }
        let queue = self.queue.clone();
        assert(queue@ =~= self.queue@);
        Edge { queue, capacity: self.capacity, total_num_messages_processed: self.total_num_messages_processed }
    }
}

impl View for Edge {
    type V = EdgeView;

    closed spec fn view(&self) -> EdgeView {
        EdgeView {
            queue: self.queue@,
            capacity: self.capacity as nat,
            processed: self.total_num_messages_processed as nat,
        }
    }
}

impl Edge {
    /// An edge always delivers at least one message per step.
    #[verifier::type_invariant]
    spec fn capacity_at_least_one(self) -> bool {
        self.capacity >= 1
    }

    pub fn new(capacity: usize) -> (r: Result<Self, &'static str>)
        ensures
            r is Err <==> capacity == 0,
            r is Err ==> r == Err::<Self, &'static str>("Edge capacity must be at least 1."),
            r matches Ok(e) ==> e@ == (EdgeView { queue: Seq::empty(), capacity: capacity as nat, processed: 0 }),
    {
        if capacity == 0 {
            return Err("Edge capacity must be at least 1.");
        }
        Ok(Self { queue: VecDeque::new(), total_num_messages_processed: 0, capacity: capacity })
    }

    /// The capacity, which is at least one whatever calls made the edge.
    pub fn capacity(&self) -> (r: usize)
        ensures
            r == self@.capacity,
            r >= 1,
    {
        proof {
            use_type_invariant(self);
        }
        self.capacity
    }

    pub fn total_num_messages_processed(&self) -> (r: u64)
        ensures
            r == self@.processed,
    {
        self.total_num_messages_processed
    }

    pub fn to_hdf5(&self) -> (r: HDF5Edge)
        ensures
            r.capacity == self@.capacity,
            r.total_num_messages_processed == self@.processed,
    {
        HDF5Edge { capacity: self.capacity, total_num_messages_processed: self.total_num_messages_processed }
    }

    pub fn queue_size(&self) -> (r: usize)
        ensures
            r == self@.queue.len(),
    {
        self.queue.len()
    }

    /// Sets the capacity; a capacity below one becomes one.
    pub fn set_capacity(&mut self, capacity: usize)
        ensures
            final(self)@ == (EdgeView { capacity: if capacity == 0 { 1 } else { capacity as nat }, ..old(self)@ }),
    {
        self.capacity = if capacity == 0 { 1 } else { capacity };
    }

    /// Appends `message` at the back of the queue; when `ready_to_observe`
    /// holds the message is also counted as processed.
    pub fn add_message(&mut self, message: Message, ready_to_observe: bool)
        requires
            ready_to_observe ==> old(self)@.processed < u64::MAX,
        ensures
            final(self)@.queue == old(self)@.queue.push(message),
            final(self)@.capacity == old(self)@.capacity,
            final(self)@.processed == old(self)@.processed + (if ready_to_observe { 1int } else { 0int }),
    {
        proof {
            use_type_invariant(&*self);
        }
        if ready_to_observe {
            self.total_num_messages_processed = self.total_num_messages_processed + 1;
        }
        let mut queue = VecDeque::new();
        std::mem::swap(&mut queue, &mut self.queue);
        queue.push_back(message);
        self.queue = queue;
    }

    /// How many messages the edge delivers at the next step: its capacity, or
    /// the whole queue when the queue is shorter.
    pub open spec fn deliverable(self) -> nat {
        if self@.queue.len() < self@.capacity { self@.queue.len() } else { self@.capacity }
    }

    /// Removes and returns the messages at the front of the queue, at most
    /// `capacity` of them, in queue order.
    pub fn messages_to_deliver_mut(&mut self) -> (delivered: Vec<Message>)
        ensures
            delivered@ == old(self)@.queue.take(old(self).deliverable() as int),
            final(self)@.queue == old(self)@.queue.skip(old(self).deliverable() as int),
            final(self)@.capacity == old(self)@.capacity,
            final(self)@.processed == old(self)@.processed,
    {
        proof {
            use_type_invariant(&*self);
        }
        let len = self.queue.len();
        let count = if self.capacity < len { self.capacity } else { len };
        let ghost q0 = self.queue@;
        let mut queue = VecDeque::new();
        std::mem::swap(&mut queue, &mut self.queue);
        let mut delivered: Vec<Message> = Vec::new();
        let mut i: usize = 0;
        while i < count
            invariant
                count <= len == q0.len(),
                i <= count,
                delivered@ == q0.take(i as int),
                queue@ == q0.skip(i as int),
            decreases count - i,
        {
            let m = queue.pop_front();
            match m {
                Some(msg) => {
                    delivered.push(msg);
                },
                None => {},
            }
            assert(q0.take(i + 1) =~= q0.take(i as int).push(q0[i as int]));
            assert(q0.skip(i + 1) =~= q0.skip(i as int).subrange(1, q0.skip(i as int).len() as int));
            i = i + 1;
        }
        self.queue = queue;
        delivered
    }
}

/// Where a message is.
#[derive(Debug, Copy, Clone)]
pub enum MessageState {
    /// Created at its source and not yet sent.
    Created,
    /// Travelling along the edge from `edge.0` to `edge.1`.
    InEdge { edge: (usize, usize) },
    /// Delivered to its destination at `time_arrived`.
    Arrived { time_arrived: u64 },
}

/// Why a message could not take a step.
#[derive(Debug, Clone, Copy, PartialEq, Eq)]
pub enum RoutingError {
    /// The vertex the message is at has no neighbour to move to.
    NoNeighbour,
    /// The vertex chosen for the message is the one it is at.
    StaysInPlace,
    /// The vertex chosen for the message is not joined to the one it is at.
    NotAnEdge,
    /// The vertex chosen along shortest paths is not one step closer to the
    /// destination.
    NotCloser,
}

/// Under `routing_method`, a message at distance `dist` from its destination
/// moves to a uniformly drawn neighbour (rather than along a shortest path).
pub open spec fn uses_random_neighbour(routing_method: RoutingMethod, dist: int) -> bool {
    match routing_method {
        RoutingMethod::RandomWalk => true,
        RoutingMethod::LimitedVisibility(visibility) => dist > visibility,
        RoutingMethod::MinimalPaths => false,
    }
}

/// A message travelling from `source` to `destination`.
#[derive(Clone, Copy, Debug)]
pub struct Message {
    source: usize,
    destination: usize,
    time_creation: u64,
    state: MessageState,
}

impl Message {
    pub closed spec fn spec_source(&self) -> usize {
        self.source
    }

    pub closed spec fn spec_destination(&self) -> usize {
        self.destination
    }

    pub closed spec fn spec_time_creation(&self) -> u64 {
        self.time_creation
    }

    pub closed spec fn spec_state(&self) -> MessageState {
        self.state
    }

    /// The time an arrived message spent in the network.
    pub open spec fn travel_time(self) -> int {
        self.state()->time_arrived - self.time_creation()
    }

    /// A message that is the same as `self` but for its state.
    pub open spec fn same_but_state(self, other: Message) -> bool {
        &&& other.source() == self.source()
        &&& other.destination() == self.destination()
        &&& other.time_creation() == self.time_creation()
    }

    /// A new message in state `Created`, or `None` when `source` and
    /// `destination` coincide.
    pub fn new(source: usize, destination: usize, create_time: u64) -> (r: Option<Self>)
        ensures
            r is None <==> source == destination,
            r matches Some(m) ==> {
                &&& m.source() == source
                &&& m.destination() == destination
                &&& m.time_creation() == create_time
                &&& m.state() is Created
            },
    {
        if source == destination {
            return None;
        }
        Some(Self { source, destination, time_creation: create_time, state: MessageState::Created })
    }

    #[verifier::when_used_as_spec(spec_source)]
    pub fn source(&self) -> (r: usize)
        ensures
            r == self.spec_source(),
    {
        self.source
    }

    #[verifier::when_used_as_spec(spec_destination)]
    pub fn destination(&self) -> (r: usize)
        ensures
            r == self.spec_destination(),
    {
        self.destination
    }

    #[verifier::when_used_as_spec(spec_time_creation)]
    pub fn time_creation(&self) -> (r: u64)
        ensures
            r == self.spec_time_creation(),
    {
        self.time_creation
    }

    #[verifier::when_used_as_spec(spec_state)]
    pub fn state(&self) -> (r: MessageState)
        ensures
            r == self.spec_state(),
    {
        self.state
    }

    /// The vertex the message is at: its source before it leaves, the end of
    /// the edge it travels along, or its destination once it arrived.
    pub open spec fn current_vertex(self) -> usize {
        match self.state() {
            MessageState::Created => self.source(),
            MessageState::InEdge { edge } => edge.1,
            MessageState::Arrived { .. } => self.destination(),
        }
    }

    /// What a step does to a message at `cur` bound elsewhere, when it
    /// succeeds: the message travels an edge of the graph from `cur` to
    /// another vertex in the row of `cur`, one step closer to its destination
    /// when it goes along shortest paths.
    pub open spec fn moved_on(self, graph: PreComputedGraph, routing_method: RoutingMethod, cur: usize) -> bool {
        self.state() matches MessageState::InEdge { edge } && {
            &&& edge.0 == cur
            &&& edge.1 != cur
            &&& edge.1 < graph.rows().len()
            &&& graph.has_edge(cur, edge.1)
            &&& graph.rows()[cur as int].contains(edge.1)
            &&& !uses_random_neighbour(routing_method, graph.dist(cur, self.destination()))
                ==> graph.dist(edge.1, self.destination()) + 1 == graph.dist(cur, self.destination())
        }
    }

    /// Why a message at `cur` bound for `dest` cannot move to `next` under
    /// `routing`, if it cannot: `next` is `cur` itself, or not in the row of
    /// `cur`, or (along shortest paths) not one step closer to `dest`.
    pub open spec fn hop_error(graph: PreComputedGraph, routing: RoutingMethod, cur: usize, dest: usize, next: usize) -> Option<RoutingError> {
        if next == cur {
            Some(RoutingError::StaysInPlace)
        } else if !graph.rows()[cur as int].contains(next) {
            Some(RoutingError::NotAnEdge)
        } else if !uses_random_neighbour(routing, graph.dist(cur, dest)) && graph.dist(next, dest) + 1 != graph.dist(cur, dest) {
            Some(RoutingError::NotCloser)
        } else {
            None
        }
    }

    /// A message at `cur` bound for another vertex `dest` may fail its step
    /// with `e` under `routing`: when a uniformly drawn neighbour is needed,
    /// `cur` has no neighbour (`NoNeighbour`) or some neighbour in its row is
    /// refused with `e`; along shortest paths, some answer of `sampler` for
    /// `cur` and `dest` is refused with `e` (see `hop_error`).
    pub open spec fn hop_refused<S: CloserNeighborSampler>(
        graph: PreComputedGraph,
        routing: RoutingMethod,
        sampler: S,
        cur: usize,
        dest: usize,
        e: RoutingError,
    ) -> bool {
        if uses_random_neighbour(routing, graph.dist(cur, dest)) {
            ||| e == RoutingError::NoNeighbour && graph.rows()[cur as int].len() == 0
            ||| exists|next: usize| graph.rows()[cur as int].contains(next)
                && #[trigger] Self::hop_error(graph, routing, cur, dest, next) == Some(e)
        } else {
            exists|next: usize| sampler.answers(cur, dest, next)
                && #[trigger] Self::hop_error(graph, routing, cur, dest, next) == Some(e)
        }
    }

    /// The engine's draws went from `before` to `after` as a step from `cur`
    /// towards `dest` draws, with `next` the vertex it aims at: when a
    /// neighbour is drawn uniformly from a non-empty row, one more draw, the
    /// pick of index `k` in the row of `cur`, and `next` is the neighbour at
    /// `k`; otherwise no draw at all.
    pub open spec fn hop_draws(
        graph: PreComputedGraph,
        routing: RoutingMethod,
        cur: usize,
        dest: usize,
        before: Seq<Draw>,
        after: Seq<Draw>,
        next: usize,
    ) -> bool {
        if cur != dest && uses_random_neighbour(routing, graph.dist(cur, dest)) && graph.rows()[cur as int].len() > 0 {
            &&& after.len() == before.len() + 1
            &&& after.take(before.len() as int) == before
            &&& after.last() matches Draw::Pick(k) && k < graph.rows()[cur as int].len() && next == graph.rows()[cur as int][k as int]
        } else {
            after == before
        }
    }

    /// Under uniform drawing, a step makes exactly one draw, and the
    /// neighbour it aims at is decided by that draw alone: two steps from the
    /// same vertex that drew the same pick aim at the same neighbour, and,
    /// when the row of the vertex holds each neighbour once, steps that aim
    /// at the same neighbour drew the same pick. So every neighbour is the
    /// aim of exactly one pick.
    pub proof fn lemma_pick_decides_next(
        graph: PreComputedGraph,
        routing: RoutingMethod,
        cur: usize,
        dest: usize,
        before1: Seq<Draw>,
        after1: Seq<Draw>,
        next1: usize,
        before2: Seq<Draw>,
        after2: Seq<Draw>,
        next2: usize,
    )
        requires
            cur != dest,
            uses_random_neighbour(routing, graph.dist(cur, dest)),
            graph.rows()[cur as int].len() > 0,
            Self::hop_draws(graph, routing, cur, dest, before1, after1, next1),
            Self::hop_draws(graph, routing, cur, dest, before2, after2, next2),
        ensures
            after1.len() == before1.len() + 1,
            graph.rows()[cur as int].contains(next1),
            after1.last() == after2.last() ==> next1 == next2,
            graph.rows()[cur as int].no_duplicates() && next1 == next2 ==> after1.last() == after2.last(),
    {
        let row = graph.rows()[cur as int];
        if let Draw::Pick(k1) = after1.last() {
            if let Draw::Pick(k2) = after2.last() {
                assert(row[k1 as int] == next1);
                if row.no_duplicates() && next1 == next2 {
                    assert(row[k1 as int] == row[k2 as int]);
                }
            }
        }
    }

    /// What a step towards `next` at `now` does to `self`, giving `after` and
    /// `r`: a message at its destination arrives; any other message sets off
    /// along the edge to `next`, or stays as it is with the error of
    /// `hop_error`.
    pub open spec fn hop_outcome(
        self,
        after: Message,
        graph: PreComputedGraph,
        routing: RoutingMethod,
        now: u64,
        next: usize,
        r: Result<(), RoutingError>,
    ) -> bool {
        let cur = self.current_vertex();
        &&& self.same_but_state(after)
        &&& cur == self.destination() ==> r is Ok && after.state() == (MessageState::Arrived { time_arrived: now })
        &&& cur != self.destination() ==> match Self::hop_error(graph, routing, cur, self.destination(), next) {
            Some(e) => r == Err::<(), RoutingError>(e) && after == self,
            None => r is Ok && after.state() == (MessageState::InEdge { edge: (cur, next) }),
        }
    }

    /// Moves the message one step towards `next` (see `hop_outcome`): the
    /// decision once the next vertex is drawn.
    pub fn step_to(&mut self, graph: &PreComputedGraph, next: usize, routing_method: RoutingMethod, current_time: u64) -> (r: Result<(), RoutingError>)
        requires
            graph.wf(),
            !(old(self).state() is Arrived),
            old(self).current_vertex() < graph.rows().len(),
            old(self).destination() < graph.rows().len(),
        ensures
            old(self).hop_outcome(*final(self), *graph, routing_method, current_time, next, r),
    {
        let current_vertex = match self.state {
            MessageState::Created => self.source,
            MessageState::InEdge { edge: (_, to) } => to,
            MessageState::Arrived { .. } => self.destination,
        };
        if current_vertex == self.destination {
            self.state = MessageState::Arrived { time_arrived: current_time };
            return Ok(());
        }
        if next == current_vertex {
            return Err(RoutingError::StaysInPlace);
        }
        let neighbours = graph.neighbors_slice(current_vertex);
        let mut found = false;
        let mut i: usize = 0;
        while i < neighbours.len()
            invariant
                i <= neighbours@.len(),
                found <==> neighbours@.take(i as int).contains(next),
            decreases neighbours@.len() - i,
        {
            proof {
                let t0 = neighbours@.take(i as int);
                let t1 = neighbours@.take(i + 1);
                assert(t1 =~= t0.push(neighbours@[i as int]));
                if t1.contains(next) {
                    let k = choose|k: int| 0 <= k < t1.len() && t1[k] == next;
                    if k < i {
                        assert(t0[k] == next);
                    }
                }
                if t0.contains(next) {
                    let k = choose|k: int| 0 <= k < t0.len() && t0[k] == next;
                    assert(t1[k] == next);
                }
                if neighbours@[i as int] == next {
                    assert(t1[i as int] == next);
                }
            }
            if neighbours[i] == next {
                found = true;
            }
            i = i + 1;
        }
        assert(neighbours@.take(neighbours@.len() as int) =~= neighbours@);
        if !found {
            return Err(RoutingError::NotAnEdge);
        }
        let dist = graph.get_distance(current_vertex, self.destination);
        let random_neighbour = match routing_method {
            RoutingMethod::RandomWalk => true,
            RoutingMethod::LimitedVisibility(visibility) => (dist as u64) > visibility,
            RoutingMethod::MinimalPaths => false,
        };
        if !random_neighbour {
            proof {
                graph.lemma_rows_wf();
                let m = choose|m: int| 0 <= m < neighbours@.len() && neighbours@[m] == next;
                assert(graph.rows()[current_vertex as int][m] < graph.rows().len());
            }
            let next_dist = graph.get_distance(next, self.destination);
            if next_dist + 1 != dist {
                return Err(RoutingError::NotCloser);
            }
        }
        self.state = MessageState::InEdge { edge: (current_vertex, next) };
        Ok(())
    }

    /// Moves the message one step: a message at its destination arrives at
    /// `current_time`; any other message sets off along an edge towards the
    /// vertex that `routing_method` draws (see `step_to`), a uniformly drawn
    /// neighbour or a neighbour one step closer to the destination. On an
    /// error nothing changes.
    pub fn step<S: CloserNeighborSampler>(
        &mut self,
        graph: &PreComputedGraph,
        sampler: &S,
        rng: &mut RandomEngine,
        routing_method: RoutingMethod,
        current_time: u64,
    ) -> (r: Result<(), RoutingError>)
        requires
            graph.wf(),
            !(old(self).state() is Arrived),
            old(self).current_vertex() < graph.rows().len(),
            old(self).destination() < graph.rows().len(),
        ensures
            old(self).same_but_state(*final(self)),
            final(rng).wf() == old(rng).wf(),
            final(rng).vertex_count() == old(rng).vertex_count(),
            old(self).current_vertex() == old(self).destination() ==> r is Ok
                && final(self).state() == (MessageState::Arrived { time_arrived: current_time }),
            old(self).current_vertex() != old(self).destination() && r is Ok
                ==> final(self).moved_on(*graph, routing_method, old(self).current_vertex()),
            r is Err ==> *final(self) == *old(self),
            r == Err::<(), RoutingError>(RoutingError::NoNeighbour) <==> {
                &&& old(self).current_vertex() != old(self).destination()
                &&& uses_random_neighbour(routing_method, graph.dist(old(self).current_vertex(), old(self).destination()))
                &&& graph.rows()[old(self).current_vertex() as int].len() == 0
            },
            old(self).current_vertex() != old(self).destination() && r != Err::<(), RoutingError>(RoutingError::NoNeighbour)
                ==> exists|next: usize| {
                &&& #[trigger] old(self).hop_outcome(*final(self), *graph, routing_method, current_time, next, r)
                &&& uses_random_neighbour(routing_method, graph.dist(old(self).current_vertex(), old(self).destination()))
                    ==> graph.rows()[old(self).current_vertex() as int].contains(next)
                &&& !uses_random_neighbour(routing_method, graph.dist(old(self).current_vertex(), old(self).destination()))
                    ==> sampler.answers(old(self).current_vertex(), old(self).destination(), next)
                &&& Message::hop_draws(*graph, routing_method, old(self).current_vertex(), old(self).destination(),
                    old(rng).draws(), final(rng).draws(), next)
            },
            old(self).current_vertex() == old(self).destination()
                || r == Err::<(), RoutingError>(RoutingError::NoNeighbour) ==> final(rng).draws() == old(rng).draws(),
            old(self).current_vertex() != old(self).destination() ==> (r matches Err(e) ==> Message::hop_refused(
                *graph, routing_method, *sampler, old(self).current_vertex(), old(self).destination(), e)),
            old(self).current_vertex() != old(self).destination()
                && uses_random_neighbour(routing_method, graph.dist(old(self).current_vertex(), old(self).destination()))
                && graph.rows()[old(self).current_vertex() as int].len() > 0
                && !graph.rows()[old(self).current_vertex() as int].contains(old(self).current_vertex())
                ==> r is Ok,
    {
        let current_vertex = match self.state {
            MessageState::Created => self.source,
            MessageState::InEdge { edge: (_, to) } => to,
            MessageState::Arrived { .. } => self.destination,
        };
        if current_vertex == self.destination {
            return self.step_to(graph, current_vertex, routing_method, current_time);
        }
        match self.calculate_next_vertex(current_vertex, graph, sampler, rng, routing_method) {
            Ok(next_vertex) => {
                let r = self.step_to(graph, next_vertex, routing_method, current_time);
                proof {
                    graph.lemma_rows_wf();
                    if r is Ok {
                        graph.lemma_row_entry_is_edge(current_vertex, next_vertex);
                        let m = choose|m: int| 0 <= m < graph.rows()[current_vertex as int].len()
                            && graph.rows()[current_vertex as int][m] == next_vertex;
                        assert(graph.rows()[current_vertex as int][m] < graph.rows().len());
                    }
                }
                r
            },
            Err(e) => Err(e),
        }
    }

    /// Draws the vertex a message at `current_vertex` moves to: a uniformly
    /// drawn neighbour under random routing (`NoNeighbour` when there is
    /// none), the sampler's answer along shortest paths.
    fn calculate_next_vertex<S: CloserNeighborSampler>(
        &self,
        current_vertex: usize,
        graph: &PreComputedGraph,
        sampler: &S,
        rng: &mut RandomEngine,
        routing_method: RoutingMethod,
    ) -> (r: Result<usize, RoutingError>)
        requires
            graph.wf(),
            current_vertex < graph.rows().len(),
            self.destination() < graph.rows().len(),
            current_vertex != self.destination(),
        ensures
            final(rng).wf() == old(rng).wf(),
            final(rng).vertex_count() == old(rng).vertex_count(),
            r is Err <==> uses_random_neighbour(routing_method, graph.dist(current_vertex, self.destination()))
                && graph.rows()[current_vertex as int].len() == 0,
            r is Err ==> r == Err::<usize, RoutingError>(RoutingError::NoNeighbour),
            uses_random_neighbour(routing_method, graph.dist(current_vertex, self.destination()))
                ==> (r matches Ok(next) ==> graph.rows()[current_vertex as int].contains(next)),
            !uses_random_neighbour(routing_method, graph.dist(current_vertex, self.destination()))
                ==> (r matches Ok(next) ==> sampler.answers(current_vertex, self.destination(), next)),
            r matches Ok(next) ==> Message::hop_draws(*graph, routing_method, current_vertex, self.destination(),
                old(rng).draws(), final(rng).draws(), next),
            r is Err ==> final(rng).draws() == old(rng).draws(),
    {
        let dist = graph.get_distance(current_vertex, self.destination);
        let random_neighbour = match routing_method {
            RoutingMethod::RandomWalk => true,
            RoutingMethod::LimitedVisibility(visibility) => (dist as u64) > visibility,
            RoutingMethod::MinimalPaths => false,
        };
        if random_neighbour {
            let neighbours = graph.neighbors_slice(current_vertex);
            if neighbours.len() == 0 {
                return Err(RoutingError::NoNeighbour);
            }
            Ok(rng.choose_from(neighbours))
        } else {
            Ok(sampler.sample_closer_neighbor(current_vertex, self.destination, rng.rng_mut()))
        }
    }

    /// Puts the message in `state`, keeping its source, destination and time
    /// of creation.
    pub fn set_state(&mut self, state: MessageState)
        ensures
            old(self).same_but_state(*final(self)),
            final(self).state() == state,
    {
        self.state = state;
    }
}

} // verus!
