//! The state of a traffic simulation and the two moves that change it at
//! every time step: vertices create messages, and edges deliver them.
use crate::graph_dynamics::{uses_random_neighbour, Edge, Message, MessageState, RoutingError, Vertex, VertexCounters};
use crate::graph_structure::{edge_order, normalized, symmetric, CloserNeighborSampler, PreComputedGraph};
use crate::random_engine::{is_permutation, permuted, shift_past, Draw, RandomEngine};
use crate::schema::RoutingMethod;
use std::sync::Arc;
use vstd::prelude::*;

verus! {

/// The sum of `f` over `s`.
pub open spec fn sum_of<T>(s: Seq<T>, f: spec_fn(T) -> nat) -> nat
    decreases s.len(),
{
    if s.len() == 0 {
        0
    } else {
        sum_of(s.drop_last(), f) + f(s.last())
    }
}

/// Replacing one element changes the sum by the difference of the two.
pub proof fn lemma_sum_of_update<T>(s: Seq<T>, f: spec_fn(T) -> nat, i: int, x: T)
    requires
        0 <= i < s.len(),
    ensures
        sum_of(s.update(i, x), f) + f(s[i]) == sum_of(s, f) + f(x),
    decreases s.len(),
{
    if i < s.len() - 1 {
        assert(s.update(i, x).drop_last() =~= s.drop_last().update(i, x));
        lemma_sum_of_update(s.drop_last(), f, i, x);
    } else {
        assert(s.update(i, x).drop_last() =~= s.drop_last());
    }
}

/// Two sequences on which `f` agrees element by element have the same sum.
pub proof fn lemma_sum_of_pointwise<T>(s1: Seq<T>, s2: Seq<T>, f: spec_fn(T) -> nat)
    requires
        s1.len() == s2.len(),
        forall|i: int| 0 <= i < s1.len() ==> f(#[trigger] s1[i]) == f(s2[i]),
    ensures
        sum_of(s1, f) == sum_of(s2, f),
    decreases s1.len(),
{
    if s1.len() > 0 {
        lemma_sum_of_pointwise(s1.drop_last(), s2.drop_last(), f);
        assert(f(s1[s1.len() - 1]) == f(s2[s2.len() - 1]));
    }
}

/// A sum of zeros is zero.
pub proof fn lemma_sum_of_zero<T>(s: Seq<T>, f: spec_fn(T) -> nat)
    requires
        forall|i: int| 0 <= i < s.len() ==> f(#[trigger] s[i]) == 0,
    ensures
        sum_of(s, f) == 0,
    decreases s.len(),
{
    if s.len() > 0 {
        lemma_sum_of_zero(s.drop_last(), f);
        assert(f(s[s.len() - 1]) == 0);
    }
}

/// The messages waiting in a prefix of the edges are no more than those
/// waiting in all of them.
pub proof fn lemma_total_queued_prefix(edges: Seq<Edge>, k: int)
    requires
        0 <= k <= edges.len(),
    ensures
        total_queued(edges.take(k)) <= total_queued(edges),
    decreases edges.len(),
{
    if k < edges.len() {
        assert(edges.drop_last().take(k) =~= edges.take(k));
        lemma_total_queued_prefix(edges.drop_last(), k);
    } else {
        assert(edges.take(k) =~= edges);
    }
}

/// The number of messages waiting in the queue of an edge.
pub open spec fn queue_len(e: Edge) -> nat {
    e@.queue.len()
}

/// The number of messages that arrived at a vertex.
pub open spec fn arrived_count(v: Vertex) -> nat {
    v@.arrived
}

/// The number of messages a vertex created.
pub open spec fn generated_count(v: Vertex) -> nat {
    v@.generated
}

/// The number of messages an edge counted as processed.
pub open spec fn processed_count(e: Edge) -> nat {
    e@.processed
}

/// The number of messages that left a vertex on their way.
pub open spec fn traveling_count(v: Vertex) -> nat {
    v@.traveling
}

/// `processed_count` as a function value.
pub open spec fn processed_count_fn() -> spec_fn(Edge) -> nat {
    |e: Edge| processed_count(e)
}

/// `traveling_count` as a function value.
pub open spec fn traveling_count_fn() -> spec_fn(Vertex) -> nat {
    |v: Vertex| traveling_count(v)
}

/// The number of messages counted as processed, over all edges.
pub open spec fn total_processed(edges: Seq<Edge>) -> nat {
    sum_of(edges, processed_count_fn())
}

/// The number of messages counted as leaving a vertex, over all vertices.
pub open spec fn total_traveling(vertices: Seq<Vertex>) -> nat {
    sum_of(vertices, traveling_count_fn())
}

/// `queue_len` as a function value.
pub open spec fn queue_len_fn() -> spec_fn(Edge) -> nat {
    |e: Edge| queue_len(e)
}

/// `arrived_count` as a function value.
pub open spec fn arrived_count_fn() -> spec_fn(Vertex) -> nat {
    |v: Vertex| arrived_count(v)
}

/// `generated_count` as a function value.
pub open spec fn generated_count_fn() -> spec_fn(Vertex) -> nat {
    |v: Vertex| generated_count(v)
}

/// The number of messages waiting in all the queues.
pub open spec fn total_queued(edges: Seq<Edge>) -> nat {
    sum_of(edges, queue_len_fn())
}

/// The number of messages that arrived, over all vertices.
pub open spec fn total_arrived(vertices: Seq<Vertex>) -> nat {
    sum_of(vertices, arrived_count_fn())
}

/// The number of messages created, over all vertices.
pub open spec fn total_generated(vertices: Seq<Vertex>) -> nat {
    sum_of(vertices, generated_count_fn())
}

/// A message waiting on edge `k` of `graph` at time `now`: it travels that
/// edge, between two vertices of the graph, from a vertex of the graph
/// towards another, and was created no later than `now`.
pub open spec fn queued_ok(graph: PreComputedGraph, k: int, msg: Message, now: u64) -> bool {
    let n = graph.rows().len();
    &&& msg.state() matches MessageState::InEdge { edge } && {
        &&& normalized(edge.0, edge.1) == edge_order(graph.rows())[k]
        &&& edge.0 < n
        &&& edge.1 < n
    }
    &&& msg.source() < n
    &&& msg.destination() < n
    &&& msg.source() != msg.destination()
    &&& msg.time_creation() <= now
}

proof fn lemma_index_permutation(s: Seq<usize>, m: nat)
    requires
        s.to_multiset() == Seq::new(m, |i: int| i as usize).to_multiset(),
        m <= usize::MAX,
    ensures
        s.len() == m,
        s.no_duplicates(),
        forall|i: int| 0 <= i < s.len() ==> #[trigger] s[i] < m,
        forall|k: usize| k < m ==> #[trigger] s.contains(k),
{
    broadcast use vstd::seq_lib::group_to_multiset_ensures;
    let id = Seq::new(m, |i: int| i as usize);
    assert(id.no_duplicates()) by {
        assert forall|i: int, j: int| 0 <= i < id.len() && 0 <= j < id.len() && i != j implies id[i] != id[j] by {
            assert(id[i] == i as usize && id[j] == j as usize);
        }
    }
    id.lemma_multiset_has_no_duplicates();
    s.lemma_multiset_has_no_duplicates_conv();
    assert(s.len() == s.to_multiset().len());
    assert(id.len() == id.to_multiset().len());
    assert forall|i: int| 0 <= i < s.len() implies #[trigger] s[i] < m by {
        assert(s.contains(s[i]));
        assert(s.to_multiset().count(s[i]) > 0);
        assert(id.contains(s[i]));
        let j = choose|j: int| 0 <= j < id.len() && id[j] == s[i];
    }
    assert forall|k: usize| k < m implies #[trigger] s.contains(k) by {
        assert(id[k as int] == k);
        assert(id.contains(k));
        assert(id.to_multiset().count(k) > 0);
    }
}

/// The counters `c` of vertex `v` after the delivery, at time `now`, of the
/// message `m` that waited on an edge: when `m` is at its destination `v`,
/// it arrives, and its travel time and the length of a shortest path between
/// its ends are added up; when `m` is at `v` and bound elsewhere, it departs
/// from `v`.
pub open spec fn counters_after_delivery(c: VertexCounters, g: PreComputedGraph, now: u64, m: Message, v: int) -> VertexCounters {
    if m.current_vertex() != v {
        c
    } else if m.current_vertex() == m.destination() {
        VertexCounters {
            arrived: c.arrived + 1,
            distance: (c.distance + g.dist(m.source(), m.destination())) as nat,
            traveling_time: (c.traveling_time + (now - m.time_creation())) as nat,
            ..c
        }
    } else {
        VertexCounters { traveling: c.traveling + 1, ..c }
    }
}

/// The counters `c` of vertex `v` after the delivery of the messages `ms`.
pub open spec fn counters_after_deliveries(c: VertexCounters, g: PreComputedGraph, now: u64, ms: Seq<Message>, v: int) -> VertexCounters
    decreases ms.len(),
{
    if ms.len() == 0 {
        c
    } else {
        counters_after_delivery(counters_after_deliveries(c, g, now, ms.drop_last(), v), g, now, ms.last(), v)
    }
}

/// The messages that the edges deliver, edge after edge in `order`: from each
/// edge the front of its queue, at most its capacity of messages.
pub open spec fn delivered_in_order(edges: Seq<Edge>, order: Seq<usize>) -> Seq<Message>
    decreases order.len(),
{
    if order.len() == 0 {
        seq![]
    } else {
        let e = edges[order.last() as int];
        delivered_in_order(edges, order.drop_last()) + e@.queue.take(e.deliverable() as int)
    }
}

/// The messages of `sent` that go to edge `k`, in order.
pub open spec fn routed_into(sent: Seq<(usize, Message)>, k: int) -> Seq<Message>
    decreases sent.len(),
{
    if sent.len() == 0 {
        seq![]
    } else {
        let rest = routed_into(sent.drop_last(), k);
        if sent.last().0 == k { rest.push(sent.last().1) } else { rest }
    }
}

/// Some message of `sent` comes from vertex `v`.
pub open spec fn sends_from(sent: Seq<(usize, Message)>, v: int) -> bool {
    exists|i: int| 0 <= i < sent.len() && (#[trigger] sent[i]).1.source() == v
}

/// The messages of `ms` that are not at their destination, in order.
pub open spec fn not_arrived(ms: Seq<Message>) -> Seq<Message>
    decreases ms.len(),
{
    if ms.len() == 0 {
        seq![]
    } else {
        let rest = not_arrived(ms.drop_last());
        if ms.last().current_vertex() != ms.last().destination() { rest.push(ms.last()) } else { rest }
    }
}

/// What holds of every queued message holds of every delivered one.
proof fn lemma_delivered_from_queues(edges: Seq<Edge>, order: Seq<usize>, p: spec_fn(Message) -> bool)
    requires
        forall|i: int| 0 <= i < order.len() ==> #[trigger] order[i] < edges.len(),
        forall|k: int, j: int| 0 <= k < edges.len() && 0 <= j < edges[k]@.queue.len() ==> p(#[trigger] edges[k]@.queue[j]),
    ensures
        forall|i: int| 0 <= i < delivered_in_order(edges, order).len() ==> p(#[trigger] delivered_in_order(edges, order)[i]),
    decreases order.len(),
{
    if order.len() > 0 {
        let o = order.drop_last();
        assert forall|i: int| 0 <= i < o.len() implies #[trigger] o[i] < edges.len() by {
            assert(o[i] == order[i]);
        }
        lemma_delivered_from_queues(edges, o, p);
        let k = order.last() as int;
        assert(order[order.len() - 1] < edges.len());
        let e = edges[k];
        let front = e@.queue.take(e.deliverable() as int);
        let d = delivered_in_order(edges, order);
        let d0 = delivered_in_order(edges, o);
        assert(d == d0 + front);
        assert forall|i: int| 0 <= i < d.len() implies p(#[trigger] d[i]) by {
            if i < d0.len() {
                assert(d[i] == d0[i]);
            } else {
                assert(d[i] == e@.queue[i - d0.len()]);
            }
        }
    }
}

/// Arrivals of messages whose source and destination differ add at least as
/// much distance as they add arrivals.
proof fn lemma_deliveries_keep_distance_cover(c: VertexCounters, g: PreComputedGraph, now: u64, ms: Seq<Message>, v: int)
    requires
        g.wf(),
        c.arrived <= c.distance,
        forall|i: int| 0 <= i < ms.len() ==> {
            &&& (#[trigger] ms[i]).source() != ms[i].destination()
            &&& ms[i].source() < g.rows().len()
            &&& ms[i].destination() < g.rows().len()
        },
    ensures
        counters_after_deliveries(c, g, now, ms, v).arrived <= counters_after_deliveries(c, g, now, ms, v).distance,
    decreases ms.len(),
{
    if ms.len() > 0 {
        let o = ms.drop_last();
        assert forall|i: int| 0 <= i < o.len() implies {
            &&& (#[trigger] o[i]).source() != o[i].destination()
            &&& o[i].source() < g.rows().len()
            &&& o[i].destination() < g.rows().len()
        } by {
            assert(o[i] == ms[i]);
        }
        lemma_deliveries_keep_distance_cover(c, g, now, o, v);
        let m = ms[ms.len() - 1];
        g.lemma_distance_zero_exactly_to_itself(m.source(), m.destination());
        g.lemma_distance_nonnegative(m.source(), m.destination());
    }
}

proof fn lemma_routed_into_push(sent: Seq<(usize, Message)>, e: (usize, Message), k: int)
    ensures
        routed_into(sent.push(e), k) == if e.0 == k { routed_into(sent, k).push(e.1) } else { routed_into(sent, k) },
{
    assert(sent.push(e).drop_last() =~= sent);
}

#[verifier::spinoff_prover]
proof fn lemma_routed_into_from(sent: Seq<(usize, Message)>, k: int)
    ensures
        routed_into(sent, k).len() <= sent.len(),
        forall|i: int| 0 <= i < routed_into(sent, k).len() ==> exists|j: int|
            0 <= j < sent.len() && sent[j].0 == k && sent[j].1 == #[trigger] routed_into(sent, k)[i],
    decreases sent.len(),
{
    if sent.len() > 0 {
        let d = sent.drop_last();
        lemma_routed_into_from(d, k);
        assert forall|i: int| 0 <= i < routed_into(sent, k).len() implies exists|j: int|
            0 <= j < sent.len() && sent[j].0 == k && sent[j].1 == #[trigger] routed_into(sent, k)[i] by {
            if i < routed_into(d, k).len() {
                let j = choose|j: int| 0 <= j < d.len() && d[j].0 == k && d[j].1 == #[trigger] routed_into(d, k)[i];
                assert(sent[j] == d[j]);
            } else {
                assert(sent[sent.len() - 1].1 == routed_into(sent, k)[i]);
            }
        }
    }
}

proof fn lemma_created_exactly_implies(after: Simulation, before: Simulation, ready_to_observe: bool, sent: Seq<(usize, Message)>)
    requires
        after.created_exactly(before, ready_to_observe, sent),
        after.graph() == before.graph(),
        after.routing() == before.routing(),
        after.edge_service_order() == before.edge_service_order(),
    ensures
        after.created_messages_from(before, ready_to_observe),
{
    assert forall|k: int| 0 <= k < after.edges_view().len() implies {
        let a = before.edges_view()[k]@;
        let b = (#[trigger] after.edges_view()[k])@;
        &&& b.capacity == a.capacity
        &&& a.queue.len() <= b.queue.len()
        &&& b.queue.take(a.queue.len() as int) == a.queue
        &&& b.processed == a.processed + if ready_to_observe { b.queue.len() - a.queue.len() } else { 0 }
        &&& forall|i: int| a.queue.len() <= i < b.queue.len() ==> {
            &&& (#[trigger] b.queue[i]).time_creation() == before.time()
            &&& b.queue[i].moved_on(before.graph(), before.routing(), b.queue[i].source())
        }
    } by {
        let a = before.edges_view()[k]@;
        let b = after.edges_view()[k]@;
        let r = routed_into(sent, k);
        assert(b.queue.take(a.queue.len() as int) =~= a.queue);
        lemma_routed_into_from(sent, k);
        assert forall|i: int| a.queue.len() <= i < b.queue.len() implies {
            &&& (#[trigger] b.queue[i]).time_creation() == before.time()
            &&& b.queue[i].moved_on(before.graph(), before.routing(), b.queue[i].source())
        } by {
            assert(b.queue[i] == r[i - a.queue.len()]);
            let j = choose|j: int| 0 <= j < sent.len() && sent[j].0 == k && sent[j].1 == #[trigger] r[i - a.queue.len()];
            assert(sent[j].1 == b.queue[i]);
        }
    }
}

/// A message at `cur` bound for `dest` is sure to move on, whatever is
/// drawn: it goes to a uniformly drawn neighbour, and `cur` has neighbours,
/// none of them itself.
pub open spec fn hop_assured(g: PreComputedGraph, routing: RoutingMethod, cur: usize, dest: usize) -> bool {
    &&& uses_random_neighbour(routing, g.dist(cur, dest))
    &&& g.rows()[cur as int].len() > 0
    &&& !g.rows()[cur as int].contains(cur)
}

/// A delivered message `msg` may fail its step with `e`: it is not at its
/// destination and its hop may be refused with `e` (see `hop_refused`).
pub open spec fn delivery_refused<S: CloserNeighborSampler>(
    g: PreComputedGraph,
    routing: RoutingMethod,
    sampler: S,
    msg: Message,
    e: RoutingError,
) -> bool {
    &&& msg.current_vertex() != msg.destination()
    &&& Message::hop_refused(g, routing, sampler, msg.current_vertex(), msg.destination(), e)
}

/// A delivered message `msg` is sure to take its step: it is at its
/// destination, or its hop is assured (see `hop_assured`).
pub open spec fn delivery_assured(g: PreComputedGraph, routing: RoutingMethod, msg: Message) -> bool {
    msg.current_vertex() == msg.destination() || hop_assured(g, routing, msg.current_vertex(), msg.destination())
}

/// A step that is sure to succeed is refused with no error.
proof fn lemma_assured_hop_not_refused<S: CloserNeighborSampler>(
    g: PreComputedGraph,
    routing: RoutingMethod,
    sampler: S,
    cur: usize,
    dest: usize,
    e: RoutingError,
)
    requires
        hop_assured(g, routing, cur, dest),
    ensures
        !Message::hop_refused(g, routing, sampler, cur, dest, e),
{
    if Message::hop_refused(g, routing, sampler, cur, dest, e) {
        let next = choose|next: usize| g.rows()[cur as int].contains(next)
            && #[trigger] Message::hop_error(g, routing, cur, dest, next) == Some(e);
        assert(next != cur);
    }
}

/// Over a whole run that observes every round, no message is lost or made
/// twice, every processed message entered its edge once, and distances cover
/// arrivals. `states` are the simulation after `Simulation::new` and after
/// each later call; every call keeps the counts consistent, as
/// `begin_round` returning `Ok(true)`, `set_edge_capacity` and
/// `forward_messages_on_edges` in an observed round returning `Ok` each do.
pub proof fn lemma_observed_run_keeps_counts(states: Seq<Simulation>)
    requires
        states.len() > 0,
        states[0].counts_consistent(),
        forall|i: int| 0 <= i < states.len() - 1
            ==> (#[trigger] states[i].counts_consistent() ==> states[i + 1].counts_consistent()),
    ensures
        forall|i: int| 0 <= i < states.len() ==> #[trigger] states[i].counts_consistent(),
    decreases states.len(),
{
    if states.len() > 1 {
        let d = states.drop_last();
        assert forall|i: int| 0 <= i < d.len() - 1
            implies (#[trigger] d[i].counts_consistent() ==> d[i + 1].counts_consistent()) by {
            assert(d[i] == states[i] && d[i + 1] == states[i + 1]);
        }
        lemma_observed_run_keeps_counts(d);
        assert forall|i: int| 0 <= i < states.len() implies #[trigger] states[i].counts_consistent() by {
            if i < d.len() {
                assert(d[i] == states[i]);
            } else {
                assert(d[i - 1] == states[i - 1]);
                assert(states[i - 1].counts_consistent());
            }
        }
    }
}

/// The message `m` has been on its way since it was created at least as many
/// steps before `t` as separate its current vertex from its source: it
/// crosses at most one edge per step.
pub open spec fn hop_age_ok(g: PreComputedGraph, m: Message, t: int) -> bool {
    g.dist(m.current_vertex(), m.source()) + m.time_creation() <= t
}

/// What holds of every message of `ms` holds of those that are not at their
/// destination.
proof fn lemma_not_arrived_from(ms: Seq<Message>, p: spec_fn(Message) -> bool)
    requires
        forall|i: int| 0 <= i < ms.len() ==> p(#[trigger] ms[i]),
    ensures
        forall|i: int| 0 <= i < not_arrived(ms).len() ==> p(#[trigger] not_arrived(ms)[i]),
    decreases ms.len(),
{
    if ms.len() > 0 {
        let d = ms.drop_last();
        assert forall|i: int| 0 <= i < d.len() implies p(#[trigger] d[i]) by {
            assert(d[i] == ms[i]);
        }
        lemma_not_arrived_from(d, p);
        let last = ms[ms.len() - 1];
        assert(p(last));
        let na = not_arrived(ms);
        let nd = not_arrived(d);
        assert(na == if last.current_vertex() != last.destination() { nd.push(last) } else { nd });
        assert forall|i: int| 0 <= i < na.len() implies p(#[trigger] na[i]) by {
            if i < nd.len() {
                assert(na[i] == nd[i]);
            }
        }
    }
}

/// Arrivals of messages that were on their way at least as long as the
/// distance between their source and destination add at least as much
/// travelling time as distance.
proof fn lemma_deliveries_keep_travel_cover(c: VertexCounters, g: PreComputedGraph, now: u64, ms: Seq<Message>, v: int)
    requires
        g.wf(),
        symmetric(g.rows()),
        c.distance <= c.traveling_time,
        forall|i: int| 0 <= i < ms.len() ==> {
            &&& hop_age_ok(g, #[trigger] ms[i], now as int)
            &&& ms[i].source() < g.rows().len()
            &&& ms[i].destination() < g.rows().len()
        },
    ensures
        counters_after_deliveries(c, g, now, ms, v).distance <= counters_after_deliveries(c, g, now, ms, v).traveling_time,
    decreases ms.len(),
{
    if ms.len() > 0 {
        let o = ms.drop_last();
        assert forall|i: int| 0 <= i < o.len() implies {
            &&& hop_age_ok(g, #[trigger] o[i], now as int)
            &&& o[i].source() < g.rows().len()
            &&& o[i].destination() < g.rows().len()
        } by {
            assert(o[i] == ms[i]);
        }
        lemma_deliveries_keep_travel_cover(c, g, now, o, v);
        let m = ms[ms.len() - 1];
        assert(hop_age_ok(g, m, now as int));
        g.lemma_distance_symmetric(m.source(), m.destination());
        g.lemma_distance_nonnegative(m.source(), m.destination());
    }
}

/// A message that takes one allowed step from `cur` moves at most one step
/// further from its source.
proof fn lemma_step_keeps_age(g: PreComputedGraph, routing: RoutingMethod, m: Message, m2: Message, cur: usize, t: int)
    requires
        g.wf(),
        symmetric(g.rows()),
        cur < g.rows().len(),
        m2.source() < g.rows().len(),
        m2.moved_on(g, routing, cur),
        g.dist(cur, m2.source()) + m2.time_creation() <= t,
    ensures
        hop_age_ok(g, m2, t + 1),
{
    let next = m2.current_vertex();
    g.lemma_neighbour_distances(cur, next, m2.source());
}

/// Delivering moves every waiting message at most one step further from its
/// source in one step of time.
proof fn lemma_forwarding_keeps_ages(before: Simulation, after: Simulation, ready_to_observe: bool, transit: Seq<(usize, Message)>)
    requires
        before.wf(),
        symmetric(before.graph().rows()),
        before.ages_cover_hops(before.time() as int),
        after.forwarded_exactly(before, ready_to_observe, transit),
        after.graph() == before.graph(),
        forall|i: int| 0 <= i < after.edge_service_order().len()
            ==> #[trigger] after.edge_service_order()[i] < before.edges_view().len(),
    ensures
        after.ages_cover_hops(before.time() + 1),
{
    let g = before.graph();
    let n = g.rows().len();
    let t = before.time() as int;
    let es = before.edges_view();
    let p = |msg: Message| hop_age_ok(g, msg, t) && msg.source() < n && msg.current_vertex() < n;
    assert forall|k: int, j: int| 0 <= k < es.len() && 0 <= j < es[k]@.queue.len() implies p(#[trigger] es[k]@.queue[j]) by {
        assert(queued_ok(g, k, es[k]@.queue[j], before.time()));
        assert(hop_age_ok(g, es[k]@.queue[j], t));
    }
    let d = delivered_in_order(es, after.edge_service_order());
    lemma_delivered_from_queues(es, after.edge_service_order(), p);
    lemma_not_arrived_from(d, p);
    let moving = not_arrived(d);
    assert forall|k: int, i: int| 0 <= k < after.edges_view().len() && 0 <= i < after.edges_view()[k]@.queue.len()
        implies #[trigger] hop_age_ok(after.graph(), after.edges_view()[k]@.queue[i], t + 1) by {
        let kept = es[k]@.queue.skip(es[k].deliverable() as int);
        let r = routed_into(transit, k);
        let q = after.edges_view()[k]@.queue;
        assert(q == kept + r);
        if i < kept.len() {
            assert(q[i] == es[k]@.queue[i + es[k].deliverable()]);
            assert(p(es[k]@.queue[i + es[k].deliverable()]));
        } else {
            lemma_routed_into_from(transit, k);
            assert(q[i] == r[i - kept.len()]);
            let j = choose|j: int| 0 <= j < transit.len() && transit[j].0 == k && transit[j].1 == #[trigger] r[i - kept.len()];
            let e = transit[j];
            assert(moved_from(g, before.routing(), moving[j], e.1));
            assert(p(moving[j]));
            assert(queued_ok(g, e.0 as int, e.1, before.time()));
            lemma_step_keeps_age(g, before.routing(), moving[j], e.1, moving[j].current_vertex(), t);
        }
    }
}

/// A round of creation puts on their way only messages one step from their
/// source, created now.
proof fn lemma_creation_keeps_ages(before: Simulation, after: Simulation, ready_to_observe: bool, sent: Seq<(usize, Message)>)
    requires
        before.wf(),
        symmetric(before.graph().rows()),
        before.ages_cover_hops(before.time() + 1),
        after.created_exactly(before, ready_to_observe, sent),
        after.graph() == before.graph(),
    ensures
        after.ages_cover_hops(before.time() + 1),
{
    let g = before.graph();
    let t = before.time() as int;
    let es = before.edges_view();
    assert forall|k: int, i: int| 0 <= k < after.edges_view().len() && 0 <= i < after.edges_view()[k]@.queue.len()
        implies #[trigger] hop_age_ok(after.graph(), after.edges_view()[k]@.queue[i], t + 1) by {
        let r = routed_into(sent, k);
        let q = after.edges_view()[k]@.queue;
        assert(q == es[k]@.queue + r);
        if i < es[k]@.queue.len() {
            assert(q[i] == es[k]@.queue[i]);
        } else {
            lemma_routed_into_from(sent, k);
            assert(q[i] == r[i - es[k]@.queue.len()]);
            let j = choose|j: int| 0 <= j < sent.len() && sent[j].0 == k && sent[j].1 == #[trigger] r[i - es[k]@.queue.len()];
            let m = sent[j].1;
            assert(queued_ok(g, sent[j].0 as int, m, before.time()));
            g.lemma_distance_zero_exactly_to_itself(m.source(), m.source());
            lemma_step_keeps_age(g, before.routing(), m, m, m.source(), t);
        }
    }
}

/// The draws of every vertex in turn, one after the other.
pub open spec fn flatten_draws(per_vertex: Seq<Seq<Draw>>) -> Seq<Draw>
    decreases per_vertex.len(),
{
    if per_vertex.len() == 0 {
        seq![]
    } else {
        flatten_draws(per_vertex.drop_last()) + per_vertex.last()
    }
}

/// The draws `ds` that vertex `v` made in a round of creation agree with
/// what it created, `sent`: it first draws whether it sends a message. If it
/// does, it then draws a destination `x`; its message goes to
/// `shift_past(x, v)`, and the rest of `ds` are the draws of the message's
/// first hop (see `Message::hop_draws`). If it does not, that one draw is all
/// and nothing in `sent` comes from `v`.
pub open spec fn creation_draws(g: PreComputedGraph, routing: RoutingMethod, v: usize, ds: Seq<Draw>, sent: Seq<(usize, Message)>) -> bool {
    &&& ds.len() >= 1
    &&& match ds[0] {
        Draw::Send(true) => ds.len() >= 2 && match ds[1] {
            Draw::Destination(x) => exists|i: int| 0 <= i < sent.len() && {
                let m = #[trigger] sent[i].1;
                &&& m.source() == v
                &&& m.destination() == shift_past(x, v)
                &&& m.state() matches MessageState::InEdge { edge }
                    && Message::hop_draws(g, routing, v, m.destination(), ds.take(2), ds, edge.1)
            },
            _ => false,
        },
        Draw::Send(false) => ds.len() == 1 && !sends_from(sent, v as int),
        _ => false,
    }
}

/// In a round of creation a vertex creates a message exactly when its first
/// draw says it sends, and that message goes to the vertex its destination
/// draw gives: another vertex, below the number of vertices.
pub proof fn lemma_creation_follows_draws(g: PreComputedGraph, routing: RoutingMethod, v: usize, ds: Seq<Draw>, sent: Seq<(usize, Message)>, n: nat)
    requires
        creation_draws(g, routing, v, ds, sent),
        v < n,
        n <= usize::MAX,
    ensures
        sends_from(sent, v as int) <==> ds[0] == Draw::Send(true),
        ds[0] == Draw::Send(true) ==> (ds[1] matches Draw::Destination(x) && exists|i: int| 0 <= i < sent.len() && {
            let m = #[trigger] sent[i].1;
            &&& m.source() == v
            &&& m.destination() == shift_past(x, v)
            &&& (x < n - 1 ==> m.destination() < n && m.destination() != v)
        }),
{
    if ds[0] == Draw::Send(true) {
        if let Draw::Destination(x) = ds[1] {
            let i = choose|i: int| 0 <= i < sent.len() && {
                let m = #[trigger] sent[i].1;
                &&& m.source() == v
                &&& m.destination() == shift_past(x, v)
                &&& m.state() matches MessageState::InEdge { edge }
                    && Message::hop_draws(g, routing, v, m.destination(), ds.take(2), ds, edge.1)
            };
            assert(sent[i].1.source() == v);
            crate::random_engine::lemma_destination_draws_cover_other_vertices(n, v, x, x, v);
        }
    }
}

/// Draws that agree with what a vertex created still agree once messages
/// from other vertices are added.
proof fn lemma_creation_draws_extend(g: PreComputedGraph, routing: RoutingMethod, v: usize, ds: Seq<Draw>, sent: Seq<(usize, Message)>, e: (usize, Message))
    requires
        creation_draws(g, routing, v, ds, sent),
        e.1.source() != v,
    ensures
        creation_draws(g, routing, v, ds, sent.push(e)),
{
    let s2 = sent.push(e);
    if let Draw::Send(b) = ds[0] {
        if b {
            if let Draw::Destination(x) = ds[1] {
                let i = choose|i: int| 0 <= i < sent.len() && {
                    let m = #[trigger] sent[i].1;
                    &&& m.source() == v
                    &&& m.destination() == shift_past(x, v)
                    &&& m.state() matches MessageState::InEdge { edge } && Message::hop_draws(g, routing, v, m.destination(), ds.take(2), ds, edge.1)
                };
                assert(s2[i] == sent[i]);
            }
        } else {
            if sends_from(s2, v as int) {
                let i = choose|i: int| 0 <= i < s2.len() && (#[trigger] s2[i]).1.source() == v;
                if i < sent.len() {
                    assert(s2[i] == sent[i]);
                }
            }
        }
    }
}

/// The draws of a step, seen after a common beginning of `pl` draws.
proof fn lemma_hop_draws_after_prefix(
    g: PreComputedGraph,
    routing: RoutingMethod,
    cur: usize,
    dest: usize,
    before: Seq<Draw>,
    after: Seq<Draw>,
    next: usize,
    pl: int,
)
    requires
        0 <= pl <= before.len(),
        Message::hop_draws(g, routing, cur, dest, before, after, next),
    ensures
        Message::hop_draws(g, routing, cur, dest, before.skip(pl), after.skip(pl), next),
        after.take(pl) == before.take(pl),
{
    if cur != dest && uses_random_neighbour(routing, g.dist(cur, dest)) && g.rows()[cur as int].len() > 0 {
        assert(after.skip(pl).take(before.skip(pl).len() as int) =~= before.skip(pl));
        assert(after.take(pl) =~= before.take(pl)) by {
            assert(after.take(before.len() as int) == before);
            assert forall|i: int| 0 <= i < pl implies after.take(pl)[i] == before.take(pl)[i] by {
                assert(after[i] == after.take(before.len() as int)[i]);
            }
        }
        assert(after.skip(pl).last() == after.last());
    }
}

/// The bookkeeping of one vertex that sends a message in a round of
/// creation: its draws `d0 -> d2` (whether it sends, then the destination)
/// and `d2 -> d3` (the first hop) become its entry in `per_vertex`.
proof fn lemma_created_draws_step(
    g: PreComputedGraph,
    routing: RoutingMethod,
    v: usize,
    destination: usize,
    msg: Message,
    d0: Seq<Draw>,
    d2: Seq<Draw>,
    d3: Seq<Draw>,
    per_vertex: Seq<Seq<Draw>>,
    sent0: Seq<(usize, Message)>,
    e: (usize, Message),
    start: Seq<Draw>,
)
    requires
        d0 == start + flatten_draws(per_vertex),
        d2.len() == d0.len() + 2,
        d2.take(d0.len() as int) == d0,
        d2[d0.len() as int] == Draw::Send(true),
        d2.last() matches Draw::Destination(x) && destination == shift_past(x, v),
        msg.state() matches MessageState::InEdge { edge } && Message::hop_draws(g, routing, v, destination, d2, d3, edge.1),
        e.1 == msg,
        msg.source() == v,
        msg.destination() == destination,
        forall|i: int| 0 <= i < sent0.len() ==> (#[trigger] sent0[i]).1.source() < v,
        forall|u: int| 0 <= u < per_vertex.len() ==> creation_draws(g, routing, u as usize, #[trigger] per_vertex[u], sent0),
        per_vertex.len() == v,
    ensures
        d3 == start + flatten_draws(per_vertex.push(d3.skip(d0.len() as int))),
        forall|u: int| 0 <= u < per_vertex.len() + 1
            ==> creation_draws(g, routing, u as usize, #[trigger] per_vertex.push(d3.skip(d0.len() as int))[u], sent0.push(e)),
{
    let pl = d0.len() as int;
    let ds = d3.skip(pl);
    let pv2 = per_vertex.push(ds);
    let sent = sent0.push(e);
    if let MessageState::InEdge { edge } = msg.state() {
        lemma_hop_draws_after_prefix(g, routing, v, destination, d2, d3, edge.1, pl);
        assert(d2.skip(pl) =~= ds.take(2)) by {
            assert(d3.take(d2.len() as int) == d2 || d3 == d2);
        }
        assert(d3.take(pl) == d2.take(pl));
        assert(d2.take(pl) =~= d0);
        assert(d3 =~= d0 + ds);
        assert(pv2.drop_last() =~= per_vertex);
        assert(ds[0] == Draw::Send(true));
        assert(ds[1] == d2.last());
        assert(sent[sent0.len() as int] == e);
        assert(creation_draws(g, routing, v, ds, sent));
    }
    assert forall|u: int| 0 <= u < per_vertex.len() + 1 implies creation_draws(g, routing, u as usize, #[trigger] pv2[u], sent) by {
        if u < per_vertex.len() {
            assert(pv2[u] == per_vertex[u]);
            lemma_creation_draws_extend(g, routing, u as usize, per_vertex[u], sent0, e);
        }
    }
}

/// `after` is `before` followed by picks only: the draws of steps that
/// draw a neighbour.
pub open spec fn picks_added(before: Seq<Draw>, after: Seq<Draw>) -> bool {
    &&& before.len() <= after.len()
    &&& after.take(before.len() as int) == before
    &&& forall|i: int| before.len() <= i < after.len() ==> #[trigger] after[i] is Pick
}

proof fn lemma_picks_added_trans(a: Seq<Draw>, b: Seq<Draw>, c: Seq<Draw>)
    requires
        picks_added(a, b),
        picks_added(b, c),
    ensures
        picks_added(a, c),
{
    assert(c.take(a.len() as int) =~= a) by {
        assert forall|i: int| 0 <= i < a.len() implies c.take(a.len() as int)[i] == a[i] by {
            assert(c[i] == c.take(b.len() as int)[i]);
            assert(b[i] == b.take(a.len() as int)[i]);
        }
    }
    assert forall|i: int| a.len() <= i < c.len() implies #[trigger] c[i] is Pick by {
        if i < b.len() {
            assert(c[i] == c.take(b.len() as int)[i]);
            assert(b[i] is Pick);
        }
    }
}

proof fn lemma_hop_draws_picks(g: PreComputedGraph, routing: RoutingMethod, cur: usize, dest: usize, before: Seq<Draw>, after: Seq<Draw>, next: usize)
    requires
        Message::hop_draws(g, routing, cur, dest, before, after, next),
    ensures
        picks_added(before, after),
{
    if !(cur != dest && uses_random_neighbour(routing, g.dist(cur, dest)) && g.rows()[cur as int].len() > 0) {
        assert(after.take(before.len() as int) =~= before);
    }
}

/// `m2` is `m` after a step along an edge: the same message, travelling
/// from where `m` was along an edge that `routing` allows.
pub open spec fn moved_from(g: PreComputedGraph, routing: RoutingMethod, m: Message, m2: Message) -> bool {
    &&& m.same_but_state(m2)
    &&& m2.moved_on(g, routing, m.current_vertex())
}

/// `m2` is, after a step along an edge, one of the messages that the edges
/// `edges` deliver.
pub open spec fn moved_from_delivered(g: PreComputedGraph, routing: RoutingMethod, edges: Seq<Edge>, m2: Message) -> bool {
    exists|k: int, j: int|
        0 <= k < edges.len() && 0 <= j < edges[k].deliverable() && #[trigger] moved_from(g, routing, edges[k]@.queue[j], m2)
}

/// Why a simulation step failed.
#[derive(Debug, Clone, Copy, PartialEq, Eq)]
pub enum SimulationError {
    /// A message could not take its step.
    Routing(RoutingError),
    /// The clock or a statistic would pass `u64::MAX`.
    CounterOverflow,
}

/// The state of a simulation: the time, the graph, the random generator,
/// the edges with their queues and the vertices with their statistics.
pub struct Simulation {
    current_time_step: u64,
    graph_with_cache: Arc<PreComputedGraph>,
    routing_method: RoutingMethod,
    random_engine: RandomEngine,
    edges: Vec<Edge>,
    vertices: Vec<Vertex>,
    shuffled_edge_indices: Vec<usize>,
}

impl Simulation {
    pub closed spec fn graph(&self) -> PreComputedGraph {
        *self.graph_with_cache
    }

    pub closed spec fn time(&self) -> u64 {
        self.current_time_step
    }

    pub closed spec fn routing(&self) -> RoutingMethod {
        self.routing_method
    }

    pub closed spec fn edges_view(&self) -> Seq<Edge> {
        self.edges@
    }

    pub closed spec fn vertices_view(&self) -> Seq<Vertex> {
        self.vertices@
    }

    /// The draws the simulation's random engine has made, oldest first.
    pub closed spec fn draws(&self) -> Seq<Draw> {
        self.random_engine.draws()
    }

    pub closed spec fn edge_service_order(&self) -> Seq<usize> {
        self.shuffled_edge_indices@
    }

    pub closed spec fn wf(&self) -> bool {
        let g = *self.graph_with_cache;
        let n = g.rows().len();
        let m = edge_order(g.rows()).len();
        &&& g.wf()
        &&& self.random_engine.wf()
        &&& self.random_engine.vertex_count() == n
        &&& self.vertices@.len() == n
        &&& self.edges@.len() == m
        &&& forall|k: int| 0 <= k < m ==> (#[trigger] self.edges@[k])@.capacity >= 1
        &&& forall|k: int, i: int| 0 <= k < m && 0 <= i < self.edges@[k]@.queue.len()
            ==> queued_ok(g, k, #[trigger] self.edges@[k]@.queue[i], self.current_time_step)
        &&& self.shuffled_edge_indices@.to_multiset() == Seq::new(m, |i: int| i as usize).to_multiset()
    }

    /// A simulation at time zero, with every edge empty and of capacity one
    /// and every vertex without statistics.
    pub fn new(graph_cache: Arc<PreComputedGraph>, routing_method: RoutingMethod, random_engine: RandomEngine) -> (r: Self)
        requires
            graph_cache.wf(),
            random_engine.wf(),
            random_engine.vertex_count() == graph_cache.rows().len(),
        ensures
            r.wf(),
            r.time() == 0,
            r.graph() == *graph_cache,
            r.routing() == routing_method,
            r.vertices_view().len() == graph_cache.rows().len(),
            forall|v: int| 0 <= v < r.vertices_view().len() ==> (#[trigger] r.vertices_view()[v])@
                == (crate::graph_dynamics::VertexCounters { arrived: 0, traveling: 0, distance: 0, traveling_time: 0, generated: 0 }),
            r.edges_view().len() == edge_order(graph_cache.rows()).len(),
            forall|k: int| 0 <= k < r.edges_view().len() ==> (#[trigger] r.edges_view()[k])@
                == (crate::graph_dynamics::EdgeView { queue: Seq::empty(), capacity: 1, processed: 0 }),
            r.edge_service_order() == Seq::new(edge_order(graph_cache.rows()).len(), |i: int| i as usize),
            r.messages_accounted(),
            r.hops_accounted(),
            r.distances_cover_arrivals(),
            r.travel_covers_distance(),
            r.ages_cover_hops(1),
    {
        let v = graph_cache.node_count();
        let e = graph_cache.edge_count();
        let mut edges: Vec<Edge> = Vec::new();
        let mut shuffled_edge_indices: Vec<usize> = Vec::new();
        let mut k: usize = 0;
        while k < e
            invariant
                k <= e,
                edges@.len() == k,
                shuffled_edge_indices@ == Seq::new(k as nat, |i: int| i as usize),
                forall|j: int| 0 <= j < k ==> (#[trigger] edges@[j])@
                    == (crate::graph_dynamics::EdgeView { queue: Seq::empty(), capacity: 1, processed: 0 }),
            decreases e - k,
        {
            match Edge::new(1) {
                Ok(edge) => {
                    edges.push(edge);
                },
                Err(_) => {},
            }
            shuffled_edge_indices.push(k);
            assert(shuffled_edge_indices@ =~= Seq::new((k + 1) as nat, |i: int| i as usize));
            k = k + 1;
        }
        let mut vertices: Vec<Vertex> = Vec::new();
        let mut u: usize = 0;
        while u < v
            invariant
                u <= v,
                vertices@.len() == u,
                forall|j: int| 0 <= j < u ==> (#[trigger] vertices@[j])@
                    == (crate::graph_dynamics::VertexCounters { arrived: 0, traveling: 0, distance: 0, traveling_time: 0, generated: 0 }),
            decreases v - u,
        {
            vertices.push(Vertex::default());
            u = u + 1;
        }
        let sim = Simulation {
            current_time_step: 0,
            graph_with_cache: graph_cache,
            routing_method,
            random_engine,
            edges,
            vertices,
            shuffled_edge_indices,
        };
        proof {
            lemma_sum_of_zero(sim.vertices@, generated_count_fn());
            lemma_sum_of_zero(sim.vertices@, arrived_count_fn());
            lemma_sum_of_zero(sim.edges@, queue_len_fn());
            lemma_sum_of_zero(sim.edges@, processed_count_fn());
            lemma_sum_of_zero(sim.vertices@, traveling_count_fn());
        }
        sim
    }

    pub fn current_time_step(&self) -> (r: u64)
        ensures
            r == self.time(),
    {
        self.current_time_step
    }

    pub fn edges(&self) -> (r: &Vec<Edge>)
        ensures
            r@ == self.edges_view(),
    {
        &self.edges
    }

    pub fn vertices(&self) -> (r: &Vec<Vertex>)
        ensures
            r@ == self.vertices_view(),
    {
        &self.vertices
    }

    pub fn shuffled_edge_indices(&self) -> (r: &Vec<usize>)
        ensures
            r@ == self.edge_service_order(),
    {
        &self.shuffled_edge_indices
    }

    /// Moves the clock one step forward.
    pub fn advance_time(&mut self)
        requires
            old(self).wf(),
            old(self).time() < u64::MAX,
        ensures
            final(self).wf(),
            final(self).time() == old(self).time() + 1,
            final(self).edges_view() == old(self).edges_view(),
            final(self).vertices_view() == old(self).vertices_view(),
            final(self).graph() == old(self).graph(),
            final(self).routing() == old(self).routing(),
            final(self).edge_service_order() == old(self).edge_service_order(),
            final(self).all_created_before_now(),
            final(self).draws() == old(self).draws(),
    {
        self.current_time_step = self.current_time_step + 1;
        proof {
            let g = *self.graph_with_cache;
            let m = edge_order(g.rows()).len();
            assert forall|k: int, i: int| 0 <= k < m && 0 <= i < self.edges@[k]@.queue.len()
                implies queued_ok(g, k, #[trigger] self.edges@[k]@.queue[i], self.current_time_step) by {
                assert(queued_ok(g, k, self.edges@[k]@.queue[i], (self.current_time_step - 1) as u64));
            }
        }
    }

    /// What a round of message creation did, from `before` to `self`: the
    /// graph, the routing and the order of service stay; each vertex counted
    /// at most one more creation, and only in an observed round; each edge
    /// kept its capacity and its queue, behind which came messages created
    /// at `before`'s time, setting off from their sources along an edge that
    /// the routing allows, each counted as processed in an observed round.
    pub open spec fn created_messages_from(&self, before: Simulation, ready_to_observe: bool) -> bool {
        &&& self.graph() == before.graph()
        &&& self.routing() == before.routing()
        &&& self.edge_service_order() == before.edge_service_order()
        &&& self.vertices_view().len() == before.vertices_view().len()
        &&& self.edges_view().len() == before.edges_view().len()
        &&& forall|v: int| 0 <= v < self.vertices_view().len() ==> {
            let a = before.vertices_view()[v]@;
            let b = (#[trigger] self.vertices_view()[v])@;
            &&& b.arrived == a.arrived
            &&& b.traveling == a.traveling
            &&& b.distance == a.distance
            &&& b.traveling_time == a.traveling_time
            &&& (b.generated == a.generated || (ready_to_observe && b.generated == a.generated + 1))
        }
        &&& forall|k: int| 0 <= k < self.edges_view().len() ==> {
            let a = before.edges_view()[k]@;
            let b = (#[trigger] self.edges_view()[k])@;
            &&& b.capacity == a.capacity
            &&& a.queue.len() <= b.queue.len()
            &&& b.queue.take(a.queue.len() as int) == a.queue
            &&& b.processed == a.processed + if ready_to_observe { b.queue.len() - a.queue.len() } else { 0 }
            &&& forall|i: int| a.queue.len() <= i < b.queue.len() ==> {
                &&& (#[trigger] b.queue[i]).time_creation() == before.time()
                &&& b.queue[i].moved_on(before.graph(), before.routing(), b.queue[i].source())
            }
        }
    }

    /// `sent` lists the messages that a round of creation queued, each with
    /// the edge it joined, in order of their sources (so at most one from
    /// each vertex): each is created at `before`'s time, goes to a vertex
    /// other than its source, travels between vertices of the graph and has
    /// taken one allowed step from its source.
    /// `self` is `before` with these messages at the back of their queues and,
    /// in an observed round, with the creations counted at their sources and
    /// the messages counted as processed by their edges.
    pub open spec fn created_exactly(&self, before: Simulation, ready_to_observe: bool, sent: Seq<(usize, Message)>) -> bool {
        let n = before.vertices_view().len();
        let m = before.edges_view().len();
        &&& forall|i: int| 0 <= i < sent.len() ==> {
            let e = #[trigger] sent[i];
            &&& e.0 < m
            &&& queued_ok(before.graph(), e.0 as int, e.1, before.time())
            &&& e.1.time_creation() == before.time()
            &&& e.1.source() != e.1.destination()
            &&& e.1.moved_on(before.graph(), before.routing(), e.1.source())
        }
        &&& forall|i: int, j: int| 0 <= i < j < sent.len() ==> (#[trigger] sent[i]).1.source() < (#[trigger] sent[j]).1.source()
        &&& self.vertices_view().len() == n
        &&& self.edges_view().len() == m
        &&& forall|v: int| 0 <= v < n ==> (#[trigger] self.vertices_view()[v])@ == (VertexCounters {
            generated: before.vertices_view()[v]@.generated + if ready_to_observe && sends_from(sent, v) { 1nat } else { 0nat },
            ..before.vertices_view()[v]@
        })
        &&& forall|k: int| 0 <= k < m ==> (#[trigger] self.edges_view()[k])@ == (crate::graph_dynamics::EdgeView {
            queue: before.edges_view()[k]@.queue + routed_into(sent, k),
            capacity: before.edges_view()[k]@.capacity,
            processed: before.edges_view()[k]@.processed + if ready_to_observe { routed_into(sent, k).len() } else { 0nat },
        })
    }

    /// The draws of a round of creation from `before` agree with what it
    /// created: the engine's new draws are those of every vertex in turn,
    /// each as `creation_draws` describes, and the messages are those of
    /// `created_exactly`.
    pub open spec fn created_with_draws(&self, before: Simulation, ready_to_observe: bool) -> bool {
        exists|sent: Seq<(usize, Message)>, per_vertex: Seq<Seq<Draw>>|
            #![trigger self.created_exactly(before, ready_to_observe, sent), flatten_draws(per_vertex)] {
            &&& self.created_exactly(before, ready_to_observe, sent)
            &&& per_vertex.len() == before.vertices_view().len()
            &&& self.draws() == before.draws() + flatten_draws(per_vertex)
            &&& forall|v: int| 0 <= v < per_vertex.len()
                ==> creation_draws(before.graph(), before.routing(), v as usize, #[trigger] per_vertex[v], sent)
        }
    }

    /// There is room in the counters for the messages of one round of
    /// creation: each vertex can count one more, each edge one per vertex.
    pub open spec fn room_to_generate(&self) -> bool {
        &&& forall|v: int| 0 <= v < self.vertices_view().len() ==> (#[trigger] self.vertices_view()[v])@.generated < u64::MAX
        &&& forall|k: int| 0 <= k < self.edges_view().len()
            ==> (#[trigger] self.edges_view()[k])@.processed + self.vertices_view().len() <= u64::MAX
    }

    /// The message of one draw at vertex `v`: when `will_send` holds, a
    /// message from `v` to `destination`, created now, takes its first step
    /// and joins the back of the queue of the edge it sets off on; in an
    /// observed round the creation is counted at `v` and the message is
    /// counted as processed by that edge. When `will_send` does not hold,
    /// nothing happens. On an error nothing changes.
    pub fn create_message_at<S: CloserNeighborSampler>(
        &mut self,
        sampler: &S,
        v: usize,
        will_send: bool,
        destination: usize,
        ready_to_observe: bool,
    ) -> (r: Result<(), SimulationError>)
        requires
            old(self).wf(),
            v < old(self).vertices_view().len(),
            will_send ==> destination < old(self).vertices_view().len() && destination != v,
            will_send && ready_to_observe ==> old(self).vertices_view()[v as int]@.generated < u64::MAX
                && forall|k: int| 0 <= k < old(self).edges_view().len() ==> (#[trigger] old(self).edges_view()[k])@.processed < u64::MAX,
        ensures
            final(self).wf(),
            final(self).time() == old(self).time(),
            final(self).graph() == old(self).graph(),
            final(self).routing() == old(self).routing(),
            final(self).edge_service_order() == old(self).edge_service_order(),
            !will_send ==> r is Ok,
            r is Err ==> r matches Err(SimulationError::Routing(_)),
            !(will_send && r is Ok) ==> final(self).vertices_view() == old(self).vertices_view()
                && final(self).edges_view() == old(self).edges_view(),
            will_send && r is Ok ==> exists|k: int, m: Message| #![trigger queued_ok(old(self).graph(), k, m, old(self).time())] {
                &&& 0 <= k < old(self).edges_view().len()
                &&& m.source() == v
                &&& m.destination() == destination
                &&& m.time_creation() == old(self).time()
                &&& m.moved_on(old(self).graph(), old(self).routing(), v)
                &&& queued_ok(old(self).graph(), k, m, old(self).time())
                &&& final(self).edges_view().len() == old(self).edges_view().len()
                &&& forall|j: int| 0 <= j < old(self).edges_view().len() && j != k
                    ==> #[trigger] final(self).edges_view()[j] == old(self).edges_view()[j]
                &&& final(self).edges_view()[k]@ == (crate::graph_dynamics::EdgeView {
                    queue: old(self).edges_view()[k]@.queue.push(m),
                    capacity: old(self).edges_view()[k]@.capacity,
                    processed: old(self).edges_view()[k]@.processed + if ready_to_observe { 1nat } else { 0nat },
                })
                &&& final(self).vertices_view() == old(self).vertices_view().update(v as int, final(self).vertices_view()[v as int])
                &&& final(self).vertices_view()[v as int]@ == (VertexCounters {
                    generated: old(self).vertices_view()[v as int]@.generated + if ready_to_observe { 1nat } else { 0nat },
                    ..old(self).vertices_view()[v as int]@
                })
                &&& m.state() matches MessageState::InEdge { edge } && Message::hop_draws(old(self).graph(), old(self).routing(),
                    v, destination, old(self).draws(), final(self).draws(), edge.1)
            },
            !will_send ==> final(self).draws() == old(self).draws(),
            will_send && r is Err ==> exists|next: usize| #[trigger] Message::hop_draws(old(self).graph(), old(self).routing(),
                v, destination, old(self).draws(), final(self).draws(), next),
            r matches Err(SimulationError::Routing(e)) ==> Message::hop_refused(old(self).graph(), old(self).routing(), *sampler, v, destination, e),
            old(self).routing() is RandomWalk && old(self).graph().every_vertex_has_other_neighbours()
                ==> !(r matches Err(SimulationError::Routing(_))),
    {
        if !will_send {
            return Ok(());
        }
        let now = self.current_time_step;
        let ghost g = self.graph();
        let ghost m0 = edge_order(g.rows()).len();
        let mut msg = match Message::new(v, destination, now) {
            Some(msg) => msg,
            None => {
                proof {
                    assert(false);
                }
                return Ok(());
            },
        };
        let ghost created = msg;
        match msg.step(&self.graph_with_cache, sampler, &mut self.random_engine, self.routing_method, now) {
            Err(e) => {
                proof {
                    assert(created.current_vertex() == v);
                    if e == RoutingError::NoNeighbour {
                        assert(Message::hop_draws(g, old(self).routing(), v, destination, old(self).draws(), self.draws(), v));
                    } else {
                        let next = choose|next: usize| {
                            &&& #[trigger] created.hop_outcome(msg, g, old(self).routing(), now, next, Err::<(), RoutingError>(e))
                            &&& uses_random_neighbour(old(self).routing(), g.dist(v, destination)) ==> g.rows()[v as int].contains(next)
                            &&& !uses_random_neighbour(old(self).routing(), g.dist(v, destination)) ==> sampler.answers(v, destination, next)
                            &&& Message::hop_draws(g, old(self).routing(), v, destination, old(self).draws(), self.draws(), next)
                        };
                        assert(Message::hop_draws(g, old(self).routing(), v, destination, old(self).draws(), self.draws(), next));
                    }
                }
                return Err(SimulationError::Routing(e));
            },
            Ok(()) => {},
        }
        match msg.state() {
            MessageState::InEdge { edge: (from, to) } => {
                let edge_id = self.graph_with_cache.get_edge_id(from, to);
                assert(self.edges@ == old(self).edges@);
                assert(ready_to_observe ==> old(self).edges_view()[edge_id as int]@.processed < u64::MAX);
                assert(created.current_vertex() == v);
                if ready_to_observe {
                    self.vertices[v].increment_num_created_messages();
                }
                let ghost es1 = self.edges@;
                self.edges[edge_id].add_message(msg, ready_to_observe);
                proof {
                    assert(self.edges@ =~= es1.update(edge_id as int, self.edges@[edge_id as int]));
                    assert forall|k: int, i: int| 0 <= k < m0 && 0 <= i < self.edges@[k]@.queue.len()
                        implies queued_ok(g, k, #[trigger] self.edges@[k]@.queue[i], now) by {
                        if k != edge_id || i < es1[k]@.queue.len() {
                            assert(self.edges@[k]@.queue[i] == es1[k]@.queue[i]);
                        }
                    }
                    assert(queued_ok(g, edge_id as int, msg, now));
                    assert(self.vertices_view() =~= old(self).vertices_view().update(v as int, self.vertices_view()[v as int]));
                    let k = edge_id as int;
                    assert(0 <= k < old(self).edges_view().len());
                    assert(msg.source() == v && msg.destination() == destination && msg.time_creation() == old(self).time());
                    assert(msg.moved_on(old(self).graph(), old(self).routing(), v));
                    assert(self.edges_view().len() == old(self).edges_view().len());
                    assert(forall|j: int| 0 <= j < old(self).edges_view().len() && j != k
                        ==> #[trigger] self.edges_view()[j] == old(self).edges_view()[j]);
                    assert(self.edges_view()[k]@ == (crate::graph_dynamics::EdgeView {
                        queue: old(self).edges_view()[k]@.queue.push(msg),
                        capacity: old(self).edges_view()[k]@.capacity,
                        processed: old(self).edges_view()[k]@.processed + if ready_to_observe { 1nat } else { 0nat },
                    }));
                    assert(self.vertices_view()[v as int]@ == (VertexCounters {
                        generated: old(self).vertices_view()[v as int]@.generated + if ready_to_observe { 1nat } else { 0nat },
                        ..old(self).vertices_view()[v as int]@
                    }));
                }
                Ok(())
            },
            _ => {
                proof {
                    assert(false);
                }
                Ok(())
            },
        }
    }

    /// Every vertex may create a message, with the probability the random
    /// engine was made with; a created message goes to a destination drawn
    /// uniformly among the other vertices, takes its first step at once and
    /// joins the queue of the edge it set off on. When `ready_to_observe`
    /// holds, the creation is counted at the source and the message is
    /// counted as processed by its edge.
    pub fn message_generate<S: CloserNeighborSampler>(&mut self, sampler: &S, ready_to_observe: bool) -> (r: Result<(), SimulationError>)
        requires
            old(self).wf(),
        ensures
            final(self).wf(),
            final(self).time() == old(self).time(),
            final(self).created_messages_from(*old(self), ready_to_observe),
            r is Ok ==> exists|sent: Seq<(usize, Message)>| #[trigger] final(self).created_exactly(*old(self), ready_to_observe, sent),
            r is Ok ==> final(self).created_with_draws(*old(self), ready_to_observe),
            r is Ok && ready_to_observe ==> total_generated(final(self).vertices_view()) + total_queued(old(self).edges_view())
                == total_generated(old(self).vertices_view()) + total_queued(final(self).edges_view()),
            r is Ok && ready_to_observe && old(self).hops_accounted() ==> final(self).hops_accounted(),
            r == Err::<(), SimulationError>(SimulationError::CounterOverflow) <==> ready_to_observe && !old(self).room_to_generate(),
            r == Err::<(), SimulationError>(SimulationError::CounterOverflow) ==> final(self).vertices_view() == old(self).vertices_view()
                && final(self).edges_view() == old(self).edges_view(),
            r matches Err(SimulationError::Routing(e)) ==> exists|v: usize, d: usize|
                v < old(self).vertices_view().len() && d < old(self).vertices_view().len() && v != d
                && #[trigger] Message::hop_refused(old(self).graph(), old(self).routing(), *sampler, v, d, e),
            (forall|v: usize, d: usize| v < old(self).vertices_view().len() && d < old(self).vertices_view().len() && v != d
                ==> #[trigger] hop_assured(old(self).graph(), old(self).routing(), v, d))
                ==> !(r matches Err(SimulationError::Routing(_))),
            old(self).routing() is RandomWalk && old(self).graph().every_vertex_has_other_neighbours()
                ==> !(r matches Err(SimulationError::Routing(_))),
    {
        if ready_to_observe && !self.has_room_to_generate() {
            proof {
                assert forall|k: int| 0 <= k < self.edges_view().len() implies
                    (#[trigger] self.edges_view()[k])@.queue.take(self.edges_view()[k]@.queue.len() as int) == self.edges_view()[k]@.queue by {
                    assert(self.edges_view()[k]@.queue.take(self.edges_view()[k]@.queue.len() as int) =~= self.edges_view()[k]@.queue);
                }
            }
            return Err(SimulationError::CounterOverflow);
        }
        let n = self.vertices.len();
        let n_edges = self.edges.len();
        let ghost vs0 = self.vertices@;
        let ghost es0 = self.edges@;
        let ghost mut sent: Seq<(usize, Message)> = seq![];
        let ghost mut per_vertex: Seq<Seq<Draw>> = seq![];
        proof {
            assert(self.draws() =~= old(self).draws() + flatten_draws(per_vertex));
            assert forall|k: int| 0 <= k < es0.len() implies (#[trigger] self.edges_view()[k])@.queue + routed_into(sent, k)
                =~= es0[k]@.queue by {}
            assert(self.created_exactly(*old(self), ready_to_observe, sent));
            assert(exists|sent2: Seq<(usize, Message)>| #[trigger] self.created_exactly(*old(self), ready_to_observe, sent2));
        }
        let mut source_id: usize = 0;
        while source_id < n
            invariant
                source_id <= n,
                n == vs0.len(),
                n_edges == es0.len(),
                vs0 == old(self).vertices_view(),
                es0 == old(self).edges_view(),
                self.wf(),
                self.time() == old(self).time(),
                self.graph() == old(self).graph(),
                self.routing() == old(self).routing(),
                self.edge_service_order() == old(self).edge_service_order(),
                ready_to_observe ==> old(self).room_to_generate(),
                self.created_exactly(*old(self), ready_to_observe, sent),
                sent.len() <= source_id,
                forall|i: int| 0 <= i < sent.len() ==> (#[trigger] sent[i]).1.source() < source_id,
                ready_to_observe ==> total_generated(self.vertices@) + total_queued(es0)
                    == total_generated(vs0) + total_queued(self.edges@),
                ready_to_observe ==> total_processed(self.edges@) + total_generated(vs0)
                    == total_processed(es0) + total_generated(self.vertices@),
                total_traveling(self.vertices@) == total_traveling(vs0),
                per_vertex.len() == source_id,
                self.draws() == old(self).draws() + flatten_draws(per_vertex),
                forall|v: int| 0 <= v < source_id
                    ==> creation_draws(old(self).graph(), old(self).routing(), v as usize, #[trigger] per_vertex[v], sent),
            decreases n - source_id,
        {
            let ghost d0 = self.draws();
            let will_send = self.random_engine.sample_will_send_msg();
            let ghost d1 = self.draws();
            if will_send {
                proof {
                    self.random_engine.lemma_wf();
                }
                let destination = self.random_engine.sample_destination(source_id);
                let ghost before = *self;
                proof {
                    let d2 = before.draws();
                    assert(d1 == d0.push(Draw::Send(true)));
                    assert(d2.take(d1.len() as int) == d1);
                    assert(d2[d0.len() as int] == d2.take(d1.len() as int)[d0.len() as int]);
                    assert(d2.take(d0.len() as int) =~= d0) by {
                        assert forall|i: int| 0 <= i < d0.len() implies d2.take(d0.len() as int)[i] == d0[i] by {
                            assert(d2[i] == d2.take(d1.len() as int)[i]);
                        }
                    }
                }
                proof {
                    assert(!sends_from(sent, source_id as int));
                    assert(before.vertices_view()[source_id as int]@.generated == vs0[source_id as int]@.generated);
                    if ready_to_observe {
                        assert forall|k: int| 0 <= k < before.edges_view().len() implies (#[trigger] before.edges_view()[k])@.processed < u64::MAX by {
                            lemma_routed_into_from(sent, k);
                            assert(es0[k]@.processed + n <= u64::MAX);
                        }
                    }
                }
                match self.create_message_at(sampler, source_id, true, destination, ready_to_observe) {
                    Err(e) => {
                        proof {
                            lemma_created_exactly_implies(*self, *old(self), ready_to_observe, sent);
                            if let SimulationError::Routing(re) = e {
                                assert(Message::hop_refused(old(self).graph(), old(self).routing(), *sampler, source_id, destination, re));
                                if hop_assured(old(self).graph(), old(self).routing(), source_id, destination) {
                                    lemma_assured_hop_not_refused(old(self).graph(), old(self).routing(), *sampler, source_id, destination, re);
                                }
                            }
                        }
                        return Err(e);
                    },
                    Ok(()) => {},
                }
                proof {
                    let (k, msg) = choose|k: int, msg: Message| #![trigger queued_ok(before.graph(), k, msg, before.time())] {
                        &&& 0 <= k < before.edges_view().len()
                        &&& msg.source() == source_id
                        &&& msg.destination() == destination
                        &&& msg.time_creation() == before.time()
                        &&& msg.moved_on(before.graph(), before.routing(), source_id)
                        &&& queued_ok(before.graph(), k, msg, before.time())
                        &&& self.edges_view().len() == before.edges_view().len()
                        &&& forall|j: int| 0 <= j < before.edges_view().len() && j != k
                            ==> #[trigger] self.edges_view()[j] == before.edges_view()[j]
                        &&& self.edges_view()[k]@ == (crate::graph_dynamics::EdgeView {
                            queue: before.edges_view()[k]@.queue.push(msg),
                            capacity: before.edges_view()[k]@.capacity,
                            processed: before.edges_view()[k]@.processed + if ready_to_observe { 1nat } else { 0nat },
                        })
                        &&& self.vertices_view() == before.vertices_view().update(source_id as int, self.vertices_view()[source_id as int])
                        &&& self.vertices_view()[source_id as int]@ == (VertexCounters {
                            generated: before.vertices_view()[source_id as int]@.generated + if ready_to_observe { 1nat } else { 0nat },
                            ..before.vertices_view()[source_id as int]@
                        })
                        &&& msg.state() matches MessageState::InEdge { edge } && Message::hop_draws(before.graph(), before.routing(),
                            source_id, destination, before.draws(), self.draws(), edge.1)
                    };
                    assert(k < n_edges);
                    let e = (k as usize, msg);
                    let sent0 = sent;
                    assert(before.created_exactly(*old(self), ready_to_observe, sent0));
                    sent = sent.push(e);
                    assert(self.edges_view() =~= before.edges_view().update(k, self.edges_view()[k]));
                    lemma_sum_of_update(before.edges_view(), queue_len_fn(), k, self.edges_view()[k]);
                    lemma_sum_of_update(before.vertices_view(), generated_count_fn(), source_id as int, self.vertices_view()[source_id as int]);
                    lemma_sum_of_update(before.vertices_view(), traveling_count_fn(), source_id as int, self.vertices_view()[source_id as int]);
                    lemma_sum_of_update(before.edges_view(), processed_count_fn(), k, self.edges_view()[k]);
                    assert forall|kk: int| 0 <= kk < es0.len() implies (#[trigger] self.edges_view()[kk])@ == (crate::graph_dynamics::EdgeView {
                        queue: es0[kk]@.queue + routed_into(sent, kk),
                        capacity: es0[kk]@.capacity,
                        processed: es0[kk]@.processed + if ready_to_observe { routed_into(sent, kk).len() } else { 0nat },
                    }) by {
                        lemma_routed_into_push(sent0, e, kk);
                        assert(before.edges_view()[kk]@.queue == es0[kk]@.queue + routed_into(sent0, kk));
                        if kk == k {
                            assert(e.0 as int == kk);
                            assert(routed_into(sent, kk) == routed_into(sent0, kk).push(msg));
                            assert(es0[kk]@.queue + routed_into(sent, kk) =~= (es0[kk]@.queue + routed_into(sent0, kk)).push(msg));
                        } else {
                            assert(e.0 as int != kk);
                            assert(self.edges_view()[kk] == before.edges_view()[kk]);
                        }
                    }
                    assert forall|v: int| 0 <= v < n implies sends_from(sent, v) == (sends_from(sent0, v) || v == source_id) by {
                        if sends_from(sent0, v) {
                            let i = choose|i: int| 0 <= i < sent0.len() && (#[trigger] sent0[i]).1.source() == v;
                            assert(sent[i] == sent0[i]);
                        }
                        if v == source_id {
                            assert(sent[sent.len() - 1].1.source() == v);
                        }
                        if sends_from(sent, v) && v != source_id {
                            let i = choose|i: int| 0 <= i < sent.len() && (#[trigger] sent[i]).1.source() == v;
                            assert(sent0[i] == sent[i]);
                        }
                    }
                    assert forall|i: int, j: int| 0 <= i < j < sent.len()
                        implies (#[trigger] sent[i]).1.source() < (#[trigger] sent[j]).1.source() by {
                        if j < sent0.len() {
                            assert(sent[i] == sent0[i] && sent[j] == sent0[j]);
                            assert(sent0[i].1.source() < sent0[j].1.source());
                        } else {
                            assert(sent[i] == sent0[i]);
                        }
                    }
                    assert forall|i: int| 0 <= i < sent.len() implies (#[trigger] sent[i]).1.source() < source_id + 1 by {
                        if i < sent0.len() {
                            assert(sent[i] == sent0[i]);
                        }
                    }
                    assert(self.created_exactly(*old(self), ready_to_observe, sent));
                    lemma_created_draws_step(old(self).graph(), old(self).routing(), source_id, destination, msg,
                        d0, before.draws(), self.draws(), per_vertex, sent0, e, old(self).draws());
                    per_vertex = per_vertex.push(self.draws().skip(d0.len() as int));
                }
            } else {
                proof {
                    let ds = seq![Draw::Send(false)];
                    assert(!sends_from(sent, source_id as int));
                    assert(per_vertex.push(ds).drop_last() =~= per_vertex);
                    assert(self.draws() =~= old(self).draws() + flatten_draws(per_vertex.push(ds)));
                    per_vertex = per_vertex.push(ds);
                }
            }
            source_id = source_id + 1;
        }
        proof {
            lemma_created_exactly_implies(*self, *old(self), ready_to_observe, sent);
            assert(flatten_draws(per_vertex) == flatten_draws(per_vertex));
        }
        Ok(())
    }

    /// There is room in the counters for one round of deliveries: every
    /// waiting message may arrive at, or leave, any vertex and enter any edge.
    pub open spec fn room_to_forward(&self) -> bool {
        let q = total_queued(self.edges_view());
        let t = self.time();
        &&& forall|v: int| 0 <= v < self.vertices_view().len() ==> {
            let c = (#[trigger] self.vertices_view()[v])@;
            &&& c.arrived + q <= u64::MAX
            &&& c.traveling + q <= u64::MAX
            &&& c.distance + q * 0xffff <= u64::MAX
            &&& c.traveling_time + q * t <= u64::MAX
        }
        &&& forall|k: int| 0 <= k < self.edges_view().len() ==> (#[trigger] self.edges_view()[k])@.processed + q <= u64::MAX
    }

    /// `transit` lists, in the order they were delivered, the messages that a
    /// round of deliveries from `before` sent on, each with the edge it
    /// joined: one for each delivered message that was not at its
    /// destination, after its step. `self` is `before` with each edge's
    /// delivered front taken off and the messages routed into it put behind
    /// what stayed; in an observed round each entering message is counted as
    /// processed by its edge.
    pub open spec fn forwarded_exactly(&self, before: Simulation, ready_to_observe: bool, transit: Seq<(usize, Message)>) -> bool {
        let m = before.edges_view().len();
        let moving = not_arrived(delivered_in_order(before.edges_view(), self.edge_service_order()));
        &&& transit.len() == moving.len()
        &&& forall|i: int| 0 <= i < transit.len() ==> {
            let e = #[trigger] transit[i];
            &&& e.0 < m
            &&& queued_ok(before.graph(), e.0 as int, e.1, before.time())
            &&& moved_from(before.graph(), before.routing(), moving[i], e.1)
        }
        &&& self.edges_view().len() == m
        &&& forall|k: int| 0 <= k < m ==> (#[trigger] self.edges_view()[k])@ == (crate::graph_dynamics::EdgeView {
            queue: before.edges_view()[k]@.queue.skip(before.edges_view()[k].deliverable() as int) + routed_into(transit, k),
            capacity: before.edges_view()[k]@.capacity,
            processed: before.edges_view()[k]@.processed + if ready_to_observe { routed_into(transit, k).len() } else { 0nat },
        })
    }

    /// Takes one step with a message delivered by an edge: it arrives, and is
    /// recorded at its destination, or it sets off along its next edge and
    /// is put in `transit` with the identifier of that edge.
    fn deliver_message<S: CloserNeighborSampler>(
        &mut self,
        sampler: &S,
        msg: Message,
        ready_to_observe: bool,
        transit: &mut Vec<(usize, Message)>,
    ) -> (r: Result<(), SimulationError>)
        requires
            old(self).graph().wf(),
            old(self).random_engine.wf(),
            old(self).random_engine.vertex_count() == old(self).graph().rows().len(),
            old(self).vertices@.len() == old(self).graph().rows().len(),
            msg.state() is InEdge,
            msg.current_vertex() < old(self).graph().rows().len(),
            msg.source() < old(self).graph().rows().len(),
            msg.destination() < old(self).graph().rows().len(),
            msg.source() != msg.destination(),
            msg.time_creation() < old(self).time(),
            ready_to_observe ==> forall|v: int| 0 <= v < old(self).vertices@.len() ==> {
                let c = (#[trigger] old(self).vertices@[v])@;
                &&& c.arrived < u64::MAX
                &&& c.traveling < u64::MAX
                &&& c.distance + 0xffff <= u64::MAX
                &&& c.traveling_time + old(self).time() <= u64::MAX
            },
        ensures
            final(self).graph() == old(self).graph(),
            final(self).time() == old(self).time(),
            final(self).routing() == old(self).routing(),
            final(self).edges == old(self).edges,
            final(self).shuffled_edge_indices == old(self).shuffled_edge_indices,
            final(self).random_engine.wf(),
            final(self).random_engine.vertex_count() == old(self).random_engine.vertex_count(),
            final(self).vertices@.len() == old(self).vertices@.len(),
            forall|v: int| 0 <= v < final(self).vertices@.len() ==> {
                let a = old(self).vertices@[v]@;
                let b = (#[trigger] final(self).vertices@[v])@;
                &&& a.arrived <= b.arrived <= a.arrived + 1
                &&& a.traveling <= b.traveling <= a.traveling + 1
                &&& a.distance <= b.distance <= a.distance + 0xffff
                &&& a.traveling_time <= b.traveling_time <= a.traveling_time + old(self).time()
                &&& b.generated == a.generated
                &&& !ready_to_observe ==> b == a
            },
            old(transit)@.len() <= final(transit)@.len() <= old(transit)@.len() + 1,
            final(transit)@.take(old(transit)@.len() as int) == old(transit)@,
            forall|i: int| old(transit)@.len() <= i < final(transit)@.len() ==> {
                let (eid, m2) = #[trigger] final(transit)@[i];
                &&& eid < edge_order(old(self).graph().rows()).len()
                &&& queued_ok(old(self).graph(), eid as int, m2, old(self).time())
                &&& moved_from(old(self).graph(), old(self).routing(), msg, m2)
            },
            r is Ok && ready_to_observe ==> total_arrived(final(self).vertices@) + final(transit)@.len()
                == total_arrived(old(self).vertices@) + old(transit)@.len() + 1,
            r is Ok ==> (final(transit)@.len() == old(transit)@.len() + 1 <==> msg.current_vertex() != msg.destination()),
            r is Ok && ready_to_observe ==> total_traveling(final(self).vertices@) + old(transit)@.len()
                == total_traveling(old(self).vertices@) + final(transit)@.len(),
            r is Err ==> r matches Err(SimulationError::Routing(_)),
            r is Ok ==> forall|v: int| 0 <= v < final(self).vertices@.len() ==> (#[trigger] final(self).vertices@[v])@
                == if ready_to_observe {
                    counters_after_delivery(old(self).vertices@[v]@, old(self).graph(), old(self).time(), msg, v)
                } else {
                    old(self).vertices@[v]@
                },
            r matches Err(SimulationError::Routing(e)) ==> delivery_refused(old(self).graph(), old(self).routing(), *sampler, msg, e),
            picks_added(old(self).draws(), final(self).draws()),
            old(self).routing() is RandomWalk && old(self).graph().every_vertex_has_other_neighbours() ==> r is Ok,
    {
        let mut msg = msg;
        let now = self.current_time_step;
        let ghost m0 = msg;
        let r0 = msg.step(&self.graph_with_cache, sampler, &mut self.random_engine, self.routing_method, now);
        proof {
            let g = old(self).graph();
            let routing = old(self).routing();
            let (cur, dest) = (m0.current_vertex(), m0.destination());
            if cur == dest || r0 == Err::<(), RoutingError>(RoutingError::NoNeighbour) {
                assert(self.draws().take(old(self).draws().len() as int) =~= old(self).draws());
            } else {
                let next = choose|next: usize| {
                    &&& #[trigger] m0.hop_outcome(msg, g, routing, now, next, r0)
                    &&& uses_random_neighbour(routing, g.dist(cur, dest)) ==> g.rows()[cur as int].contains(next)
                    &&& !uses_random_neighbour(routing, g.dist(cur, dest)) ==> sampler.answers(cur, dest, next)
                    &&& Message::hop_draws(g, routing, cur, dest, old(self).draws(), self.draws(), next)
                };
                lemma_hop_draws_picks(g, routing, cur, dest, old(self).draws(), self.draws(), next);
            }
        }
        match r0 {
            Err(e) => {
                return Err(SimulationError::Routing(e));
            },
            Ok(()) => {},
        }
        let ghost vs0 = self.vertices@;
        match msg.state() {
            MessageState::InEdge { edge: (from, to) } => {
                if ready_to_observe {
                    self.vertices[from].increment_num_traveling_msgs();
                    proof {
                        assert(self.vertices@ =~= vs0.update(from as int, self.vertices@[from as int]));
                        lemma_sum_of_update(vs0, arrived_count_fn(), from as int, self.vertices@[from as int]);
                        lemma_sum_of_update(vs0, traveling_count_fn(), from as int, self.vertices@[from as int]);
                    }
                }
                let edge_id = self.graph_with_cache.get_edge_id(from, to);
                let ghost t0 = transit@;
                transit.push((edge_id, msg));
                proof {
                    assert(transit@.take(t0.len() as int) =~= t0);
                }
            },
            MessageState::Arrived { .. } => {
                let ideal_distance = self.graph_with_cache.get_distance(msg.source(), msg.destination());
                let d = msg.destination();
                self.vertices[d].update_statistics(&msg, ideal_distance, ready_to_observe);
                proof {
                    assert(self.vertices@ =~= vs0.update(d as int, self.vertices@[d as int]));
                    lemma_sum_of_update(vs0, arrived_count_fn(), d as int, self.vertices@[d as int]);
                    lemma_sum_of_update(vs0, traveling_count_fn(), d as int, self.vertices@[d as int]);
                    assert(transit@.take(transit@.len() as int) =~= transit@);
                }
            },
            MessageState::Created => {
                proof {
                    assert(transit@.take(transit@.len() as int) =~= transit@);
                }
            },
        }
        Ok(())
    }

    /// Every edge, in a freshly shuffled order, delivers the messages at the
    /// front of its queue, at most its capacity of them. Each delivered
    /// message takes a step: it arrives (and is recorded at its destination)
    /// or sets off along its next edge; the latter join the back of their new
    /// queues only once every edge has delivered. When `ready_to_observe`
    /// holds, departures, arrivals and messages entering an edge are counted.
    pub fn forward_messages_on_edges<S: CloserNeighborSampler>(&mut self, sampler: &S, ready_to_observe: bool) -> (r: Result<(), SimulationError>)
        requires
            old(self).wf(),
            old(self).all_created_before_now(),
        ensures
            final(self).wf(),
            final(self).time() == old(self).time(),
            final(self).graph() == old(self).graph(),
            final(self).routing() == old(self).routing(),
            final(self).vertices_view().len() == old(self).vertices_view().len(),
            final(self).edges_view().len() == old(self).edges_view().len(),
            r is Ok ==> forall|v: int| 0 <= v < final(self).vertices_view().len() ==> (#[trigger] final(self).vertices_view()[v])@
                == if ready_to_observe {
                    counters_after_deliveries(old(self).vertices_view()[v]@, old(self).graph(), old(self).time(),
                        delivered_in_order(old(self).edges_view(), final(self).edge_service_order()), v)
                } else {
                    old(self).vertices_view()[v]@
                },
            forall|v: int| 0 <= v < final(self).vertices_view().len() ==> {
                let a = old(self).vertices_view()[v]@;
                let b = (#[trigger] final(self).vertices_view()[v])@;
                &&& b.generated == a.generated
                &&& a.arrived <= b.arrived
                &&& a.traveling <= b.traveling
                &&& a.distance <= b.distance
                &&& a.traveling_time <= b.traveling_time
                &&& !ready_to_observe ==> b == a
            },
            r is Ok ==> forall|k: int| 0 <= k < final(self).edges_view().len() ==> {
                let a = old(self).edges_view()[k];
                let b = (#[trigger] final(self).edges_view()[k])@;
                let kept = a@.queue.skip(a.deliverable() as int);
                &&& b.capacity == a@.capacity
                &&& kept.len() <= b.queue.len()
                &&& b.queue.take(kept.len() as int) == kept
                &&& b.processed == a@.processed + if ready_to_observe { b.queue.len() - kept.len() } else { 0 }
                &&& forall|i: int| kept.len() <= i < b.queue.len()
                    ==> moved_from_delivered(old(self).graph(), old(self).routing(), old(self).edges_view(), #[trigger] b.queue[i])
            },
            r is Ok && ready_to_observe ==> total_queued(final(self).edges_view()) + total_arrived(final(self).vertices_view())
                == total_queued(old(self).edges_view()) + total_arrived(old(self).vertices_view()),
            r is Ok ==> exists|transit: Seq<(usize, Message)>| #[trigger] final(self).forwarded_exactly(*old(self), ready_to_observe, transit),
            r is Ok ==> exists|order: Seq<usize>| {
                &&& is_permutation(order, old(self).edge_service_order().len())
                &&& final(self).edge_service_order() == permuted(old(self).edge_service_order(), order)
                &&& #[trigger] picks_added(old(self).draws().push(Draw::Shuffle(order)), final(self).draws())
            },
            r is Ok && ready_to_observe && old(self).messages_accounted() ==> final(self).messages_accounted(),
            r is Ok && ready_to_observe && old(self).hops_accounted() ==> final(self).hops_accounted(),
            r is Ok && old(self).distances_cover_arrivals() ==> final(self).distances_cover_arrivals(),
            r is Ok && symmetric(old(self).graph().rows()) && old(self).ages_cover_hops(old(self).time() as int)
                ==> final(self).ages_cover_hops(old(self).time() + 1),
            r is Ok && symmetric(old(self).graph().rows()) && old(self).ages_cover_hops(old(self).time() as int)
                && old(self).travel_covers_distance() ==> final(self).travel_covers_distance(),
            r is Ok ==> {
                let d = delivered_in_order(old(self).edges_view(), final(self).edge_service_order());
                total_queued(final(self).edges_view()) + d.len() == total_queued(old(self).edges_view()) + not_arrived(d).len()
            },
            r == Err::<(), SimulationError>(SimulationError::CounterOverflow) <==> ready_to_observe && !old(self).room_to_forward(),
            r == Err::<(), SimulationError>(SimulationError::CounterOverflow) ==> final(self).vertices_view() == old(self).vertices_view()
                && final(self).edges_view() == old(self).edges_view(),
            r matches Err(SimulationError::Routing(e)) ==> exists|k: int, i: int|
                0 <= k < old(self).edges_view().len() && 0 <= i < old(self).edges_view()[k].deliverable()
                && #[trigger] delivery_refused(old(self).graph(), old(self).routing(), *sampler, old(self).edges_view()[k]@.queue[i], e),
            (forall|k: int, i: int| 0 <= k < old(self).edges_view().len() && 0 <= i < old(self).edges_view()[k].deliverable()
                ==> #[trigger] delivery_assured(old(self).graph(), old(self).routing(), old(self).edges_view()[k]@.queue[i]))
                ==> !(r matches Err(SimulationError::Routing(_))),
            old(self).routing() is RandomWalk && old(self).graph().every_vertex_has_other_neighbours()
                ==> !(r matches Err(SimulationError::Routing(_))),
    {
        if ready_to_observe && !self.has_room_to_forward() {
            return Err(SimulationError::CounterOverflow);
        }
        let ghost g = self.graph();
        let ghost n = g.rows().len();
        let ghost m = edge_order(g.rows()).len();
        let ghost es0 = self.edges@;
        let ghost vs0 = self.vertices@;
        let ghost q0 = total_queued(self.edges@);
        let now = self.current_time_step;
        let edge_total = self.edges.len();
        assert(edge_total == m);
        self.random_engine.shuffle_slice(&mut self.shuffled_edge_indices);
        let ghost d_sh = self.draws();
        let ghost sh_order = match d_sh.last() {
            Draw::Shuffle(o) => o,
            _ => Seq::empty(),
        };
        proof {
            lemma_index_permutation(self.shuffled_edge_indices@, m);
            assert(d_sh =~= old(self).draws().push(Draw::Shuffle(sh_order)));
            assert(self.draws().take(d_sh.len() as int) =~= d_sh);
        }
        let ghost order = self.shuffled_edge_indices@;
        let mut transit_queue: Vec<(usize, Message)> = Vec::new();
        let ghost mut processed: Seq<Message> = seq![];
        let ghost mut c: nat = 0;
        let ghost mut ct: int = 0;
        let num_edges = self.shuffled_edge_indices.len();
        let mut idx: usize = 0;
        while idx < num_edges
            invariant
                g == self.graph(),
                g == old(self).graph(),
                g.wf(),
                n == g.rows().len(),
                m == edge_order(g.rows()).len(),
                now == self.current_time_step,
                now == old(self).time(),
                self.routing_method == old(self).routing(),
                self.random_engine.wf(),
                self.random_engine.vertex_count() == n,
                self.vertices@.len() == n,
                self.edges@.len() == m,
                es0 == old(self).edges_view(),
                vs0 == old(self).vertices_view(),
                q0 == total_queued(es0),
                es0.len() == m,
                vs0.len() == n,
                forall|k: int| 0 <= k < m ==> (#[trigger] es0[k])@.capacity >= 1,
                forall|k: int, i: int| 0 <= k < m && 0 <= i < es0[k]@.queue.len()
                    ==> queued_ok(g, k, #[trigger] es0[k]@.queue[i], now) && es0[k]@.queue[i].time_creation() < now,
                order == self.shuffled_edge_indices@,
                order.to_multiset() == Seq::new(m, |i: int| i as usize).to_multiset(),
                order.len() == m,
                num_edges == m,
                order.no_duplicates(),
                forall|i: int| 0 <= i < order.len() ==> #[trigger] order[i] < m,
                idx <= num_edges,
                forall|k: int| 0 <= k < m ==> {
                    let a = es0[k];
                    let b = (#[trigger] self.edges@[k])@;
                    &&& b.capacity == a@.capacity
                    &&& b.processed == a@.processed
                    &&& b.queue == if order.take(idx as int).contains(k as usize) { a@.queue.skip(a.deliverable() as int) } else { a@.queue }
                },
                forall|v: int| 0 <= v < n ==> {
                    let a = vs0[v]@;
                    let b = (#[trigger] self.vertices@[v])@;
                    &&& a.arrived <= b.arrived <= a.arrived + c
                    &&& a.traveling <= b.traveling <= a.traveling + c
                    &&& a.distance <= b.distance <= a.distance + c * 0xffff
                    &&& a.traveling_time <= b.traveling_time <= a.traveling_time + ct
                    &&& b.generated == a.generated
                    &&& !ready_to_observe ==> b == a
                },
                ct == c * now,
                total_queued(self.edges@) + c == q0,
                transit_queue@.len() <= c,
                forall|i: int| 0 <= i < transit_queue@.len() ==> {
                    let (eid, m2) = #[trigger] transit_queue@[i];
                    &&& eid < m
                    &&& queued_ok(g, eid as int, m2, now)
                    &&& m2.time_creation() < now
                },
                ready_to_observe ==> total_arrived(self.vertices@) + transit_queue@.len() == total_arrived(vs0) + c,
                ready_to_observe ==> total_traveling(self.vertices@) == total_traveling(vs0) + transit_queue@.len(),
                ready_to_observe ==> old(self).room_to_forward(),
                forall|i: int| 0 <= i < transit_queue@.len()
                    ==> moved_from_delivered(g, old(self).routing(), es0, (#[trigger] transit_queue@[i]).1),
                processed == delivered_in_order(es0, order.take(idx as int)),
                c == processed.len(),
                transit_queue@.len() == not_arrived(processed).len(),
                forall|i: int| 0 <= i < transit_queue@.len()
                    ==> moved_from(g, old(self).routing(), not_arrived(processed)[i], (#[trigger] transit_queue@[i]).1),
                forall|v: int| 0 <= v < n ==> (#[trigger] self.vertices@[v])@ == if ready_to_observe {
                    counters_after_deliveries(vs0[v]@, g, now, processed, v)
                } else {
                    vs0[v]@
                },
                picks_added(d_sh, self.draws()),
            decreases num_edges - idx,
        {
            let edge_id = self.shuffled_edge_indices[idx];
            let ghost e_before = self.edges@;
            proof {
                assert(!order.take(idx as int).contains(edge_id)) by {
                    if order.take(idx as int).contains(edge_id) {
                        let i = choose|i: int| 0 <= i < idx && #[trigger] order.take(idx as int)[i] == edge_id;
                        assert(order[i] == order[idx as int]);
                    }
                }
                assert(order.take(idx + 1) =~= order.take(idx as int).push(edge_id));
            }
            let delivered = self.edges[edge_id].messages_to_deliver_mut();
            let ghost d = es0[edge_id as int].deliverable();
            let ghost e_drained = self.edges@;
            proof {
                assert(self.edges@ =~= e_before.update(edge_id as int, self.edges@[edge_id as int]));
                lemma_sum_of_update(e_before, queue_len_fn(), edge_id as int, self.edges@[edge_id as int]);
                assert(delivered@.len() == d);
                assert forall|k: int, i: int| 0 <= k < m && 0 <= i < self.edges@[k]@.queue.len()
                    implies queued_ok(g, k, #[trigger] self.edges@[k]@.queue[i], now) by {
                    if k == edge_id {
                        let a = es0[k];
                        assert(self.edges@[k]@.queue[i] == a@.queue[i + a.deliverable()]);
                    } else {
                        assert(self.edges@[k] == e_before[k]);
                        if order.take(idx as int).contains(k as usize) {
                            let a = es0[k];
                            assert(self.edges@[k]@.queue[i] == a@.queue[i + a.deliverable()]);
                        } else {
                            assert(self.edges@[k]@.queue[i] == es0[k]@.queue[i]);
                        }
                    }
                }
                assert forall|i: int| 0 <= i < delivered@.len() implies queued_ok(g, edge_id as int, #[trigger] delivered@[i], now)
                    && delivered@[i].time_creation() < now by {
                    assert(delivered@[i] == es0[edge_id as int]@.queue[i]);
                }
                assert forall|k: int| 0 <= k < m implies {
                    let a = es0[k];
                    let b = (#[trigger] self.edges@[k])@;
                    &&& b.capacity == a@.capacity
                    &&& b.processed == a@.processed
                    &&& b.queue == if order.take(idx + 1).contains(k as usize) { a@.queue.skip(a.deliverable() as int) } else { a@.queue }
                } by {
                    if k != edge_id {
                        assert(self.edges@[k] == e_before[k]);
                        if order.take(idx + 1).contains(k as usize) {
                            let i = choose|i: int| 0 <= i < idx + 1 && #[trigger] order.take(idx + 1)[i] == k as usize;
                            assert(order.take(idx as int)[i] == k as usize);
                        }
                        if order.take(idx as int).contains(k as usize) {
                            let i = choose|i: int| 0 <= i < idx && #[trigger] order.take(idx as int)[i] == k as usize;
                            assert(order.take(idx + 1)[i] == k as usize);
                        }
                    } else {
                        assert(order.take(idx + 1)[idx as int] == edge_id);
                    }
                }
            }
            let ghost prefix = processed;
            let mut j: usize = 0;
            while j < delivered.len()
                invariant
                    g == self.graph(),
                    g.wf(),
                    n == g.rows().len(),
                    m == edge_order(g.rows()).len(),
                    now == self.current_time_step,
                    now == old(self).time(),
                    self.routing_method == old(self).routing(),
                    self.random_engine.wf(),
                    self.random_engine.vertex_count() == n,
                    self.vertices@.len() == n,
                    self.edges@.len() == m,
                    self.edges@ == e_drained,
                    es0 == old(self).edges_view(),
                    es0.len() == m,
                    g == old(self).graph(),
                    forall|k: int| 0 <= k < m ==> (#[trigger] self.edges@[k])@.capacity >= 1,
                    forall|k: int, i: int| 0 <= k < m && 0 <= i < self.edges@[k]@.queue.len()
                        ==> queued_ok(g, k, #[trigger] self.edges@[k]@.queue[i], now),
                    order.to_multiset() == Seq::new(m, |i: int| i as usize).to_multiset(),
                    vs0.len() == n,
                    self.shuffled_edge_indices@ == order,
                    edge_id < m,
                    j <= delivered@.len(),
                    forall|i: int| 0 <= i < delivered@.len() ==> queued_ok(g, edge_id as int, #[trigger] delivered@[i], now)
                        && delivered@[i].time_creation() < now,
                    forall|v: int| 0 <= v < n ==> {
                        let a = vs0[v]@;
                        let b = (#[trigger] self.vertices@[v])@;
                        &&& a.arrived <= b.arrived <= a.arrived + c
                        &&& a.traveling <= b.traveling <= a.traveling + c
                        &&& a.distance <= b.distance <= a.distance + c * 0xffff
                        &&& a.traveling_time <= b.traveling_time <= a.traveling_time + ct
                        &&& b.generated == a.generated
                        &&& !ready_to_observe ==> b == a
                    },
                    ct == c * now,
                    total_queued(self.edges@) + c + (delivered@.len() - j) == q0,
                    transit_queue@.len() <= c,
                    forall|i: int| 0 <= i < transit_queue@.len() ==> {
                        let (eid, m2) = #[trigger] transit_queue@[i];
                        &&& eid < m
                        &&& queued_ok(g, eid as int, m2, now)
                        &&& m2.time_creation() < now
                    },
                    ready_to_observe ==> total_arrived(self.vertices@) + transit_queue@.len() == total_arrived(vs0) + c,
                    ready_to_observe ==> total_traveling(self.vertices@) == total_traveling(vs0) + transit_queue@.len(),
                    ready_to_observe ==> old(self).room_to_forward(),
                    q0 == total_queued(old(self).edges_view()),
                    vs0 == old(self).vertices_view(),
                    forall|i: int| 0 <= i < delivered@.len() ==> #[trigger] delivered@[i] == es0[edge_id as int]@.queue[i],
                    delivered@.len() == es0[edge_id as int].deliverable(),
                    forall|i: int| 0 <= i < transit_queue@.len()
                        ==> moved_from_delivered(g, old(self).routing(), es0, (#[trigger] transit_queue@[i]).1),
                    processed == prefix + delivered@.take(j as int),
                    c == processed.len(),
                    transit_queue@.len() == not_arrived(processed).len(),
                    forall|i: int| 0 <= i < transit_queue@.len()
                        ==> moved_from(g, old(self).routing(), not_arrived(processed)[i], (#[trigger] transit_queue@[i]).1),
                    forall|v: int| 0 <= v < n ==> (#[trigger] self.vertices@[v])@ == if ready_to_observe {
                        counters_after_deliveries(vs0[v]@, g, now, processed, v)
                    } else {
                        vs0[v]@
                    },
                    picks_added(d_sh, self.draws()),
                decreases delivered@.len() - j,
            {
                let msg = delivered[j];
                let ghost draws_before = self.draws();
                let ghost t_before = transit_queue@;
                let ghost vs_before = self.vertices@;
                proof {
                    assert(queued_ok(g, edge_id as int, delivered@[j as int], now));
                    assert(c + 1 <= q0);
                    assert((c + 1) * now <= q0 * now) by (nonlinear_arith)
                        requires c + 1 <= q0;
                    assert(ct + now == (c + 1) * now) by (nonlinear_arith)
                        requires ct == c * now;
                    if ready_to_observe {
                        assert forall|v: int| 0 <= v < self.vertices@.len() implies {
                            let cc = (#[trigger] self.vertices@[v])@;
                            &&& cc.arrived < u64::MAX
                            &&& cc.traveling < u64::MAX
                            &&& cc.distance + 0xffff <= u64::MAX
                            &&& cc.traveling_time + now <= u64::MAX
                        } by {
                            let a = vs0[v]@;
                            assert(old(self).vertices_view()[v] == vs0[v]);
                            assert(a.arrived + q0 <= u64::MAX);
                            assert(a.traveling_time + q0 * now <= u64::MAX);
                        }
                    }
                }
                match self.deliver_message(sampler, msg, ready_to_observe, &mut transit_queue) {
                    Err(e) => {
                        proof {
                            let (k, i) = (edge_id as int, j as int);
                            assert(msg == es0[k]@.queue[i]);
                            if let SimulationError::Routing(re) = e {
                                assert(delivery_refused(g, old(self).routing(), *sampler, es0[k]@.queue[i], re));
                                if delivery_assured(g, old(self).routing(), es0[k]@.queue[i]) {
                                    lemma_assured_hop_not_refused(g, old(self).routing(), *sampler,
                                        msg.current_vertex(), msg.destination(), re);
                                }
                            }
                        }
                        return Err(e);
                    },
                    Ok(()) => {},
                }
                proof {
                    lemma_picks_added_trans(d_sh, draws_before, self.draws());
                    let p0 = processed;
                    processed = processed.push(msg);
                    assert(processed.drop_last() =~= p0);
                    assert(delivered@.take(j + 1) =~= delivered@.take(j as int).push(msg));
                    assert(processed =~= prefix + delivered@.take(j + 1));
                    c = c + 1;
                    ct = ct + now;
                    assert forall|i: int| 0 <= i < transit_queue@.len() implies {
                        let (eid, m2) = #[trigger] transit_queue@[i];
                        &&& eid < m
                        &&& queued_ok(g, eid as int, m2, now)
                        &&& m2.time_creation() < now
                    } by {
                        if i < t_before.len() {
                            assert(transit_queue@.take(t_before.len() as int)[i] == transit_queue@[i]);
                        }
                    }
                    assert forall|i: int| 0 <= i < transit_queue@.len()
                        implies moved_from(g, old(self).routing(), not_arrived(processed)[i], (#[trigger] transit_queue@[i]).1) by {
                        if i < t_before.len() {
                            assert(transit_queue@.take(t_before.len() as int)[i] == transit_queue@[i]);
                        }
                    }
                    assert forall|i: int| 0 <= i < transit_queue@.len()
                        implies moved_from_delivered(g, old(self).routing(), es0, (#[trigger] transit_queue@[i]).1) by {
                        if i < t_before.len() {
                            assert(transit_queue@.take(t_before.len() as int)[i] == transit_queue@[i]);
                        } else {
                            assert(moved_from(g, old(self).routing(), es0[edge_id as int]@.queue[j as int], transit_queue@[i].1));
                        }
                    }
                }
                j = j + 1;
            }
            proof {
                assert(delivered@.take(delivered@.len() as int) =~= delivered@);
                assert(delivered@ =~= es0[edge_id as int]@.queue.take(es0[edge_id as int].deliverable() as int));
                assert(order.take(idx + 1).drop_last() =~= order.take(idx as int));
                assert(order.take(idx + 1).last() == edge_id);
            }
            idx = idx + 1;
        }
        let ghost drained = self.edges@;
        let ghost vs_mid = self.vertices@;
        assert(self.edges@.len() == m);
        let ghost q_drained = total_queued(self.edges@);
        proof {
            assert(order.take(num_edges as int) =~= order);
            assert forall|k: int| 0 <= k < m implies (#[trigger] drained[k])@.queue == es0[k]@.queue.skip(es0[k].deliverable() as int) by {
                assert(order.contains(k as usize));
            }
            assert forall|k: int| 0 <= k < m implies (#[trigger] self.edges@[k])@ == (crate::graph_dynamics::EdgeView {
                queue: drained[k]@.queue + routed_into(transit_queue@.take(0), k),
                capacity: es0[k]@.capacity,
                processed: es0[k]@.processed + if ready_to_observe { routed_into(transit_queue@.take(0), k).len() } else { 0nat },
            }) by {
                assert(drained[k]@.queue + routed_into(transit_queue@.take(0), k) =~= drained[k]@.queue);
            }
            lemma_sum_of_pointwise(drained, es0, processed_count_fn());
        }
        let mut t: usize = 0;
        while t < transit_queue.len()
            invariant
                g == self.graph(),
                g == old(self).graph(),
                g.wf(),
                n == g.rows().len(),
                m == edge_order(g.rows()).len(),
                now == self.current_time_step,
                now == old(self).time(),
                self.edges@.len() == m,
                drained.len() == m,
                es0.len() == m,
                t <= transit_queue@.len(),
                transit_queue@.len() <= c,
                q_drained + c == q0,
                q_drained == total_queued(drained),
                forall|i: int| 0 <= i < transit_queue@.len() ==> {
                    let (eid, m2) = #[trigger] transit_queue@[i];
                    &&& eid < m
                    &&& queued_ok(g, eid as int, m2, now)
                    &&& m2.time_creation() < now
                },
                forall|k: int| 0 <= k < m ==> (#[trigger] drained[k])@.queue == es0[k]@.queue.skip(es0[k].deliverable() as int),
                forall|k: int| 0 <= k < m ==> (#[trigger] es0[k])@.capacity >= 1,
                forall|k: int| 0 <= k < m ==> {
                    let a = drained[k]@;
                    let b = (#[trigger] self.edges@[k])@;
                    &&& b.capacity == es0[k]@.capacity
                    &&& a.queue.len() <= b.queue.len()
                    &&& b.queue.len() - a.queue.len() <= t
                    &&& b.queue.take(a.queue.len() as int) == a.queue
                    &&& b.processed == es0[k]@.processed + if ready_to_observe { b.queue.len() - a.queue.len() } else { 0 }
                },
                forall|k: int, i: int| 0 <= k < m && 0 <= i < self.edges@[k]@.queue.len()
                    ==> queued_ok(g, k, #[trigger] self.edges@[k]@.queue[i], now) && self.edges@[k]@.queue[i].time_creation() < now,
                forall|k: int, i: int| 0 <= k < m && 0 <= i < es0[k]@.queue.len()
                    ==> queued_ok(g, k, #[trigger] es0[k]@.queue[i], now) && es0[k]@.queue[i].time_creation() < now,
                total_queued(self.edges@) == q_drained + t,
                ready_to_observe ==> old(self).room_to_forward(),
                es0 == old(self).edges_view(),
                q0 == total_queued(es0),
                self.routing_method == old(self).routing(),
                self.random_engine.wf(),
                self.random_engine.vertex_count() == n,
                self.vertices@.len() == n,
                n == old(self).vertices_view().len(),
                self.shuffled_edge_indices@ == order,
                order.to_multiset() == Seq::new(m, |i: int| i as usize).to_multiset(),
                forall|v: int| 0 <= v < n ==> {
                    let a = vs0[v]@;
                    let b = (#[trigger] self.vertices@[v])@;
                    &&& b.generated == a.generated
                    &&& a.arrived <= b.arrived
                    &&& a.traveling <= b.traveling
                    &&& a.distance <= b.distance
                    &&& a.traveling_time <= b.traveling_time
                    &&& !ready_to_observe ==> b == a
                },
                vs0 == old(self).vertices_view(),
                ready_to_observe ==> total_arrived(self.vertices@) + transit_queue@.len() == total_arrived(vs0) + c,
                ready_to_observe ==> total_traveling(self.vertices@) == total_traveling(vs0) + transit_queue@.len(),
                total_processed(self.edges@) == total_processed(es0) + if ready_to_observe { t as int } else { 0 },
                forall|i: int| 0 <= i < transit_queue@.len()
                    ==> moved_from_delivered(g, old(self).routing(), es0, (#[trigger] transit_queue@[i]).1),
                forall|k: int, i: int| 0 <= k < m && drained[k]@.queue.len() <= i < self.edges@[k]@.queue.len()
                    ==> moved_from_delivered(g, old(self).routing(), es0, #[trigger] self.edges@[k]@.queue[i]),
                self.vertices@ == vs_mid,
                forall|k: int| 0 <= k < m ==> (#[trigger] self.edges@[k])@ == (crate::graph_dynamics::EdgeView {
                    queue: drained[k]@.queue + routed_into(transit_queue@.take(t as int), k),
                    capacity: es0[k]@.capacity,
                    processed: es0[k]@.processed + if ready_to_observe { routed_into(transit_queue@.take(t as int), k).len() } else { 0nat },
                }),
                c == processed.len(),
                processed == delivered_in_order(es0, order),
                transit_queue@.len() == not_arrived(processed).len(),
                forall|i: int| 0 <= i < transit_queue@.len()
                    ==> moved_from(g, old(self).routing(), not_arrived(processed)[i], (#[trigger] transit_queue@[i]).1),
                picks_added(d_sh, self.draws()),
            decreases transit_queue@.len() - t,
        {
            let (eid, msg) = transit_queue[t];
            let ghost e_before = self.edges@;
            proof {
                if ready_to_observe {
                    assert(old(self).room_to_forward());
                    assert((old(self).edges_view()[eid as int])@.processed + total_queued(old(self).edges_view()) <= u64::MAX);
                    let b = self.edges@[eid as int];
                }
            }
            self.edges[eid].add_message(msg, ready_to_observe);
            proof {
                assert(self.edges@ =~= e_before.update(eid as int, self.edges@[eid as int]));
                lemma_sum_of_update(e_before, queue_len_fn(), eid as int, self.edges@[eid as int]);
                lemma_sum_of_update(e_before, processed_count_fn(), eid as int, self.edges@[eid as int]);
                assert forall|k: int, i: int| 0 <= k < m && 0 <= i < self.edges@[k]@.queue.len()
                    implies queued_ok(g, k, #[trigger] self.edges@[k]@.queue[i], now) && self.edges@[k]@.queue[i].time_creation() < now by {
                    if k != eid || i < e_before[k]@.queue.len() {
                        assert(self.edges@[k]@.queue[i] == e_before[k]@.queue[i]);
                    }
                }
                assert forall|k: int| 0 <= k < m implies {
                    let a = drained[k]@;
                    let b = (#[trigger] self.edges@[k])@;
                    &&& b.capacity == es0[k]@.capacity
                    &&& a.queue.len() <= b.queue.len()
                    &&& b.queue.len() - a.queue.len() <= t + 1
                    &&& b.queue.take(a.queue.len() as int) == a.queue
                    &&& b.processed == es0[k]@.processed + if ready_to_observe { b.queue.len() - a.queue.len() } else { 0 }
                } by {
                    if k == eid {
                        let a = drained[k]@;
                        assert(self.edges@[k]@.queue.take(a.queue.len() as int) =~= e_before[k]@.queue.take(a.queue.len() as int));
                    }
                }
                assert forall|k: int, i: int| 0 <= k < m && drained[k]@.queue.len() <= i < self.edges@[k]@.queue.len()
                    implies moved_from_delivered(g, old(self).routing(), es0, #[trigger] self.edges@[k]@.queue[i]) by {
                    if k != eid || i < e_before[k]@.queue.len() {
                        assert(self.edges@[k]@.queue[i] == e_before[k]@.queue[i]);
                    } else {
                        assert(self.edges@[k]@.queue[i] == transit_queue@[t as int].1);
                    }
                }
                let tk = transit_queue@.take(t as int);
                assert(transit_queue@.take(t + 1) =~= tk.push((eid, msg)));
                assert forall|k: int| 0 <= k < m implies (#[trigger] self.edges@[k])@ == (crate::graph_dynamics::EdgeView {
                    queue: drained[k]@.queue + routed_into(transit_queue@.take(t + 1), k),
                    capacity: es0[k]@.capacity,
                    processed: es0[k]@.processed + if ready_to_observe { routed_into(transit_queue@.take(t + 1), k).len() } else { 0nat },
                }) by {
                    lemma_routed_into_push(tk, (eid, msg), k);
                    assert(e_before[k]@.queue == drained[k]@.queue + routed_into(tk, k));
                    if k == eid {
                        assert(drained[k]@.queue + routed_into(transit_queue@.take(t + 1), k)
                            =~= (drained[k]@.queue + routed_into(tk, k)).push(msg));
                    } else {
                        assert(self.edges@[k] == e_before[k]);
                    }
                }
            }
            t = t + 1;
        }
        proof {
            assert forall|k: int, i: int| 0 <= k < m && 0 <= i < self.edges@[k]@.queue.len()
                implies queued_ok(g, k, #[trigger] self.edges@[k]@.queue[i], self.current_time_step) by {}
            let transit = transit_queue@;
            assert(transit.take(t as int) =~= transit);
            assert(self.edge_service_order() == order);
            assert(self.forwarded_exactly(*old(self), ready_to_observe, transit));
            assert(picks_added(old(self).draws().push(Draw::Shuffle(sh_order)), self.draws()));
            lemma_sum_of_pointwise(self.vertices_view(), old(self).vertices_view(), generated_count_fn());
        }
        proof {
            let p = |msg: Message| msg.source() != msg.destination() && msg.source() < n && msg.destination() < n;
            assert forall|k: int, j: int| 0 <= k < es0.len() && 0 <= j < es0[k]@.queue.len() implies p(#[trigger] es0[k]@.queue[j]) by {
                assert(queued_ok(g, k, es0[k]@.queue[j], now));
            }
            lemma_delivered_from_queues(es0, order, p);
            let d = delivered_in_order(es0, order);
            assert(old(self).distances_cover_arrivals() ==> self.distances_cover_arrivals()) by {
                if old(self).distances_cover_arrivals() && ready_to_observe {
                    assert forall|v: int| 0 <= v < self.vertices_view().len() implies
                        (#[trigger] self.vertices_view()[v])@.arrived <= self.vertices_view()[v]@.distance by {
                        assert(vs0[v]@.arrived <= vs0[v]@.distance);
                        assert forall|i: int| 0 <= i < d.len() implies {
                            &&& (#[trigger] d[i]).source() != d[i].destination()
                            &&& d[i].source() < g.rows().len()
                            &&& d[i].destination() < g.rows().len()
                        } by {
                            assert(p(d[i]));
                        }
                        lemma_deliveries_keep_distance_cover(vs0[v]@, g, now, d, v);
                    }
                }
            }
        }
        proof {
            lemma_index_permutation(order, m);
            if symmetric(g.rows()) && old(self).ages_cover_hops(now as int) {
                lemma_forwarding_keeps_ages(*old(self), *self, ready_to_observe, transit_queue@);
                let p2 = |msg: Message| hop_age_ok(g, msg, now as int) && msg.source() < n && msg.destination() < n;
                assert forall|k: int, j: int| 0 <= k < es0.len() && 0 <= j < es0[k]@.queue.len()
                    implies p2(#[trigger] es0[k]@.queue[j]) by {
                    assert(queued_ok(g, k, es0[k]@.queue[j], now));
                    assert(hop_age_ok(g, es0[k]@.queue[j], now as int));
                }
                lemma_delivered_from_queues(es0, order, p2);
                let d = delivered_in_order(es0, order);
                if old(self).travel_covers_distance() && ready_to_observe {
                    assert forall|v: int| 0 <= v < self.vertices_view().len() implies
                        (#[trigger] self.vertices_view()[v])@.distance <= self.vertices_view()[v]@.traveling_time by {
                        assert(vs0[v]@.distance <= vs0[v]@.traveling_time);
                        assert forall|i: int| 0 <= i < d.len() implies {
                            &&& hop_age_ok(g, #[trigger] d[i], now as int)
                            &&& d[i].source() < g.rows().len()
                            &&& d[i].destination() < g.rows().len()
                        } by {
                            assert(p2(d[i]));
                        }
                        lemma_deliveries_keep_travel_cover(vs0[v]@, g, now, d, v);
                    }
                }
            }
        }
        Ok(())
    }

    /// The first half of a round of a run: the round is observed once the
    /// clock has reached `warm_up`; messages are created (see
    /// `message_generate`) and the clock moves on. Returns whether the round
    /// is observed. The round goes on with the observers and modifiers, then
    /// with `forward_messages_on_edges`.
    #[verifier::spinoff_prover]
    pub fn begin_round<S: CloserNeighborSampler>(&mut self, sampler: &S, warm_up: u64) -> (r: Result<bool, SimulationError>)
        requires
            old(self).wf(),
        ensures
            final(self).wf(),
            r is Ok ==> final(self).all_created_before_now(),
            r matches Ok(ready) ==> {
                &&& ready == (old(self).time() >= warm_up)
                &&& final(self).time() == old(self).time() + 1
                &&& final(self).created_messages_from(*old(self), ready)
                &&& exists|sent: Seq<(usize, Message)>| #[trigger] final(self).created_exactly(*old(self), ready, sent)
                &&& final(self).created_with_draws(*old(self), ready)
                &&& ready ==> total_generated(final(self).vertices_view()) + total_queued(old(self).edges_view())
                    == total_generated(old(self).vertices_view()) + total_queued(final(self).edges_view())
            },
            r == Ok::<bool, SimulationError>(true) && old(self).messages_accounted() ==> final(self).messages_accounted(),
            r == Ok::<bool, SimulationError>(true) && old(self).hops_accounted() ==> final(self).hops_accounted(),
            r is Ok && old(self).distances_cover_arrivals() ==> final(self).distances_cover_arrivals(),
            r is Ok && old(self).travel_covers_distance() ==> final(self).travel_covers_distance(),
            r is Ok && symmetric(old(self).graph().rows()) && old(self).ages_cover_hops(old(self).time() + 1)
                ==> final(self).ages_cover_hops(final(self).time() as int),
            r == Err::<bool, SimulationError>(SimulationError::CounterOverflow) <==> old(self).time() == u64::MAX
                || (old(self).time() >= warm_up && !old(self).room_to_generate()),
            r == Err::<bool, SimulationError>(SimulationError::CounterOverflow) ==> final(self).vertices_view() == old(self).vertices_view()
                && final(self).edges_view() == old(self).edges_view()
                && final(self).time() == old(self).time(),
            r matches Err(SimulationError::Routing(e)) ==> exists|v: usize, d: usize|
                v < old(self).vertices_view().len() && d < old(self).vertices_view().len() && v != d
                && #[trigger] Message::hop_refused(old(self).graph(), old(self).routing(), *sampler, v, d, e),
            (forall|v: usize, d: usize| v < old(self).vertices_view().len() && d < old(self).vertices_view().len() && v != d
                ==> #[trigger] hop_assured(old(self).graph(), old(self).routing(), v, d))
                ==> !(r matches Err(SimulationError::Routing(_))),
            old(self).routing() is RandomWalk && old(self).graph().every_vertex_has_other_neighbours()
                ==> !(r matches Err(SimulationError::Routing(_))),
    {
        if self.current_time_step == u64::MAX {
            return Err(SimulationError::CounterOverflow);
        }
        let ready_to_observe = self.current_time_step >= warm_up;
        match self.message_generate(sampler, ready_to_observe) {
            Err(e) => {
                return Err(e);
            },
            Ok(()) => {},
        }
        let ghost mid = *self;
        let ghost sent = choose|sent: Seq<(usize, Message)>| #[trigger] mid.created_exactly(*old(self), ready_to_observe, sent);
        let ghost (sent2, per_vertex) = choose|sent: Seq<(usize, Message)>, per_vertex: Seq<Seq<Draw>>|
            #![trigger mid.created_exactly(*old(self), ready_to_observe, sent), flatten_draws(per_vertex)] {
            &&& mid.created_exactly(*old(self), ready_to_observe, sent)
            &&& per_vertex.len() == old(self).vertices_view().len()
            &&& mid.draws() == old(self).draws() + flatten_draws(per_vertex)
            &&& forall|v: int| 0 <= v < per_vertex.len()
                ==> creation_draws(old(self).graph(), old(self).routing(), v as usize, #[trigger] per_vertex[v], sent)
        };
        assert(mid.created_with_draws(*old(self), ready_to_observe));
        proof {
            if symmetric(old(self).graph().rows()) && old(self).ages_cover_hops(old(self).time() + 1) {
                lemma_creation_keeps_ages(*old(self), mid, ready_to_observe, sent);
            }
        }
        self.advance_time();
        proof {
            assert(self.created_exactly(*old(self), ready_to_observe, sent));
            assert(self.created_messages_from(*old(self), ready_to_observe));
        }
        proof {
            assert(ready_to_observe && old(self).messages_accounted() ==> self.messages_accounted()) by {
                lemma_sum_of_pointwise(self.vertices_view(), old(self).vertices_view(), arrived_count_fn());
            }
            assert(exists|sent2: Seq<(usize, Message)>| #[trigger] self.created_exactly(*old(self), ready_to_observe, sent2));
            assert(self.created_with_draws(*old(self), ready_to_observe)) by {
                assert(self.created_exactly(*old(self), ready_to_observe, sent2));
                assert(flatten_draws(per_vertex) == flatten_draws(per_vertex));
            }
        }
        Ok(ready_to_observe)
    }

    /// Whether `room_to_generate` holds.
    pub fn has_room_to_generate(&self) -> (r: bool)
        requires
            self.wf(),
        ensures
            r == self.room_to_generate(),
    {
        let n = self.vertices.len();
        let mut v: usize = 0;
        while v < n
            invariant
                v <= n,
                n == self.vertices@.len(),
                forall|j: int| 0 <= j < v ==> (#[trigger] self.vertices@[j])@.generated < u64::MAX,
            decreases n - v,
        {
            if self.vertices[v].num_messages_generated() == u64::MAX {
                assert(self.vertices_view()[v as int]@.generated == u64::MAX);
                return false;
            }
            v = v + 1;
        }
        let mut k: usize = 0;
        while k < self.edges.len()
            invariant
                k <= self.edges@.len(),
                n == self.vertices@.len(),
                forall|j: int| 0 <= j < n ==> (#[trigger] self.vertices@[j])@.generated < u64::MAX,
                forall|j: int| 0 <= j < k ==> (#[trigger] self.edges@[j])@.processed + n <= u64::MAX,
            decreases self.edges@.len() - k,
        {
            if (self.edges[k].total_num_messages_processed() as u128) + (n as u128) > (u64::MAX as u128) {
                assert(self.edges_view()[k as int]@.processed + self.vertices_view().len() > u64::MAX);
                return false;
            }
            k = k + 1;
        }
        true
    }

    /// The number of messages waiting in all the queues, if it fits in a `u64`.
    pub fn total_queued_messages(&self) -> (r: Option<u64>)
        ensures
            r is Some <==> total_queued(self.edges_view()) <= u64::MAX,
            r matches Some(q) ==> q == total_queued(self.edges_view()),
    {
        let mut q: u64 = 0;
        let mut k: usize = 0;
        while k < self.edges.len()
            invariant
                k <= self.edges@.len(),
                q == total_queued(self.edges@.take(k as int)),
            decreases self.edges@.len() - k,
        {
            proof {
                assert(self.edges@.take(k + 1).drop_last() =~= self.edges@.take(k as int));
                lemma_total_queued_prefix(self.edges@, k + 1);
            }
            let size = self.edges[k].queue_size();
            if (q as u128) + (size as u128) > (u64::MAX as u128) {
                return None;
            }
            q = q + size as u64;
            k = k + 1;
        }
        assert(self.edges@.take(self.edges@.len() as int) =~= self.edges@);
        Some(q)
    }

    /// Whether `room_to_forward` holds.
    pub fn has_room_to_forward(&self) -> (r: bool)
        requires
            self.wf(),
        ensures
            r == self.room_to_forward(),
    {
        let q = match self.total_queued_messages() {
            Some(q) => q,
            None => {
                proof {
                    self.random_engine.lemma_wf();
                    assert(self.vertices@.len() >= 2);
                    let c = self.vertices_view()[0]@;
                }
                return false;
            },
        };
        let t = self.current_time_step;
        assert((q as int) * (t as int) <= u128::MAX) by (nonlinear_arith)
            requires q <= u64::MAX, t <= u64::MAX;
        assert((q as int) * 0xffff <= u128::MAX) by (nonlinear_arith)
            requires q <= u64::MAX;
        let qt: u128 = (q as u128) * (t as u128);
        let qd: u128 = (q as u128) * 0xffff;
        let max: u128 = u64::MAX as u128;
        let n = self.vertices.len();
        let mut v: usize = 0;
        while v < n
            invariant
                v <= n,
                n == self.vertices@.len(),
                q == total_queued(self.edges_view()),
                t == self.time(),
                qt == q * t,
                qd == q * 0xffff,
                max == u64::MAX,
                forall|j: int| 0 <= j < v ==> {
                    let c = (#[trigger] self.vertices_view()[j])@;
                    &&& c.arrived + q <= u64::MAX
                    &&& c.traveling + q <= u64::MAX
                    &&& c.distance + q * 0xffff <= u64::MAX
                    &&& c.traveling_time + q * t <= u64::MAX
                },
            decreases n - v,
        {
            let vertex = &self.vertices[v];
            assert(self.vertices_view()[v as int] == *vertex);
            if (vertex.num_arrived_msgs() as u128) + (q as u128) > max
                || (vertex.num_traveling_msgs() as u128) + (q as u128) > max
                || qd > max - (vertex.total_distance() as u128)
                || qt > max - (vertex.total_traveling_time() as u128) {
                return false;
            }
            v = v + 1;
        }
        let mut k: usize = 0;
        while k < self.edges.len()
            invariant
                k <= self.edges@.len(),
                q == total_queued(self.edges_view()),
                t == self.time(),
                forall|j: int| 0 <= j < self.vertices_view().len() ==> {
                    let c = (#[trigger] self.vertices_view()[j])@;
                    &&& c.arrived + q <= u64::MAX
                    &&& c.traveling + q <= u64::MAX
                    &&& c.distance + q * 0xffff <= u64::MAX
                    &&& c.traveling_time + q * t <= u64::MAX
                },
                forall|j: int| 0 <= j < k ==> (#[trigger] self.edges_view()[j])@.processed + q <= u64::MAX,
            decreases self.edges@.len() - k,
        {
            if (self.edges[k].total_num_messages_processed() as u128) + (q as u128) > (u64::MAX as u128) {
                assert(self.edges_view()[k as int]@.processed + q > u64::MAX);
                return false;
            }
            k = k + 1;
        }
        true
    }

    /// Every message counted as created is counted as arrived or waits in a
    /// queue: no counted message was lost or made twice.
    pub open spec fn messages_accounted(&self) -> bool {
        total_generated(self.vertices_view()) == total_arrived(self.vertices_view()) + total_queued(self.edges_view())
    }

    /// Every message an edge counted as processed entered it either when it
    /// was created or when it left a vertex on its way.
    pub open spec fn hops_accounted(&self) -> bool {
        total_processed(self.edges_view()) == total_generated(self.vertices_view()) + total_traveling(self.vertices_view())
    }

    /// At every vertex the ideal distances recorded add up to at least the
    /// number of arrivals: every message goes to a vertex other than its
    /// source, so each arrival adds a distance of at least one.
    pub open spec fn distances_cover_arrivals(&self) -> bool {
        forall|v: int| 0 <= v < self.vertices_view().len()
            ==> (#[trigger] self.vertices_view()[v])@.arrived <= self.vertices_view()[v]@.distance
    }

    /// The counts of a run that observes every round agree: see
    /// `messages_accounted`, `hops_accounted` and `distances_cover_arrivals`.
    pub open spec fn counts_consistent(&self) -> bool {
        &&& self.messages_accounted()
        &&& self.hops_accounted()
        &&& self.distances_cover_arrivals()
    }

    /// Every waiting message has been on its way at least as many steps
    /// before `t` as separate it from its source (see `hop_age_ok`).
    pub open spec fn ages_cover_hops(&self, t: int) -> bool {
        forall|k: int, i: int| 0 <= k < self.edges_view().len() && 0 <= i < self.edges_view()[k]@.queue.len()
            ==> #[trigger] hop_age_ok(self.graph(), self.edges_view()[k]@.queue[i], t)
    }

    /// At every vertex the travelling time recorded is at least the ideal
    /// distance recorded.
    pub open spec fn travel_covers_distance(&self) -> bool {
        forall|v: int| 0 <= v < self.vertices_view().len()
            ==> (#[trigger] self.vertices_view()[v])@.distance <= self.vertices_view()[v]@.traveling_time
    }

    /// Every waiting message was created before the current time.
    pub closed spec fn all_created_before_now(&self) -> bool {
        forall|k: int, i: int| 0 <= k < self.edges@.len() && 0 <= i < self.edges@[k]@.queue.len()
            ==> (#[trigger] self.edges@[k]@.queue[i]).time_creation() < self.current_time_step
    }

    /// Sets the capacity of edge `edge_id` (a capacity below one becomes one).
    pub fn set_edge_capacity(&mut self, edge_id: usize, capacity: usize)
        requires
            old(self).wf(),
            edge_id < old(self).edges_view().len(),
        ensures
            final(self).wf(),
            final(self).edges_view() == old(self).edges_view().update(edge_id as int, final(self).edges_view()[edge_id as int]),
            final(self).edges_view()[edge_id as int]@ == (crate::graph_dynamics::EdgeView {
                capacity: if capacity == 0 { 1 } else { capacity as nat },
                ..old(self).edges_view()[edge_id as int]@
            }),
            final(self).vertices_view() == old(self).vertices_view(),
            final(self).time() == old(self).time(),
            final(self).graph() == old(self).graph(),
            final(self).routing() == old(self).routing(),
            final(self).edge_service_order() == old(self).edge_service_order(),
            old(self).all_created_before_now() ==> final(self).all_created_before_now(),
            old(self).messages_accounted() ==> final(self).messages_accounted(),
            old(self).hops_accounted() ==> final(self).hops_accounted(),
            old(self).distances_cover_arrivals() ==> final(self).distances_cover_arrivals(),
            old(self).travel_covers_distance() ==> final(self).travel_covers_distance(),
            forall|t: int| old(self).ages_cover_hops(t) ==> #[trigger] final(self).ages_cover_hops(t),
    {
        self.edges[edge_id].set_capacity(capacity);
        proof {
            let g = *self.graph_with_cache;
            let m = edge_order(g.rows()).len();
            assert(self.edges@ =~= old(self).edges@.update(edge_id as int, self.edges@[edge_id as int]));
            assert forall|k: int, i: int| 0 <= k < m && 0 <= i < self.edges@[k]@.queue.len()
                implies queued_ok(g, k, #[trigger] self.edges@[k]@.queue[i], self.current_time_step) by {
                assert(queued_ok(g, k, old(self).edges@[k]@.queue[i], self.current_time_step));
            }
            lemma_sum_of_update(old(self).edges@, queue_len_fn(), edge_id as int, self.edges@[edge_id as int]);
            lemma_sum_of_update(old(self).edges@, processed_count_fn(), edge_id as int, self.edges@[edge_id as int]);
            assert(old(self).all_created_before_now() ==> self.all_created_before_now()) by {
                if old(self).all_created_before_now() {
                    assert forall|k: int, i: int| 0 <= k < self.edges@.len() && 0 <= i < self.edges@[k]@.queue.len()
                        implies (#[trigger] self.edges@[k]@.queue[i]).time_creation() < self.current_time_step by {
                        assert(self.edges@[k]@.queue[i] == old(self).edges@[k]@.queue[i]);
                    }
                }
            }
            assert(self.vertices_view() == old(self).vertices_view());
            assert forall|t: int| old(self).ages_cover_hops(t) implies #[trigger] self.ages_cover_hops(t) by {
                assert forall|k: int, i: int| 0 <= k < self.edges_view().len() && 0 <= i < self.edges_view()[k]@.queue.len()
                    implies #[trigger] hop_age_ok(self.graph(), self.edges_view()[k]@.queue[i], t) by {
                    assert(old(self).edges_view()[k]@.queue.len() == self.edges_view()[k]@.queue.len());
                    assert(self.edges_view()[k]@.queue[i] == old(self).edges_view()[k]@.queue[i]);
                    assert(hop_age_ok(old(self).graph(), old(self).edges_view()[k]@.queue[i], t));
                }
            }
        }
    }
}

} // verus!
