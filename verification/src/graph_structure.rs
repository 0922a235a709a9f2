//! The static side of a simulation: the undirected graph, the identifiers of
//! its edges and the shortest-path distances between its vertices.
use num_bigint::BigUint;
use petgraph::csr::{Csr, EdgesNotSorted};
use petgraph::Undirected;
use rand_pcg::Pcg64;
use std::collections::{HashMap, VecDeque};
use vstd::prelude::*;
use crate::edge_list::{
    pair_lt,
    edge_list_error, file_edges, in_both_directions, lemma_accepted_file_has_no_loops, max_vertex_id, read_sorted_edges,
    strictly_sorted, EdgeListError,
};

verus! {

#[verifier::external_type_specification]
#[verifier::external_body]
#[verifier::reject_recursive_types(N)]
#[verifier::reject_recursive_types(E)]
#[verifier::reject_recursive_types(Ty)]
#[verifier::reject_recursive_types(Ix)]
pub struct ExCsr<N, E, Ty, Ix>(Csr<N, E, Ty, Ix>);

#[verifier::external_type_specification]
#[verifier::external_body]
pub struct ExUndirected(Undirected);

#[verifier::external_type_specification]
#[verifier::external_body]
pub struct ExEdgesNotSorted(EdgesNotSorted);

#[verifier::external_type_specification]
#[verifier::external_body]
pub struct ExBigUint(BigUint);

/// An undirected graph in compressed sparse row form.
pub type AdjacencyList = Csr<(), (), Undirected, usize>;

/// The rows of an adjacency list: `rows[u]` holds the neighbours of `u`, in
/// the order in which the graph stores them.
pub uninterp spec fn adjacency_rows(g: Csr<(), (), Undirected, usize>) -> Seq<Seq<usize>>;

/// The number that a big unsigned integer stands for.
pub uninterp spec fn biguint_value(x: BigUint) -> nat;

/// The largest endpoint among `edges`.
pub open spec fn max_endpoint(edges: Seq<(usize, usize)>) -> int
    decreases edges.len(),
{
    if edges.len() == 0 {
        -1
    } else {
        let last = edges.last();
        let m = if last.0 < last.1 { last.1 as int } else { last.0 as int };
        let rest = max_endpoint(edges.drop_last());
        if rest < m { m } else { rest }
    }
}

/// The rows of the graph built from a sorted list of directed edges: one row
/// per vertex up to the largest endpoint, each holding the targets of the
/// edges that leave that vertex, in list order.
pub open spec fn rows_of_edges(edges: Seq<(usize, usize)>) -> Seq<Seq<usize>> {
    Seq::new(
        (max_endpoint(edges) + 1) as nat,
        |u: int| edges.filter(|e: (usize, usize)| e.0 == u).map_values(|e: (usize, usize)| e.1),
    )
}

/// No row holds a vertex twice: the graph has no parallel edges.
pub open spec fn rows_distinct(rows: Seq<Seq<usize>>) -> bool {
    forall|u: int| 0 <= u < rows.len() ==> (#[trigger] rows[u]).no_duplicates()
}

/// Every entry of every row names a vertex of the graph.
pub open spec fn rows_wf(rows: Seq<Seq<usize>>) -> bool {
    forall|u: int, i: int|
        0 <= u < rows.len() && 0 <= i < rows[u].len() ==> #[trigger] rows[u][i] < rows.len()
}

/// `Csr::from_sorted_edges`: builds the adjacency list of a list of directed
/// edges; it succeeds exactly when the list is strictly sorted, and then row
/// `u` holds the targets of the edges leaving `u`, in list order. It sizes
/// its row table after the largest endpoint, which must therefore stay
/// within `max_vertex_id`: beyond, the size overflows and it panics.
#[verifier::external_body]
fn csr_from_sorted_edges(edges: &[(usize, usize)]) -> (r: Result<AdjacencyList, EdgesNotSorted>)
    requires
        forall|i: int| 0 <= i < edges@.len() ==> (#[trigger] edges@[i]).0 <= max_vertex_id() && edges@[i].1 <= max_vertex_id(),
    ensures
        r is Ok <==> strictly_sorted(edges@),
        r matches Ok(g) ==> adjacency_rows(g) == rows_of_edges(edges@),
{
    Csr::from_sorted_edges(edges)
}

/// `Csr::node_count`: the number of rows.
#[verifier::external_body]
fn csr_node_count(g: &AdjacencyList) -> (r: usize)
    ensures
        r == adjacency_rows(*g).len(),
{
    g.node_count()
}

/// `Csr::neighbors_slice`: the row of `a`.
#[verifier::external_body]
fn csr_neighbors_slice(g: &AdjacencyList, a: usize) -> (r: &[usize])
    requires
        a < adjacency_rows(*g).len(),
    ensures
        r@ == adjacency_rows(*g)[a as int],
{
    g.neighbors_slice(a)
}

/// `BigUint::zero`.
#[verifier::external_body]
fn big_zero() -> (r: BigUint)
    ensures
        biguint_value(r) == 0,
{
    <BigUint as num_traits::Zero>::zero()
}

/// `BigUint::one`.
#[verifier::external_body]
fn big_one() -> (r: BigUint)
    ensures
        biguint_value(r) == 1,
{
    <BigUint as num_traits::One>::one()
}

/// `BigUint::clone`: a copy holding the same number.
#[verifier::external_body]
fn big_clone(x: &BigUint) -> (r: BigUint)
    ensures
        biguint_value(r) == biguint_value(*x),
{
    x.clone()
}

/// `BigUint += &BigUint`: the sum of the two numbers.
#[verifier::external_body]
fn big_add_assign(a: &mut BigUint, b: &BigUint)
    ensures
        biguint_value(*final(a)) == biguint_value(*old(a)) + biguint_value(*b),
{
    *a += b;
}

/// `p` is a walk: each vertex of it names a row that holds the next one.
pub open spec fn is_walk(rows: Seq<Seq<usize>>, p: Seq<usize>) -> bool {
    forall|i: int| 0 <= i < p.len() - 1 ==> #[trigger] p[i] < rows.len() && rows[p[i] as int].contains(p[i + 1])
}

/// `v` is the end of a walk of exactly `k` edges that starts at `s`.
pub open spec fn walk(rows: Seq<Seq<usize>>, s: usize, v: usize, k: nat) -> bool {
    exists|p: Seq<usize>|
        #[trigger] is_walk(rows, p) && p.len() == k + 1 && p[0] == s && p[p.len() - 1] == v
}

proof fn lemma_walk_unfold(rows: Seq<Seq<usize>>, s: usize, v: usize, k: nat)
    requires
        k > 0,
        walk(rows, s, v, k),
    ensures
        exists|u: usize| u < rows.len() && #[trigger] walk(rows, s, u, (k - 1) as nat) && rows[u as int].contains(v),
{
    let p = choose|p: Seq<usize>| #[trigger] is_walk(rows, p) && p.len() == k + 1 && p[0] == s && p[p.len() - 1] == v;
    let q = p.drop_last();
    assert(is_walk(rows, q)) by {
        assert forall|i: int| 0 <= i < q.len() - 1 implies #[trigger] q[i] < rows.len() && rows[q[i] as int].contains(q[i + 1]) by {
            assert(p[i] < rows.len() && rows[p[i] as int].contains(p[i + 1]));
        }
    }
    let u = q[q.len() - 1];
    assert(p[k - 1] < rows.len() && rows[p[k - 1] as int].contains(p[k as int]));
    assert(walk(rows, s, u, (k - 1) as nat));
}

proof fn lemma_walk_step(rows: Seq<Seq<usize>>, s: usize, u: usize, v: usize, k: nat)
    requires
        u < rows.len(),
        walk(rows, s, u, k),
        rows[u as int].contains(v),
    ensures
        walk(rows, s, v, k + 1),
{
    let p = choose|p: Seq<usize>| #[trigger] is_walk(rows, p) && p.len() == k + 1 && p[0] == s && p[p.len() - 1] == u;
    let q = p.push(v);
    assert(is_walk(rows, q)) by {
        assert forall|i: int| 0 <= i < q.len() - 1 implies #[trigger] q[i] < rows.len() && rows[q[i] as int].contains(q[i + 1]) by {
            if i < p.len() - 1 {
                assert(p[i] < rows.len() && rows[p[i] as int].contains(p[i + 1]));
            }
        }
    }
}

proof fn lemma_walk_start(rows: Seq<Seq<usize>>, s: usize)
    ensures
        walk(rows, s, s, 0),
{
    let p = seq![s];
    assert(is_walk(rows, p));
}


/// Every entry of a row is matched by an entry in the row of the other end:
/// the rows describe an undirected graph.
pub open spec fn symmetric(rows: Seq<Seq<usize>>) -> bool {
    forall|u: int, i: int|
        0 <= u < rows.len() && 0 <= i < rows[u].len() ==> rows[#[trigger] rows[u][i] as int].contains(u as usize)
}

/// No row holds its own vertex.
pub open spec fn loop_free(rows: Seq<Seq<usize>>) -> bool {
    forall|u: int| 0 <= u < rows.len() ==> !(#[trigger] rows[u]).contains(u as usize)
}

proof fn lemma_walk_concat(rows: Seq<Seq<usize>>, a: usize, b: usize, c: usize, k1: nat, k2: nat)
    requires
        walk(rows, a, b, k1),
        walk(rows, b, c, k2),
    ensures
        walk(rows, a, c, k1 + k2),
{
    let p1 = choose|p: Seq<usize>| #[trigger] is_walk(rows, p) && p.len() == k1 + 1 && p[0] == a && p[p.len() - 1] == b;
    let p2 = choose|p: Seq<usize>| #[trigger] is_walk(rows, p) && p.len() == k2 + 1 && p[0] == b && p[p.len() - 1] == c;
    let q = p1 + p2.skip(1);
    assert(is_walk(rows, q)) by {
        assert forall|i: int| 0 <= i < q.len() - 1 implies #[trigger] q[i] < rows.len() && rows[q[i] as int].contains(q[i + 1]) by {
            if i < k1 {
                assert(q[i] == p1[i] && q[i + 1] == p1[i + 1]);
                assert(p1[i] < rows.len() && rows[p1[i] as int].contains(p1[i + 1]));
            } else {
                let j = i - k1;
                assert(q[i] == p2[j] && q[i + 1] == p2[j + 1]);
                assert(p2[j] < rows.len() && rows[p2[j] as int].contains(p2[j + 1]));
            }
        }
    }
    assert(q[0] == a);
    assert(q[q.len() - 1] == c) by {
        if k2 > 0 {
            assert(q[q.len() - 1] == p2[k2 as int]);
        }
    }
}

proof fn lemma_walk_reverse(rows: Seq<Seq<usize>>, a: usize, b: usize, k: nat)
    requires
        rows_wf(rows),
        symmetric(rows),
        walk(rows, a, b, k),
    ensures
        walk(rows, b, a, k),
{
    let p = choose|p: Seq<usize>| #[trigger] is_walk(rows, p) && p.len() == k + 1 && p[0] == a && p[p.len() - 1] == b;
    let q = Seq::new(p.len(), |i: int| p[p.len() - 1 - i]);
    assert(is_walk(rows, q)) by {
        assert forall|i: int| 0 <= i < q.len() - 1 implies #[trigger] q[i] < rows.len() && rows[q[i] as int].contains(q[i + 1]) by {
            let j = p.len() - 2 - i;
            assert(q[i] == p[j + 1] && q[i + 1] == p[j]);
            assert(p[j] < rows.len() && rows[p[j] as int].contains(p[j + 1]));
            let m = choose|m: int| 0 <= m < rows[p[j] as int].len() && rows[p[j] as int][m] == p[j + 1];
            assert(rows[rows[p[j] as int][m] as int].contains(p[j]));
        }
    }
    assert(q[0] == b && q[q.len() - 1] == a);
}
/// `v` can be reached from `s`.
pub open spec fn reachable(rows: Seq<Seq<usize>>, s: usize, v: usize) -> bool {
    exists|k: nat| #[trigger] walk(rows, s, v, k)
}

/// The shortest walk from `s` to `v` has `d` edges.
pub open spec fn is_distance(rows: Seq<Seq<usize>>, s: usize, v: usize, d: nat) -> bool {
    &&& walk(rows, s, v, d)
    &&& forall|k: nat| k < d ==> !#[trigger] walk(rows, s, v, k)
}

/// Every vertex reachable from `s` is at distance below `u16::MAX`, so that
/// distances fit in a `u16` beside the marker of unreached vertices.
pub open spec fn distances_fit(rows: Seq<Seq<usize>>, s: usize) -> bool {
    forall|v: usize, k: nat|
        #[trigger] walk(rows, s, v, k) ==> exists|j: nat| j < u16::MAX && #[trigger] walk(rows, s, v, j)
}

/// The number of unreached vertices, written as `u16::MAX` in a distance array.
pub open spec fn count_unreached(d: Seq<u16>) -> nat
    decreases d.len(),
{
    if d.len() == 0 {
        0
    } else {
        count_unreached(d.drop_last()) + if d.last() == u16::MAX { 1nat } else { 0nat }
    }
}

proof fn lemma_count_unreached_update(d: Seq<u16>, i: int, x: u16)
    requires
        0 <= i < d.len(),
        d[i] == u16::MAX,
        x != u16::MAX,
    ensures
        count_unreached(d.update(i, x)) + 1 == count_unreached(d),
    decreases d.len(),
{
    if i == d.len() - 1 {
        assert(d.update(i, x).drop_last() =~= d.drop_last());
    } else {
        assert(d.update(i, x).drop_last() =~= d.drop_last().update(i, x));
        lemma_count_unreached_update(d.drop_last(), i, x);
    }
}

/// The state of a breadth-first search from `s`: `d` the distances found so
/// far, `q` the queue, `p` the vertices already expanded.
pub open spec fn bfs_inv(rows: Seq<Seq<usize>>, s: usize, d: Seq<u16>, q: Seq<usize>, p: Set<usize>) -> bool {
    let n = rows.len();
    &&& d.len() == n
    &&& s < n
    &&& d[s as int] == 0
    &&& forall|i: int| 0 <= i < q.len() ==> #[trigger] q[i] < n
    &&& q.no_duplicates()
    &&& forall|i: int| 0 <= i < q.len() ==> !p.contains(#[trigger] q[i])
    &&& forall|w: usize| #[trigger] p.contains(w) ==> w < n
    &&& forall|w: usize| w < n ==> (d[w as int] != u16::MAX <==> (#[trigger] p.contains(w) || q.contains(w)))
    &&& forall|w: usize| w < n && d[w as int] != u16::MAX ==> walk(rows, s, w, #[trigger] d[w as int] as nat)
    &&& forall|i: int, j: int| 0 <= i <= j < q.len() ==> d[#[trigger] q[i] as int] <= d[#[trigger] q[j] as int]
    &&& q.len() > 0 ==> d[q.last() as int] <= d[q[0] as int] + 1
    &&& q.len() > 0 ==> forall|u: usize| #[trigger] p.contains(u) ==> d[u as int] <= d[q[0] as int]
    &&& forall|u: usize, i: int| #![trigger p.contains(u), rows[u as int][i]] p.contains(u) && 0 <= i < rows[u as int].len() ==> {
        let w = rows[u as int][i];
        d[w as int] != u16::MAX && d[w as int] <= d[u as int] + 1
    }
}

/// In a breadth-first search state, a vertex at the end of a walk of `k`
/// edges already has a distance of at most `k`, or the queue still holds a
/// vertex closer than `k`.
proof fn lemma_bfs_bound(rows: Seq<Seq<usize>>, s: usize, d: Seq<u16>, q: Seq<usize>, p: Set<usize>, w: usize, k: nat)
    requires
        rows_wf(rows),
        bfs_inv(rows, s, d, q, p),
        w < rows.len(),
        walk(rows, s, w, k),
    ensures
        d[w as int] != u16::MAX ==> d[w as int] <= k,
        d[w as int] == u16::MAX ==> q.len() > 0 && d[q[0] as int] < k,
    decreases k,
{
    if k == 0 {
        let p = choose|p: Seq<usize>| #[trigger] is_walk(rows, p) && p.len() == k + 1 && p[0] == s && p[p.len() - 1] == w;
        assert(w == s);
    } else {
        lemma_walk_unfold(rows, s, w, k);
        let u = choose|u: usize| u < rows.len() && #[trigger] walk(rows, s, u, (k - 1) as nat) && rows[u as int].contains(w);
        lemma_bfs_bound(rows, s, d, q, p, u, (k - 1) as nat);
        let i = choose|i: int| 0 <= i < rows[u as int].len() && rows[u as int][i] == w;
        if d[u as int] != u16::MAX {
            if p.contains(u) {
                assert(rows[u as int][i] == w);
            } else {
                assert(q.contains(u));
                let iu = choose|iu: int| 0 <= iu < q.len() && q[iu] == u;
                assert(d[q[0] as int] <= d[q[iu] as int]);
                if d[w as int] != u16::MAX {
                    if !p.contains(w) {
                        let iw = choose|iw: int| 0 <= iw < q.len() && q[iw] == w;
                        assert(d[q[iw] as int] <= d[q[q.len() - 1] as int]);
                    }
                }
            }
        } else {
            if d[w as int] != u16::MAX {
                if !p.contains(w) {
                    let iw = choose|iw: int| 0 <= iw < q.len() && q[iw] == w;
                    assert(d[q[iw] as int] <= d[q[q.len() - 1] as int]);
                }
            }
        }
    }
}

/// The sum of `vals[u]` over the entries `(w, u)` of `dag` that start at `w`.
pub open spec fn dag_sum(dag: Seq<(usize, usize)>, vals: Seq<nat>, w: usize) -> nat
    decreases dag.len(),
{
    if dag.len() == 0 {
        0
    } else {
        dag_sum(dag.drop_last(), vals, w) + if dag.last().0 == w { vals[dag.last().1 as int] } else { 0nat }
    }
}

/// The numbers that big unsigned integers stand for.
pub open spec fn biguint_values(xs: Seq<BigUint>) -> Seq<nat> {
    xs.map_values(|x: BigUint| biguint_value(x))
}

proof fn lemma_dag_sum_push(dag: Seq<(usize, usize)>, vals: Seq<nat>, w: usize, e: (usize, usize))
    ensures
        dag_sum(dag.push(e), vals, w) == dag_sum(dag, vals, w) + if e.0 == w { vals[e.1 as int] } else { 0nat },
{
    assert(dag.push(e).drop_last() =~= dag);
}

proof fn lemma_dag_sum_update(dag: Seq<(usize, usize)>, vals: Seq<nat>, w: usize, x: usize, c: nat)
    requires
        forall|k: int| 0 <= k < dag.len() ==> (#[trigger] dag[k]).1 != x && dag[k].1 < vals.len(),
        x < vals.len(),
    ensures
        dag_sum(dag, vals.update(x as int, c), w) == dag_sum(dag, vals, w),
    decreases dag.len(),
{
    if dag.len() > 0 {
        assert forall|k: int| 0 <= k < dag.drop_last().len() implies (#[trigger] dag.drop_last()[k]).1 != x
            && dag.drop_last()[k].1 < vals.len() by {
            assert(dag.drop_last()[k] == dag[k]);
        }
        lemma_dag_sum_update(dag.drop_last(), vals, w, x, c);
        assert(dag[dag.len() - 1].1 != x && dag[dag.len() - 1].1 < vals.len());
        assert(vals.update(x as int, c)[dag.last().1 as int] == vals[dag.last().1 as int]);
    }
}

proof fn lemma_dag_sum_absent(dag: Seq<(usize, usize)>, vals: Seq<nat>, w: usize)
    requires
        forall|k: int| 0 <= k < dag.len() ==> (#[trigger] dag[k]).0 != w,
    ensures
        dag_sum(dag, vals, w) == 0,
    decreases dag.len(),
{
    if dag.len() > 0 {
        assert forall|k: int| 0 <= k < dag.drop_last().len() implies (#[trigger] dag.drop_last()[k]).0 != w by {
            assert(dag.drop_last()[k] == dag[k]);
        }
        lemma_dag_sum_absent(dag.drop_last(), vals, w);
        assert(dag[dag.len() - 1].0 != w);
    }
}

/// The shortest-path edges and the path counts of a breadth-first search in
/// progress: `dag` holds the edges found from the vertices of `p` (and `v`,
/// the vertex being expanded), `vals` the path counts.
pub open spec fn bfs_dag_inv(
    rows: Seq<Seq<usize>>,
    s: usize,
    d: Seq<u16>,
    dag: Seq<(usize, usize)>,
    vals: Seq<nat>,
    p: Set<usize>,
    v: usize,
) -> bool {
    let n = rows.len();
    &&& vals.len() == n
    &&& forall|k: int| 0 <= k < dag.len() ==> {
        let e = #[trigger] dag[k];
        &&& e.0 < n
        &&& e.1 < n
        &&& d[e.0 as int] != u16::MAX
        &&& d[e.1 as int] != u16::MAX
        &&& d[e.0 as int] == d[e.1 as int] + 1
        &&& rows[e.1 as int].contains(e.0)
        &&& (p.contains(e.1) || e.1 == v)
    }
    &&& forall|u: usize, i: int| #![trigger p.contains(u), rows[u as int][i]]
        p.contains(u) && 0 <= i < rows[u as int].len() && d[rows[u as int][i] as int] == d[u as int] + 1
            ==> dag.contains((rows[u as int][i], u))
    &&& vals[s as int] == 1
    &&& forall|w: usize| w < n && w != s && d[w as int] != u16::MAX ==> #[trigger] vals[w as int] == dag_sum(dag, vals, w)
    &&& forall|w: usize| w < n && d[w as int] == u16::MAX ==> #[trigger] vals[w as int] == 0
}

/// What a breadth-first search from `s` finds: `d` the distance of every
/// vertex (`u16::MAX` for those that cannot be reached), `sigma` the number
/// of shortest paths that reach each vertex, and `dag` the edges `(w, v)`
/// that lead from `w` one step closer to `s`.
pub open spec fn bfs_result(rows: Seq<Seq<usize>>, s: usize, d: Seq<u16>, sigma: Seq<nat>, dag: Seq<(usize, usize)>) -> bool {
    &&& d.len() == rows.len()
    &&& sigma.len() == rows.len()
    &&& forall|v: usize| v < rows.len() ==> (d[v as int] != u16::MAX <==> #[trigger] reachable(rows, s, v))
    &&& forall|v: usize| v < rows.len() && d[v as int] != u16::MAX ==> is_distance(rows, s, v, #[trigger] d[v as int] as nat)
    &&& forall|w: usize, v: usize| #[trigger] dag.contains((w, v)) <==> {
        &&& v < rows.len()
        &&& d[v as int] != u16::MAX
        &&& rows[v as int].contains(w)
        &&& d[w as int] == d[v as int] + 1
    }
    &&& sigma[s as int] == 1
    &&& forall|w: usize| w < rows.len() && w != s && d[w as int] != u16::MAX ==> #[trigger] sigma[w as int] == dag_sum(dag, sigma, w)
    &&& forall|w: usize| w < rows.len() && d[w as int] == u16::MAX ==> #[trigger] sigma[w as int] == 0
}

proof fn lemma_dag_sum_at_least(dag: Seq<(usize, usize)>, vals: Seq<nat>, w: usize, x: usize)
    requires
        dag.contains((w, x)),
    ensures
        dag_sum(dag, vals, w) >= vals[x as int],
    decreases dag.len(),
{
    if dag.last() != (w, x) {
        let k = choose|k: int| 0 <= k < dag.len() && dag[k] == (w, x);
        assert(dag.drop_last()[k] == (w, x));
        lemma_dag_sum_at_least(dag.drop_last(), vals, w, x);
    }
}

/// What a breadth-first search from `s` finds of every vertex `v` that it
/// reaches: `v` is reached by at least one shortest path, and unless `v` is
/// `s` an edge of the shortest-path graph leads from `v` one step closer to
/// `s`. This is what drawing a next hop along shortest paths relies on.
pub proof fn lemma_shortest_paths_exist(
    rows: Seq<Seq<usize>>,
    s: usize,
    d: Seq<u16>,
    sigma: Seq<nat>,
    dag: Seq<(usize, usize)>,
    v: usize,
)
    requires
        rows_wf(rows),
        bfs_result(rows, s, d, sigma, dag),
        v < rows.len(),
        d[v as int] != u16::MAX,
    ensures
        sigma[v as int] >= 1,
        v != s ==> exists|w: usize| #[trigger] dag.contains((v, w)) && d[v as int] == d[w as int] + 1,
    decreases d[v as int],
{
    let k = d[v as int] as nat;
    assert(is_distance(rows, s, v, k));
    if v != s {
        if k == 0 {
            let p = choose|p: Seq<usize>| #[trigger] is_walk(rows, p) && p.len() == 1 && p[0] == s && p[p.len() - 1] == v;
        }
        lemma_walk_unfold(rows, s, v, k);
        let u = choose|u: usize| u < rows.len() && #[trigger] walk(rows, s, u, (k - 1) as nat) && rows[u as int].contains(v);
        assert(reachable(rows, s, u));
        let du = d[u as int] as nat;
        assert(is_distance(rows, s, u, du));
        lemma_walk_step(rows, s, u, v, du);
        if du > k - 1 {
            assert(!walk(rows, s, u, (k - 1) as nat));
        }
        if du + 1 > k {
            assert(!walk(rows, s, v, du + 1));
        }
        assert(dag.contains((v, u)));
        lemma_shortest_paths_exist(rows, s, d, sigma, dag, u);
        lemma_dag_sum_at_least(dag, sigma, v, u);
    }
}

/// `p` follows edges of `dag`, from each vertex to the next.
pub open spec fn follows_dag(dag: Seq<(usize, usize)>, p: Seq<usize>) -> bool {
    forall|i: int| 0 <= i < p.len() - 1 ==> #[trigger] dag.contains((p[i], p[i + 1]))
}

proof fn lemma_dag_path_descends(
    rows: Seq<Seq<usize>>,
    s: usize,
    d: Seq<u16>,
    sigma: Seq<nat>,
    dag: Seq<(usize, usize)>,
    p: Seq<usize>,
    i: int,
)
    requires
        bfs_result(rows, s, d, sigma, dag),
        follows_dag(dag, p),
        0 <= i < p.len(),
    ensures
        d[p[i] as int] + i == d[p[0] as int],
    decreases i,
{
    if i > 0 {
        let j = i - 1;
        lemma_dag_path_descends(rows, s, d, sigma, dag, p, j);
        assert(dag.contains((p[j], p[j + 1])));
        assert(p[j + 1] == p[i]);
    }
}

/// The shortest-path graph of a breadth-first search has no cycle: a walk
/// along its edges never comes back to where it started, since each edge
/// leads one step closer to the source.
pub proof fn lemma_shortest_path_graph_is_acyclic(
    rows: Seq<Seq<usize>>,
    s: usize,
    d: Seq<u16>,
    sigma: Seq<nat>,
    dag: Seq<(usize, usize)>,
    p: Seq<usize>,
)
    requires
        bfs_result(rows, s, d, sigma, dag),
        follows_dag(dag, p),
        p.len() >= 2,
    ensures
        p[0] != p[p.len() - 1],
{
    lemma_dag_path_descends(rows, s, d, sigma, dag, p, p.len() - 1);
}

/// Breadth-first search from `source` (see `bfs_result`); `None` exactly
/// when some vertex lies too far from `source` for its distance to fit
/// below `u16::MAX`.
pub fn distance_and_sigma_vec(graph: &AdjacencyList, source: usize) -> (res: Option<(Vec<u16>, Vec<BigUint>, Vec<(usize, usize)>)>)
    requires
        source < adjacency_rows(*graph).len(),
        rows_wf(adjacency_rows(*graph)),
    ensures
        res is Some <==> distances_fit(adjacency_rows(*graph), source),
        res matches Some(r) ==> bfs_result(adjacency_rows(*graph), source, r.0@, biguint_values(r.1@), r.2@),
        rows_distinct(adjacency_rows(*graph)) ==> (res matches Some(r) ==> r.2@.no_duplicates()),
{
    let ghost rows = adjacency_rows(*graph);
    let num_nodes = csr_node_count(graph);
    let mut sigmas: Vec<BigUint> = Vec::new();
    let mut distances: Vec<u16> = Vec::new();
    let mut i: usize = 0;
    while i < num_nodes
        invariant
            i <= num_nodes,
            distances@.len() == i,
            sigmas@.len() == i,
            forall|j: int| 0 <= j < i ==> distances@[j] == u16::MAX,
            forall|j: int| 0 <= j < i ==> biguint_value(#[trigger] sigmas@[j]) == 0,
        decreases num_nodes - i,
    {
        distances.push(u16::MAX);
        sigmas.push(big_zero());
        i = i + 1;
    }
    let mut dag_edges: Vec<(usize, usize)> = Vec::new();
    let mut queue: VecDeque<usize> = VecDeque::new();
    sigmas.set(source, big_one());
    distances.set(source, 0);
    queue.push_back(source);
    let ghost mut processed: Set<usize> = Set::empty();
    proof {
        assert(queue@ =~= seq![source]);
        lemma_walk_start(rows, source);
        assert(forall|w: usize| w < num_nodes && distances@[w as int] != u16::MAX ==> w == source);
        assert(queue@[0] == source);
        assert forall|w: usize| w < num_nodes implies (distances@[w as int] != u16::MAX <==> (#[trigger] processed.contains(w) || queue@.contains(w))) by {
            if w == source {
                assert(queue@[0] == w);
            }
        }
        assert(walk(rows, source, source, distances@[source as int] as nat));
        assert(biguint_values(sigmas@)[source as int] == 1);
        assert forall|w: usize| w < num_nodes && distances@[w as int] == u16::MAX implies #[trigger] biguint_values(sigmas@)[w as int] == 0 by {
            assert(w != source);
        }
    }
    while queue.len() > 0
        invariant
            num_nodes == rows.len(),
            rows == adjacency_rows(*graph),
            rows_wf(rows),
            sigmas@.len() == num_nodes,
            bfs_inv(rows, source, distances@, queue@, processed),
            bfs_dag_inv(rows, source, distances@, dag_edges@, biguint_values(sigmas@), processed, source),
            forall|k: int| 0 <= k < dag_edges@.len() ==> processed.contains((#[trigger] dag_edges@[k]).1),
            rows_distinct(rows) ==> dag_edges@.no_duplicates(),
        decreases 2 * count_unreached(distances@) + queue@.len(),
    {
        let ghost d_head = distances@;
        let ghost q_head = queue@;
        let ghost m_head = 2 * count_unreached(distances@) + queue@.len();
        let v = match queue.pop_front() {
            Some(x) => x,
            None => { return None; },
        };
        let dist_v = distances[v];
        proof {
            assert(q_head.contains(v));
            if distances_fit(rows, source) {
                assert forall|w: usize| w < num_nodes && d_head[w as int] == u16::MAX && rows[v as int].contains(w)
                    implies dist_v + 1 < u16::MAX by {
                    assert(walk(rows, source, v, dist_v as nat));
                    lemma_walk_step(rows, source, v, w, dist_v as nat);
                    let j = choose|j: nat| j < u16::MAX && #[trigger] walk(rows, source, w, j);
                    lemma_bfs_bound(rows, source, d_head, q_head, processed, w, j);
                }
            }
        }
        proof {
            assert(queue@ =~= q_head.subrange(1, q_head.len() as int));
            assert forall|w: usize| w < num_nodes implies (distances@[w as int] != u16::MAX
                <==> (#[trigger] processed.contains(w) || queue@.contains(w) || w == v)) by {
                if q_head.contains(w) && w != v {
                    let k = choose|k: int| 0 <= k < q_head.len() && q_head[k] == w;
                    assert(queue@[k - 1] == w);
                }
                if queue@.contains(w) {
                    let k = choose|k: int| 0 <= k < queue@.len() && queue@[k] == w;
                    assert(q_head[k + 1] == w);
                }
            }
            assert forall|i: int| 0 <= i < queue@.len() implies dist_v <= distances@[#[trigger] queue@[i] as int] <= dist_v + 1 by {
                assert(queue@[i] == q_head[i + 1]);
                assert(d_head[q_head[0] as int] <= d_head[q_head[i + 1] as int]);
                assert(d_head[q_head[i + 1] as int] <= d_head[q_head[q_head.len() - 1] as int]);
            }
            assert forall|i: int| 0 <= i < queue@.len() implies !processed.contains(#[trigger] queue@[i]) && queue@[i] != v by {
                assert(queue@[i] == q_head[i + 1]);
            }
            assert(!processed.contains(v));
            assert forall|k: int| 0 <= k < dag_edges@.len() implies distances@[(#[trigger] dag_edges@[k]).1 as int] <= dist_v by {
                assert(processed.contains(dag_edges@[k].1) || dag_edges@[k].1 == source);
            }
        }
        let current_sigma = big_clone(&sigmas[v]);
        let nbs = csr_neighbors_slice(graph, v);
        let mut j: usize = 0;
        while j < nbs.len()
            invariant
                num_nodes == rows.len(),
                rows == adjacency_rows(*graph),
                rows_wf(rows),
                nbs@ == rows[v as int],
                v < num_nodes,
                j <= nbs@.len(),
                sigmas@.len() == num_nodes,
                distances@.len() == num_nodes,
                distances@[v as int] == dist_v,
                dist_v == d_head[v as int],
                dist_v != u16::MAX,
                d_head.len() == num_nodes,
                q_head.len() > 0 && q_head[0] == v,
                bfs_inv(rows, source, d_head, q_head, processed),
                distances_fit(rows, source) ==> forall|w: usize| w < num_nodes && d_head[w as int] == u16::MAX && rows[v as int].contains(w)
                    ==> dist_v + 1 < u16::MAX,
                forall|w: usize| w < num_nodes && d_head[w as int] != u16::MAX ==> #[trigger] distances@[w as int] == d_head[w as int],
                distances@[source as int] == 0,
                forall|i: int| 0 <= i < queue@.len() ==> #[trigger] queue@[i] < num_nodes,
                queue@.no_duplicates(),
                forall|i: int| 0 <= i < queue@.len() ==> !processed.contains(#[trigger] queue@[i]) && queue@[i] != v,
                !processed.contains(v),
                forall|w: usize| w < num_nodes ==> (distances@[w as int] != u16::MAX
                    <==> (#[trigger] processed.contains(w) || queue@.contains(w) || w == v)),
                forall|w: usize| w < num_nodes && distances@[w as int] != u16::MAX
                    ==> walk(rows, source, w, #[trigger] distances@[w as int] as nat),
                forall|i: int, k: int| 0 <= i <= k < queue@.len()
                    ==> distances@[#[trigger] queue@[i] as int] <= distances@[#[trigger] queue@[k] as int],
                forall|i: int| 0 <= i < queue@.len()
                    ==> dist_v <= distances@[#[trigger] queue@[i] as int] <= dist_v + 1,
                forall|u: usize| #[trigger] processed.contains(u) ==> distances@[u as int] <= dist_v,
                forall|u: usize, i: int| #![trigger processed.contains(u), rows[u as int][i]] processed.contains(u) && 0 <= i < rows[u as int].len() ==> {
                    let w = rows[u as int][i];
                    distances@[w as int] != u16::MAX && distances@[w as int] <= distances@[u as int] + 1
                },
                forall|i: int| 0 <= i < j ==> {
                    let w = #[trigger] rows[v as int][i];
                    distances@[w as int] != u16::MAX && distances@[w as int] <= dist_v + 1
                },
                2 * count_unreached(distances@) + queue@.len() < m_head,
                bfs_dag_inv(rows, source, distances@, dag_edges@, biguint_values(sigmas@), processed, v),
                biguint_value(current_sigma) == biguint_values(sigmas@)[v as int],
                forall|k: int| 0 <= k < dag_edges@.len() ==> distances@[(#[trigger] dag_edges@[k]).1 as int] <= dist_v,
                forall|i: int| 0 <= i < j && distances@[rows[v as int][i] as int] == dist_v + 1
                    ==> dag_edges@.contains((#[trigger] rows[v as int][i], v)),
                forall|k: int| 0 <= k < dag_edges@.len() ==> processed.contains((#[trigger] dag_edges@[k]).1) || dag_edges@[k].1 == v,
                forall|k: int| 0 <= k < dag_edges@.len() && (#[trigger] dag_edges@[k]).1 == v
                    ==> exists|i: int| 0 <= i < j && rows[v as int][i] == dag_edges@[k].0,
                rows_distinct(rows) ==> dag_edges@.no_duplicates(),
            decreases nbs@.len() - j,
        {
            let nb = nbs[j];
            let ghost vals0 = biguint_values(sigmas@);
            let ghost dag0 = dag_edges@;
            let ghost d0 = distances@;
            assert(rows[v as int][j as int] == nb);
            assert(rows[v as int].contains(nb));
            if distances[nb] == u16::MAX {
                assert(d_head[nb as int] == u16::MAX);
                if dist_v == u16::MAX - 1 {
                    return None;
                }
                proof {
                    lemma_count_unreached_update(distances@, nb as int, (dist_v + 1) as u16);
                    lemma_walk_step(rows, source, v, nb, dist_v as nat);
                    assert forall|k: int| 0 <= k < dag0.len() implies (#[trigger] dag0[k]).0 != nb by {}
                    assert forall|k: int| 0 <= k < dag0.len() implies (#[trigger] dag0[k]).1 != nb by {}
                    lemma_dag_sum_absent(dag0, vals0, nb);
                }
                let ghost q_before = queue@;
                distances.set(nb, dist_v + 1);
                sigmas.set(nb, big_clone(&current_sigma));
                queue.push_back(nb);
                dag_edges.push((nb, v));
                proof {
                    assert(biguint_values(sigmas@) =~= vals0.update(nb as int, vals0[v as int]));
                    assert forall|w: usize| w < num_nodes implies (distances@[w as int] != u16::MAX
                        <==> (#[trigger] processed.contains(w) || queue@.contains(w) || w == v)) by {
                        if w == nb {
                            assert(queue@[queue@.len() - 1] == nb);
                        } else {
                            if q_before.contains(w) {
                                let k = choose|k: int| 0 <= k < q_before.len() && q_before[k] == w;
                                assert(queue@[k] == w);
                            }
                            if queue@.contains(w) {
                                let k = choose|k: int| 0 <= k < queue@.len() && queue@[k] == w;
                                assert(q_before[k] == w);
                            }
                        }
                    }
                    assert(queue@.no_duplicates()) by {
                        assert forall|a: int, b: int| 0 <= a < b < queue@.len() implies queue@[a] != queue@[b] by {
                            if b == queue@.len() - 1 {
                                assert(q_before.contains(queue@[a]));
                            }
                        }
                    }
                    let vals1 = biguint_values(sigmas@);
                    assert forall|w: usize| w < num_nodes && w != source && distances@[w as int] != u16::MAX
                        implies #[trigger] vals1[w as int] == dag_sum(dag_edges@, vals1, w) by {
                        lemma_dag_sum_push(dag0, vals1, w, (nb, v));
                        lemma_dag_sum_update(dag0, vals0, w, nb, vals0[v as int]);
                    }
                    assert(dag_edges@[dag_edges@.len() - 1] == (nb, v));
                    assert forall|u: usize, i: int| #![trigger processed.contains(u), rows[u as int][i]]
                        processed.contains(u) && 0 <= i < rows[u as int].len() && distances@[rows[u as int][i] as int] == distances@[u as int] + 1
                        implies dag_edges@.contains((rows[u as int][i], u)) by {
                        assert(dag0.contains((rows[u as int][i], u)));
                        let k = choose|k: int| 0 <= k < dag0.len() && dag0[k] == (rows[u as int][i], u);
                        assert(dag_edges@[k] == dag0[k]);
                    }
                    assert forall|i: int| 0 <= i < j + 1 && distances@[rows[v as int][i] as int] == dist_v + 1
                        implies dag_edges@.contains((#[trigger] rows[v as int][i], v)) by {
                        if i < j {
                            let k = choose|k: int| 0 <= k < dag0.len() && dag0[k] == (rows[v as int][i], v);
                            assert(dag_edges@[k] == dag0[k]);
                        } else {
                            assert(dag_edges@[dag_edges@.len() - 1] == (rows[v as int][i], v));
                        }
                    }
                }
            } else if distances[nb] == dist_v + 1 {
                proof {
                    assert forall|k: int| 0 <= k < dag0.len() implies (#[trigger] dag0[k]).1 != nb by {}
                }
                let mut s = big_clone(&sigmas[nb]);
                big_add_assign(&mut s, &current_sigma);
                sigmas.set(nb, s);
                dag_edges.push((nb, v));
                proof {
                    assert(nb != v);
                    assert(biguint_values(sigmas@) =~= vals0.update(nb as int, vals0[nb as int] + vals0[v as int]));
                    let vals1 = biguint_values(sigmas@);
                    assert forall|w: usize| w < num_nodes && w != source && distances@[w as int] != u16::MAX
                        implies #[trigger] vals1[w as int] == dag_sum(dag_edges@, vals1, w) by {
                        lemma_dag_sum_push(dag0, vals1, w, (nb, v));
                        lemma_dag_sum_update(dag0, vals0, w, nb, (vals0[nb as int] + vals0[v as int]) as nat);
                    }
                    assert forall|w: usize| w < num_nodes && distances@[w as int] == u16::MAX implies #[trigger] vals1[w as int] == 0 by {
                        assert(w != nb);
                    }
                    assert forall|u: usize, i: int| #![trigger processed.contains(u), rows[u as int][i]]
                        processed.contains(u) && 0 <= i < rows[u as int].len() && distances@[rows[u as int][i] as int] == distances@[u as int] + 1
                        implies dag_edges@.contains((rows[u as int][i], u)) by {
                        assert(dag0.contains((rows[u as int][i], u)));
                        let k = choose|k: int| 0 <= k < dag0.len() && dag0[k] == (rows[u as int][i], u);
                        assert(dag_edges@[k] == dag0[k]);
                    }
                    assert forall|i: int| 0 <= i < j + 1 && distances@[rows[v as int][i] as int] == dist_v + 1
                        implies dag_edges@.contains((#[trigger] rows[v as int][i], v)) by {
                        if i < j {
                            let k = choose|k: int| 0 <= k < dag0.len() && dag0[k] == (rows[v as int][i], v);
                            assert(dag_edges@[k] == dag0[k]);
                        } else {
                            assert(dag_edges@[dag_edges@.len() - 1] == (rows[v as int][i], v));
                        }
                    }
                    assert(source != nb);
                }
            } else {
                proof {
                    if queue@.contains(nb) {
                        let k = choose|k: int| 0 <= k < queue@.len() && queue@[k] == nb;
                        assert(distances@[queue@[k] as int] <= dist_v + 1);
                    } else if processed.contains(nb) {
                        assert(distances@[nb as int] <= dist_v);
                    }
                }
            }
            j = j + 1;
        }
        proof {
            processed = processed.insert(v);
            assert forall|w: usize| w < num_nodes implies (distances@[w as int] != u16::MAX
                <==> (#[trigger] processed.contains(w) || queue@.contains(w))) by {}
            assert forall|u: usize, i: int| #![trigger processed.contains(u), rows[u as int][i]] processed.contains(u) && 0 <= i < rows[u as int].len() implies {
                let w = rows[u as int][i];
                distances@[w as int] != u16::MAX && distances@[w as int] <= distances@[u as int] + 1
            } by {
                if u == v {
                    assert(rows[v as int][i] == rows[u as int][i]);
                }
            }
            assert forall|u: usize, i: int| #![trigger processed.contains(u), rows[u as int][i]]
                processed.contains(u) && 0 <= i < rows[u as int].len() && distances@[rows[u as int][i] as int] == distances@[u as int] + 1
                implies dag_edges@.contains((rows[u as int][i], u)) by {
                if u == v {
                    assert(rows[v as int][i] == rows[u as int][i]);
                }
            }
            if queue@.len() > 0 {
                assert(distances@[queue@[0] as int] >= dist_v);
            }
        }
    }
    proof {
        assert forall|v: usize| v < num_nodes implies (distances@[v as int] != u16::MAX
            <==> #[trigger] reachable(rows, source, v)) by {
            if distances@[v as int] != u16::MAX {
                assert(walk(rows, source, v, distances@[v as int] as nat));
            }
            if reachable(rows, source, v) {
                let k = choose|k: nat| #[trigger] walk(rows, source, v, k);
                lemma_bfs_bound(rows, source, distances@, queue@, processed, v, k);
            }
        }
        assert forall|v: usize| v < num_nodes && distances@[v as int] != u16::MAX
            implies is_distance(rows, source, v, #[trigger] distances@[v as int] as nat) by {
            assert forall|k: nat| k < distances@[v as int] implies !#[trigger] walk(rows, source, v, k) by {
                if walk(rows, source, v, k) {
                    lemma_bfs_bound(rows, source, distances@, queue@, processed, v, k);
                }
            }
        }
        assert forall|w: usize, v: usize| #[trigger] dag_edges@.contains((w, v)) <==> {
            &&& v < num_nodes
            &&& distances@[v as int] != u16::MAX
            &&& rows[v as int].contains(w)
            &&& distances@[w as int] == distances@[v as int] + 1
        } by {
            if dag_edges@.contains((w, v)) {
                let k = choose|k: int| 0 <= k < dag_edges@.len() && dag_edges@[k] == (w, v);
                assert(dag_edges@[k].1 == v);
            }
            if v < num_nodes && distances@[v as int] != u16::MAX && rows[v as int].contains(w)
                && distances@[w as int] == distances@[v as int] + 1 {
                assert(processed.contains(v) || queue@.contains(v));
                let i = choose|i: int| 0 <= i < rows[v as int].len() && rows[v as int][i] == w;
                assert(processed.contains(v) && 0 <= i < rows[v as int].len());
            }
        }
    }
    proof {
        assert forall|w: usize, k: nat| #[trigger] walk(rows, source, w, k)
            implies exists|j: nat| j < u16::MAX && #[trigger] walk(rows, source, w, j) by {
            let p = choose|p: Seq<usize>| #[trigger] is_walk(rows, p) && p.len() == k + 1 && p[0] == source && p[p.len() - 1] == w;
            if k > 0 {
                assert(p[k - 1] < rows.len() && rows[p[k - 1] as int].contains(p[k as int]));
                assert(w < rows.len());
            } else {
                assert(w == source);
            }
            assert(reachable(rows, source, w));
            assert(walk(rows, source, w, distances@[w as int] as nat));
        }
    }
    Some((distances, sigmas, dag_edges))
}

/// The undirected edge `{u, v}` written with its smaller endpoint first.
pub open spec fn normalized(u: usize, v: usize) -> (usize, usize) {
    if u < v { (u, v) } else { (v, u) }
}

/// The entries of `rows`, row after row, each written as the normalized edge
/// it stands for.
pub open spec fn row_entries(rows: Seq<Seq<usize>>) -> Seq<(usize, usize)>
    decreases rows.len(),
{
    if rows.len() == 0 {
        seq![]
    } else {
        row_entries(rows.drop_last()) + rows.last().map_values(|v: usize| normalized((rows.len() - 1) as usize, v))
    }
}

/// The distinct elements of `s`, each at the place of its first occurrence.
pub open spec fn first_occurrences(s: Seq<(usize, usize)>) -> Seq<(usize, usize)>
    decreases s.len(),
{
    if s.len() == 0 {
        seq![]
    } else {
        let f = first_occurrences(s.drop_last());
        if f.contains(s.last()) { f } else { f.push(s.last()) }
    }
}

/// The undirected edges of a graph in the order of their identifiers: the
/// identifier of an edge is the number of distinct edges met before it when
/// the rows are read one after the other.
pub open spec fn edge_order(rows: Seq<Seq<usize>>) -> Seq<(usize, usize)> {
    first_occurrences(row_entries(rows))
}

/// The key under which the edge `{u, v}` is stored, with `u <= v`.
pub open spec fn edge_key_of(e: (usize, usize)) -> u128 {
    (e.0 as int * 0x1_0000_0000_0000_0000 + e.1 as int) as u128
}

proof fn lemma_edge_key_injective(a: (usize, usize), b: (usize, usize))
    ensures
        edge_key_of(a) == edge_key_of(b) ==> a == b,
{
    assert(a.1 < 0x1_0000_0000_0000_0000int && b.1 < 0x1_0000_0000_0000_0000int);
    assert((a.0 as int) * 0x1_0000_0000_0000_0000 + (a.1 as int) < 0x1_0000_0000_0000_0000_0000_0000_0000_0000int);
    assert((b.0 as int) * 0x1_0000_0000_0000_0000 + (b.1 as int) < 0x1_0000_0000_0000_0000_0000_0000_0000_0000int);
}

fn edge_key(u: usize, v: usize) -> (k: u128)
    ensures
        k == edge_key_of((u, v)),
{
    assert((u as int) * 0x1_0000_0000_0000_0000 + (v as int) < 0x1_0000_0000_0000_0000_0000_0000_0000_0000int);
    (u as u128) * 0x1_0000_0000_0000_0000u128 + (v as u128)
}

proof fn lemma_first_occurrences_distinct(s: Seq<(usize, usize)>)
    ensures
        first_occurrences(s).no_duplicates(),
        forall|x: (usize, usize)| #[trigger] first_occurrences(s).contains(x) <==> s.contains(x),
    decreases s.len(),
{
    if s.len() > 0 {
        lemma_first_occurrences_distinct(s.drop_last());
        let f = first_occurrences(s.drop_last());
        assert forall|x: (usize, usize)| #[trigger] first_occurrences(s).contains(x) <==> s.contains(x) by {
            if s.drop_last().contains(x) {
                let i = choose|i: int| 0 <= i < s.drop_last().len() && s.drop_last()[i] == x;
                assert(s[i] == x);
            }
            if s.contains(x) {
                let i = choose|i: int| 0 <= i < s.len() && s[i] == x;
                if i < s.len() - 1 {
                    assert(s.drop_last()[i] == x);
                } else if !f.contains(s.last()) {
                    assert(f.push(s.last())[f.len() as int] == x);
                }
            }
            if !f.contains(s.last()) {
                if f.push(s.last()).contains(x) {
                    let i = choose|i: int| 0 <= i < f.push(s.last()).len() && f.push(s.last())[i] == x;
                    if i < f.len() {
                        assert(f[i] == x);
                    }
                }
                if f.contains(x) {
                    let i = choose|i: int| 0 <= i < f.len() && f[i] == x;
                    assert(f.push(s.last())[i] == x);
                }
            }
        }
    }
}

/// Every vertex can be reached from every vertex.
pub open spec fn connected(rows: Seq<Seq<usize>>) -> bool {
    forall|s: usize, u: usize| s < rows.len() && u < rows.len() ==> #[trigger] reachable(rows, s, u)
}

/// The number of `false` entries of `s`.
pub open spec fn count_false(s: Seq<bool>) -> nat
    decreases s.len(),
{
    if s.len() == 0 {
        0
    } else {
        count_false(s.drop_last()) + if s.last() { 0nat } else { 1nat }
    }
}

proof fn lemma_count_false_set(s: Seq<bool>, i: int)
    requires
        0 <= i < s.len(),
        !s[i],
    ensures
        count_false(s.update(i, true)) + 1 == count_false(s),
    decreases s.len(),
{
    if i < s.len() - 1 {
        assert(s.update(i, true).drop_last() =~= s.drop_last().update(i, true));
        lemma_count_false_set(s.drop_last(), i);
    } else {
        assert(s.update(i, true).drop_last() =~= s.drop_last());
    }
}

/// A set of vertices that holds `s` and every neighbour of its members holds
/// every vertex that a walk from `s` reaches.
proof fn lemma_closed_set_holds_walks(rows: Seq<Seq<usize>>, seen: Seq<bool>, s: usize, v: usize, k: nat)
    requires
        rows_wf(rows),
        seen.len() == rows.len(),
        s < rows.len(),
        seen[s as int],
        forall|u: int, j: int| 0 <= u < rows.len() && seen[u] && 0 <= j < rows[u].len() ==> #[trigger] seen[rows[u][j] as int],
        walk(rows, s, v, k),
    ensures
        v < rows.len(),
        seen[v as int],
    decreases k,
{
    if k == 0 {
        let p = choose|p: Seq<usize>| #[trigger] is_walk(rows, p) && p.len() == k + 1 && p[0] == s && p[p.len() - 1] == v;
        assert(p[0] == v);
    } else {
        lemma_walk_unfold(rows, s, v, k);
        let u = choose|u: usize| u < rows.len() && #[trigger] walk(rows, s, u, (k - 1) as nat) && rows[u as int].contains(v);
        lemma_closed_set_holds_walks(rows, seen, s, u, (k - 1) as nat);
        let j = choose|j: int| 0 <= j < rows[u as int].len() && rows[u as int][j] == v;
        assert(seen[rows[u as int][j] as int]);
        assert(rows[u as int][j] < rows.len());
    }
}

/// The vertices that can be reached from `s`, found by a depth-first search.
fn reach_from(adjacency_list: &AdjacencyList, s: usize) -> (seen: Vec<bool>)
    requires
        rows_wf(adjacency_rows(*adjacency_list)),
        s < adjacency_rows(*adjacency_list).len(),
    ensures
        seen@.len() == adjacency_rows(*adjacency_list).len(),
        forall|v: usize| v < seen@.len() ==> (seen@[v as int] <==> reachable(adjacency_rows(*adjacency_list), s, v)),
{
    let ghost rows = adjacency_rows(*adjacency_list);
    let n = csr_node_count(adjacency_list);
    let mut seen: Vec<bool> = Vec::new();
    let mut i: usize = 0;
    while i < n
        invariant
            i <= n,
            seen@.len() == i,
            forall|j: int| 0 <= j < i ==> !seen@[j],
        decreases n - i,
    {
        seen.push(false);
        i = i + 1;
    }
    seen.set(s, true);
    let mut stack: Vec<usize> = Vec::new();
    stack.push(s);
    proof {
        lemma_walk_start(rows, s);
        assert forall|v: usize| v < n && seen@[v as int] implies reachable(rows, s, v) by {
            assert(walk(rows, s, s, 0));
        }
        assert(stack@[0] == s);
        assert forall|u: int, j: int| 0 <= u < n && seen@[u] && !stack@.contains(u as usize) && 0 <= j < rows[u].len()
            implies #[trigger] seen@[rows[u][j] as int] by {
            assert(u == s);
        }
    }
    while stack.len() > 0
        invariant
            n == rows.len(),
            rows == adjacency_rows(*adjacency_list),
            rows_wf(rows),
            s < n,
            seen@.len() == n,
            seen@[s as int],
            forall|v: usize| v < n && #[trigger] seen@[v as int] ==> reachable(rows, s, v),
            forall|i: int| 0 <= i < stack@.len() ==> #[trigger] stack@[i] < n && seen@[stack@[i] as int],
            stack@.no_duplicates(),
            forall|u: int, j: int| 0 <= u < n && seen@[u] && !stack@.contains(u as usize) && 0 <= j < rows[u].len()
                ==> #[trigger] seen@[rows[u][j] as int],
        decreases count_false(seen@), stack@.len(),
    {
        let ghost count0 = count_false(seen@);
        let ghost len0 = stack@.len();
        let ghost before_pop = stack@;
        let u = match stack.pop() {
            Some(u) => u,
            None => s,
        };
        let ghost popped = stack@;
        assert(!popped.contains(u)) by {
            assert(popped =~= before_pop.drop_last());
            assert(u == before_pop[before_pop.len() - 1]);
            if popped.contains(u) {
                let k = choose|k: int| 0 <= k < popped.len() && popped[k] == u;
                assert(before_pop[k] == before_pop[before_pop.len() - 1]);
            }
        }
        proof {
            assert forall|w: int, k: int| 0 <= w < n && w != u && seen@[w] && !popped.contains(w as usize) && 0 <= k < rows[w].len()
                implies #[trigger] seen@[rows[w][k] as int] by {
                if before_pop.contains(w as usize) {
                    let i = choose|i: int| 0 <= i < before_pop.len() && before_pop[i] == w as usize;
                    if i < popped.len() {
                        assert(popped[i] == w as usize);
                    }
                }
            }
        }
        let nbs = csr_neighbors_slice(adjacency_list, u);
        let mut j: usize = 0;
        while j < nbs.len()
            invariant
                n == rows.len(),
                rows == adjacency_rows(*adjacency_list),
                rows_wf(rows),
                s < n,
                u < n,
                nbs@ == rows[u as int],
                j <= nbs@.len(),
                seen@.len() == n,
                seen@[s as int],
                seen@[u as int],
                reachable(rows, s, u),
                forall|v: usize| v < n && #[trigger] seen@[v as int] ==> reachable(rows, s, v),
                forall|i: int| 0 <= i < stack@.len() ==> #[trigger] stack@[i] < n && seen@[stack@[i] as int],
                stack@.no_duplicates(),
                !stack@.contains(u),
                forall|i: int| 0 <= i < j ==> seen@[#[trigger] nbs@[i] as int],
                forall|w: int, k: int| 0 <= w < n && w != u && seen@[w] && !stack@.contains(w as usize) && 0 <= k < rows[w].len()
                    ==> #[trigger] seen@[rows[w][k] as int],
                popped.len() <= stack@.len(),
                count_false(seen@) + (stack@.len() - popped.len()) == count0,
                len0 == popped.len() + 1,
            decreases nbs@.len() - j,
        {
            let w = nbs[j];
            assert(rows[u as int][j as int] == w);
            if !seen[w] {
                proof {
                    lemma_count_false_set(seen@, w as int);
                    let k = choose|k: nat| #[trigger] walk(rows, s, u, k);
                    lemma_walk_step(rows, s, u, w, k);
                }
                let ghost stack0 = stack@;
                let ghost seen0 = seen@;
                seen.set(w, true);
                stack.push(w);
                proof {
                    assert forall|x: usize| stack0.contains(x) implies stack@.contains(x) by {
                        let i = choose|i: int| 0 <= i < stack0.len() && stack0[i] == x;
                        assert(stack@[i] == x);
                    }
                    assert(!stack0.contains(w));
                    assert forall|a: int, b: int| 0 <= a < b < stack@.len() implies stack@[a] != stack@[b] by {
                        if b == stack@.len() - 1 {
                            assert(stack0[a] == stack@[a]);
                        } else {
                            assert(stack0[a] == stack@[a] && stack0[b] == stack@[b]);
                        }
                    }
                    assert(stack@.contains(u) ==> stack@[stack@.len() - 1] == u || stack0.contains(u)) by {
                        if stack@.contains(u) {
                            let i = choose|i: int| 0 <= i < stack@.len() && stack@[i] == u;
                            if i < stack0.len() {
                                assert(stack0[i] == u);
                            }
                        }
                    }
                    assert forall|x: int| 0 <= x < n && seen0[x] implies seen@[x] by {}
                    assert(stack@[stack@.len() - 1] == w);
                    assert forall|w2: int, k: int| 0 <= w2 < n && w2 != u && seen@[w2] && !stack@.contains(w2 as usize)
                        && 0 <= k < rows[w2].len() implies #[trigger] seen@[rows[w2][k] as int] by {
                        assert(w2 != w as int);
                        assert(seen0[w2]);
                        assert(!stack0.contains(w2 as usize));
                        assert(seen0[rows[w2][k] as int]);
                    }
                }
            }
            j = j + 1;
        }
    }
    proof {
        assert forall|v: usize| v < n implies (seen@[v as int] <==> reachable(rows, s, v)) by {
            if reachable(rows, s, v) {
                let k = choose|k: nat| #[trigger] walk(rows, s, v, k);
                lemma_closed_set_holds_walks(rows, seen@, s, v, k);
            }
        }
    }
    seen
}

/// Whether every vertex can be reached from every vertex: the graphs that
/// `PreComputedGraph::from_adjlist` accepts.
pub fn is_connected(adjacency_list: &AdjacencyList) -> (r: bool)
    requires
        rows_wf(adjacency_rows(*adjacency_list)),
    ensures
        r == connected(adjacency_rows(*adjacency_list)),
{
    let ghost rows = adjacency_rows(*adjacency_list);
    let n = csr_node_count(adjacency_list);
    let mut t: usize = 0;
    while t < n
        invariant
            n == rows.len(),
            rows == adjacency_rows(*adjacency_list),
            rows_wf(rows),
            t <= n,
            forall|a: usize, b: usize| a < t && b < n ==> #[trigger] reachable(rows, a, b),
        decreases n - t,
    {
        let seen = reach_from(adjacency_list, t);
        let mut v: usize = 0;
        while v < n
            invariant
                n == rows.len(),
                rows == adjacency_rows(*adjacency_list),
                t < n,
                seen@.len() == n,
                v <= n,
                forall|b: usize| b < n ==> (seen@[b as int] <==> reachable(rows, t, b)),
                forall|b: usize| b < v ==> #[trigger] reachable(rows, t, b),
            decreases n - v,
        {
            if !seen[v] {
                assert(!reachable(rows, t, v));
                return false;
            }
            v = v + 1;
        }
        t = t + 1;
    }
    true
}

/// Why a graph cannot be prepared for a simulation.
#[derive(Debug, Clone, Copy, PartialEq, Eq)]
pub enum GraphError {
    /// Some vertex lies at distance `u16::MAX` or more from another.
    DistanceOverflow,
    /// Some vertex cannot be reached from another.
    NotConnected,
}

/// The breadth-first search from `t` succeeds and reaches every vertex.
pub open spec fn source_ok(rows: Seq<Seq<usize>>, t: usize) -> bool {
    &&& distances_fit(rows, t)
    &&& forall|u: usize| u < rows.len() ==> #[trigger] reachable(rows, t, u)
}

/// How the breadth-first search from `t` fails.
pub open spec fn source_error(rows: Seq<Seq<usize>>, t: usize) -> GraphError {
    if !distances_fit(rows, t) { GraphError::DistanceOverflow } else { GraphError::NotConnected }
}

/// The path counts and the shortest-path edges towards one destination.
pub struct PathCounts {
    pub sigmas: Vec<BigUint>,
    pub dag_edges: Vec<(usize, usize)>,
}

/// A connected graph with what a simulation asks of it at every step: the
/// neighbours of each vertex, the identifier of each edge and the distance
/// between any two vertices.
pub struct PreComputedGraph {
    adjacency_list: AdjacencyList,
    edge_lookup: HashMap<u128, usize>,
    distances: Vec<Vec<u16>>,
}

impl PreComputedGraph {
    /// The rows of the graph.
    pub closed spec fn rows(&self) -> Seq<Seq<usize>> {
        adjacency_rows(self.adjacency_list)
    }

    /// The distance from `source` to `target`, as stored.
    pub closed spec fn dist(&self, source: usize, target: usize) -> int {
        self.distances@[target as int]@[source as int] as int
    }

    pub closed spec fn wf(&self) -> bool {
        let rows = self.rows();
        let n = rows.len();
        &&& rows_wf(rows)
        &&& self.distances@.len() == n
        &&& forall|t: int| 0 <= t < n ==> (#[trigger] self.distances@[t])@.len() == n
        &&& forall|t: usize, u: usize| t < n && u < n ==> is_distance(rows, t, u, #[trigger] self.distances@[t as int]@[u as int] as nat)
        &&& forall|t: usize, u: usize| t < n && u < n ==> #[trigger] self.distances@[t as int]@[u as int] < u16::MAX
        &&& edge_order(rows).no_duplicates()
        &&& forall|i: int| 0 <= i < edge_order(rows).len() ==> #[trigger] self.edge_lookup@.contains_key(edge_key_of(edge_order(rows)[i]))
            && self.edge_lookup@[edge_key_of(edge_order(rows)[i])] == i
        &&& forall|k: u128| #[trigger] self.edge_lookup@.contains_key(k) ==> exists|i: int| 0 <= i < edge_order(rows).len() && k == edge_key_of(#[trigger] edge_order(rows)[i])
        &&& self.edge_lookup@.len() == edge_order(rows).len()
    }

    /// Every entry of a row of a well-formed graph is a vertex of it.
    pub proof fn lemma_rows_wf(&self)
        requires
            self.wf(),
        ensures
            rows_wf(self.rows()),
    {
    }

    /// Every vertex has a neighbour and none is its own neighbour.
    pub open spec fn every_vertex_has_other_neighbours(&self) -> bool {
        forall|u: int| 0 <= u < self.rows().len() ==> (#[trigger] self.rows()[u]).len() > 0 && !self.rows()[u].contains(u as usize)
    }

    /// `{source, target}` is an edge of the graph.
    pub open spec fn has_edge(&self, source: usize, target: usize) -> bool {
        edge_order(self.rows()).contains(normalized(source, target))
    }

    /// Prepares a connected graph (see `is_connected`) for simulation:
    /// numbers its edges in order of first appearance and runs a
    /// breadth-first search from every vertex. Returns the graph and, for
    /// each destination, the path counts and the edges of its shortest-path
    /// graph; fails at the first destination from which a distance does not
    /// fit below `u16::MAX`.
    #[verifier::spinoff_prover]
    #[verifier::rlimit(40)]
    pub fn from_adjlist(adjacency_list: AdjacencyList) -> (r: Result<(Self, Vec<PathCounts>), GraphError>)
        requires
            rows_wf(adjacency_rows(adjacency_list)),
            connected(adjacency_rows(adjacency_list)),
        ensures
            r is Ok <==> forall|t: usize| t < adjacency_rows(adjacency_list).len() ==> #[trigger] distances_fit(adjacency_rows(adjacency_list), t),
            r matches Err(e) ==> e == GraphError::DistanceOverflow,
            r is Ok <==> forall|t: usize| t < adjacency_rows(adjacency_list).len() ==> #[trigger] source_ok(adjacency_rows(adjacency_list), t),
            r matches Err(e) ==> exists|t: usize| t < adjacency_rows(adjacency_list).len()
                && !#[trigger] source_ok(adjacency_rows(adjacency_list), t)
                && (forall|t2: usize| t2 < t ==> #[trigger] source_ok(adjacency_rows(adjacency_list), t2))
                && e == source_error(adjacency_rows(adjacency_list), t),
            r matches Ok((g, paths)) ==> {
                &&& g.wf()
                &&& g.rows() == adjacency_rows(adjacency_list)
                &&& paths@.len() == g.rows().len()
                &&& forall|t: usize| t < g.rows().len() ==> bfs_result(g.rows(), t, g.distances_from(t),
                    biguint_values((#[trigger] paths@[t as int]).sigmas@), paths@[t as int].dag_edges@)
                &&& rows_distinct(g.rows()) ==> forall|t: int| 0 <= t < paths@.len() ==> (#[trigger] paths@[t]).dag_edges@.no_duplicates()
            },
    {
        broadcast use vstd::std_specs::hash::group_hash_axioms;
        let ghost rows = adjacency_rows(adjacency_list);
        let n = csr_node_count(&adjacency_list);
        let mut edge_lookup: HashMap<u128, usize> = HashMap::new();
        let ghost mut order: Seq<(usize, usize)> = seq![];
        let mut u: usize = 0;
        while u < n
            invariant
                n == rows.len(),
                rows == adjacency_rows(adjacency_list),
                u <= n,
                order == first_occurrences(row_entries(rows.take(u as int))),
                order.no_duplicates(),
                forall|i: int| 0 <= i < order.len() ==> #[trigger] edge_lookup@.contains_key(edge_key_of(order[i]))
                    && edge_lookup@[edge_key_of(order[i])] == i,
                forall|k: u128| #[trigger] edge_lookup@.contains_key(k) ==> exists|i: int| 0 <= i < order.len() && k == edge_key_of(#[trigger] order[i]),
                edge_lookup@.len() == order.len(),
            decreases n - u,
        {
            let nbs = csr_neighbors_slice(&adjacency_list, u);
            let mut j: usize = 0;
            proof {
                assert(rows.take(u + 1).drop_last() =~= rows.take(u as int));
                assert(rows[u as int].take(0).map_values(|v: usize| normalized(u, v)) =~= Seq::<(usize, usize)>::empty());
                assert(row_entries(rows.take(u as int)) + Seq::<(usize, usize)>::empty() =~= row_entries(rows.take(u as int)));
            }
            while j < nbs.len()
                invariant
                    n == rows.len(),
                    rows == adjacency_rows(adjacency_list),
                    u < n,
                    nbs@ == rows[u as int],
                    j <= nbs@.len(),
                    order == first_occurrences(row_entries(rows.take(u as int)) + rows[u as int].take(j as int).map_values(|v: usize| normalized(u, v))),
                    order.no_duplicates(),
                    forall|i: int| 0 <= i < order.len() ==> #[trigger] edge_lookup@.contains_key(edge_key_of(order[i]))
                        && edge_lookup@[edge_key_of(order[i])] == i,
                    forall|k: u128| #[trigger] edge_lookup@.contains_key(k) ==> exists|i: int| 0 <= i < order.len() && k == edge_key_of(#[trigger] order[i]),
                    edge_lookup@.len() == order.len(),
                decreases nbs@.len() - j,
            {
                let v = nbs[j];
                let key = if u < v { edge_key(u, v) } else { edge_key(v, u) };
                let ghost e = normalized(u, v);
                let ghost prev = row_entries(rows.take(u as int)) + rows[u as int].take(j as int).map_values(|v: usize| normalized(u, v));
                proof {
                    assert(row_entries(rows.take(u as int)) + rows[u as int].take(j + 1).map_values(|v: usize| normalized(u, v))
                        =~= prev.push(e));
                    assert(prev.push(e).drop_last() =~= prev);
                    assert(key == edge_key_of(e));
                }
                if !edge_lookup.contains_key(&key) {
                    proof {
                        if order.contains(e) {
                            let i = choose|i: int| 0 <= i < order.len() && order[i] == e;
                            assert(edge_lookup@.contains_key(edge_key_of(order[i])));
                        }
                    }
                    let ghost lk0 = edge_lookup@;
                    let id = edge_lookup.len();
                    edge_lookup.insert(key, id);
                    proof {
                        let order0 = order;
                        order = order.push(e);
                        assert forall|i: int| 0 <= i < order.len() implies #[trigger] edge_lookup@.contains_key(edge_key_of(order[i]))
                            && edge_lookup@[edge_key_of(order[i])] == i by {
                            if i < order0.len() {
                                lemma_edge_key_injective(order0[i], e);
                                assert(order[i] == order0[i]);
                            }
                        }
                        assert forall|k: u128| #[trigger] edge_lookup@.contains_key(k) implies exists|i: int| 0 <= i < order.len() && k == edge_key_of(#[trigger] order[i]) by {
                            if k == key {
                                assert(order[order.len() - 1] == e);
                            } else {
                                assert(lk0.contains_key(k));
                                let i = choose|i: int| 0 <= i < order0.len() && k == edge_key_of(#[trigger] order0[i]);
                                assert(order[i] == order0[i]);
                            }
                        }
                        assert(order.no_duplicates()) by {
                            assert forall|a: int, b: int| 0 <= a < b < order.len() implies order[a] != order[b] by {
                                if b == order.len() - 1 {
                                    assert(order0.contains(order[a]));
                                }
                            }
                        }
                    }
                } else {
                    proof {
                        let i = choose|i: int| 0 <= i < order.len() && key == edge_key_of(#[trigger] order[i]);
                        lemma_edge_key_injective(order[i], e);
                        assert(order.contains(e));
                    }
                }
                j = j + 1;
            }
            proof {
                assert(rows[u as int].take(nbs@.len() as int) =~= rows[u as int]);
                let r1 = rows.take(u + 1);
                assert(r1.drop_last() =~= rows.take(u as int));
                assert(r1.last() == rows[u as int]);
                assert(row_entries(r1) == row_entries(r1.drop_last()) + r1.last().map_values(|v: usize| normalized((r1.len() - 1) as usize, v)));
                assert((r1.len() - 1) as usize == u);
            }
            u = u + 1;
        }
        proof {
            assert(rows.take(n as int) =~= rows);
            lemma_first_occurrences_distinct(row_entries(rows));
        }
        let mut distances: Vec<Vec<u16>> = Vec::new();
        let mut paths: Vec<PathCounts> = Vec::new();
        let mut t: usize = 0;
        while t < n
            invariant
                n == rows.len(),
                rows == adjacency_rows(adjacency_list),
                rows_wf(rows),
                connected(rows),
                t <= n,
                distances@.len() == t,
                paths@.len() == t,
                forall|t2: usize| t2 < t ==> #[trigger] source_ok(rows, t2),
                forall|t2: int| 0 <= t2 < t ==> bfs_result(rows, t2 as usize, (#[trigger] distances@[t2])@,
                    biguint_values(paths@[t2].sigmas@), paths@[t2].dag_edges@),
                rows_distinct(rows) ==> forall|t2: int| 0 <= t2 < t ==> (#[trigger] paths@[t2]).dag_edges@.no_duplicates(),
            decreases n - t,
        {
            match distance_and_sigma_vec(&adjacency_list, t) {
                None => {
                    assert(!source_ok(rows, t));
                    return Err(GraphError::DistanceOverflow);
                },
                Some((d, sigmas, dag_edges)) => {
                    proof {
                        assert forall|w: usize| w < n implies #[trigger] reachable(rows, t, w) by {}
                        assert(source_ok(rows, t));
                    }
                    let ghost dist0 = distances@;
                    let ghost paths0 = paths@;
                    distances.push(d);
                    paths.push(PathCounts { sigmas, dag_edges });
                    proof {
                        assert forall|t2: int| 0 <= t2 < t + 1 implies bfs_result(rows, t2 as usize, (#[trigger] distances@[t2])@,
                            biguint_values(paths@[t2].sigmas@), paths@[t2].dag_edges@) by {
                            if t2 < t {
                                assert(distances@[t2] == dist0[t2]);
                                assert(paths@[t2] == paths0[t2]);
                            }
                        }
                        assert(rows_distinct(rows) ==> forall|t2: int| 0 <= t2 < t + 1 ==> (#[trigger] paths@[t2]).dag_edges@.no_duplicates()) by {
                            if rows_distinct(rows) {
                                assert forall|t2: int| 0 <= t2 < t + 1 implies (#[trigger] paths@[t2]).dag_edges@.no_duplicates() by {
                                    if t2 < t {
                                        assert(paths@[t2] == paths0[t2]);
                                    }
                                }
                            }
                        }
                    }
                },
            }
            t = t + 1;
        }
        let g = PreComputedGraph { adjacency_list, edge_lookup, distances };
        assert(forall|t: usize| t < n ==> #[trigger] distances_fit(rows, t)) by {
            assert forall|t: usize| t < n implies #[trigger] distances_fit(rows, t) by {
                assert(source_ok(rows, t));
            }
        }
        proof {
            assert forall|t: usize, u: usize| t < n && u < n implies is_distance(rows, t, u, #[trigger] g.distances@[t as int]@[u as int] as nat) by {
                assert(source_ok(rows, t));
                assert(bfs_result(rows, t, g.distances@[t as int]@, biguint_values(paths@[t as int].sigmas@), paths@[t as int].dag_edges@));
                assert(reachable(rows, t, u));
            }
            assert forall|t: usize, u: usize| t < n && u < n implies #[trigger] g.distances@[t as int]@[u as int] < u16::MAX by {
                assert(source_ok(rows, t));
                assert(bfs_result(rows, t, g.distances@[t as int]@, biguint_values(paths@[t as int].sigmas@), paths@[t as int].dag_edges@));
                assert(reachable(rows, t, u));
            }
            assert forall|t: usize| t < n implies bfs_result(g.rows(), t, g.distances_from(t),
                biguint_values((#[trigger] paths@[t as int]).sigmas@), paths@[t as int].dag_edges@) by {
                assert(bfs_result(rows, t, g.distances@[t as int]@, biguint_values(paths@[t as int].sigmas@), paths@[t as int].dag_edges@));
            }
        }
        Ok((g, paths))
    }

    /// The distances from `t` to every vertex, as stored.
    pub closed spec fn distances_from(&self, t: usize) -> Seq<u16> {
        self.distances@[t as int]@
    }

    /// What loading an accepted edge-list file `text`, whose edges in both
    /// directions are `v`, gives: `r` is a prepared graph on the rows of `v`
    /// exactly when they form a connected graph whose distances fit, and an
    /// error saying which of the two fails otherwise.
    pub open spec fn loaded_from(text: Seq<u8>, v: Seq<(usize, usize)>, r: Result<(Self, Vec<PathCounts>), LoadError>) -> bool {
        &&& strictly_sorted(v)
        &&& forall|p: (usize, usize)| #[trigger] v.contains(p) <==> in_both_directions(file_edges(text), p)
        &&& (r is Ok <==> connected(rows_of_edges(v))
            && forall|t: usize| t < rows_of_edges(v).len() ==> #[trigger] distances_fit(rows_of_edges(v), t))
        &&& (r matches Err(LoadError::Graph(e)) ==> e == if connected(rows_of_edges(v)) {
            GraphError::DistanceOverflow
        } else {
            GraphError::NotConnected
        })
        &&& (r matches Ok((g, paths)) ==> {
            &&& g.wf()
            &&& g.rows() == rows_of_edges(v)
            &&& symmetric(g.rows())
            &&& loop_free(g.rows())
            &&& rows_distinct(g.rows())
            &&& paths@.len() == g.rows().len()
            &&& forall|t: usize| t < g.rows().len() ==> bfs_result(g.rows(), t, g.distances_from(t),
                biguint_values((#[trigger] paths@[t as int]).sigmas@), paths@[t as int].dag_edges@)
        })
    }

    /// Reads an edge-list file (see `parse_sorted_edges`), builds its
    /// adjacency list, checks that it is connected and prepares it (see
    /// `from_adjlist`); a self-loop line or a disconnected graph is reported
    /// as an error.
    #[verifier::spinoff_prover]
    #[verifier::rlimit(80)]
    pub fn from_edge_list(text: &[u8]) -> (r: Result<(Self, Vec<PathCounts>), LoadError>)
        ensures
            edge_list_error(text@) matches Some(e) ==> r == Err::<(Self, Vec<PathCounts>), LoadError>(LoadError::EdgeList(e)),
            edge_list_error(text@) is None ==> exists|v: Seq<(usize, usize)>| #[trigger] Self::loaded_from(text@, v, r),
            r is Err ==> r matches Err(LoadError::EdgeList(_)) || r matches Err(LoadError::Graph(_)),
    {
        let sorted = match read_sorted_edges(text) {
            Err(e) => {
                return Err(LoadError::EdgeList(e));
            },
            Ok(v) => v,
        };
        proof {
            assert forall|i: int| 0 <= i < sorted@.len() implies (#[trigger] sorted@[i]).0 <= max_vertex_id()
                && sorted@[i].1 <= max_vertex_id() by {
                let p = sorted@[i];
                assert(sorted@.contains(p));
                assert(in_both_directions(file_edges(text@), p));
                let j = choose|j: int| 0 <= j < file_edges(text@).len()
                    && (#[trigger] file_edges(text@)[j] == p || file_edges(text@)[j] == (p.1, p.0));
            }
        }
        let adjacency_list = match csr_from_sorted_edges(sorted.as_slice()) {
            Ok(g) => g,
            Err(_) => {
                return Err(LoadError::EdgeList(EdgeListError::NodeIdTooLarge));
            },
        };
        proof {
            lemma_rows_of_edges_wf(sorted@);
            lemma_accepted_file_has_no_loops(text@);
            assert forall|p: (usize, usize)| #[trigger] sorted@.contains(p) implies sorted@.contains((p.1, p.0)) by {
                assert(in_both_directions(file_edges(text@), p));
                let i = choose|i: int| 0 <= i < file_edges(text@).len()
                    && (#[trigger] file_edges(text@)[i] == p || file_edges(text@)[i] == (p.1, p.0));
                assert(in_both_directions(file_edges(text@), (p.1, p.0)));
            }
            lemma_rows_of_edges_symmetric(sorted@);
            lemma_rows_of_edges_distinct(sorted@);
        }
        if !is_connected(&adjacency_list) {
            let r = Err(LoadError::Graph(GraphError::NotConnected));
            assert(Self::loaded_from(text@, sorted@, r));
            return r;
        }
        let r = match Self::from_adjlist(adjacency_list) {
            Ok(x) => Ok(x),
            Err(e) => Err(LoadError::Graph(e)),
        };
        assert(Self::loaded_from(text@, sorted@, r));
        r
    }

    pub fn node_count(&self) -> (r: usize)
        ensures
            r == self.rows().len(),
    {
        csr_node_count(&self.adjacency_list)
    }

    /// The number of undirected edges.
    pub fn edge_count(&self) -> (r: usize)
        requires
            self.wf(),
        ensures
            r == edge_order(self.rows()).len(),
    {
        broadcast use vstd::std_specs::hash::group_hash_axioms;
        self.edge_lookup.len()
    }

    pub fn neighbors_slice(&self, source: usize) -> (r: &[usize])
        requires
            source < self.rows().len(),
        ensures
            r@ == self.rows()[source as int],
    {
        csr_neighbors_slice(&self.adjacency_list, source)
    }

    /// The length of a shortest path between `source` and `target`, going
    /// out from `target` along the rows.
    pub fn get_distance(&self, source: usize, target: usize) -> (r: u16)
        requires
            self.wf(),
            source < self.rows().len(),
            target < self.rows().len(),
        ensures
            r == self.dist(source, target),
            is_distance(self.rows(), target, source, r as nat),
            r < u16::MAX,
    {
        self.distances[target][source]
    }

    /// The identifier of the edge `{source, target}`, if the graph has it.
    pub fn find_edge_id(&self, source: usize, target: usize) -> (r: Option<usize>)
        requires
            self.wf(),
        ensures
            r is Some <==> self.has_edge(source, target),
            r matches Some(id) ==> id < edge_order(self.rows()).len() && edge_order(self.rows())[id as int] == normalized(source, target),
    {
        broadcast use vstd::std_specs::hash::group_hash_axioms;
        let key = if source > target { edge_key(target, source) } else { edge_key(source, target) };
        let ghost e = normalized(source, target);
        let ghost order = edge_order(self.rows());
        assert(key == edge_key_of(e));
        match self.edge_lookup.get(&key) {
            Some(id) => {
                proof {
                    let i = choose|i: int| 0 <= i < order.len() && key == edge_key_of(#[trigger] order[i]);
                    lemma_edge_key_injective(order[i], e);
                    assert(order.contains(e));
                }
                Some(*id)
            },
            None => {
                proof {
                    if order.contains(e) {
                        let i = choose|i: int| 0 <= i < order.len() && order[i] == e;
                        assert(self.edge_lookup@.contains_key(edge_key_of(order[i])));
                    }
                }
                None
            },
        }
    }

    /// The identifier of the edge `{source, target}`.
    pub fn get_edge_id(&self, source: usize, target: usize) -> (r: usize)
        requires
            self.wf(),
            self.has_edge(source, target),
        ensures
            r < edge_order(self.rows()).len(),
            edge_order(self.rows())[r as int] == normalized(source, target),
    {
        match self.find_edge_id(source, target) {
            Some(id) => id,
            None => 0,
        }
    }
}

/// The choice, for a message at `source` bound for `destination`, of the
/// neighbour it moves to along a shortest path. The choice is drawn with the
/// weights of the shortest-path graph, which are floating-point numbers, so
/// the library states of it only that it is one of the sampler's answers for
/// that vertex and destination, and checks what it receives.
pub trait CloserNeighborSampler {
    /// `next` is an answer the sampler may give for a message at `source`
    /// bound for `destination`.
    spec fn answers(&self, source: usize, destination: usize, next: usize) -> bool;

    fn sample_closer_neighbor(&self, source: usize, destination: usize, rng: &mut Pcg64) -> (next: usize)
        requires
            source != destination,
        ensures
            self.answers(source, destination, next),
    ;
}

proof fn lemma_row_entries_contains(rows: Seq<Seq<usize>>, u: int, j: int)
    requires
        0 <= u < rows.len(),
        0 <= j < rows[u].len(),
    ensures
        row_entries(rows).contains(normalized(u as usize, rows[u][j])),
    decreases rows.len(),
{
    let last = rows.last().map_values(|v: usize| normalized((rows.len() - 1) as usize, v));
    if u == rows.len() - 1 {
        assert((row_entries(rows.drop_last()) + last)[row_entries(rows.drop_last()).len() + j] == normalized(u as usize, rows[u][j]));
    } else {
        lemma_row_entries_contains(rows.drop_last(), u, j);
        let k = choose|k: int| 0 <= k < row_entries(rows.drop_last()).len() && row_entries(rows.drop_last())[k] == normalized(u as usize, rows[u][j]);
        assert((row_entries(rows.drop_last()) + last)[k] == normalized(u as usize, rows[u][j]));
    }
}

proof fn lemma_row_entries_bounded(rows: Seq<Seq<usize>>, m: int)
    requires
        rows.len() <= m,
        forall|u: int, i: int| 0 <= u < rows.len() && 0 <= i < rows[u].len() ==> #[trigger] rows[u][i] < m,
    ensures
        forall|k: int| 0 <= k < row_entries(rows).len() ==> (#[trigger] row_entries(rows)[k]).0 < m && row_entries(rows)[k].1 < m,
    decreases rows.len(),
{
    if rows.len() > 0 {
        let d = rows.drop_last();
        assert forall|u: int, i: int| 0 <= u < d.len() && 0 <= i < d[u].len() implies #[trigger] d[u][i] < m by {
            assert(d[u] == rows[u]);
        }
        lemma_row_entries_bounded(d, m);
        let last = rows.last().map_values(|v: usize| normalized((rows.len() - 1) as usize, v));
        assert forall|k: int| 0 <= k < row_entries(rows).len() implies (#[trigger] row_entries(rows)[k]).0 < m && row_entries(rows)[k].1 < m by {
            if k >= row_entries(d).len() {
                let j = k - row_entries(d).len();
                assert(rows[rows.len() - 1][j] < m);
                assert(row_entries(rows)[k] == last[j]);
            } else {
                assert(row_entries(rows)[k] == row_entries(d)[k]);
            }
        }
    }
}

impl PreComputedGraph {
    /// Both ends of an edge are vertices of the graph.
    pub proof fn lemma_edge_endpoints(&self, u: usize, v: usize)
        requires
            self.wf(),
            self.has_edge(u, v),
        ensures
            u < self.rows().len(),
            v < self.rows().len(),
    {
        let rows = self.rows();
        lemma_first_occurrences_distinct(row_entries(rows));
        lemma_row_entries_bounded(rows, rows.len() as int);
        let e = normalized(u, v);
        assert(row_entries(rows).contains(e));
        let k = choose|k: int| 0 <= k < row_entries(rows).len() && row_entries(rows)[k] == e;
        assert(row_entries(rows)[k].0 < rows.len());
    }

    /// Every entry of a row stands for an edge of the graph.
    pub proof fn lemma_row_entry_is_edge(&self, u: usize, v: usize)
        requires
            u < self.rows().len(),
            self.rows()[u as int].contains(v),
        ensures
            self.has_edge(u, v),
    {
        let j = choose|j: int| 0 <= j < self.rows()[u as int].len() && self.rows()[u as int][j] == v;
        lemma_row_entries_contains(self.rows(), u as int, j);
        lemma_first_occurrences_distinct(row_entries(self.rows()));
    }

    /// No distance is negative.
    pub proof fn lemma_distance_nonnegative(&self, u: usize, t: usize)
        ensures
            self.dist(u, t) >= 0,
    {
    }

    /// A vertex is at distance zero from itself, and from no other vertex.
    pub proof fn lemma_distance_zero_exactly_to_itself(&self, u: usize, t: usize)
        requires
            self.wf(),
            u < self.rows().len(),
            t < self.rows().len(),
        ensures
            self.dist(u, t) == 0 <==> u == t,
    {
        let rows = self.rows();
        let d = self.distances@[t as int]@[u as int] as nat;
        assert(is_distance(rows, t, u, d));
        if u == t {
            lemma_walk_start(rows, t);
            assert(walk(rows, t, u, 0));
        }
        if d == 0 {
            let p = choose|p: Seq<usize>| #[trigger] is_walk(rows, p) && p.len() == 1 && p[0] == t && p[p.len() - 1] == u;
        }
    }

    /// Triangle inequality: going from `k` to `j` through `i` is never
    /// shorter than going there directly.
    pub proof fn lemma_triangle_inequality(&self, i: usize, j: usize, k: usize)
        requires
            self.wf(),
            i < self.rows().len(),
            j < self.rows().len(),
            k < self.rows().len(),
        ensures
            self.dist(i, j) <= self.dist(i, k) + self.dist(k, j),
    {
        let rows = self.rows();
        let a = self.distances@[j as int]@[k as int] as nat;
        let b = self.distances@[k as int]@[i as int] as nat;
        let d = self.distances@[j as int]@[i as int] as nat;
        assert(is_distance(rows, j, k, a));
        assert(is_distance(rows, k, i, b));
        assert(is_distance(rows, j, i, d));
        lemma_walk_concat(rows, j, k, i, a, b);
        if d > a + b {
            assert(!walk(rows, j, i, a + b));
        }
    }

    /// In an undirected graph the distance from `u` to `v` is the distance
    /// from `v` to `u`.
    pub proof fn lemma_distance_symmetric(&self, u: usize, v: usize)
        requires
            self.wf(),
            symmetric(self.rows()),
            u < self.rows().len(),
            v < self.rows().len(),
        ensures
            self.dist(u, v) == self.dist(v, u),
    {
        let rows = self.rows();
        let d1 = self.distances@[v as int]@[u as int] as nat;
        let d2 = self.distances@[u as int]@[v as int] as nat;
        assert(is_distance(rows, v, u, d1));
        assert(is_distance(rows, u, v, d2));
        lemma_walk_reverse(rows, v, u, d1);
        lemma_walk_reverse(rows, u, v, d2);
        if d1 < d2 {
            assert(!walk(rows, u, v, d1));
        }
        if d2 < d1 {
            assert(!walk(rows, v, u, d2));
        }
    }

    /// Neighbours lie at distances from any vertex `t` that differ by at
    /// most one.
    pub proof fn lemma_neighbour_distances(&self, u: usize, w: usize, t: usize)
        requires
            self.wf(),
            symmetric(self.rows()),
            u < self.rows().len(),
            t < self.rows().len(),
            self.rows()[u as int].contains(w),
        ensures
            w < self.rows().len(),
            self.dist(w, t) <= self.dist(u, t) + 1,
            self.dist(u, t) <= self.dist(w, t) + 1,
    {
        let rows = self.rows();
        let m = choose|m: int| 0 <= m < rows[u as int].len() && rows[u as int][m] == w;
        assert(rows[u as int][m] < rows.len());
        assert(rows[rows[u as int][m] as int].contains(u));
        let du = self.distances@[t as int]@[u as int] as nat;
        let dw = self.distances@[t as int]@[w as int] as nat;
        assert(is_distance(rows, t, u, du));
        assert(is_distance(rows, t, w, dw));
        lemma_walk_step(rows, t, u, w, du);
        lemma_walk_step(rows, t, w, u, dw);
        if dw > du + 1 {
            assert(!walk(rows, t, w, du + 1));
        }
        if du > dw + 1 {
            assert(!walk(rows, t, u, dw + 1));
        }
    }

    /// In an undirected graph, every vertex other than `t` has a neighbour
    /// one step closer to `t`: a message routed along shortest paths can
    /// always move on.
    pub proof fn lemma_closer_neighbour_exists(&self, u: usize, t: usize)
        requires
            self.wf(),
            symmetric(self.rows()),
            u < self.rows().len(),
            t < self.rows().len(),
            u != t,
        ensures
            exists|w: usize| #[trigger] self.rows()[u as int].contains(w) && self.dist(w, t) + 1 == self.dist(u, t),
    {
        let rows = self.rows();
        let du = self.distances@[t as int]@[u as int] as nat;
        assert(is_distance(rows, t, u, du));
        self.lemma_distance_zero_exactly_to_itself(u, t);
        lemma_walk_unfold(rows, t, u, du);
        let w = choose|w: usize| w < rows.len() && #[trigger] walk(rows, t, w, (du - 1) as nat) && rows[w as int].contains(u);
        let m = choose|m: int| 0 <= m < rows[w as int].len() && rows[w as int][m] == u;
        assert(rows[rows[w as int][m] as int].contains(w));
        self.lemma_neighbour_distances(u, w, t);
        let dw = self.distances@[t as int]@[w as int] as nat;
        assert(is_distance(rows, t, w, dw));
        if dw > du - 1 {
            assert(!walk(rows, t, w, (du - 1) as nat));
        }
    }

    /// In a connected undirected graph without loops and with two vertices or
    /// more, every vertex has a neighbour other than itself.
    pub proof fn lemma_every_vertex_has_other_neighbours(&self)
        requires
            self.wf(),
            symmetric(self.rows()),
            loop_free(self.rows()),
            self.rows().len() >= 2,
        ensures
            self.every_vertex_has_other_neighbours(),
    {
        let rows = self.rows();
        assert(self.distances.len() == rows.len());
        assert forall|u: int| 0 <= u < rows.len() implies (#[trigger] rows[u]).len() > 0 && !rows[u].contains(u as usize) by {
            let uu = u as usize;
            let t: usize = if uu == 0 { 1 } else { 0 };
            assert(uu != t && t < rows.len());
            self.lemma_closer_neighbour_exists(uu, t);
            let w = choose|w: usize| #[trigger] rows[uu as int].contains(w) && self.dist(w, t) + 1 == self.dist(uu, t);
            assert(rows[u].contains(w));
            assert(!rows[u].contains(uu));
        }
    }
}

/// Why an edge-list file cannot be turned into a graph ready for simulation.
#[derive(Debug, Clone, Copy, PartialEq, Eq)]
pub enum LoadError {
    EdgeList(EdgeListError),
    Graph(GraphError),
}

proof fn lemma_max_endpoint(edges: Seq<(usize, usize)>)
    ensures
        forall|k: int| 0 <= k < edges.len() ==> (#[trigger] edges[k]).0 <= max_endpoint(edges) && edges[k].1 <= max_endpoint(edges),
        max_endpoint(edges) <= usize::MAX,
    decreases edges.len(),
{
    if edges.len() > 0 {
        lemma_max_endpoint(edges.drop_last());
        assert forall|k: int| 0 <= k < edges.len() implies (#[trigger] edges[k]).0 <= max_endpoint(edges) && edges[k].1 <= max_endpoint(edges) by {
            if k < edges.len() - 1 {
                assert(edges.drop_last()[k] == edges[k]);
            }
        }
    }
}

proof fn lemma_rows_of_edges_contains(edges: Seq<(usize, usize)>)
    ensures
        forall|u: int, w: usize| 0 <= u < rows_of_edges(edges).len() ==>
            (#[trigger] rows_of_edges(edges)[u].contains(w) <==> edges.contains((u as usize, w))),
{
    broadcast use vstd::seq_lib::group_seq_properties;
    lemma_max_endpoint(edges);
    let rows = rows_of_edges(edges);
    assert forall|u: int, w: usize| 0 <= u < rows.len() implies (#[trigger] rows[u].contains(w) <==> edges.contains((u as usize, w))) by {
        let pred = |e: (usize, usize)| e.0 == u;
        let f = edges.filter(pred);
        assert(rows[u] == f.map_values(|e: (usize, usize)| e.1));
        if rows[u].contains(w) {
            let i = choose|i: int| 0 <= i < rows[u].len() && rows[u][i] == w;
            assert(f.contains(f[i]));
            edges.lemma_filter_contains_rev(pred, f[i]);
            assert(f[i] == (u as usize, w));
        }
        if edges.contains((u as usize, w)) {
            let k = choose|k: int| 0 <= k < edges.len() && edges[k] == (u as usize, w);
            assert(edges[k].0 <= max_endpoint(edges));
            edges.lemma_filter_contains(pred, k);
            let j = choose|j: int| 0 <= j < f.len() && f[j] == (u as usize, w);
            assert(rows[u][j] == w);
        }
    }
}

/// The graph built from a list that holds each of its pairs in both
/// directions is undirected; it has no loops when the list has none.
proof fn lemma_rows_of_edges_symmetric(edges: Seq<(usize, usize)>)
    requires
        forall|p: (usize, usize)| #[trigger] edges.contains(p) ==> edges.contains((p.1, p.0)),
    ensures
        symmetric(rows_of_edges(edges)),
        (forall|p: (usize, usize)| #[trigger] edges.contains(p) ==> p.0 != p.1) ==> loop_free(rows_of_edges(edges)),
{
    lemma_rows_of_edges_wf(edges);
    lemma_rows_of_edges_contains(edges);
    let rows = rows_of_edges(edges);
    assert forall|u: int, i: int| 0 <= u < rows.len() && 0 <= i < rows[u].len()
        implies rows[#[trigger] rows[u][i] as int].contains(u as usize) by {
        let w = rows[u][i];
        assert(rows[u].contains(w));
        assert(edges.contains((w, u as usize)));
        assert(rows[w as int].contains(u as usize));
    }
    if forall|p: (usize, usize)| #[trigger] edges.contains(p) ==> p.0 != p.1 {
        assert forall|u: int| 0 <= u < rows.len() implies !(#[trigger] rows[u]).contains(u as usize) by {
            assert(!edges.contains((u as usize, u as usize)));
        }
    }
}

proof fn lemma_filter_strictly_sorted(edges: Seq<(usize, usize)>, pred: spec_fn((usize, usize)) -> bool)
    requires
        strictly_sorted(edges),
    ensures
        strictly_sorted(edges.filter(pred)),
    decreases edges.len(),
{
    broadcast use vstd::seq_lib::group_seq_properties;
    reveal(Seq::filter);
    if edges.len() > 0 {
        let d = edges.drop_last();
        assert forall|i: int, j: int| 0 <= i < j < d.len() implies #[trigger] pair_lt(d[i], d[j]) by {
            assert(d[i] == edges[i] && d[j] == edges[j]);
        }
        lemma_filter_strictly_sorted(d, pred);
        let f = d.filter(pred);
        if pred(edges.last()) {
            let g = f.push(edges.last());
            assert(edges.filter(pred) == g);
            assert forall|i: int, j: int| 0 <= i < j < g.len() implies #[trigger] pair_lt(g[i], g[j]) by {
                if j == g.len() - 1 {
                    assert(f.contains(g[i]));
                    d.lemma_filter_contains_rev(pred, g[i]);
                    let k = choose|k: int| 0 <= k < d.len() && d[k] == g[i];
                    assert(pair_lt(edges[k], edges[edges.len() - 1]));
                } else {
                    assert(pair_lt(f[i], f[j]));
                }
            }
        }
    }
}

/// The graph built from a strictly sorted list has no parallel edges.
proof fn lemma_rows_of_edges_distinct(edges: Seq<(usize, usize)>)
    requires
        strictly_sorted(edges),
    ensures
        rows_distinct(rows_of_edges(edges)),
{
    broadcast use vstd::seq_lib::group_seq_properties;
    let rows = rows_of_edges(edges);
    assert forall|u: int| 0 <= u < rows.len() implies (#[trigger] rows[u]).no_duplicates() by {
        let pred = |e: (usize, usize)| e.0 == u;
        let f = edges.filter(pred);
        assert(rows[u] == f.map_values(|e: (usize, usize)| e.1));
        lemma_filter_strictly_sorted(edges, pred);
        assert forall|a: int, b: int| 0 <= a < b < rows[u].len() implies rows[u][a] != rows[u][b] by {
            assert(f.contains(f[a]) && f.contains(f[b]));
            edges.lemma_filter_pred(pred, a);
            edges.lemma_filter_pred(pred, b);
            assert(pair_lt(f[a], f[b]));
        }
    }
}

proof fn lemma_rows_of_edges_wf(edges: Seq<(usize, usize)>)
    ensures
        rows_wf(rows_of_edges(edges)),
{
    broadcast use vstd::seq_lib::group_seq_properties;
    lemma_max_endpoint(edges);
    let rows = rows_of_edges(edges);
    assert forall|u: int, i: int| 0 <= u < rows.len() && 0 <= i < rows[u].len() implies #[trigger] rows[u][i] < rows.len() by {
        let pred = |e: (usize, usize)| e.0 == u;
        let f = edges.filter(pred);
        assert(rows[u] == f.map_values(|e: (usize, usize)| e.1));
        assert(f.contains(f[i]));
        edges.lemma_filter_contains_rev(pred, f[i]);
        let k = choose|k: int| 0 <= k < edges.len() && edges[k] == f[i];
        assert(edges[k].1 <= max_endpoint(edges));
    }
}

} // verus!
