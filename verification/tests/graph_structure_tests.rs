use graph_traffic::edge_list::{parse_sorted_edges, self_loop_line, EdgeListError};
use graph_traffic::graph_structure::{distance_and_sigma_vec, is_connected, AdjacencyList, GraphError, LoadError, PreComputedGraph};
use num_bigint::BigUint;
use petgraph::csr::Csr;
use std::collections::BTreeSet;

fn adjacency_list(undirected_edges: &[(usize, usize)]) -> AdjacencyList {
    let mut edges: Vec<(usize, usize)> = Vec::new();
    for &(u, v) in undirected_edges {
        edges.push((u, v));
        edges.push((v, u));
    }
    edges.sort_unstable();
    edges.dedup();
    Csr::from_sorted_edges(&edges).unwrap()
}

fn grid_edges(rows: usize, cols: usize) -> Vec<(usize, usize)> {
    let mut edges = Vec::new();
    for r in 0..rows {
        for c in 0..cols {
            let id = r * cols + c;
            if c + 1 < cols {
                edges.push((id, id + 1));
            }
            if r + 1 < rows {
                edges.push((id, id + cols));
            }
        }
    }
    edges
}

fn path_edges(n: usize) -> Vec<(usize, usize)> {
    (1..n).map(|i| (i - 1, i)).collect()
}

fn star_edges(n: usize) -> Vec<(usize, usize)> {
    (1..n).map(|i| (0, i)).collect()
}

fn growing_edges(n: usize) -> Vec<(usize, usize)> {
    let mut set = BTreeSet::new();
    for u in 0..4usize {
        for v in (u + 1)..4 {
            set.insert((u, v));
        }
    }
    for k in 4..n {
        for target in [k - 1, k / 2, (k * 7) % k.max(1), (k * 13 + 5) % k] {
            if target != k {
                set.insert((target.min(k), target.max(k)));
            }
        }
    }
    set.into_iter().collect()
}

fn edge_list_text(n: usize, edges: &[(usize, usize)]) -> String {
    let mut text = format!("{}\n{}\n", n, edges.len());
    for (u, v) in edges {
        text.push_str(&format!("{} {}\n", u, v));
    }
    text
}

fn have_distance_matrix_proprieties(d: &Vec<Vec<u16>>) -> bool {
    let n = d.len();
    for i in 0..n {
        if d[i][i] != 0 {
            return false;
        }
    }
    for i in 0..n {
        for j in 0..n {
            if d[i][j] != d[j][i] {
                return false;
            }
        }
    }
    for i in 0..n {
        for j in 0..n {
            for k in 0..n {
                if d[i][j] > d[i][k] + d[k][j] {
                    return false;
                }
            }
        }
    }
    true
}

fn reference_distances(n: usize, edges: &[(usize, usize)]) -> Vec<Vec<u16>> {
    let inf = u16::MAX / 2;
    let mut d = vec![vec![inf; n]; n];
    for i in 0..n {
        d[i][i] = 0;
    }
    for &(u, v) in edges {
        d[u][v] = 1;
        d[v][u] = 1;
    }
    for k in 0..n {
        for i in 0..n {
            for j in 0..n {
                if d[i][k] + d[k][j] < d[i][j] {
                    d[i][j] = d[i][k] + d[k][j];
                }
            }
        }
    }
    d
}

#[test]
fn test_compare_distances_with_petgraph_algorithms() {
    let test_cases: Vec<(usize, Vec<(usize, usize)>)> = vec![
        (100, grid_edges(10, 10)),
        (10, path_edges(10)),
        (100, star_edges(100)),
        (50, growing_edges(50)),
    ];

    for (n, edges) in test_cases {
        let (cache, _) = PreComputedGraph::from_adjlist(adjacency_list(&edges)).unwrap();
        assert_eq!(cache.node_count(), n);
        let d_matrix: Vec<Vec<u16>> = (0..n).map(|i| (0..n).map(|j| cache.get_distance(i, j)).collect()).collect();
        assert!(have_distance_matrix_proprieties(&d_matrix));

        let expected_dists = reference_distances(n, &edges);
        for i in 0..n {
            for j in 0..n {
                assert_eq!(
                    d_matrix[i][j], expected_dists[i][j],
                    "Distance mismatch between node {} and {}",
                    i, j
                );
            }
        }
    }
}

#[test]
fn test_sigma_calculation_grid_graph() {
    let rows = 10;
    let cols = 10;
    let graph = adjacency_list(&grid_edges(rows, cols));
    let (_, sigmas, _) = distance_and_sigma_vec(&graph, 0).unwrap();
    for r in 0..rows {
        for c in 0..cols {
            let node_idx = r * cols + c;
            let n = r + c;
            let k = r;
            let mut expected_sigma = BigUint::from(1u32);
            for i in 0..k {
                expected_sigma = (expected_sigma * (n - i)) / (i + 1);
            }

            assert_eq!(sigmas[node_idx], expected_sigma);
        }
    }
}

#[test]
fn test_new_from_edgelist_with_temp_file() {
    let text = b"3\n2\n0 1\n1 2\n";
    let (graph, _) = PreComputedGraph::from_edge_list(text).unwrap();
    assert_eq!(graph.node_count(), 3);
    assert_eq!(graph.edge_count(), 2);
    assert_eq!(graph.get_edge_id(0, 1), 0);
    assert_eq!(graph.get_edge_id(1, 2), 1);
}

#[test]
fn edge_ids_follow_first_appearance_in_either_direction() {
    let text = b"4\n4\n2 3\n0 1\n1 2\n3 0\n";
    let (graph, _) = PreComputedGraph::from_edge_list(text).unwrap();
    assert_eq!(graph.edge_count(), 4);
    assert_eq!(graph.get_edge_id(0, 1), 0);
    assert_eq!(graph.get_edge_id(1, 0), 0);
    assert_eq!(graph.get_edge_id(0, 3), 1);
    assert_eq!(graph.get_edge_id(1, 2), 2);
    assert_eq!(graph.get_edge_id(2, 3), 3);
    assert_eq!(graph.find_edge_id(0, 2), None);
    assert_eq!(graph.neighbors_slice(0), &[1, 3]);
}

#[test]
fn distances_on_a_cycle() {
    let text = edge_list_text(6, &[(0, 1), (1, 2), (2, 3), (3, 4), (4, 5), (5, 0)]);
    let (graph, paths) = PreComputedGraph::from_edge_list(text.as_bytes()).unwrap();
    assert_eq!(graph.get_distance(0, 3), 3);
    assert_eq!(graph.get_distance(1, 5), 2);
    assert_eq!(graph.get_distance(4, 4), 0);
    // Two shortest paths lead from 0 to the opposite vertex 3.
    assert_eq!(paths[0].sigmas[3], BigUint::from(2u32));
    assert_eq!(paths[0].sigmas[1], BigUint::from(1u32));
    // Every vertex but the destination has an edge of the shortest-path graph.
    for v in 1..6 {
        assert!(paths[0].dag_edges.iter().any(|&(w, _)| w == v));
    }
    assert!(paths[0].dag_edges.iter().all(|&(w, _)| w != 0));
    assert!(paths[0].dag_edges.contains(&(3, 2)));
    assert!(paths[0].dag_edges.contains(&(3, 4)));
    // Each edge of the shortest-path graph leads one step closer.
    for &(w, v) in &paths[0].dag_edges {
        assert_eq!(graph.get_distance(w, 0), graph.get_distance(v, 0) + 1);
    }
}

#[test]
fn parallel_edges_and_reversed_duplicates_count_once() {
    let text = b"3\n4\n0 1\n1 0\n0 1\n1 2\n";
    let (graph, _) = PreComputedGraph::from_edge_list(text).unwrap();
    assert_eq!(graph.edge_count(), 2);
    assert_eq!(graph.neighbors_slice(1), &[0, 2]);
}

#[test]
fn disconnected_graph_is_refused() {
    let text = b"4\n2\n0 1\n2 3\n";
    let r = PreComputedGraph::from_edge_list(text);
    assert!(matches!(r, Err(LoadError::Graph(GraphError::NotConnected))));
}

#[test]
fn unreached_vertices_have_no_distance_and_no_paths() {
    let graph = adjacency_list(&[(0, 1), (2, 3)]);
    let (d, sigmas, dag) = distance_and_sigma_vec(&graph, 0).unwrap();
    assert_eq!(d, vec![0, 1, u16::MAX, u16::MAX]);
    assert_eq!(sigmas[2], BigUint::from(0u32));
    assert_eq!(dag, vec![(1, 0)]);
    assert!(!is_connected(&graph));
}

#[test]
fn edge_list_errors_name_the_faulty_part() {
    assert_eq!(parse_sorted_edges(b"").unwrap_err(), EdgeListError::NumberOfVertices);
    assert_eq!(parse_sorted_edges(b"three\n2\n").unwrap_err(), EdgeListError::NumberOfVertices);
    assert_eq!(parse_sorted_edges(b"3\n").unwrap_err(), EdgeListError::NumberOfEdges);
    assert_eq!(parse_sorted_edges(b"3\n-2\n0 1\n").unwrap_err(), EdgeListError::NumberOfEdges);
    assert_eq!(parse_sorted_edges(b"3\n2\n0 1\n1 x\n").unwrap_err(), EdgeListError::NodeId { line: 3 });
    assert_eq!(parse_sorted_edges(b"3\n2\n0 1\n\n").unwrap_err(), EdgeListError::NodeId { line: 3 });
    assert_eq!(self_loop_line(b"3\n2\n2 2\n0 1\n"), Some(2));
    assert_eq!(
        parse_sorted_edges(b"3\n1\n0 18446744073709551615\n").unwrap_err(),
        EdgeListError::NodeIdTooLarge
    );
    assert_eq!(
        parse_sorted_edges(b"3\n1\n1152921504606846976 0\n").unwrap_err(),
        EdgeListError::NodeIdTooLarge
    );
    assert_eq!(
        parse_sorted_edges(b"3\n1\n0 18446744073709551616\n").unwrap_err(),
        EdgeListError::NodeId { line: 2 }
    );
    assert!(matches!(
        PreComputedGraph::from_edge_list(b"3\n2\n1 1\n"),
        Err(LoadError::EdgeList(EdgeListError::SelfLoop { line: 2 }))
    ));
}

#[test]
fn edge_list_is_sorted_in_both_directions() {
    let edges = parse_sorted_edges(b"3\n3\n  2   1 \n0\t1\n1 2\n").unwrap();
    assert_eq!(edges, vec![(0, 1), (1, 0), (1, 2), (2, 1)]);
    let edges = parse_sorted_edges(b"2\n0\n").unwrap();
    assert!(edges.is_empty());
    let edges = parse_sorted_edges(b"2\n1\n+0 1 extra words\n").unwrap();
    assert_eq!(edges, vec![(0, 1), (1, 0)]);
}

#[test]
fn parse_sorted_edges_splits_on_unicode_white_space() {
    let text = "3\u{2003}\n2\n0\u{00A0}1\n1\u{3000}2\u{0085}\n";
    assert_eq!(
        parse_sorted_edges(text.as_bytes()).unwrap(),
        vec![(0, 1), (1, 0), (1, 2), (2, 1)]
    );
    let text = "2\n1\n\u{205F}0\u{2028}1\n";
    assert_eq!(parse_sorted_edges(text.as_bytes()).unwrap(), vec![(0, 1), (1, 0)]);
}

#[test]
fn parse_sorted_edges_refuses_other_characters_inside_numbers() {
    let text = "2\n1\n0\u{00E9}1\n";
    assert_eq!(parse_sorted_edges(text.as_bytes()).unwrap_err(), EdgeListError::NodeId { line: 2 });
}

#[test]
fn connectivity_is_checked_in_both_directions() {
    assert!(is_connected(&adjacency_list(&[(0, 1), (1, 2)])));
    assert!(!is_connected(&adjacency_list(&[(0, 1), (2, 3)])));
    // A row list where 1 reaches 0 but 0 reaches nothing.
    let one_way: AdjacencyList = Csr::from_sorted_edges(&[(1, 0)]).unwrap();
    assert!(!is_connected(&one_way));
}

#[test]
fn self_loop_line_finds_the_first_bad_line_only() {
    assert_eq!(self_loop_line(b"3\n2\n0 1\n1 1\n"), Some(3));
    assert_eq!(self_loop_line(b"3\n2\n0 1\n1 2\n"), None);
    // A line that is not an edge comes first: that is the refusal, not the loop.
    assert_eq!(self_loop_line(b"3\n2\nx\n1 1\n"), None);
    assert_eq!(parse_sorted_edges(b"3\n2\nx\n1 1\n").unwrap_err(), EdgeListError::NodeId { line: 2 });
}
