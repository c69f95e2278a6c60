use centrality::Graph;
use centrality::GraphError;
use centrality::bfs;

//test for graph construction
#[test]
fn test_graph_construction() {
    let edges = vec![(0, 1), (1, 2), (2, 0)];
    let graph = Graph::create_directed(3, &edges).unwrap();

    assert_eq!(graph.outedges[0], vec![1]);
    assert_eq!(graph.outedges[1], vec![2]);
    assert_eq!(graph.outedges[2], vec![0]);

    assert_eq!(graph.inedges[0], vec![2]);
    assert_eq!(graph.inedges[1], vec![0]);
    assert_eq!(graph.inedges[2], vec![1]);
}

//check to make sure in and out degrees are calculated correctly
#[test]
fn test_degree_centrality() {
    let edges = vec![(0, 1), (0, 2), (2, 1)];
    let graph = Graph::create_directed(3, &edges).unwrap();
    let (in_deg, out_deg) = Graph::degree_centrality(&graph, &edges);

    assert_eq!(out_deg, vec![2, 0, 1]);
    assert_eq!(in_deg, vec![0, 2, 1]);
}

//check to make sure bfs returns the right distance
#[test]
fn test_bfs() {
    let edges = vec![(0, 1), (1, 2)];
    let graph = Graph::create_directed(3, &edges).unwrap();
    let distances = bfs(0, &graph.outedges);

    assert_eq!(distances[0], Some(0));
    assert_eq!(distances[1], Some(1));
    assert_eq!(distances[2], Some(2));
}

#[test]
fn test_out_of_range_vertex_rejected() {
    let edges = vec![(0, 3)];
    let r = Graph::create_directed(3, &edges);
    assert_eq!(r.unwrap_err(), GraphError::OutOfRangeVertex);
    let r2 = Graph::create_directed(0, &vec![(0, 0)]);
    assert!(r2.is_err());
}

#[test]
fn test_empty_graph() {
    let edges: Vec<(usize, usize)> = vec![];
    let graph = Graph::create_directed(0, &edges).unwrap();
    assert_eq!(graph.n, 0);
    assert!(graph.outedges.is_empty());
    assert!(graph.inedges.is_empty());
}

// Parallel edges and self-loops are kept with their multiplicity, and each
// adjacency list comes out ascending.
#[test]
fn test_parallel_edges_and_self_loops() {
    let edges = vec![(1, 0), (0, 1), (0, 1), (1, 1), (0, 0)];
    let graph = Graph::create_directed(2, &edges).unwrap();
    assert_eq!(graph.outedges[0], vec![0, 1, 1]);
    assert_eq!(graph.outedges[1], vec![0, 1]);
    assert_eq!(graph.inedges[0], vec![0, 1]);
    assert_eq!(graph.inedges[1], vec![0, 0, 1]);
}

// Degree conservation: both degree vectors add up to the edge count.
#[test]
fn test_degree_sums_match_edge_count() {
    let edges = vec![(0, 1), (0, 2), (2, 1), (3, 3), (1, 0), (2, 0)];
    let graph = Graph::create_directed(4, &edges).unwrap();
    let (in_deg, out_deg) = Graph::degree_centrality(&graph, &edges);
    let total_out: usize = out_deg.iter().sum();
    let total_in: usize = in_deg.iter().sum();
    assert_eq!(total_out, edges.len());
    assert_eq!(total_in, edges.len());
}

// The dual adjacency structures agree on every edge's multiplicity.
#[test]
fn test_in_out_multiplicity_agrees() {
    let edges = vec![(0, 1), (0, 1), (1, 0), (2, 1), (2, 2)];
    let graph = Graph::create_directed(3, &edges).unwrap();
    for u in 0..3 {
        for v in 0..3 {
            let out_mult = graph.outedges[u].iter().filter(|&&t| t == v).count();
            let in_mult = graph.inedges[v].iter().filter(|&&s| s == u).count();
            assert_eq!(out_mult, in_mult);
        }
    }
}

// Repeated construction from one edge list gives identical adjacency lists.
#[test]
fn test_construction_deterministic() {
    let edges = vec![(0, 2), (2, 1), (0, 1), (1, 0), (2, 1)];
    let g1 = Graph::create_directed(3, &edges).unwrap();
    let g2 = Graph::create_directed(3, &edges).unwrap();
    assert_eq!(g1.outedges, g2.outedges);
    assert_eq!(g1.inedges, g2.inedges);
}

#[test]
fn test_bfs_unreachable_is_none() {
    let edges = vec![(1, 2)];
    let graph = Graph::create_directed(4, &edges).unwrap();
    let distances = bfs(0, &graph.outedges);
    assert_eq!(distances[0], Some(0));
    assert_eq!(distances[1], None);
    assert_eq!(distances[2], None);
    assert_eq!(distances[3], None);
}
