use centrality::Graph;

// Stable descending ranking: ties keep ascending vertex order.
#[test]
fn test_sort_nodes_by_degree_stable() {
    let degrees = vec![3, 1, 3, 2];
    let ranked = Graph::sort_nodes_by_degree(&degrees);
    assert_eq!(ranked, vec![(0, 3), (2, 3), (3, 2), (1, 1)]);
}

#[test]
fn test_sort_nodes_by_degree_all_equal_keeps_index_order() {
    let degrees = vec![5, 5, 5, 5];
    let ranked = Graph::sort_nodes_by_degree(&degrees);
    assert_eq!(ranked, vec![(0, 5), (1, 5), (2, 5), (3, 5)]);
}

// Closeness aggregates on the path 0 -> 1 -> 2 -> 3: reachable vertices at a
// positive distance, and the total of those distances, per start vertex.
#[test]
fn test_closeness_counts_path() {
    let edges = vec![(0, 1), (1, 2), (2, 3)];
    let graph = Graph::create_directed(4, &edges).unwrap();
    let counts = Graph::closeness_counts(&graph);
    assert_eq!(counts, vec![(3, 6), (2, 3), (1, 1), (0, 0)]);
}

// The closeness score formed from the aggregates: (reachable - 1) / total
// when the total is positive, zero otherwise.
#[test]
fn test_closeness_scores_path() {
    let edges = vec![(0, 1), (1, 2), (2, 3)];
    let graph = Graph::create_directed(4, &edges).unwrap();
    let counts = Graph::closeness_counts(&graph);
    let scores: Vec<f64> = counts
        .iter()
        .map(|&(reachable, total)| {
            if total > 0 {
                (reachable as f64 - 1.0) / total as f64
            } else {
                0.0
            }
        })
        .collect();
    assert!((scores[0] - 2.0 / 6.0).abs() < 1e-9);
    assert!((scores[1] - 1.0 / 3.0).abs() < 1e-9);
    assert!((scores[2] - 0.0).abs() < 1e-9);
    assert_eq!(scores[3], 0.0);
}

// Brandes' forward phase on the path 0 -> 1 -> 2 -> 3 from source 0.
#[test]
fn test_brandes_forward_path() {
    let edges = vec![(0, 1), (1, 2), (2, 3)];
    let graph = Graph::create_directed(4, &edges).unwrap();
    let pass = Graph::brandes_forward(&graph, 0);
    assert_eq!(pass.order, vec![0, 1, 2, 3]);
    assert_eq!(pass.sigma, vec![1, 1, 1, 1]);
    assert_eq!(pass.dist, vec![Some(0), Some(1), Some(2), Some(3)]);
    assert_eq!(pass.pred[0], vec![]);
    assert_eq!(pass.pred[1], vec![0]);
    assert_eq!(pass.pred[2], vec![1]);
    assert_eq!(pass.pred[3], vec![2]);
}

// Two parallel edges mean two shortest paths.
#[test]
fn test_brandes_forward_counts_parallel_paths() {
    let edges = vec![(0, 1), (0, 1), (1, 2)];
    let graph = Graph::create_directed(3, &edges).unwrap();
    let pass = Graph::brandes_forward(&graph, 0);
    assert_eq!(pass.sigma, vec![1, 2, 2]);
    assert_eq!(pass.pred[1], vec![0, 0]);
}

// A diamond: two distinct shortest paths from 0 to 3, one through each
// middle vertex.
#[test]
fn test_brandes_forward_diamond() {
    let edges = vec![(0, 1), (0, 2), (1, 3), (2, 3)];
    let graph = Graph::create_directed(4, &edges).unwrap();
    let pass = Graph::brandes_forward(&graph, 0);
    assert_eq!(pass.sigma[3], 2);
    assert_eq!(pass.pred[3], vec![1, 2]);
    assert_eq!(pass.dist[3], Some(2));
}

// The backward dependency accumulation over the forward records, as the
// betweenness computation performs it: on the path, only the two interior
// vertices lie on shortest paths between other pairs.
#[test]
fn test_betweenness_accumulation_path() {
    let edges = vec![(0, 1), (1, 2), (2, 3)];
    let graph = Graph::create_directed(4, &edges).unwrap();
    let n = 4;
    let mut cent = vec![0.0f64; n];
    for s in 0..n {
        let pass = Graph::brandes_forward(&graph, s);
        let mut delta = vec![0.0f64; n];
        for idx in (0..pass.order.len()).rev() {
            let w = pass.order[idx];
            for &v in &pass.pred[w] {
                delta[v] += (pass.sigma[v] as f64 / pass.sigma[w] as f64) * (1.0 + delta[w]);
            }
            if w != s {
                cent[w] += delta[w];
            }
        }
    }
    assert!(cent[1] > 0.0);
    assert!(cent[0] == 0.0);
    // Exact values on the path: vertex 1 lies on 0->2 and 0->3 and 1 is also
    // an endpoint elsewhere; raw directed betweenness is 2 for each interior
    // vertex.
    assert!((cent[1] - 2.0).abs() < 1e-9);
    assert!((cent[2] - 2.0).abs() < 1e-9);
    assert!(cent[3] == 0.0);
}
