use netfog::Graph;
use netfog::GraphError;

// Edge weights of 2.0, 4.0, 5.5, 1.2 and 1.6 canvas units; the library holds
// weights as integers, so every weight here is given in tenths.
fn create_simple_graph() -> Graph {
    let mut graph = Graph::default();
    graph.add_node("node1".to_string()).unwrap();
    graph.add_node("node2".to_string()).unwrap();
    graph.add_node("node3".to_string()).unwrap();
    graph.add_node("node4".to_string()).unwrap();

    graph.create_connection("node1".to_string(), "node2".to_string(), 20, Some(false)).unwrap();
    graph.create_connection("node3".to_string(), "node4".to_string(), 40, Some(true)).unwrap();
    graph.create_connection("node4".to_string(), "node1".to_string(), 55, Some(false)).unwrap();
    graph.create_connection("node3".to_string(), "node2".to_string(), 12, Some(true)).unwrap();
    graph.create_connection("node2".to_string(), "node3".to_string(), 16, Some(false)).unwrap();

    graph
}

#[test]
fn test_total_weight() {
    let mut graph = Graph::default();
    graph.add_node("node1".to_string()).unwrap();
    graph.add_node("node2".to_string()).unwrap();
    graph.add_node("node3".to_string()).unwrap();
    graph.add_node("node4".to_string()).unwrap();

    graph.create_connection("node1".to_string(), "node2".to_string(), 20, None).unwrap();
    graph.create_connection("node3".to_string(), "node4".to_string(), 40, None).unwrap();
    graph.create_connection("node4".to_string(), "node1".to_string(), 55, None).unwrap();
    graph.create_connection("node3".to_string(), "node2".to_string(), 12, None).unwrap();
    graph.create_connection("node2".to_string(), "node3".to_string(), 16, None).unwrap();

    let total_weight = 20 + 40 + 55 + 12 + 16;
    assert_eq!(total_weight, graph.get_total_weight());
}

#[test]
fn test_mean_weigt() {
    let mut grafo = Graph::default();
    grafo.add_node("node1".to_string()).unwrap();
    grafo.add_node("node2".to_string()).unwrap();
    grafo.add_node("node3".to_string()).unwrap();
    grafo.add_node("node4".to_string()).unwrap();

    grafo.create_connection("node1".to_string(), "node2".to_string(), 20, None).unwrap();
    grafo.create_connection("node3".to_string(), "node4".to_string(), 40, None).unwrap();
    grafo.create_connection("node4".to_string(), "node1".to_string(), 55, None).unwrap();
    grafo.create_connection("node3".to_string(), "node2".to_string(), 12, None).unwrap();
    grafo.create_connection("node2".to_string(), "node3".to_string(), 16, None).unwrap();

    let mean = grafo.get_mean_weight().unwrap();
    assert_eq!(mean.num, 20 + 40 + 55 + 12 + 16);
    assert_eq!(mean.den, 5);
    let expected = (20.0 + 40.0 + 55.0 + 12.0 + 16.0) / 5.0;
    assert_eq!(mean.num as f64 / mean.den as f64, expected);
}

#[test]
fn test_node_count() {
    let mut g = Graph::default();
    g.add_node("A".to_string()).unwrap();
    g.add_node("B".to_string()).unwrap();
    g.add_node("C".to_string()).unwrap();
    g.add_node("D".to_string()).unwrap();
    // a second node with the same label must be rejected
    assert!(g.add_node("D".to_string()).is_err());

    assert_eq!(4, g.get_node_count());
}

#[test]
fn test_edge_count() {
    let mut g = Graph::default();
    g.add_node("A".to_string()).unwrap();
    g.add_node("B".to_string()).unwrap();
    g.add_node("C".to_string()).unwrap();
    g.add_node("D".to_string()).unwrap();

    g.create_connection("A".to_string(), "B".to_string(), 2, Some(false)).unwrap();
    g.create_connection("B".to_string(), "C".to_string(), 1, Some(false)).unwrap();
    g.create_connection("D".to_string(), "A".to_string(), 1, Some(false)).unwrap();

    assert_eq!(3, g.get_edge_count());
}

#[test]
fn test_density() {
    let grafo = create_simple_graph();
    let density = grafo.get_density(Some(false)).unwrap();
    assert_eq!(density.num, 1 * 5);
    assert_eq!(density.den, 4 * (4 - 1));
    let expected_density = (1.0 * 5.0) / (4.0 * (4.0 - 1.0));
    assert_eq!(density.num as f64 / density.den as f64, expected_density);

    let density_directed = grafo.get_density(Some(true)).unwrap();
    assert_eq!(density_directed.num, 2 * 5);
    assert_eq!(density_directed.den, 4 * (4 - 1));
    let expected_density_directed = (2.0 * 5.0) / (4.0 * (4.0 - 1.0));
    assert_eq!(
        density_directed.num as f64 / density_directed.den as f64,
        expected_density_directed
    );
}

#[test]
fn test_compute_degrees() {
    let grafo = create_simple_graph();
    let degrees_node1 = grafo.compute_degrees(&"node1".to_string()).unwrap();
    assert_eq!(degrees_node1.in_degree, 0);
    assert_eq!(degrees_node1.out_degree, 0);
    assert_eq!(degrees_node1.undirected_degree, 2);
    assert_eq!(degrees_node1.total_degree, 0);

    let degrees_node2 = grafo.compute_degrees(&"node2".to_string()).unwrap();
    assert_eq!(degrees_node2.in_degree, 1);
    assert_eq!(degrees_node2.out_degree, 0);
    assert_eq!(degrees_node2.undirected_degree, 2);
    assert_eq!(degrees_node2.total_degree, 1);

    let degrees_node3 = grafo.compute_degrees(&"node3".to_string()).unwrap();
    assert_eq!(degrees_node3.in_degree, 0);
    assert_eq!(degrees_node3.out_degree, 2);
    assert_eq!(degrees_node3.undirected_degree, 1);
    assert_eq!(degrees_node3.total_degree, 2);

    let degrees_node4 = grafo.compute_degrees(&"node4".to_string()).unwrap();
    assert_eq!(degrees_node4.in_degree, 1);
    assert_eq!(degrees_node4.out_degree, 0);
    assert_eq!(degrees_node4.undirected_degree, 1);
    assert_eq!(degrees_node4.total_degree, 1);
}

#[test]
fn test_all_nodes_degrees() {
    let grafo = create_simple_graph();
    let degrees = grafo.get_all_nodes_degrees();

    assert_eq!(degrees.len(), 4);
    let expected = vec![
        ("node1", 0u128, 0u128, 0u128, 2u128),
        ("node2", 1, 0, 1, 2),
        ("node3", 0, 2, 2, 1),
        ("node4", 1, 0, 1, 1),
    ];
    for (i, (label, in_d, out_d, total_d, und_d)) in expected.into_iter().enumerate() {
        assert_eq!(degrees[i].0, label);
        assert_eq!(degrees[i].1.in_degree, in_d);
        assert_eq!(degrees[i].1.out_degree, out_d);
        assert_eq!(degrees[i].1.total_degree, total_d);
        assert_eq!(degrees[i].1.undirected_degree, und_d);
    }
}

fn ratio_close(num: i128, den: u128, expected: f64) -> bool {
    (num as f64 / den as f64 - expected).abs() < 1e-10
}

#[test]
fn test_get_centrality_degree() {
    let grafo = create_simple_graph();

    let centralities = grafo.get_centrality_degrees(&"node1".to_string()).unwrap();
    assert!(ratio_close(centralities.in_centrality.num, centralities.in_centrality.den, 0.0));
    assert!(ratio_close(centralities.out_centrality.num, centralities.out_centrality.den, 0.0));
    assert!(ratio_close(centralities.total_centrality.num, centralities.total_centrality.den, 0.0));
    assert!(ratio_close(
        centralities.undirected_centrality.num,
        centralities.undirected_centrality.den,
        2.0 / 3.0
    ));

    let centralities = grafo.get_centrality_degrees(&"node2".to_string()).unwrap();
    assert!(ratio_close(centralities.in_centrality.num, centralities.in_centrality.den, 1.0 / 3.0));
    assert!(ratio_close(centralities.out_centrality.num, centralities.out_centrality.den, 0.0));
    assert!(ratio_close(centralities.total_centrality.num, centralities.total_centrality.den, 1.0 / 3.0));
    assert!(ratio_close(
        centralities.undirected_centrality.num,
        centralities.undirected_centrality.den,
        2.0 / 3.0
    ));

    let centralities = grafo.get_centrality_degrees(&"node3".to_string()).unwrap();
    assert!(ratio_close(centralities.in_centrality.num, centralities.in_centrality.den, 0.0));
    assert!(ratio_close(centralities.out_centrality.num, centralities.out_centrality.den, 2.0 / 3.0));
    assert!(ratio_close(centralities.total_centrality.num, centralities.total_centrality.den, 2.0 / 3.0));
    assert!(ratio_close(
        centralities.undirected_centrality.num,
        centralities.undirected_centrality.den,
        1.0 / 3.0
    ));

    let centralities = grafo.get_centrality_degrees(&"node4".to_string()).unwrap();
    assert!(ratio_close(centralities.in_centrality.num, centralities.in_centrality.den, 1.0 / 3.0));
    assert!(ratio_close(centralities.out_centrality.num, centralities.out_centrality.den, 0.0));
    assert!(ratio_close(centralities.total_centrality.num, centralities.total_centrality.den, 1.0 / 3.0));
    assert!(ratio_close(
        centralities.undirected_centrality.num,
        centralities.undirected_centrality.den,
        1.0 / 3.0
    ));
}

#[test]
fn test_get_average_degree() {
    let grafo = create_simple_graph();

    let avg = grafo.get_average_degree(Some(false)).unwrap();
    assert_eq!(avg.num, 2 * 5);
    assert_eq!(avg.den, 4);
    let expected_mean_degree = (2.0 * 5.0) / 4.0;
    assert_eq!(avg.num as f64 / avg.den as f64, expected_mean_degree);

    let avg_directed = grafo.get_average_degree(Some(true)).unwrap();
    assert_eq!(avg_directed.num, 1 * 5);
    assert_eq!(avg_directed.den, 4);
    let expected_mean_degree_directed = (1.0 * 5.0) / 4.0;
    assert_eq!(
        avg_directed.num as f64 / avg_directed.den as f64,
        expected_mean_degree_directed
    );
}

#[test]
fn test_get_node_strength_directed() {
    let mut grafo = Graph::default();
    grafo.add_node("1".to_string()).unwrap();
    grafo.add_node("2".to_string()).unwrap();
    grafo.add_node("3".to_string()).unwrap();

    grafo.create_connection("1".to_string(), "2".to_string(), 2, Some(true)).unwrap();
    grafo.create_connection("2".to_string(), "3".to_string(), 3, Some(true)).unwrap();

    let strengths = grafo.get_node_strength(&"1".to_string()).unwrap();

    assert_eq!(strengths.in_strength, 0);
    assert_eq!(strengths.out_strength, 2);
    assert_eq!(strengths.total_strength, 2);
}

#[test]
fn test_get_node_strength_undirected() {
    let mut grafo = Graph::default();
    grafo.add_node("1".to_string()).unwrap();
    grafo.add_node("2".to_string()).unwrap();
    grafo.add_node("3".to_string()).unwrap();

    grafo.create_connection("1".to_string(), "2".to_string(), 2, Some(false)).unwrap();
    grafo.create_connection("2".to_string(), "3".to_string(), 3, Some(false)).unwrap();
    grafo.create_connection("1".to_string(), "3".to_string(), 5, Some(false)).unwrap();

    let strengths = grafo.get_node_strength(&"3".to_string()).unwrap();

    assert_eq!(strengths.in_strength, 8);
    assert_eq!(strengths.out_strength, 8);
    assert_eq!(strengths.total_strength, 16);
}

#[test]
fn test_get_node_strength_mixed() {
    let mut grafo = Graph::default();
    grafo.add_node("1".to_string()).unwrap();
    grafo.add_node("2".to_string()).unwrap();
    grafo.add_node("3".to_string()).unwrap();

    grafo.create_connection("1".to_string(), "2".to_string(), 2, Some(false)).unwrap();
    grafo.create_connection("2".to_string(), "3".to_string(), 3, Some(true)).unwrap();
    grafo.create_connection("1".to_string(), "3".to_string(), 5, Some(false)).unwrap();

    let strengths = grafo.get_node_strength(&"2".to_string()).unwrap();

    assert_eq!(strengths.in_strength, 2);
    assert_eq!(strengths.out_strength, 5);
    assert_eq!(strengths.total_strength, 7);
}

#[test]
fn test_metric_errors() {
    let mut g = Graph::new();
    assert_eq!(g.get_mean_weight(), Err(GraphError::EmptyGraphDivision));
    assert_eq!(g.get_density(None), Err(GraphError::EmptyGraphDivision));
    assert_eq!(g.get_average_degree(None), Err(GraphError::EmptyGraphDivision));

    g.add_node("solo".to_string()).unwrap();
    assert_eq!(g.get_density(None), Err(GraphError::EmptyGraphDivision));
    assert_eq!(
        g.get_centrality_degrees(&"solo".to_string()),
        Err(GraphError::EmptyGraphDivision)
    );
    assert_eq!(
        g.get_centrality_degrees(&"ghost".to_string()),
        Err(GraphError::NodeNotFound)
    );
    assert_eq!(g.compute_degrees(&"ghost".to_string()), Err(GraphError::NodeNotFound));
    assert_eq!(g.get_node_strength(&"ghost".to_string()), Err(GraphError::NodeNotFound));
}

#[test]
fn test_metrics_idempotent() {
    let grafo = create_simple_graph();
    assert_eq!(grafo.get_total_weight(), grafo.get_total_weight());
    assert_eq!(grafo.get_mean_weight(), grafo.get_mean_weight());
    assert_eq!(grafo.get_density(Some(false)), grafo.get_density(Some(false)));
    assert_eq!(
        grafo.compute_degrees(&"node1".to_string()),
        grafo.compute_degrees(&"node1".to_string())
    );
    assert_eq!(
        grafo.get_node_strength(&"node2".to_string()),
        grafo.get_node_strength(&"node2".to_string())
    );
    assert_eq!(grafo.get_average_degree(None), grafo.get_average_degree(None));
    assert_eq!(
        grafo.get_centrality_degrees(&"node3".to_string()),
        grafo.get_centrality_degrees(&"node3".to_string())
    );
    assert_eq!(grafo.generate_adjacency_matrix(), grafo.generate_adjacency_matrix());
    assert_eq!(grafo.get_skewness(), grafo.get_skewness());
}
