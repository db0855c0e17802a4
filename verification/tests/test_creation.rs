use netfog::graph::invert_node_hashmap;
use netfog::Graph;
use netfog::GraphError;
use netfog::ConnectionRecord;

fn make_conn(from: &str, to: &str, weight: i32, directed: bool) -> ConnectionRecord {
    ConnectionRecord {
        from: from.to_string(),
        to: to.to_string(),
        weight,
        directed,
    }
}

#[test]
fn test_from_adjacency_matrix() {
    let adj_matrix = vec![
        vec![0, 1],
        vec![1, 0],
    ];

    let graph = Graph::from_adjacency_matrix(
        adj_matrix,
        Some(false),
        Some(vec!["one".to_string(), "two".to_string()]),
    );

    let connections = vec![
        make_conn("one", "two", 1, false),
        make_conn("two", "one", 1, false),
    ];

    assert_eq!(connections, graph.get_connections());

    let adj_matrix2 = vec![
        vec![0, 2, 1],
        vec![1, 0, 3],
        vec![1, 2, 0],
    ];

    let graph2 = Graph::from_adjacency_matrix(
        adj_matrix2,
        Some(true),
        Some(vec![
            "one".to_string(),
            "two".to_string(),
            "three".to_string(),
        ]),
    );

    let connections2 = vec![
        make_conn("one", "two", 2, true),
        make_conn("one", "three", 1, true),
        make_conn("two", "one", 1, true),
        make_conn("two", "three", 3, true),
        make_conn("three", "one", 1, true),
        make_conn("three", "two", 2, true),
    ];

    assert_eq!(connections2, graph2.get_connections());
}

#[test]
fn test_generate_adjacency_matrix() {
    let adj_matrix = vec![
        vec![0, 2, 1],
        vec![2, 0, 3],
        vec![1, 3, 0],
    ];

    let graph = Graph::from_adjacency_matrix(adj_matrix.clone(), Some(false), None);

    let generated_adj_matrix = graph.generate_adjacency_matrix();

    assert_eq!(adj_matrix, generated_adj_matrix);
}

#[test]
fn test_round_trip_directed() {
    let adj_matrix = vec![
        vec![0, 7, 0, 2],
        vec![0, 0, 5, 0],
        vec![1, 0, 0, 0],
        vec![0, 0, 4, 0],
    ];

    let graph = Graph::from_adjacency_matrix(adj_matrix.clone(), Some(true), None);

    assert_eq!(adj_matrix, graph.generate_adjacency_matrix());
}

#[test]
fn test_default_labels_are_row_indices() {
    let mut adj_matrix: Vec<Vec<i32>> = Vec::new();
    for _ in 0..12 {
        adj_matrix.push(vec![0; 12]);
    }
    let graph = Graph::from_adjacency_matrix(adj_matrix, None, None);
    assert_eq!(graph.nodes[0].label, "0");
    assert_eq!(graph.nodes[9].label, "9");
    assert_eq!(graph.nodes[10].label, "10");
    assert_eq!(graph.nodes[11].label, "11");
}

#[test]
fn test_duplicate_label_rejected() {
    let mut g = Graph::new();
    assert_eq!(g.add_node("a".to_string()), Ok(()));
    assert_eq!(g.add_node("a".to_string()), Err(GraphError::DuplicateLabel));
    assert_eq!(g.add_node_with_pos("a".to_string(), 30_000, 30_000), Err(GraphError::DuplicateLabel));
    assert_eq!(g.get_node_count(), 1);
    assert!(!g.positions_set);
}

#[test]
fn test_add_node_with_pos_sets_positions() {
    let mut g = Graph::new();
    g.add_node_with_pos("a".to_string(), 30_000, 40_000).unwrap();
    assert!(g.positions_set);
    assert_eq!(g.nodes[0].x, Some(30_000));
    assert_eq!(g.nodes[0].y, Some(40_000));
}

#[test]
fn test_create_connection_node_not_found() {
    let mut g = Graph::new();
    g.add_node("a".to_string()).unwrap();
    assert_eq!(
        g.create_connection("a".to_string(), "b".to_string(), 1, None),
        Err(GraphError::NodeNotFound)
    );
    assert_eq!(
        g.create_connection("b".to_string(), "a".to_string(), 1, None),
        Err(GraphError::NodeNotFound)
    );
    assert_eq!(g.get_edge_count(), 0);
}

#[test]
fn test_invert_node_hashmap() {
    let pairs = vec![(0usize, "a".to_string()), (1usize, "b".to_string())];
    let inverted = invert_node_hashmap(pairs);
    assert_eq!(inverted, vec![("a".to_string(), 0usize), ("b".to_string(), 1usize)]);
}
