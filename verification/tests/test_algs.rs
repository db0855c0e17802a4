use netfog::Graph;
use netfog::GraphError;

#[test]
fn test_dfs() {
    let mut graph = Graph::default();
    graph.add_node("1".to_string()).unwrap();
    graph.add_node("2".to_string()).unwrap();
    graph.add_node("3".to_string()).unwrap();
    graph.add_node("4".to_string()).unwrap();
    graph.add_node("5".to_string()).unwrap();

    graph.create_connection("1".to_string(), "2".to_string(), 1, Some(false)).unwrap();
    graph.create_connection("1".to_string(), "3".to_string(), 1, Some(false)).unwrap();
    graph.create_connection("2".to_string(), "4".to_string(), 1, Some(false)).unwrap();
    graph.create_connection("2".to_string(), "5".to_string(), 1, Some(false)).unwrap();

    let expected_order: Vec<String> = vec![
        "1".to_string(),
        "2".to_string(),
        "4".to_string(),
        "5".to_string(),
        "3".to_string(),
    ];

    assert_eq!(expected_order, graph.dfs(&"1".to_string()).unwrap());
}

#[test]
fn test_bfs() {
    let mut graph = Graph::default();
    graph.add_node("0".to_string()).unwrap();
    graph.add_node("1".to_string()).unwrap();
    graph.add_node("2".to_string()).unwrap();
    graph.add_node("3".to_string()).unwrap();
    graph.add_node("4".to_string()).unwrap();
    graph.add_node("5".to_string()).unwrap();
    graph.add_node("6".to_string()).unwrap();
    graph.add_node("7".to_string()).unwrap();

    graph.create_connection("0".to_string(), "1".to_string(), 1, Some(false)).unwrap();
    graph.create_connection("0".to_string(), "2".to_string(), 1, Some(false)).unwrap();
    graph.create_connection("0".to_string(), "3".to_string(), 1, Some(false)).unwrap();
    graph.create_connection("1".to_string(), "4".to_string(), 1, Some(false)).unwrap();
    graph.create_connection("1".to_string(), "5".to_string(), 1, Some(false)).unwrap();
    graph.create_connection("2".to_string(), "6".to_string(), 1, Some(false)).unwrap();
    graph.create_connection("3".to_string(), "7".to_string(), 1, Some(false)).unwrap();

    let expected_order: Vec<String> = vec![
        "0".to_string(),
        "1".to_string(),
        "2".to_string(),
        "3".to_string(),
        "4".to_string(),
        "5".to_string(),
        "6".to_string(),
        "7".to_string(),
    ];

    assert_eq!(expected_order, graph.bfs(&"0".to_string()).unwrap());
}

#[test]
fn test_dijkstra() {
    let mut graph = Graph::default();
    graph.add_node("1".to_string()).unwrap();
    graph.add_node("2".to_string()).unwrap();
    graph.add_node("3".to_string()).unwrap();
    graph.add_node("4".to_string()).unwrap();
    graph.add_node("5".to_string()).unwrap();
    graph.add_node("6".to_string()).unwrap();

    graph.create_connection("1".to_string(), "2".to_string(), 9, Some(false)).unwrap();
    graph.create_connection("1".to_string(), "3".to_string(), 4, Some(false)).unwrap();
    graph.create_connection("2".to_string(), "3".to_string(), 2, Some(false)).unwrap();
    graph.create_connection("2".to_string(), "5".to_string(), 3, Some(false)).unwrap();
    graph.create_connection("2".to_string(), "4".to_string(), 7, Some(false)).unwrap();
    graph.create_connection("3".to_string(), "4".to_string(), 1, Some(false)).unwrap();
    graph.create_connection("3".to_string(), "5".to_string(), 6, Some(false)).unwrap();
    graph.create_connection("4".to_string(), "5".to_string(), 4, Some(false)).unwrap();
    graph.create_connection("4".to_string(), "6".to_string(), 8, Some(false)).unwrap();
    graph.create_connection("5".to_string(), "6".to_string(), 2, Some(false)).unwrap();

    let dijkstra_dists = graph.dijkstra(&"1".to_string()).unwrap();

    let to_six = dijkstra_dists.iter().find(|(label, _)| label == "6").unwrap();
    assert_eq!(to_six.1, Some(11));
}

#[test]
fn test_dijkstra_unreachable_is_none() {
    let mut graph = Graph::default();
    graph.add_node("a".to_string()).unwrap();
    graph.add_node("b".to_string()).unwrap();
    graph.add_node("c".to_string()).unwrap();
    graph.create_connection("a".to_string(), "b".to_string(), 3, Some(true)).unwrap();

    let dists = graph.dijkstra(&"a".to_string()).unwrap();
    assert_eq!(dists[0], ("a".to_string(), Some(0)));
    assert_eq!(dists[1], ("b".to_string(), Some(3)));
    assert_eq!(dists[2], ("c".to_string(), None));
}

#[test]
fn test_traversal_start_not_found() {
    let mut graph = Graph::default();
    graph.add_node("a".to_string()).unwrap();

    assert_eq!(graph.dfs(&"zz".to_string()), Err(GraphError::StartNodeNotFound));
    assert_eq!(graph.bfs(&"zz".to_string()), Err(GraphError::StartNodeNotFound));
    assert_eq!(graph.dijkstra(&"zz".to_string()), Err(GraphError::StartNodeNotFound));
}
