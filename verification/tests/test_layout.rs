use netfog::layout::{MAX_X, MAX_Y, MIN_X, MIN_Y};
use netfog::Graph;
use netfog::Layout;

fn triangle_graph() -> Graph {
    let mut g = Graph::new();
    g.add_node("a".to_string()).unwrap();
    g.add_node("b".to_string()).unwrap();
    g.add_node("c".to_string()).unwrap();
    g.create_connection("a".to_string(), "b".to_string(), 1, None).unwrap();
    g.create_connection("b".to_string(), "c".to_string(), 2, None).unwrap();
    g
}

fn positions(g: &Graph) -> Vec<(Option<i64>, Option<i64>)> {
    g.nodes.iter().map(|n| (n.x, n.y)).collect()
}

fn assert_in_canvas(g: &Graph) {
    for node in g.nodes.iter() {
        let x = node.x.unwrap();
        let y = node.y.unwrap();
        assert!(MIN_X <= x && x <= MAX_X);
        assert!(MIN_Y <= y && y <= MAX_Y);
    }
}

#[test]
fn test_random_layout_in_canvas() {
    let mut g = triangle_graph();
    assert!(!g.positions_set);
    g.random_layout(7);
    assert!(g.positions_set);
    assert_in_canvas(&g);
}

#[test]
fn test_random_layout_deterministic_per_seed() {
    let mut g1 = triangle_graph();
    let mut g2 = triangle_graph();
    g1.random_layout(99);
    g2.random_layout(99);
    assert_eq!(positions(&g1), positions(&g2));
}

#[test]
fn test_spring_layout_in_canvas() {
    let mut g = triangle_graph();
    g.spring_layout(42);
    assert!(g.positions_set);
    assert_in_canvas(&g);
}

#[test]
fn test_spring_layout_deterministic_per_seed() {
    let mut g1 = triangle_graph();
    let mut g2 = triangle_graph();
    g1.spring_layout(42);
    g2.spring_layout(42);
    assert_eq!(positions(&g1), positions(&g2));
}

#[test]
fn test_circular_layout_exact_positions() {
    let mut g = Graph::new();
    g.add_node("a".to_string()).unwrap();
    g.add_node("b".to_string()).unwrap();
    g.add_node("c".to_string()).unwrap();
    g.add_node("d".to_string()).unwrap();
    g.circular_layout();
    assert!(g.positions_set);
    assert_in_canvas(&g);
    // quarter turns: right, top, left, bottom of the circle around the center
    assert_eq!((g.nodes[0].x, g.nodes[0].y), (Some(1_090_000), Some(360_000)));
    assert_eq!((g.nodes[1].x, g.nodes[1].y), (Some(760_000), Some(690_000)));
    assert_eq!((g.nodes[2].x, g.nodes[2].y), (Some(430_000), Some(360_000)));
    assert_eq!((g.nodes[3].x, g.nodes[3].y), (Some(760_000), Some(30_000)));
}

#[test]
fn test_apply_layout_dispatch() {
    let mut g1 = triangle_graph();
    let mut g2 = triangle_graph();
    g1.apply_layout(Layout::Spring, 3);
    g2.spring_layout(3);
    assert_eq!(positions(&g1), positions(&g2));

    let mut g3 = triangle_graph();
    g3.apply_layout(Layout::Circular, 0);
    assert_in_canvas(&g3);
    let mut g4 = triangle_graph();
    g4.apply_layout(Layout::Random, 5);
    assert_in_canvas(&g4);
}

#[test]
fn test_layout_keeps_graph() {
    let mut g = triangle_graph();
    let before_labels: Vec<String> = g.nodes.iter().map(|n| n.label.clone()).collect();
    let before_conns = g.get_connections();
    g.spring_layout(11);
    let after_labels: Vec<String> = g.nodes.iter().map(|n| n.label.clone()).collect();
    assert_eq!(before_labels, after_labels);
    assert_eq!(before_conns, g.get_connections());
}
