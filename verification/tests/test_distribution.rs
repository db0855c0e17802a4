use netfog::Graph;

// nodes 1..3 with undirected edges (1,2) and (1,3): undirected degrees 2, 1, 1
fn star_graph() -> Graph {
    let mut g = Graph::new();
    g.add_node("1".to_string()).unwrap();
    g.add_node("2".to_string()).unwrap();
    g.add_node("3".to_string()).unwrap();
    g.create_connection("1".to_string(), "2".to_string(), 1, Some(false)).unwrap();
    g.create_connection("1".to_string(), "3".to_string(), 1, Some(false)).unwrap();
    g
}

#[test]
fn test_degree_distribution_undirected() {
    let g = star_graph();
    let dist = g.get_degree_distribution();

    // undirected degrees are 2, 1, 1: value 1 on two nodes, value 2 on one
    assert_eq!(dist.undirected_distribution.len(), 2);
    assert_eq!(dist.undirected_distribution[0].0, 1);
    assert_eq!(dist.undirected_distribution[0].1.num, 2);
    assert_eq!(dist.undirected_distribution[0].1.den, 3);
    assert_eq!(dist.undirected_distribution[1].0, 2);
    assert_eq!(dist.undirected_distribution[1].1.num, 1);
    assert_eq!(dist.undirected_distribution[1].1.den, 3);

    // no directed edges: every node has in- and out-degree zero
    assert_eq!(dist.in_distribution.len(), 1);
    assert_eq!(dist.in_distribution[0].0, 0);
    assert_eq!(dist.in_distribution[0].1.num, 3);
    assert_eq!(dist.in_distribution[0].1.den, 3);
    assert_eq!(dist.out_distribution.len(), 1);
    assert_eq!(dist.out_distribution[0].0, 0);
    assert_eq!(dist.out_distribution[0].1.num, 3);
    assert_eq!(dist.out_distribution[0].1.den, 3);
}

#[test]
fn test_degree_distribution_directed() {
    let mut g = Graph::new();
    g.add_node("a".to_string()).unwrap();
    g.add_node("b".to_string()).unwrap();
    g.create_connection("a".to_string(), "b".to_string(), 4, Some(true)).unwrap();
    let dist = g.get_degree_distribution();

    // out-degrees 1 and 0; in-degrees 0 and 1: each value on half the nodes
    assert_eq!(dist.out_distribution.len(), 2);
    assert_eq!(dist.out_distribution[0], (0, netfog::Ratio { num: 1, den: 2 }));
    assert_eq!(dist.out_distribution[1], (1, netfog::Ratio { num: 1, den: 2 }));
    assert_eq!(dist.in_distribution.len(), 2);
    assert_eq!(dist.in_distribution[0], (0, netfog::Ratio { num: 1, den: 2 }));
    assert_eq!(dist.in_distribution[1], (1, netfog::Ratio { num: 1, den: 2 }));
}

#[test]
fn test_skewness_undirected_star() {
    let g = star_graph();
    let skew = g.get_skewness();

    // no directed edges at all: those kinds have no skewness
    assert!(skew.in_skewness.is_none());
    assert!(skew.out_skewness.is_none());

    // undirected degrees 2, 1, 1: ranks 1, 2, 3;
    // sknum = 1*2 + 2*1 + 3*1 = 7; sum = 4; ratio = 2*7 / (4 * (3 + 1))
    let und = skew.undirected_skewness.unwrap();
    assert_eq!(und.num, 14);
    assert_eq!(und.den, 16);
}

#[test]
fn test_skewness_none_on_empty() {
    let g = Graph::new();
    let skew = g.get_skewness();
    assert!(skew.in_skewness.is_none());
    assert!(skew.out_skewness.is_none());
    assert!(skew.undirected_skewness.is_none());
}

#[test]
fn test_distribution_idempotent() {
    let g = star_graph();
    assert_eq!(g.get_degree_distribution(), g.get_degree_distribution());
}
