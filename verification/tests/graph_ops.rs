use climate_graph::graph::Graph;
use climate_graph::graph::are_in_same_country;

#[test]
fn empty_graph_has_no_nodes() {
    let g = Graph::new();
    assert_eq!(g.node_count(), 0);
    assert_eq!(g.degree_distribution().len(), 0);
    assert_eq!(g.centrality().len(), 0);
}

#[test]
fn insert_node_registers_once() {
    let mut g = Graph::new();
    g.insert_node("A".to_string());
    g.insert_node("B".to_string());
    g.insert_node("A".to_string());
    assert_eq!(g.node_count(), 2);
    assert!(g.contains_node(&"A".to_string()));
    assert!(g.contains_node(&"B".to_string()));
    assert!(!g.contains_node(&"C".to_string()));
}

#[test]
fn add_edge_is_symmetric() {
    let mut g = Graph::new();
    g.add_edge("A".to_string(), "B".to_string(), 42);
    assert_eq!(g.node_count(), 2);
    assert!(g.has_edge(&"A".to_string(), &"B".to_string()));
    assert!(g.has_edge(&"B".to_string(), &"A".to_string()));
    assert!(!g.has_edge(&"A".to_string(), &"A".to_string()));
}

#[test]
fn add_edge_twice_keeps_one_edge_with_latest_weight() {
    let mut g = Graph::new();
    g.add_edge("A".to_string(), "B".to_string(), 7);
    g.add_edge("A".to_string(), "B".to_string(), 9);
    assert_eq!(g.node_count(), 2);
    assert_eq!(g.degree_distribution(), vec![1, 1]);
    assert_eq!(g.weight_of(&"A".to_string(), &"B".to_string()), Some(9));
    // the reversed orientation hits the same unordered pair
    g.add_edge("B".to_string(), "A".to_string(), 11);
    assert_eq!(g.node_count(), 2);
    assert_eq!(g.degree_distribution(), vec![1, 1]);
    assert_eq!(g.weight_of(&"A".to_string(), &"B".to_string()), Some(11));
}

#[test]
fn weight_lookup_is_direction_independent() {
    let mut g = Graph::new();
    g.add_edge("A".to_string(), "B".to_string(), 5);
    assert_eq!(
        g.weight_of(&"A".to_string(), &"B".to_string()),
        g.weight_of(&"B".to_string(), &"A".to_string())
    );
    assert_eq!(g.weight_of(&"A".to_string(), &"C".to_string()), None);
}

#[test]
fn degree_distribution_counts_every_node() {
    let mut g = Graph::new();
    g.insert_node("lonely".to_string());
    g.add_edge("A".to_string(), "B".to_string(), 1);
    g.add_edge("A".to_string(), "C".to_string(), 2);
    let dist = g.degree_distribution();
    assert_eq!(dist.len(), g.node_count());
    // nodes are listed in insertion order: lonely, A, B, C
    assert_eq!(dist, vec![0, 2, 1, 1]);
}

#[test]
fn centrality_returns_top_five_sorted() {
    let mut g = Graph::new();
    // hub: degree 6; mid: degree 2; the rest: degree 1
    for name in ["a", "b", "c", "d", "e", "f"] {
        g.add_edge("hub".to_string(), name.to_string(), 0);
    }
    g.add_edge("a".to_string(), "b".to_string(), 0);
    let top = g.centrality();
    assert_eq!(top.len(), 5);
    assert_eq!(top[0], ("hub".to_string(), 6));
    assert_eq!(top[1].1, 2);
    assert_eq!(top[2].1, 2);
    assert_eq!(top[3].1, 1);
    assert_eq!(top[4].1, 1);
    for w in top.windows(2) {
        assert!(w[0].1 >= w[1].1);
    }
}

#[test]
fn centrality_with_few_nodes_lists_them_all() {
    let mut g = Graph::new();
    g.insert_node("only".to_string());
    let top = g.centrality();
    assert_eq!(top, vec![("only".to_string(), 0)]);
}

#[test]
fn empty_string_is_a_valid_key() {
    let mut g = Graph::new();
    g.add_edge("".to_string(), "B".to_string(), 3);
    assert_eq!(g.node_count(), 2);
    assert!(g.contains_node(&"".to_string()));
    assert!(g.has_edge(&"B".to_string(), &"".to_string()));
    assert_eq!(g.weight_of(&"".to_string(), &"B".to_string()), Some(3));
}

#[test]
fn country_filter_accepts_every_pair() {
    assert!(are_in_same_country("Paris", "Lima"));
    assert!(are_in_same_country("", ""));
}
