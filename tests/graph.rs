use graph_search::graph::{Color, Graph};

#[test]
fn new_graph_is_empty() {
    let g = Graph::new();
    assert!(!g.is_vertex(0));
    assert_eq!(g.color_of(0), None);
    assert_eq!(g.distance_of(0), None);
    assert_eq!(g.pred_of(0), None);
}

#[test]
fn add_node_twice_keeps_one_vertex() {
    let mut g = Graph::new();
    g.add_node(4);
    g.add_node(4);
    assert!(g.is_vertex(4));
    assert!(!g.is_vertex(5));
}

#[test]
fn add_edge_makes_only_the_target_a_vertex() {
    let mut g = Graph::new();
    g.add_edge(1, 5);
    assert!(g.is_vertex(5));
    assert!(!g.is_vertex(1));
}

#[test]
fn bfs_on_sample_graph() {
    let mut g = Graph::new();
    g.add_edge(1, 5);
    g.add_edge(1, 6);
    g.add_edge(2, 3);
    g.bfs(1);
    assert_eq!(g.color_of(1), Some(Color::Black));
    assert_eq!(g.color_of(5), Some(Color::Black));
    assert_eq!(g.color_of(6), Some(Color::Black));
    assert_eq!(g.color_of(3), Some(Color::White));
    assert_eq!(g.color_of(2), None);
    assert_eq!(g.distance_of(1), Some(0));
    assert_eq!(g.distance_of(5), Some(1));
    assert_eq!(g.distance_of(6), Some(1));
    assert_eq!(g.distance_of(3), Some(0));
    assert_eq!(g.pred_of(5), Some(1));
    assert_eq!(g.pred_of(6), Some(1));
    assert_eq!(g.pred_of(3), None);
}

#[test]
fn bfs_distances_along_a_chain_with_a_shortcut() {
    let mut g = Graph::new();
    g.add_edge(0, 1);
    g.add_edge(1, 2);
    g.add_edge(2, 3);
    g.add_edge(0, 2);
    g.add_edge(3, 0);
    g.bfs(0);
    assert_eq!(g.distance_of(0), Some(0));
    assert_eq!(g.distance_of(1), Some(1));
    assert_eq!(g.distance_of(2), Some(1));
    assert_eq!(g.distance_of(3), Some(2));
    assert_eq!(g.pred_of(3), Some(2));
    for v in 0..4 {
        assert_eq!(g.color_of(v), Some(Color::Black));
    }
}

#[test]
fn bfs_again_from_another_source_resets_vertices() {
    let mut g = Graph::new();
    g.add_edge(1, 2);
    g.add_edge(2, 3);
    g.add_edge(4, 3);
    g.bfs(1);
    assert_eq!(g.distance_of(3), Some(2));
    g.bfs(4);
    assert_eq!(g.color_of(2), Some(Color::White));
    assert_eq!(g.distance_of(2), Some(0));
    assert_eq!(g.color_of(3), Some(Color::Black));
    assert_eq!(g.distance_of(3), Some(1));
    assert_eq!(g.pred_of(3), Some(4));
}

#[test]
fn bfs_with_self_loop() {
    let mut g = Graph::new();
    g.add_edge(7, 7);
    g.bfs(7);
    assert_eq!(g.color_of(7), Some(Color::Black));
    assert_eq!(g.distance_of(7), Some(0));
    assert_eq!(g.pred_of(7), None);
}
