use osm_graph::routing::sort_landmarks;
use osm_graph::routing::Landmark;
use osm_graph::routing::INF;
use osm_graph::Edge;
use osm_graph::Graph;

fn diamond() -> Graph {
    // 0 -> 1 (2), 0 -> 2 (5), 1 -> 2 (1), 2 -> 3 (1), 1 -> 3 (10)
    let mut g = Graph::new();
    g.insert(0, vec![Edge::new(1, 2), Edge::new(2, 5)]);
    g.insert(1, vec![Edge::new(2, 1), Edge::new(3, 10)]);
    g.insert(2, vec![Edge::new(3, 1)]);
    g.insert(3, Vec::new());
    g
}

#[test]
fn dijkstra_exact_distances() {
    let g = diamond();
    let dist = g.dijkstra_all(0);
    assert_eq!(dist, vec![0, 2, 3, 4]);
}

#[test]
fn dijkstra_unreachable_is_infinite() {
    let mut g = Graph::new();
    g.insert(0, vec![Edge::new(1, 1)]);
    g.insert(1, Vec::new());
    g.insert(2, Vec::new());
    let dist = g.dijkstra_all(0);
    assert_eq!(dist, vec![0, 1, INF]);
}

#[test]
fn dijkstra_on_reverse_graph() {
    let g = diamond();
    let bi = g.get_bidirectional_graph();
    let dist = bi.dijkstra_all(3);
    // Distances to node 3 on the original graph.
    assert_eq!(dist, vec![4, 2, 1, 0]);
}

#[test]
fn landmark_tables_match_dijkstra() {
    // Each landmark's tables are exactly what Dijkstra yields for its node.
    let g = diamond();
    let bi = g.get_bidirectional_graph();
    let lms = g.farthest_landmarks(&bi, 3);
    assert!(lms.len() >= 1);
    assert_eq!(lms[0].node_id, 0);
    for lm in lms.iter() {
        assert_eq!(lm.distances, g.dijkstra_all(lm.node_id));
        assert_eq!(lm.bi_distances, bi.dijkstra_all(lm.node_id));
    }
}

#[test]
fn farthest_landmarks_prefers_far_nodes() {
    // From node 0 the farthest reachable node is 3 (distance 4).
    let g = diamond();
    let bi = g.get_bidirectional_graph();
    let lms = g.farthest_landmarks(&bi, 2);
    assert_eq!(lms.len(), 2);
    assert_eq!(lms[0].node_id, 0);
    assert_eq!(lms[1].node_id, 3);
}

#[test]
fn random_landmarks_take_lowest_ids() {
    let g = diamond();
    let bi = g.get_bidirectional_graph();
    let lms = g.random_landmarks(&bi, 2);
    assert_eq!(lms.len(), 2);
    assert_eq!(lms[0].node_id, 0);
    assert_eq!(lms[1].node_id, 1);
    assert_eq!(lms[0].distances, g.dijkstra_all(0));
}

#[test]
fn sort_landmarks_orders_by_node_id() {
    let mut lms = vec![
        Landmark { node_id: 5, distances: vec![5], bi_distances: vec![5] },
        Landmark { node_id: 1, distances: vec![1], bi_distances: vec![1] },
        Landmark { node_id: 3, distances: vec![3], bi_distances: vec![3] },
    ];
    sort_landmarks(&mut lms);
    assert_eq!(lms.len(), 3);
    assert_eq!(lms[0].node_id, 1);
    assert_eq!(lms[1].node_id, 3);
    assert_eq!(lms[2].node_id, 5);
    assert_eq!(lms[0].distances, vec![1]);
}
