use osm_graph::Edge;
use osm_graph::Graph;

#[test]
fn one_way_roads_minimization() {
    let mut graph = Graph::new();
    graph.insert(1, vec![Edge::new(2, 1)]);
    graph.insert(2, vec![Edge::new(3, 1)]);
    graph.minimize_graph(false);
    assert_eq!(graph.len(), 1);
    assert_eq!(graph.get(1).unwrap()[0].node, 3);
    assert_eq!(graph.get(1).unwrap()[0].cost, 2);
}

#[test]
fn one_way_roads_minimization_long() {
    let mut graph = Graph::new();
    graph.insert(1, vec![Edge::new(2, 1)]);
    graph.insert(2, vec![Edge::new(3, 1)]);
    graph.insert(3, vec![Edge::new(4, 1)]);
    graph.insert(4, vec![Edge::new(5, 1)]);
    graph.minimize_graph(false);
    assert_eq!(graph.len(), 1);
    assert_eq!(graph.get(1).unwrap()[0].node, 5);
    assert_eq!(graph.get(1).unwrap()[0].cost, 4);
}

#[test]
fn one_way_roads_with_cross() {
    let mut graph = Graph::new();
    graph.insert(1, vec![Edge::new(2, 1)]);
    graph.insert(2, vec![Edge::new(3, 1)]);
    graph.insert(3, vec![Edge::new(4, 1)]);
    graph.insert(4, vec![Edge::new(5, 1)]);
    graph.insert(5, Vec::new());
    graph.insert(6, vec![Edge::new(4, 1)]);
    graph.insert(7, vec![Edge::new(6, 1)]);
    graph.minimize_graph(false);
    assert_eq!(graph.len(), 4);
}

#[test]
fn two_way_roads_simple() {
    let mut graph = Graph::new();
    graph.insert(1, vec![Edge::new(2, 1)]);
    graph.insert(2, vec![Edge::new(1, 1), Edge::new(3, 1)]);
    graph.insert(3, vec![Edge::new(2, 1)]);
    graph.minimize_graph(false);
    assert_eq!(graph.len(), 2);
    assert_eq!(graph.get(1).unwrap()[0].node, 3);
    assert_eq!(graph.get(1).unwrap()[0].cost, 2);
    assert_eq!(graph.get(3).unwrap()[0].node, 1);
    assert_eq!(graph.get(3).unwrap()[0].cost, 2);
}

#[test]
fn one_way_cycle() {
    let mut graph = Graph::new();
    graph.insert(1, vec![Edge::new(2, 1)]);
    graph.insert(2, vec![Edge::new(1, 1), Edge::new(3, 1)]);
    graph.insert(3, vec![Edge::new(4, 1)]);
    graph.insert(4, vec![Edge::new(5, 1)]);
    graph.insert(5, vec![Edge::new(2, 1)]);
    graph.minimize_graph(false);
    println!("{:?}", graph);
}

#[test]
fn advanced_one_way_cycle() {
    let mut graph = Graph::new();
    graph.insert(1, vec![Edge::new(2, 1), Edge::new(10, 1)]);
    graph.insert(2, vec![Edge::new(3, 1)]);
    graph.insert(3, vec![Edge::new(4, 1)]);
    graph.insert(4, vec![Edge::new(5, 1)]);
    graph.insert(5, vec![Edge::new(6, 1), Edge::new(11, 1)]);
    graph.insert(6, vec![Edge::new(7, 1)]);
    graph.insert(7, vec![Edge::new(8, 1)]);
    graph.insert(8, vec![Edge::new(9, 1)]);
    graph.insert(9, vec![Edge::new(1, 1)]);
    graph.insert(10, Vec::new());
    graph.insert(11, Vec::new());
    graph.minimize_graph(false);
    println!("{:?}", graph);
}

#[test]
fn two_time_minimize() {
    let mut graph = Graph::new();
    graph.insert(1, vec![Edge::new(2, 1)]);
    graph.insert(2, vec![Edge::new(3, 1), Edge::new(6, 1)]);
    graph.insert(3, vec![Edge::new(4, 1)]);
    graph.insert(4, vec![Edge::new(5, 1)]);
    graph.insert(5, vec![Edge::new(2, 1)]);
    graph.minimize_graph(false);
    assert_eq!(graph.len(), 1);
    assert!(graph.get(1).unwrap()[0] == Edge::new(6, 2));
}

#[test]
fn remove_ends() {
    let mut graph = Graph::new();
    graph.insert(1, vec![Edge::new(2, 1)]);
    graph.insert(2, vec![Edge::new(3, 1)]);
    graph.insert(3, vec![Edge::new(4, 1)]);
    graph.insert(4, vec![Edge::new(5, 1)]);
    graph.insert(5, Vec::new());
    graph.minimize_graph(true);
    assert_eq!(graph.len(), 0);
}

#[test]
fn two_way_cycle() {
    let mut graph = Graph::new();
    graph.insert(1, vec![Edge::new(2, 1)]);
    graph.insert(2, vec![Edge::new(1, 1), Edge::new(3, 1), Edge::new(4, 1)]);
    graph.insert(3, vec![Edge::new(2, 1), Edge::new(4, 1)]);
    graph.insert(4, vec![Edge::new(3, 1), Edge::new(2, 1)]);
    graph.minimize_graph(false);
    assert_eq!(graph.len(), 2);
    println!("{:?}", graph);
}

#[test]
fn problematic_two_way_cycle() {
    let mut graph = Graph::new();
    graph.insert(0, vec![Edge::new(1, 1)]);
    graph.insert(1, vec![Edge::new(2, 1), Edge::new(0, 1)]);
    graph.insert(2, vec![Edge::new(1, 1), Edge::new(3, 1), Edge::new(7, 1)]);
    graph.insert(3, vec![Edge::new(2, 1), Edge::new(4, 1)]);
    graph.insert(4, vec![Edge::new(3, 1), Edge::new(5, 1), Edge::new(6, 1)]);
    graph.insert(5, vec![Edge::new(4, 1), Edge::new(6, 1)]);
    graph.insert(6, vec![Edge::new(5, 1), Edge::new(4, 1), Edge::new(7, 1)]);
    graph.insert(7, vec![Edge::new(6, 1), Edge::new(2, 1)]);
    graph.minimize_graph(false);
    println!("{:?}", graph);
}

#[test]
fn minimize_is_idempotent() {
    // Running minimize on an already-minimized graph changes nothing.
    let mut graph = Graph::new();
    graph.insert(1, vec![Edge::new(2, 1)]);
    graph.insert(2, vec![Edge::new(3, 1), Edge::new(6, 1)]);
    graph.insert(3, vec![Edge::new(4, 1)]);
    graph.insert(4, vec![Edge::new(5, 1)]);
    graph.insert(5, vec![Edge::new(2, 1)]);
    graph.insert(6, vec![Edge::new(1, 1)]);
    graph.minimize_graph(true);
    let mut again = Graph::new();
    for i in 0..graph.keys.len() {
        again.insert(graph.keys[i], graph.adj[i].clone());
    }
    again.minimize_graph(true);
    assert!(graph == again);
}

#[test]
fn contraction_keeps_cheaper_parallel_edge() {
    // 1 -> 2 -> 3 costs 5 + 5, but a direct 1 -> 3 edge of cost 3 exists
    // and must survive the contraction of node 2.
    let mut graph = Graph::new();
    graph.insert(1, vec![Edge::new(2, 5), Edge::new(3, 3)]);
    graph.insert(2, vec![Edge::new(3, 5)]);
    graph.insert(3, Vec::new());
    graph.minimize_graph(false);
    assert_eq!(graph.len(), 2);
    assert_eq!(graph.get(1).unwrap().len(), 1);
    assert_eq!(graph.get(1).unwrap()[0], Edge::new(3, 3));
}

#[test]
fn minimization_preserves_shortest_distances() {
    // Two junctions joined directly and through two removable nodes; the
    // shortest distance between the survivors is the same before and
    // after minimization.
    let mut graph = Graph::new();
    graph.insert(0, vec![Edge::new(1, 3), Edge::new(2, 5), Edge::new(3, 1)]);
    graph.insert(1, vec![Edge::new(0, 3), Edge::new(2, 5), Edge::new(3, 1)]);
    graph.insert(2, vec![Edge::new(0, 5), Edge::new(1, 5)]);
    graph.insert(3, vec![Edge::new(0, 1), Edge::new(1, 1)]);
    let before = graph.dijkstra_all(0);
    assert_eq!(before, vec![0, 2, 5, 1]);
    graph.minimize_graph(false);
    assert_eq!(graph.len(), 2);
    let after = graph.dijkstra_all(0);
    assert_eq!(after[0], 0);
    assert_eq!(after[1], before[1]);
}
