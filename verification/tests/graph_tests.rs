use osm_graph::coord::Coord;
use osm_graph::coord::CoordMap;
use osm_graph::preprocessor::CarDirection;
use osm_graph::preprocessor::Preprocessor;
use osm_graph::preprocessor::Road;
use osm_graph::Edge;
use osm_graph::Graph;

#[test]
fn insert_normalizes_the_list() {
    // Self-loops are dropped, duplicates keep the cheaper cost, and the
    // result is sorted by destination.
    let mut graph = Graph::new();
    graph.insert(
        5,
        vec![
            Edge::new(9, 4),
            Edge::new(5, 1),
            Edge::new(2, 7),
            Edge::new(9, 2),
        ],
    );
    let es = graph.get(5).unwrap();
    assert_eq!(es.len(), 2);
    assert_eq!(es[0], Edge::new(2, 7));
    assert_eq!(es[1], Edge::new(9, 2));
}

#[test]
fn build_graph_adds_both_directions_for_twoway() {
    let node_ids = vec![1, 2, 3];
    let roads = vec![Road { node_refs: vec![1, 2, 3], direction: CarDirection::Twoway }];
    let costs = vec![vec![10, 20]];
    let graph = Graph::build_graph(&node_ids, &roads, &costs);
    assert_eq!(graph.len(), 3);
    assert_eq!(graph.get(1).unwrap().as_slice(), &[Edge::new(2, 10)]);
    assert_eq!(
        graph.get(2).unwrap().as_slice(),
        &[Edge::new(1, 10), Edge::new(3, 20)]
    );
    assert_eq!(graph.get(3).unwrap().as_slice(), &[Edge::new(2, 20)]);
}

#[test]
fn build_graph_forward_only_for_oneway() {
    let node_ids = vec![1, 2];
    let roads = vec![Road { node_refs: vec![1, 2], direction: CarDirection::Forward }];
    let costs = vec![vec![111]];
    let graph = Graph::build_graph(&node_ids, &roads, &costs);
    assert_eq!(graph.get(1).unwrap().as_slice(), &[Edge::new(2, 111)]);
    assert!(graph.get(2).unwrap().is_empty());
}

#[test]
fn build_graph_keeps_minimum_on_duplicate_segments() {
    let node_ids = vec![1, 2];
    let roads = vec![
        Road { node_refs: vec![1, 2], direction: CarDirection::Forward },
        Road { node_refs: vec![1, 2], direction: CarDirection::Forward },
    ];
    let costs = vec![vec![8], vec![3]];
    let graph = Graph::build_graph(&node_ids, &roads, &costs);
    assert_eq!(graph.get(1).unwrap().as_slice(), &[Edge::new(2, 3)]);
}

#[test]
fn bidirectional_graph_reverses_every_edge() {
    let mut graph = Graph::new();
    graph.insert(0, vec![Edge::new(1, 4), Edge::new(2, 6)]);
    graph.insert(1, vec![Edge::new(2, 1)]);
    graph.insert(2, Vec::new());
    let bi = graph.get_bidirectional_graph();
    assert_eq!(bi.len(), 3);
    assert!(bi.get(0).unwrap().is_empty());
    assert_eq!(bi.get(1).unwrap().as_slice(), &[Edge::new(0, 4)]);
    assert_eq!(
        bi.get(2).unwrap().as_slice(),
        &[Edge::new(0, 6), Edge::new(1, 1)]
    );
}

#[test]
fn adjacency_lists_stay_sorted_and_loop_free() {
    let mut graph = Graph::new();
    graph.insert(3, vec![Edge::new(9, 1), Edge::new(1, 1), Edge::new(3, 1)]);
    graph.insert(1, vec![Edge::new(3, 1)]);
    graph.insert(9, vec![Edge::new(3, 1)]);
    graph.minimize_graph(false);
    for i in 0..graph.keys.len() {
        let u = graph.keys[i];
        let es = &graph.adj[i];
        for x in 0..es.len() {
            assert_ne!(es[x].node, u);
            if x + 1 < es.len() {
                assert!(es[x].node < es[x + 1].node);
            }
        }
    }
}

#[test]
fn rewrite_ids_makes_ids_dense() {
    let mut graph = Graph::new();
    graph.insert(100, vec![Edge::new(500, 7)]);
    graph.insert(500, vec![Edge::new(9000, 1)]);
    graph.insert(9000, vec![Edge::new(100, 2)]);
    let mut nodes = CoordMap::new();
    nodes.insert(100, Coord { lat_dm: 10, lon_dm: 11 });
    nodes.insert(500, Coord { lat_dm: 20, lon_dm: 21 });
    nodes.insert(9000, Coord { lat_dm: 30, lon_dm: 31 });
    Preprocessor::rewrite_ids(&mut nodes, &mut graph);
    // Dense ids 0, 1, 2 in ascending order of the old ids.
    assert_eq!(graph.keys, vec![0, 1, 2]);
    assert_eq!(graph.get(0).unwrap().as_slice(), &[Edge::new(1, 7)]);
    assert_eq!(graph.get(1).unwrap().as_slice(), &[Edge::new(2, 1)]);
    assert_eq!(graph.get(2).unwrap().as_slice(), &[Edge::new(0, 2)]);
    // Every edge destination is again a node id.
    for i in 0..graph.keys.len() {
        for e in graph.adj[i].iter() {
            assert!(0 <= e.node && e.node < graph.keys.len() as i64);
        }
    }
    // The coordinates follow their nodes.
    assert_eq!(nodes.len(), 3);
    assert_eq!(nodes.get(0).unwrap(), Coord { lat_dm: 10, lon_dm: 11 });
    assert_eq!(nodes.get(1).unwrap(), Coord { lat_dm: 20, lon_dm: 21 });
    assert_eq!(nodes.get(2).unwrap(), Coord { lat_dm: 30, lon_dm: 31 });
}
