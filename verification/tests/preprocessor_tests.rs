use osm_graph::preprocessor::create_blacklist;
use osm_graph::Edge;
use osm_graph::preprocessor::CarDirection;
use osm_graph::preprocessor::OsmRecord;
use osm_graph::preprocessor::Preprocessor;

fn tag(k: &str, v: &str) -> (String, String) {
    (k.to_string(), v.to_string())
}

fn node(id: i64, lat_dm: i32, lon_dm: i32) -> OsmRecord {
    OsmRecord::Node { id, lat_dm, lon_dm }
}

#[test]
fn blacklist_holds_the_excluded_classes() {
    let bl = create_blacklist();
    assert_eq!(bl.len(), 22);
    assert!(bl.iter().any(|s| s == "footway"));
    assert!(bl.iter().any(|s| s == "via_ferreta"));
    assert!(bl.iter().any(|s| s == "bridlway"));
    assert!(!bl.iter().any(|s| s == "residential"));
}

#[test]
fn accepts_plain_highway() {
    let p = Preprocessor::new();
    let bl = create_blacklist();
    assert!(p.is_valid_highway(&bl, &vec![tag("highway", "residential")]));
}

#[test]
fn rejects_blacklisted_highway() {
    let p = Preprocessor::new();
    let bl = create_blacklist();
    assert!(!p.is_valid_highway(&bl, &vec![tag("highway", "pedestrian")]));
}

#[test]
fn rejects_area() {
    let p = Preprocessor::new();
    let bl = create_blacklist();
    assert!(!p.is_valid_highway(
        &bl,
        &vec![tag("highway", "residential"), tag("area", "yes")]
    ));
}

#[test]
fn rejects_without_highway_key() {
    let p = Preprocessor::new();
    let bl = create_blacklist();
    assert!(!p.is_valid_highway(&bl, &vec![tag("waterway", "river")]));
}

#[test]
fn oneway_road_is_forward() {
    // A two-node one-way residential way comes out as a single Forward road.
    let mut p = Preprocessor::new();
    let records = vec![
        node(1, 550000000, 100000000),
        node(2, 550010000, 100000000),
        OsmRecord::Way {
            id: 7,
            node_refs: vec![1, 2],
            tags: vec![tag("highway", "residential"), tag("oneway", "yes")],
        },
    ];
    p.get_roads_and_nodes(&records);
    assert_eq!(p.roads.len(), 1);
    assert_eq!(p.roads[0].direction, CarDirection::Forward);
    assert_eq!(p.roads[0].node_refs, vec![1, 2]);
    assert_eq!(p.nodes.len(), 2);
}

#[test]
fn roundabout_value_makes_forward() {
    let mut p = Preprocessor::new();
    let records = vec![
        node(1, 0, 0),
        node(2, 1, 1),
        OsmRecord::Way {
            id: 7,
            node_refs: vec![1, 2],
            tags: vec![tag("highway", "residential"), tag("junction", "roundabout")],
        },
    ];
    p.get_roads_and_nodes(&records);
    assert_eq!(p.roads.len(), 1);
    assert_eq!(p.roads[0].direction, CarDirection::Forward);
}

#[test]
fn plain_road_is_twoway() {
    let mut p = Preprocessor::new();
    let records = vec![
        node(1, 0, 0),
        node(2, 1, 1),
        OsmRecord::Way {
            id: 7,
            node_refs: vec![1, 2],
            tags: vec![tag("highway", "residential"), tag("oneway", "no")],
        },
    ];
    p.get_roads_and_nodes(&records);
    assert_eq!(p.roads.len(), 1);
    assert_eq!(p.roads[0].direction, CarDirection::Twoway);
}

#[test]
fn blacklisted_road_is_dropped() {
    // Two ways over the same endpoints; only the residential one survives.
    let mut p = Preprocessor::new();
    let records = vec![
        node(1, 0, 0),
        node(2, 1, 1),
        OsmRecord::Way {
            id: 7,
            node_refs: vec![1, 2],
            tags: vec![tag("highway", "residential")],
        },
        OsmRecord::Way {
            id: 8,
            node_refs: vec![1, 2],
            tags: vec![tag("highway", "pedestrian")],
        },
    ];
    p.get_roads_and_nodes(&records);
    assert_eq!(p.roads.len(), 1);
}

#[test]
fn unreferenced_node_is_dropped() {
    // Three nodes, one way over two of them: the third is not kept.
    let mut p = Preprocessor::new();
    let records = vec![
        node(1, 0, 0),
        node(2, 1, 1),
        node(3, 2, 2),
        OsmRecord::Way {
            id: 7,
            node_refs: vec![1, 2],
            tags: vec![tag("highway", "residential")],
        },
    ];
    p.get_roads_and_nodes(&records);
    assert_eq!(p.nodes.len(), 2);
    assert!(p.nodes.get(1).is_some());
    assert!(p.nodes.get(2).is_some());
    assert!(p.nodes.get(3).is_none());
}

#[test]
fn relations_are_ignored() {
    let mut p = Preprocessor::new();
    let records = vec![node(1, 0, 0), OsmRecord::Relation];
    p.get_roads_and_nodes(&records);
    assert_eq!(p.roads.len(), 0);
    assert_eq!(p.nodes.len(), 0);
}

#[test]
fn refs_covered_detects_missing_coordinates() {
    let mut p = Preprocessor::new();
    let records = vec![
        node(1, 0, 0),
        OsmRecord::Way {
            id: 7,
            node_refs: vec![1, 2],
            tags: vec![tag("highway", "residential")],
        },
    ];
    p.get_roads_and_nodes(&records);
    // Node 2 never appeared in the stream.
    assert!(!p.refs_covered());
}

#[test]
fn chain_collapses_to_nothing_with_end_pruning() {
    // A plain two-way chain is all intermediates and dead ends: with end
    // pruning the minimized graph is empty.
    let mut p = Preprocessor::new();
    let records = vec![
        node(10, 0, 0),
        node(20, 1, 0),
        node(30, 2, 0),
        OsmRecord::Way {
            id: 7,
            node_refs: vec![10, 20, 30],
            tags: vec![tag("highway", "residential")],
        },
    ];
    p.get_roads_and_nodes(&records);
    assert!(p.refs_covered());
    let costs = vec![vec![100, 150]];
    let (graph, bi_graph, landmarks) = p.build_graph(&costs);
    assert_eq!(graph.len(), 0);
    assert_eq!(bi_graph.len(), 0);
    assert_eq!(landmarks.len(), 0);
}

#[test]
fn end_to_end_pipeline_on_records() {
    // Four junctions joined by a two-way ring and two chords survive
    // minimization untouched; the ids become dense and the landmarks
    // carry consistent tables.
    let mut p = Preprocessor::new();
    let records = vec![
        node(10, 0, 0),
        node(20, 1, 0),
        node(30, 2, 0),
        node(40, 3, 0),
        OsmRecord::Way {
            id: 7,
            node_refs: vec![10, 20, 30, 40, 10],
            tags: vec![tag("highway", "residential")],
        },
        OsmRecord::Way {
            id: 8,
            node_refs: vec![10, 30],
            tags: vec![tag("highway", "residential")],
        },
        OsmRecord::Way {
            id: 9,
            node_refs: vec![20, 40],
            tags: vec![tag("highway", "residential")],
        },
    ];
    p.get_roads_and_nodes(&records);
    assert!(p.refs_covered());
    let costs = vec![vec![100, 100, 100, 100], vec![50], vec![60]];
    let (graph, bi_graph, landmarks) = p.build_graph(&costs);
    assert_eq!(graph.len(), 4);
    assert_eq!(graph.keys, vec![0, 1, 2, 3]);
    assert_eq!(
        graph.get(0).unwrap().as_slice(),
        &[Edge::new(1, 100), Edge::new(2, 50), Edge::new(3, 100)]
    );
    assert_eq!(graph.dijkstra_all(0), vec![0, 100, 50, 100]);
    assert_eq!(bi_graph.len(), 4);
    assert!(landmarks.len() >= 1);
    for i in 1..landmarks.len() {
        assert!(landmarks[i - 1].node_id <= landmarks[i].node_id);
    }
    for lm in landmarks.iter() {
        assert_eq!(lm.distances, graph.dijkstra_all(lm.node_id));
        assert_eq!(lm.bi_distances, bi_graph.dijkstra_all(lm.node_id));
    }
    assert_eq!(p.roads.len(), 0);
    assert_eq!(p.nodes.len(), 4);
}
