use vstd::prelude::*;
use vstd::string::StringExecFns;

use crate::coord::Coord;
use crate::coord::CoordMap;
use crate::edge::Edge;
use crate::graph::contains_id;
use crate::graph::copy_ids;
use crate::graph::costs_wf;
use crate::graph::has_dest;
use crate::graph::cost_at;
use crate::graph::edges_strictly_sorted;
use crate::graph::lemma_dest_unique;
use crate::graph::lemma_sorted_index_of;
use crate::graph::built_graph;
use crate::graph::strictly_sorted_ids;
use crate::graph::transposed;
use crate::graph::Graph;
use crate::minimize::is_minimized;
use crate::minimize::minimize_trace;
use crate::routing::farthest_selection;
use crate::routing::landmark_wf;
use crate::routing::sort_landmarks;
use crate::routing::Landmark;

verus! {

/// Whether a road may be driven in one or both directions.
#[derive(Clone, Copy, Debug, PartialEq, Eq, Structural)]
pub enum CarDirection {
    Forward,
    Twoway,
}

/// An accepted road: the ordered nodes it passes through and its direction.
#[derive(Clone, Debug)]
pub struct Road {
    pub node_refs: Vec<i64>,
    pub direction: CarDirection,
}

/// One record of an OpenStreetMap extract, as the decoder hands them out.
/// Coordinates are decimicro degrees; relations play no part here.
pub enum OsmRecord {
    Node { id: i64, lat_dm: i32, lon_dm: i32 },
    Way { id: i64, node_refs: Vec<i64>, tags: Vec<(String, String)> },
    Relation,
}

// ---------------------------------------------------------------------------
// Way filtering
// ---------------------------------------------------------------------------

/// The highway classifications excluded from the road network.
pub open spec fn blacklist_spec() -> Seq<Seq<char>> {
    seq![
        "pedestrian"@,
        "footway"@,
        "steps"@,
        "path"@,
        "cycleway"@,
        "proposed"@,
        "construction"@,
        "bridleway"@,
        "abandoned"@,
        "platform"@,
        "raceway"@,
        "service"@,
        "services"@,
        "rest_area"@,
        "escape"@,
        "busway"@,
        "bridlway"@,
        "corridor"@,
        "via_ferreta"@,
        "sidewalk"@,
        "crossing"@,
        "track"@,
    ]
}

/// A way is kept iff some tag has key `highway` with a value outside the
/// blacklist, and no tag has key `area`.
pub open spec fn valid_highway_spec(bl: Seq<Seq<char>>, tags: Seq<(String, String)>) -> bool {
    &&& exists|i: int|
        0 <= i < tags.len() && (#[trigger] tags[i]).0@ == "highway"@ && !bl.contains(tags[i].1@)
    &&& !exists|i: int| 0 <= i < tags.len() && (#[trigger] tags[i]).0@ == "area"@
}

/// A way is one-way iff it is tagged `oneway=yes` or any tag value is
/// `roundabout`.
pub open spec fn oneway_spec(tags: Seq<(String, String)>) -> bool {
    exists|i: int|
        0 <= i < tags.len() && (#[trigger] tags[i]).0@ == "oneway"@ && tags[i].1@ == "yes"@
}

pub open spec fn roundabout_spec(tags: Seq<(String, String)>) -> bool {
    exists|i: int| 0 <= i < tags.len() && (#[trigger] tags[i]).1@ == "roundabout"@
}

pub open spec fn direction_spec(tags: Seq<(String, String)>) -> CarDirection {
    if oneway_spec(tags) || roundabout_spec(tags) {
        CarDirection::Forward
    } else {
        CarDirection::Twoway
    }
}

/// The blacklist as a vector of strings.
pub fn create_blacklist() -> (r: Vec<String>)
    ensures
        r.deep_view() == blacklist_spec(),
{
    let mut v: Vec<String> = Vec::new();
    v.push(String::from_str("pedestrian"));
    v.push(String::from_str("footway"));
    v.push(String::from_str("steps"));
    v.push(String::from_str("path"));
    v.push(String::from_str("cycleway"));
    v.push(String::from_str("proposed"));
    v.push(String::from_str("construction"));
    v.push(String::from_str("bridleway"));
    v.push(String::from_str("abandoned"));
    v.push(String::from_str("platform"));
    v.push(String::from_str("raceway"));
    v.push(String::from_str("service"));
    v.push(String::from_str("services"));
    v.push(String::from_str("rest_area"));
    v.push(String::from_str("escape"));
    v.push(String::from_str("busway"));
    v.push(String::from_str("bridlway"));
    v.push(String::from_str("corridor"));
    v.push(String::from_str("via_ferreta"));
    v.push(String::from_str("sidewalk"));
    v.push(String::from_str("crossing"));
    v.push(String::from_str("track"));
    proof {
        assert(v.deep_view() =~~= blacklist_spec());
    }
    v
}

/// Whether `s` occurs in `xs`.
fn contains_string(xs: &Vec<String>, s: &String) -> (b: bool)
    ensures
        b == xs.deep_view().contains(s@),
{
    let n = xs.len();
    let mut i: usize = 0;
    while i < n
        invariant
            i <= n,
            n == xs@.len(),
            forall|k: int| 0 <= k < i ==> xs.deep_view()[k] != s@,
        decreases n - i,
    {
        if xs[i].eq(s) {
            proof {
                assert(xs.deep_view()[i as int] == s@);
            }
            return true;
        }
        i += 1;
    }
    proof {
        if xs.deep_view().contains(s@) {
            let k = choose|k: int| 0 <= k < xs.deep_view().len() && xs.deep_view()[k] == s@;
        }
    }
    false
}

// ---------------------------------------------------------------------------
// Ingest
// ---------------------------------------------------------------------------

/// A road reduced to what it says: its node list and its direction.
pub open spec fn road_model(r: Road) -> (Seq<i64>, CarDirection) {
    (r.node_refs@, r.direction)
}

pub open spec fn roads_model(rs: Seq<Road>) -> Seq<(Seq<i64>, CarDirection)> {
    rs.map_values(|r: Road| road_model(r))
}

/// The roads that filtering the record stream produces, in order.
pub open spec fn ingest_roads(bl: Seq<Seq<char>>, recs: Seq<OsmRecord>) -> Seq<
    (Seq<i64>, CarDirection),
>
    decreases recs.len(),
{
    if recs.len() == 0 {
        Seq::empty()
    } else {
        let rest = ingest_roads(bl, recs.drop_first());
        match recs[0] {
            OsmRecord::Way { node_refs, tags, .. } => {
                if valid_highway_spec(bl, tags@) {
                    seq![(node_refs@, direction_spec(tags@))] + rest
                } else {
                    rest
                }
            },
            _ => rest,
        }
    }
}

pub open spec fn is_accepted_way(bl: Seq<Seq<char>>, rec: OsmRecord) -> bool {
    rec matches OsmRecord::Way { tags, .. } && valid_highway_spec(bl, tags@)
}

pub open spec fn way_has_ref(rec: OsmRecord, id: i64) -> bool {
    rec matches OsmRecord::Way { node_refs, .. } && node_refs@.contains(id)
}

/// `id` is referenced by some accepted way of the stream.
pub open spec fn is_kept(bl: Seq<Seq<char>>, recs: Seq<OsmRecord>, id: i64) -> bool {
    exists|i: int|
        0 <= i < recs.len() && is_accepted_way(bl, #[trigger] recs[i]) && way_has_ref(recs[i], id)
}

/// The coordinates that the second ingest pass stores: node records are
/// taken in order until the first record of another kind, and each one
/// whose id the `keep` predicate admits lands in the map.
pub open spec fn collect_coords(
    m: Map<i64, Coord>,
    recs: Seq<OsmRecord>,
    keep: spec_fn(i64) -> bool,
) -> Map<i64, Coord>
    decreases recs.len(),
{
    if recs.len() == 0 {
        m
    } else {
        match recs[0] {
            OsmRecord::Node { id, lat_dm, lon_dm, .. } => collect_coords(
                if keep(id) {
                    m.insert(id, Coord { lat_dm, lon_dm })
                } else {
                    m
                },
                recs.drop_first(),
                keep,
            ),
            _ => m,
        }
    }
}

/// Two agreeing predicates collect the same coordinates.
pub proof fn lemma_collect_coords_congruence(
    m: Map<i64, Coord>,
    recs: Seq<OsmRecord>,
    p1: spec_fn(i64) -> bool,
    p2: spec_fn(i64) -> bool,
)
    requires
        forall|id: i64| #[trigger] p1(id) == p2(id),
    ensures
        collect_coords(m, recs, p1) == collect_coords(m, recs, p2),
    decreases recs.len(),
{
    if recs.len() > 0 {
        match recs[0] {
            OsmRecord::Node { id, lat_dm, lon_dm, .. } => {
                assert(p1(id) == p2(id));
                let m2 = if p1(id) {
                    m.insert(id, Coord { lat_dm, lon_dm })
                } else {
                    m
                };
                lemma_collect_coords_congruence(m2, recs.drop_first(), p1, p2);
            },
            _ => {},
        }
    }
}

/// Insert `id` into the sorted list `v` unless it is already there.
pub fn insert_id_sorted(v: &mut Vec<i64>, id: i64)
    requires
        strictly_sorted_ids(old(v)@),
    ensures
        strictly_sorted_ids(final(v)@),
        forall|x: i64| #[trigger] final(v)@.contains(x) <==> (old(v)@.contains(x) || x == id),
{
    let ghost s = v@;
    let n = v.len();
    let mut i: usize = 0;
    while i < n && v[i] < id
        invariant
            i <= n,
            n == v@.len(),
            v@ == s,
            strictly_sorted_ids(v@),
            forall|k: int| 0 <= k < i ==> v@[k] < id,
        decreases n - i,
    {
        i += 1;
    }
    if i < n && v[i] == id {
        proof {
            assert forall|x: i64| #[trigger] v@.contains(x) <==> (s.contains(x) || x == id) by {
                if x == id {
                    assert(v@[i as int] == id);
                }
            }
        }
        return ;
    }
    let ghost p = i as int;
    v.insert(i, id);
    proof {
        assert(v@ == s.insert(p, id));
        assert(strictly_sorted_ids(v@)) by {
            assert forall|a: int, b: int| 0 <= a < b < v@.len() implies v@[a] < v@[b] by {
                if a < p && b == p {
                    assert(v@[a] == s[a]);
                } else if a < p && b > p {
                    assert(v@[a] == s[a] && v@[b] == s[b - 1]);
                    assert(s[a] < id);
                    assert(s[b - 1] >= id && s[b - 1] != id);
                } else if a == p && b > p {
                    assert(v@[b] == s[b - 1]);
                    assert(s[b - 1] >= id && s[b - 1] != id);
                } else if a > p {
                    assert(v@[a] == s[a - 1] && v@[b] == s[b - 1]);
                }
            }
        };
        assert forall|x: i64| #[trigger] v@.contains(x) implies (s.contains(x) || x == id) by {
            let k = choose|k: int| 0 <= k < v@.len() && v@[k] == x;
            if k < p {
                assert(s[k] == x);
            } else if k > p {
                assert(s[k - 1] == x);
            }
        }
        assert forall|x: i64| s.contains(x) implies #[trigger] v@.contains(x) by {
            let k = choose|k: int| 0 <= k < s.len() && s[k] == x;
            if k < p {
                assert(v@[k] == x);
            } else {
                assert(v@[k + 1] == x);
            }
        }
        assert(v@[p] == id);
    }
}

/// The ingest state: the coordinates of the kept nodes and the accepted
/// roads.
pub struct Preprocessor {
    pub nodes: CoordMap,
    pub roads: Vec<Road>,
}

/// `gpost` and `npost` are `gpre` and `npre` renumbered into the dense
/// range `0 .. N`, in ascending order of original id: arcs, costs and
/// coordinates carry over exactly.
pub open spec fn reindexed(gpre: Graph, gpost: Graph, npre: CoordMap, npost: CoordMap) -> bool {
    &&& gpost.wf()
    &&& gpost.dense()
    &&& gpost.closed()
    &&& gpost.node_count() == gpre.node_count()
    &&& forall|i: int, j: int|
        0 <= i < gpre.node_count() && 0 <= j < gpre.node_count() ==> (#[trigger] gpost.has_arc(
            i as i64,
            j as i64,
        ) <==> gpre.has_arc(gpre.ids()[i], gpre.ids()[j]))
    &&& forall|i: int, j: int|
        0 <= i < gpre.node_count() && 0 <= j < gpre.node_count() && #[trigger] gpost.has_arc(
            i as i64,
            j as i64,
        ) ==> gpost.arc_cost(i as i64, j as i64) == gpre.arc_cost(
            gpre.ids()[i],
            gpre.ids()[j],
        )
    &&& npost.wf()
    &&& forall|id: i64| #[trigger] npost@.dom().contains(id) <==> 0 <= id < gpre.node_count()
    &&& forall|i: int| 0 <= i < gpre.node_count() ==> npost@[i as i64] == npre@[gpre.ids()[i]]
}

/// How the pipeline's returned graph relates to the ingested roads and
/// coordinates: an initial graph is built of exactly them, a minimizer
/// trace leads from it to a minimized graph, and the result is that graph
/// renumbered densely.
pub open spec fn pipeline_steps(
    pre: Preprocessor,
    post_nodes: CoordMap,
    costs: Seq<Vec<u32>>,
    g: Graph,
) -> bool {
    exists|ids: Seq<i64>, gb: Graph, gm: Graph, tr: Seq<Graph>|
        #![trigger built_graph(gb, ids, pre.roads@, costs), minimize_trace(tr, true), reindexed(gm, g, pre.nodes, post_nodes)]
        strictly_sorted_ids(ids) && (forall|x: i64|
            #[trigger] ids.contains(x) <==> pre.nodes@.dom().contains(x)) && built_graph(
            gb,
            ids,
            pre.roads@,
            costs,
        ) && minimize_trace(tr, true) && tr[0] == gb && tr[tr.len() - 1] == gm && is_minimized(
            gm,
            true,
        ) && reindexed(gm, g, pre.nodes, post_nodes)
}

impl Preprocessor {
    pub fn new() -> (p: Preprocessor)
        ensures
            p.nodes.wf(),
            p.nodes@ =~= Map::<i64, Coord>::empty(),
            p.roads@.len() == 0,
    {
        Preprocessor { nodes: CoordMap::new(), roads: Vec::new() }
    }

    /// The acceptance test for one way's tags.
    pub fn is_valid_highway(&self, blacklist: &Vec<String>, tags: &Vec<(String, String)>) -> (r:
        bool)
        ensures
            r == valid_highway_spec(blacklist.deep_view(), tags@),
    {
        let highway_key = String::from_str("highway");
        let area_key = String::from_str("area");
        let n = tags.len();
        let mut has_highway = false;
        let mut has_area = false;
        let mut i: usize = 0;
        while i < n
            invariant
                i <= n,
                n == tags@.len(),
                highway_key@ == "highway"@,
                area_key@ == "area"@,
                has_highway == exists|k: int|
                    0 <= k < i && (#[trigger] tags@[k]).0@ == "highway"@ && !blacklist.deep_view()
                        .contains(tags@[k].1@),
                has_area == exists|k: int| 0 <= k < i && (#[trigger] tags@[k]).0@ == "area"@,
            decreases n - i,
        {
            let ghost hh0 = has_highway;
            let ghost ha0 = has_area;
            if tags[i].0 == highway_key {
                if !contains_string(blacklist, &tags[i].1) {
                    has_highway = true;
                }
            }
            if tags[i].0 == area_key {
                has_area = true;
            }
            proof {
                assert forall|k: int|
                    0 <= k < i + 1 && (#[trigger] tags@[k]).0@ == "highway"@ && !blacklist
                        .deep_view().contains(tags@[k].1@) implies has_highway by {
                    if k < i {
                        assert(hh0);
                    }
                }
                if has_highway && !hh0 {
                    assert(tags@[i as int].0@ == "highway"@ && !blacklist.deep_view().contains(
                        tags@[i as int].1@,
                    ));
                }
                assert forall|k: int|
                    0 <= k < i + 1 && (#[trigger] tags@[k]).0@ == "area"@ implies has_area by {
                    if k < i {
                        assert(ha0);
                    }
                }
                if has_area && !ha0 {
                    assert(tags@[i as int].0@ == "area"@);
                }
            }
            i += 1;
        }
        has_highway && !has_area
    }

    /// Decide the direction of a way from its tags.
    fn way_direction(tags: &Vec<(String, String)>) -> (d: CarDirection)
        ensures
            d == direction_spec(tags@),
    {
        let oneway_key = String::from_str("oneway");
        let yes_val = String::from_str("yes");
        let roundabout_val = String::from_str("roundabout");
        let n = tags.len();
        let mut oneway = false;
        let mut roundabout = false;
        let mut i: usize = 0;
        while i < n
            invariant
                i <= n,
                n == tags@.len(),
                oneway_key@ == "oneway"@,
                yes_val@ == "yes"@,
                roundabout_val@ == "roundabout"@,
                oneway == exists|k: int|
                    0 <= k < i && (#[trigger] tags@[k]).0@ == "oneway"@ && tags@[k].1@ == "yes"@,
                roundabout == exists|k: int|
                    0 <= k < i && (#[trigger] tags@[k]).1@ == "roundabout"@,
            decreases n - i,
        {
            let ghost o0 = oneway;
            let ghost r0 = roundabout;
            if tags[i].0 == oneway_key && tags[i].1 == yes_val {
                oneway = true;
            }
            if tags[i].1 == roundabout_val {
                roundabout = true;
            }
            proof {
                assert forall|k: int|
                    0 <= k < i + 1 && (#[trigger] tags@[k]).0@ == "oneway"@ && tags@[k].1@
                        == "yes"@ implies oneway by {
                    if k < i {
                        assert(o0);
                    }
                }
                if oneway && !o0 {
                    assert(tags@[i as int].0@ == "oneway"@ && tags@[i as int].1@ == "yes"@);
                }
                assert forall|k: int|
                    0 <= k < i + 1 && (#[trigger] tags@[k]).1@ == "roundabout"@ implies
                    roundabout by {
                    if k < i {
                        assert(r0);
                    }
                }
                if roundabout && !r0 {
                    assert(tags@[i as int].1@ == "roundabout"@);
                }
            }
            i += 1;
        }
        if oneway || roundabout {
            proof {
                assert(oneway_spec(tags@) || roundabout_spec(tags@));
            }
            CarDirection::Forward
        } else {
            proof {
                if oneway_spec(tags@) {
                    assert(oneway);
                }
                if roundabout_spec(tags@) {
                    assert(roundabout);
                }
            }
            CarDirection::Twoway
        }
    }

    /// Second ingest pass: store the coordinate of every kept node.  Node
    /// records sit at the front of an OSM stream, so the scan stops at the
    /// first record of another kind.
    pub fn get_nodes(&mut self, records: &Vec<OsmRecord>, nodes_to_keep: &Vec<i64>)
        requires
            old(self).nodes.wf(),
        ensures
            final(self).nodes.wf(),
            final(self).nodes@ == collect_coords(
                old(self).nodes@,
                records@,
                |id: i64| nodes_to_keep@.contains(id),
            ),
            final(self).roads == old(self).roads,
    {
        let ghost keep = |id: i64| nodes_to_keep@.contains(id);
        let ghost target = collect_coords(old(self).nodes@, records@, keep);
        let n = records.len();
        proof {
            assert(records@.skip(0) =~= records@);
        }
        let mut i: usize = 0;
        while i < n
            invariant
                i <= n,
                n == records@.len(),
                self.nodes.wf(),
                self.roads == old(self).roads,
                keep == (|id: i64| nodes_to_keep@.contains(id)),
                target == collect_coords(old(self).nodes@, records@, keep),
                collect_coords(self.nodes@, records@.skip(i as int), keep) == target,
            decreases n - i,
        {
            proof {
                assert(records@.skip(i as int)[0] == records@[i as int]);
                assert(records@.skip(i as int).drop_first() =~= records@.skip(i as int + 1));
            }
            let ghost m0 = self.nodes@;
            match &records[i] {
                OsmRecord::Node { id, lat_dm, lon_dm } => {
                    let idv = *id;
                    let c = Coord { lat_dm: *lat_dm, lon_dm: *lon_dm };
                    if contains_id(nodes_to_keep, idv) {
                        self.nodes.insert(idv, c);
                        proof {
                            assert(keep(idv));
                            assert(self.nodes@ == m0.insert(idv, c));
                        }
                    } else {
                        proof {
                            assert(!keep(idv));
                        }
                    }
                    proof {
                        assert(collect_coords(self.nodes@, records@.skip(i as int + 1), keep)
                            == target);
                    }
                },
                _ => {
                    proof {
                        assert(collect_coords(self.nodes@, records@.skip(i as int), keep)
                            == self.nodes@);
                        lemma_collect_coords_congruence(
                            old(self).nodes@,
                            records@,
                            keep,
                            |id: i64| nodes_to_keep@.contains(id),
                        );
                    }
                    return ;
                },
            }
            i += 1;
        }
        proof {
            assert(records@.skip(n as int) =~= Seq::<OsmRecord>::empty());
            lemma_collect_coords_congruence(
                old(self).nodes@,
                records@,
                keep,
                |id: i64| nodes_to_keep@.contains(id),
            );
        }
    }

    /// First plus second ingest pass: collect the accepted roads and the
    /// set of node ids they reference, then the coordinates of exactly
    /// those nodes.
    pub fn get_roads_and_nodes(&mut self, records: &Vec<OsmRecord>)
        requires
            old(self).nodes.wf(),
        ensures
            final(self).nodes.wf(),
            roads_model(final(self).roads@) == roads_model(old(self).roads@) + ingest_roads(
                blacklist_spec(),
                records@,
            ),
            final(self).nodes@ == collect_coords(
                old(self).nodes@,
                records@,
                |id: i64| is_kept(blacklist_spec(), records@, id),
            ),
    {
        let blacklist = create_blacklist();
        let ghost bl = blacklist_spec();
        let ghost target = roads_model(old(self).roads@) + ingest_roads(bl, records@);
        let mut kept: Vec<i64> = Vec::new();
        let n = records.len();
        proof {
            assert(records@.skip(0) =~= records@);
            assert(records@.take(0) =~= Seq::<OsmRecord>::empty());
        }
        let mut i: usize = 0;
        while i < n
            invariant
                i <= n,
                n == records@.len(),
                self.nodes == old(self).nodes,
                old(self).nodes.wf(),
                blacklist.deep_view() == bl,
                bl == blacklist_spec(),
                target == roads_model(old(self).roads@) + ingest_roads(bl, records@),
                strictly_sorted_ids(kept@),
                forall|x: i64|
                    #[trigger] kept@.contains(x) <==> is_kept(bl, records@.take(i as int), x),
                roads_model(self.roads@) + ingest_roads(bl, records@.skip(i as int)) == target,
            decreases n - i,
        {
            proof {
                assert(records@.skip(i as int)[0] == records@[i as int]);
                assert(records@.skip(i as int).drop_first() =~= records@.skip(i as int + 1));
                assert forall|x: i64|
                    is_kept(bl, records@.take(i as int), x) implies is_kept(
                    bl,
                    records@.take(i as int + 1),
                    x,
                ) by {
                    let k = choose|k: int|
                        0 <= k < i && is_accepted_way(bl, #[trigger] records@.take(i as int)[k])
                            && way_has_ref(records@.take(i as int)[k], x);
                    assert(records@.take(i as int + 1)[k] == records@.take(i as int)[k]);
                    assert(is_accepted_way(bl, records@.take(i as int + 1)[k]));
                }
            }
            let ghost kept0 = kept@;
            let ghost roads0 = self.roads@;
            match &records[i] {
                OsmRecord::Way { id: _, node_refs, tags } => {
                    proof {
                        assert(records@[i as int] matches OsmRecord::Way {
                            node_refs: nr,
                            tags: tg,
                            ..
                        } && nr == *node_refs && tg == *tags);
                    }
                    if self.is_valid_highway(&blacklist, tags) {
                        let refs = copy_ids(node_refs);
                        let dir = Preprocessor::way_direction(tags);
                        let m2 = node_refs.len();
                        let mut k: usize = 0;
                        while k < m2
                            invariant
                                k <= m2,
                                m2 == node_refs@.len(),
                                strictly_sorted_ids(kept@),
                                forall|x: i64|
                                    #[trigger] kept@.contains(x) <==> (kept0.contains(x)
                                        || node_refs@.take(k as int).contains(x)),
                            decreases m2 - k,
                        {
                            insert_id_sorted(&mut kept, node_refs[k]);
                            proof {
                                assert(node_refs@.take(k as int + 1).drop_last() =~= node_refs@
                                    .take(k as int));
                                assert forall|x: i64|
                                    node_refs@.take(k as int + 1).contains(x) implies (node_refs@
                                    .take(k as int).contains(x) || x == node_refs@[k as int]) by {
                                    let t = choose|t: int|
                                        0 <= t < k + 1 && #[trigger] node_refs@.take(
                                            k as int + 1,
                                        )[t] == x;
                                    if t < k {
                                        assert(node_refs@.take(k as int)[t] == x);
                                    }
                                }
                                assert forall|x: i64|
                                    node_refs@.take(k as int).contains(x) implies node_refs@.take(
                                    k as int + 1,
                                ).contains(x) by {
                                    let t = choose|t: int|
                                        0 <= t < k && #[trigger] node_refs@.take(k as int)[t] == x;
                                    assert(node_refs@.take(k as int + 1)[t] == x);
                                }
                                assert(node_refs@.take(k as int + 1)[k as int] == node_refs@[
                                    k as int
                                ]);
                            }
                            k += 1;
                        }
                        self.roads.push(Road { node_refs: refs, direction: dir });
                        proof {
                            assert(node_refs@.take(m2 as int) =~= node_refs@);
                            // The new road is the one the stream specifies here.
                            let road = self.roads@.last();
                            assert(road_model(road) == (node_refs@, direction_spec(tags@)));
                            assert(roads_model(self.roads@) =~= roads_model(roads0).push(
                                road_model(road),
                            ));
                            assert(ingest_roads(bl, records@.skip(i as int)) == seq![
                                (node_refs@, direction_spec(tags@)),
                            ] + ingest_roads(bl, records@.skip(i as int + 1)));
                            assert(roads_model(self.roads@) + ingest_roads(
                                bl,
                                records@.skip(i as int + 1),
                            ) =~= roads_model(roads0) + ingest_roads(bl, records@.skip(i as int)));
                            // Membership of the kept set.
                            assert(is_accepted_way(bl, records@[i as int]));
                            assert forall|x: i64| #[trigger] kept@.contains(x) implies is_kept(
                                bl,
                                records@.take(i as int + 1),
                                x,
                            ) by {
                                if kept0.contains(x) {
                                    assert(is_kept(bl, records@.take(i as int), x));
                                } else {
                                    assert(node_refs@.contains(x));
                                    assert(records@.take(i as int + 1)[i as int] == records@[
                                        i as int
                                    ]);
                                    assert(way_has_ref(records@[i as int], x));
                                    assert(is_accepted_way(
                                        bl,
                                        records@.take(i as int + 1)[i as int],
                                    ));
                                }
                            }
                            assert forall|x: i64|
                                is_kept(bl, records@.take(i as int + 1), x) implies #[trigger]
                            kept@.contains(x) by {
                                let k2 = choose|k2: int|
                                    0 <= k2 < i + 1 && is_accepted_way(
                                        bl,
                                        #[trigger] records@.take(i as int + 1)[k2],
                                    ) && way_has_ref(records@.take(i as int + 1)[k2], x);
                                if k2 < i {
                                    assert(records@.take(i as int)[k2] == records@.take(
                                        i as int + 1,
                                    )[k2]);
                                    assert(is_accepted_way(bl, records@.take(i as int)[k2]));
                                    assert(is_kept(bl, records@.take(i as int), x));
                                    assert(kept0.contains(x));
                                } else {
                                    assert(records@.take(i as int + 1)[k2] == records@[i as int]);
                                    assert(node_refs@.contains(x));
                                }
                            }
                        }
                    } else {
                        proof {
                            assert(ingest_roads(bl, records@.skip(i as int)) == ingest_roads(
                                bl,
                                records@.skip(i as int + 1),
                            ));
                            assert forall|x: i64|
                                is_kept(bl, records@.take(i as int + 1), x) implies #[trigger]
                            kept@.contains(x) by {
                                let k2 = choose|k2: int|
                                    0 <= k2 < i + 1 && is_accepted_way(
                                        bl,
                                        #[trigger] records@.take(i as int + 1)[k2],
                                    ) && way_has_ref(records@.take(i as int + 1)[k2], x);
                                if k2 < i {
                                    assert(records@.take(i as int)[k2] == records@.take(
                                        i as int + 1,
                                    )[k2]);
                                    assert(is_accepted_way(bl, records@.take(i as int)[k2]));
                                    assert(is_kept(bl, records@.take(i as int), x));
                                } else {
                                    assert(records@.take(i as int + 1)[k2] == records@[i as int]);
                                    assert(false);
                                }
                            }
                        }
                    }
                },
                _ => {
                    proof {
                        assert(ingest_roads(bl, records@.skip(i as int)) == ingest_roads(
                            bl,
                            records@.skip(i as int + 1),
                        ));
                        assert forall|x: i64|
                            is_kept(bl, records@.take(i as int + 1), x) implies #[trigger]
                        kept@.contains(x) by {
                            let k2 = choose|k2: int|
                                0 <= k2 < i + 1 && is_accepted_way(
                                    bl,
                                    #[trigger] records@.take(i as int + 1)[k2],
                                ) && way_has_ref(records@.take(i as int + 1)[k2], x);
                            if k2 < i {
                                assert(records@.take(i as int)[k2] == records@.take(i as int + 1)[
                                    k2
                                ]);
                                assert(is_accepted_way(bl, records@.take(i as int)[k2]));
                                assert(is_kept(bl, records@.take(i as int), x));
                            } else {
                                assert(records@.take(i as int + 1)[k2] == records@[i as int]);
                                assert(false);
                            }
                        }
                    }
                },
            }
            i += 1;
        }
        proof {
            assert(records@.skip(n as int) =~= Seq::<OsmRecord>::empty());
            assert(ingest_roads(bl, Seq::<OsmRecord>::empty()) =~= Seq::<
                (Seq<i64>, CarDirection),
            >::empty());
            assert(roads_model(self.roads@) =~= roads_model(self.roads@) + ingest_roads(
                bl,
                records@.skip(n as int),
            ));
            assert(records@.take(n as int) =~= records@);
        }
        let ghost nodes_mid = self.nodes@;
        self.get_nodes(records, &kept);
        proof {
            lemma_collect_coords_congruence(
                nodes_mid,
                records@,
                |id: i64| kept@.contains(id),
                |id: i64| is_kept(blacklist_spec(), records@, id),
            );
        }
    }

    /// Every node a road references has a stored coordinate.  A stream
    /// where this fails would give an incoherent graph, so the caller
    /// treats it as fatal.
    pub fn refs_covered(&self) -> (b: bool)
        requires
            self.nodes.wf(),
        ensures
            b == (forall|r: int, k: int|
                0 <= r < self.roads@.len() && 0 <= k < self.roads@[r].node_refs@.len()
                    ==> self.nodes@.dom().contains(#[trigger] self.roads@[r].node_refs@[k])),
    {
        let nr = self.roads.len();
        let mut r: usize = 0;
        while r < nr
            invariant
                r <= nr,
                nr == self.roads@.len(),
                self.nodes.wf(),
                forall|r2: int, k: int|
                    0 <= r2 < r && 0 <= k < self.roads@[r2].node_refs@.len()
                        ==> self.nodes@.dom().contains(#[trigger] self.roads@[r2].node_refs@[k]),
            decreases nr - r,
        {
            let m = self.roads[r].node_refs.len();
            let mut k: usize = 0;
            while k < m
                invariant
                    k <= m,
                    r < nr,
                    nr == self.roads@.len(),
                    self.nodes.wf(),
                    m == self.roads@[r as int].node_refs@.len(),
                    forall|k2: int|
                        0 <= k2 < k ==> self.nodes@.dom().contains(
                            #[trigger] self.roads@[r as int].node_refs@[k2],
                        ),
                decreases m - k,
            {
                if !self.nodes.contains_key(self.roads[r].node_refs[k]) {
                    return false;
                }
                k += 1;
            }
            r += 1;
        }
        true
    }

    /// Renumber the surviving nodes into the dense range `0 .. N`, in
    /// ascending order of original id, applied consistently to the graph's
    /// keys, to every edge destination and to the coordinate map.
    pub fn rewrite_ids(nodes: &mut CoordMap, graph: &mut Graph)
        requires
            old(nodes).wf(),
            old(graph).wf(),
            old(graph).closed(),
            old(graph).node_count() < 0x8000_0000_0000_0000,
            forall|u: i64| old(graph)@.dom().contains(u) ==> old(nodes)@.dom().contains(u),
        ensures
            final(graph).wf(),
            final(graph).dense(),
            final(graph).closed(),
            final(graph).node_count() == old(graph).node_count(),
            forall|i: int, j: int|
                0 <= i < old(graph).node_count() && 0 <= j < old(graph).node_count() ==> (
                #[trigger] final(graph).has_arc(i as i64, j as i64) <==> old(graph).has_arc(
                    old(graph).ids()[i],
                    old(graph).ids()[j],
                )),
            forall|i: int, j: int|
                0 <= i < old(graph).node_count() && 0 <= j < old(graph).node_count() && #[trigger]
                final(graph).has_arc(i as i64, j as i64) ==> final(graph).arc_cost(
                    i as i64,
                    j as i64,
                ) == old(graph).arc_cost(old(graph).ids()[i], old(graph).ids()[j]),
            final(nodes).wf(),
            forall|id: i64|
                #[trigger] final(nodes)@.dom().contains(id) <==> 0 <= id < old(
                    graph,
                ).node_count(),
            forall|i: int|
                0 <= i < old(graph).node_count() ==> final(nodes)@[i as i64] == old(nodes)@[old(
                    graph,
                ).ids()[i]],
            reindexed(*old(graph), *final(graph), *old(nodes), *final(nodes)),
    {
        let ghost g0 = *graph;
        let ghost nd0 = *nodes;
        let n = graph.keys.len();
        let mut new_keys: Vec<i64> = Vec::new();
        let mut i: usize = 0;
        while i < n
            invariant
                i <= n,
                n < 0x8000_0000_0000_0000,
                new_keys@.len() == i,
                forall|k: int| 0 <= k < i ==> new_keys@[k] == k,
            decreases n - i,
        {
            new_keys.push(i as i64);
            i += 1;
        }
        let mut new_adj: Vec<Vec<Edge>> = Vec::new();
        let mut i: usize = 0;
        while i < n
            invariant
                i <= n,
                n < 0x8000_0000_0000_0000,
                n == graph.keys@.len(),
                *graph == g0,
                graph.wf(),
                graph.closed(),
                new_adj@.len() == i,
                forall|k: int|
                    0 <= k < i ==> (#[trigger] new_adj@[k]@).len() == graph.adj@[k]@.len(),
                forall|k: int, y: int|
                    0 <= k < i && 0 <= y < new_adj@[k]@.len() ==> 0 <= (#[trigger] new_adj@[k]@[
                        y
                    ]).node < n && graph.keys@[new_adj@[k]@[y].node as int] == graph.adj@[k]@[
                        y
                    ].node && new_adj@[k]@[y].cost == graph.adj@[k]@[y].cost,
            decreases n - i,
        {
            let m = graph.adj[i].len();
            let mut out: Vec<Edge> = Vec::new();
            let mut x: usize = 0;
            while x < m
                invariant
                    x <= m,
                    i < n,
                    n < 0x8000_0000_0000_0000,
                    n == graph.keys@.len(),
                    *graph == g0,
                    graph.wf(),
                    graph.closed(),
                    m == graph.adj@[i as int]@.len(),
                    out@.len() == x,
                    forall|y: int|
                        0 <= y < x ==> 0 <= (#[trigger] out@[y]).node < n && graph.keys@[out@[
                            y
                        ].node as int] == graph.adj@[i as int]@[y].node && out@[y].cost == graph
                            .adj@[i as int]@[y].cost,
                decreases m - x,
            {
                let e = graph.adj[i][x];
                proof {
                    graph.lemma_view_index(i as int);
                    lemma_dest_unique(graph.adj@[i as int]@, x as int);
                    assert(has_dest(graph@[graph.keys@[i as int]], e.node));
                    assert(graph@.dom().contains(e.node));
                }
                let t = match graph.lookup(e.node) {
                    Some(t) => t,
                    None => {
                        proof {
                            assert(false);
                        }
                        0
                    },
                };
                out.push(Edge { node: t as i64, cost: e.cost });
                x += 1;
            }
            new_adj.push(out);
            i += 1;
        }
        // Coordinates of the survivors, in the new order.
        let mut new_coords: Vec<Coord> = Vec::new();
        let mut i: usize = 0;
        while i < n
            invariant
                i <= n,
                n == graph.keys@.len(),
                *graph == g0,
                *nodes == nd0,
                nodes.wf(),
                graph.wf(),
                forall|u: i64| graph@.dom().contains(u) ==> nodes@.dom().contains(u),
                new_coords@.len() == i,
                forall|k: int|
                    0 <= k < i ==> (#[trigger] new_coords@[k]) == nodes@[graph.keys@[k]],
            decreases n - i,
        {
            let u = graph.key_at(i);
            let c = match nodes.get(u) {
                Some(c) => c,
                None => {
                    proof {
                        assert(false);
                    }
                    Coord { lat_dm: 0, lon_dm: 0 }
                },
            };
            new_coords.push(c);
            i += 1;
        }
        let dense_keys = copy_ids(&new_keys);
        let g2 = Graph { keys: new_keys, adj: new_adj };
        proof {
            assert(strictly_sorted_ids(g2.keys@));
            assert(g2.wf()) by {
                assert forall|k: int|
                    0 <= k < g2.keys@.len() implies edges_strictly_sorted(
                    #[trigger] g2.adj@[k]@,
                ) by {
                    assert forall|y1: int, y2: int|
                        0 <= y1 < y2 < g2.adj@[k]@.len() implies g2.adj@[k]@[y1].node < g2.adj@[
                        k
                    ]@[y2].node by {
                        let d1 = g0.adj@[k]@[y1].node;
                        let d2 = g0.adj@[k]@[y2].node;
                        assert(d1 < d2);
                        let t1 = g2.adj@[k]@[y1].node as int;
                        let t2 = g2.adj@[k]@[y2].node as int;
                        assert(g0.keys@[t1] == d1 && g0.keys@[t2] == d2);
                        if t1 >= t2 {
                            if t1 == t2 {
                            } else {
                                assert(g0.keys@[t2] < g0.keys@[t1]);
                            }
                        }
                    }
                }
                assert forall|k: int, y: int|
                    0 <= k < g2.keys@.len() && 0 <= y < g2.adj@[k]@.len() implies (
                #[trigger] g2.adj@[k]@[y]).node != g2.keys@[k] by {
                    if g2.adj@[k]@[y].node == k {
                        assert(g0.keys@[k] == g0.adj@[k]@[y].node);
                    }
                }
            };
            assert(g2.dense());
        }
        *graph = g2;
        let nd2 = CoordMap { ids: dense_keys, coords: new_coords };
        proof {
            assert(nd2.wf()) by {
                assert forall|a: int, b: int|
                    0 <= a < b < nd2.ids@.len() implies nd2.ids@[a] != nd2.ids@[b] by {}
            };
        }
        *nodes = nd2;
        proof {
            let g = *graph;
            let nc = g0.node_count() as int;
            // The dense graph mirrors the old one under the renumbering.
            assert forall|i2: int, j2: int|
                0 <= i2 < nc && 0 <= j2 < nc implies (#[trigger] g.has_arc(i2 as i64, j2 as i64)
                <==> g0.has_arc(g0.ids()[i2], g0.ids()[j2])) by {
                g.lemma_view_index(i2);
                g0.lemma_view_index(i2);
                assert(g@[i2 as i64] == g.adj@[i2]@);
                assert(g0@[g0.keys@[i2]] == g0.adj@[i2]@);
                if g.has_arc(i2 as i64, j2 as i64) {
                    let y = choose|y: int|
                        0 <= y < g.adj@[i2]@.len() && g.adj@[i2]@[y].node == j2 as i64;
                    assert(g0.keys@[j2] == g0.adj@[i2]@[y].node);
                    assert(has_dest(g0@[g0.keys@[i2]], g0.keys@[j2]));
                }
                if g0.has_arc(g0.ids()[i2], g0.ids()[j2]) {
                    let y = choose|y: int|
                        0 <= y < g0.adj@[i2]@.len() && g0.adj@[i2]@[y].node == g0.keys@[j2];
                    let t = g.adj@[i2]@[y].node as int;
                    assert(g0.keys@[t] == g0.keys@[j2]);
                    lemma_sorted_index_of(g0.keys@, t);
                    lemma_sorted_index_of(g0.keys@, j2);
                    assert(t == j2);
                    assert(g.adj@[i2]@[y].node == j2 as i64);
                    assert(has_dest(g@[i2 as i64], j2 as i64));
                }
            }
            assert forall|i2: int, j2: int|
                0 <= i2 < nc && 0 <= j2 < nc && #[trigger] g.has_arc(i2 as i64, j2 as i64) implies
                g.arc_cost(i2 as i64, j2 as i64) == g0.arc_cost(g0.ids()[i2], g0.ids()[j2]) by {
                g.lemma_view_index(i2);
                g0.lemma_view_index(i2);
                let y = choose|y: int|
                    0 <= y < g.adj@[i2]@.len() && g.adj@[i2]@[y].node == j2 as i64;
                lemma_dest_unique(g.adj@[i2]@, y);
                assert(cost_at(g@[i2 as i64], j2 as i64) == g.adj@[i2]@[y].cost);
                assert(g0.adj@[i2]@[y].node == g0.keys@[j2]);
                lemma_dest_unique(g0.adj@[i2]@, y);
                assert(cost_at(g0@[g0.keys@[i2]], g0.keys@[j2]) == g0.adj@[i2]@[y].cost);
            }
            // The graph is closed over the dense range.
            assert forall|u: i64, v: i64|
                g@.dom().contains(u) && #[trigger] has_dest(g@[u], v) implies g@.dom().contains(
                v,
            ) by {
                g.lemma_view_contains(u);
                let k = g.keys@.index_of(u);
                let y = choose|y: int| 0 <= y < g.adj@[k]@.len() && g.adj@[k]@[y].node == v;
                assert(0 <= g.adj@[k]@[y].node < nc);
                assert(g.keys@[v as int] == v);
            }
            // The new coordinate map is exactly the survivors' coordinates.
            let nd = *nodes;
            assert forall|id: i64| #[trigger]
                nd@.dom().contains(id) implies 0 <= id < nc by {
                let k = nd.ids@.index_of(id);
                assert(nd.ids@[k] == id);
            }
            assert forall|id: i64| 0 <= id < nc implies nd@.dom().contains(id) by {
                assert(nd.ids@[id as int] == id);
            }
            assert forall|i2: int| 0 <= i2 < nc implies nd@[i2 as i64] == nd0@[g0.ids()[i2]] by {
                nd.lemma_view_index(i2);
                assert(nd.ids@[i2] == i2 as i64);
            }
        }
    }

    /// The pipeline after ingest: build the initial graph from the roads
    /// and the per-gap costs, minimize it with end pruning, renumber into
    /// the dense range, derive the reverse graph and compute sixteen
    /// landmarks by farthest-point sampling, ordered by node id.
    pub fn build_graph(&mut self, segment_costs: &Vec<Vec<u32>>) -> (r: (
        Graph,
        Graph,
        Vec<Landmark>,
    ))
        requires
            old(self).nodes.wf(),
            old(self).nodes.count() < 0x8000_0000_0000_0000,
            costs_wf(old(self).roads@, segment_costs@),
            forall|r2: int, k: int|
                0 <= r2 < old(self).roads@.len() && 0 <= k < old(self).roads@[r2].node_refs@.len()
                    ==> old(self).nodes@.dom().contains(
                    #[trigger] old(self).roads@[r2].node_refs@[k],
                ),
        ensures
            r.0.wf(),
            r.0.dense(),
            r.0.closed(),
            r.1.wf(),
            r.1.ids() == r.0.ids(),
            forall|a: i64, b: i64| #[trigger] r.1.has_arc(b, a) <==> r.0.has_arc(a, b),
            forall|a: i64, b: i64|
                #[trigger] r.1.has_arc(b, a) ==> r.1.arc_cost(b, a) == r.0.arc_cost(a, b),
            r.2@.len() <= 16,
            forall|i: int| 0 <= i < r.2@.len() ==> landmark_wf(r.0, r.1, #[trigger] r.2@[i]),
            forall|i: int, j: int|
                0 <= i < j < r.2@.len() ==> r.2@[i].node_id <= r.2@[j].node_id,
            r.0.node_count() >= 1 ==> r.2@.len() >= 1,
            final(self).roads@.len() == 0,
            final(self).nodes.wf(),
            forall|id: i64|
                #[trigger] final(self).nodes@.dom().contains(id) <==> 0 <= id
                    < r.0.node_count(),
            transposed(r.0, r.1),
            pipeline_steps(*old(self), final(self).nodes, segment_costs@, r.0),
            r.0.node_count() >= 1 ==> exists|lms: Seq<Landmark>|
                #[trigger] farthest_selection(r.0, r.1, 16, lms) && r.2@.to_multiset()
                    == lms.to_multiset(),
            r.0.node_count() == 0 ==> r.2@.len() == 0,
    {
        let node_ids = self.nodes.sorted_ids();
        let mut g = Graph::build_graph(&node_ids, &self.roads, segment_costs);
        let ghost gb = g;
        self.roads = Vec::new();
        g.minimize_graph(true);
        let ghost gm = g;
        let ghost mintr = choose|tr: Seq<Graph>|
            #[trigger] minimize_trace(tr, true) && tr[0] == gb && tr[tr.len() - 1] == gm;
        proof {
            lemma_distinct_ids_bound(node_ids@, old(self).nodes.ids@);
            assert(node_ids@.len() <= old(self).nodes.count());
            assert forall|x: i64| g.keys@.contains(x) implies node_ids@.contains(x) by {
                let k = g.keys@.index_of(x);
                assert(g.keys@[k] == x);
                g.lemma_view_index(k);
            }
            lemma_distinct_ids_bound(g.keys@, node_ids@);
            assert(g.node_count() <= node_ids@.len());
            assert forall|u: i64| g@.dom().contains(u) implies self.nodes@.dom().contains(u) by {}
        }
        Preprocessor::rewrite_ids(&mut self.nodes, &mut g);
        proof {
            assert(reindexed(gm, g, old(self).nodes, self.nodes));
            assert(pipeline_steps(*old(self), self.nodes, segment_costs@, g)) by {
                assert(built_graph(gb, node_ids@, old(self).roads@, segment_costs@));
                assert(minimize_trace(mintr, true) && mintr[0] == gb && mintr[mintr.len() - 1]
                    == gm);
                assert(is_minimized(gm, true));
                assert(strictly_sorted_ids(node_ids@));
                assert(forall|x: i64|
                    #[trigger] node_ids@.contains(x) <==> old(self).nodes@.dom().contains(x));
            };
        }
        let bi = g.get_bidirectional_graph();
        proof {
            assert(bi.dense()) by {
                assert(bi.keys@ == g.keys@);
            };
        }
        let mut landmarks: Vec<Landmark> = Vec::new();
        if g.len() > 0 {
            landmarks = g.farthest_landmarks(&bi, 16);
        }
        let ghost lpre = landmarks@;
        sort_landmarks(&mut landmarks);
        proof {
            assert forall|i: int|
                0 <= i < landmarks@.len() implies landmark_wf(g, bi, #[trigger] landmarks@[i]) by {
                assert(landmarks@.contains(landmarks@[i]));
                landmarks@.to_multiset_ensures();
                lpre.to_multiset_ensures();
                assert(landmarks@.to_multiset().count(landmarks@[i]) > 0);
                assert(lpre.to_multiset().count(landmarks@[i]) > 0);
                assert(lpre.contains(landmarks@[i]));
                let j = choose|j: int| 0 <= j < lpre.len() && lpre[j] == landmarks@[i];
            }
            if g.node_count() >= 1 {
                assert(farthest_selection(g, bi, 16, lpre) && landmarks@.to_multiset()
                    == lpre.to_multiset());
            }
        }
        (g, bi, landmarks)
    }
}

/// Two lists over the same ids cannot both be distinct and of different
/// lengths when one's ids all occur in the other.
pub proof fn lemma_distinct_ids_bound(a: Seq<i64>, b: Seq<i64>)
    requires
        strictly_sorted_ids(a),
        forall|x: i64| a.contains(x) ==> b.contains(x),
        forall|p: int, q: int| 0 <= p < q < b.len() ==> b[p] != b[q],
    ensures
        a.len() <= b.len(),
    decreases a.len(),
{
    if a.len() > 0 {
        let x = a.last();
        assert(a.contains(x)) by {
            assert(a[a.len() - 1] == x);
        }
        assert(b.contains(x));
        let k = choose|k: int| 0 <= k < b.len() && b[k] == x;
        let a2 = a.drop_last();
        let b2 = b.remove(k);
        assert(strictly_sorted_ids(a2)) by {
            assert forall|p: int, q: int| 0 <= p < q < a2.len() implies a2[p] < a2[q] by {
                assert(a2[p] == a[p] && a2[q] == a[q]);
            }
        }
        assert forall|y: i64| a2.contains(y) implies b2.contains(y) by {
            let t = choose|t: int| 0 <= t < a2.len() && a2[t] == y;
            assert(a[t] == y);
            assert(y != x) by {
                assert(a[t] < a[a.len() - 1]);
            }
            assert(b.contains(y));
            let s = choose|s: int| 0 <= s < b.len() && b[s] == y;
            assert(s != k);
            if s < k {
                assert(b2[s] == y);
            } else {
                assert(b2[s - 1] == y);
            }
        }
        assert forall|p: int, q: int| 0 <= p < q < b2.len() implies b2[p] != b2[q] by {
            let p2: int = if p < k {
                p
            } else {
                p + 1
            };
            let q2: int = if q < k {
                q
            } else {
                q + 1
            };
            assert(b2[p] == b[p2] && b2[q] == b[q2]);
        }
        lemma_distinct_ids_bound(a2, b2);
    }
}

impl CoordMap {
    /// The ids of the map, sorted ascending.
    pub fn sorted_ids(&self) -> (r: Vec<i64>)
        requires
            self.wf(),
        ensures
            strictly_sorted_ids(r@),
            forall|x: i64| #[trigger] r@.contains(x) <==> self@.dom().contains(x),
    {
        let n = self.ids.len();
        let mut r: Vec<i64> = Vec::new();
        let mut i: usize = 0;
        while i < n
            invariant
                i <= n,
                n == self.ids@.len(),
                strictly_sorted_ids(r@),
                forall|x: i64| #[trigger] r@.contains(x) <==> self.ids@.take(i as int).contains(x),
            decreases n - i,
        {
            proof {
                assert forall|x: i64| #[trigger]
                    self.ids@.take(i as int + 1).contains(x) implies (self.ids@.take(
                    i as int,
                ).contains(x) || x == self.ids@[i as int]) by {
                    let k = choose|k: int|
                        0 <= k < i + 1 && #[trigger] self.ids@.take(i as int + 1)[k] == x;
                    if k < i {
                        assert(self.ids@.take(i as int)[k] == x);
                    }
                }
                assert forall|x: i64| #[trigger]
                    self.ids@.take(i as int).contains(x) implies self.ids@.take(
                    i as int + 1,
                ).contains(x) by {
                    let k = choose|k: int|
                        0 <= k < i && #[trigger] self.ids@.take(i as int)[k] == x;
                    assert(self.ids@.take(i as int + 1)[k] == x);
                }
                assert(self.ids@.take(i as int + 1)[i as int] == self.ids@[i as int]);
            }
            insert_id_sorted(&mut r, self.ids[i]);
            i += 1;
        }
        proof {
            assert(self.ids@.take(n as int) =~= self.ids@);
        }
        r
    }
}

} // verus!
