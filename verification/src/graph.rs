use vstd::prelude::*;

use crate::edge::Edge;
use crate::preprocessor::CarDirection;
use crate::preprocessor::Road;

verus! {

/// Infinite cost marker for saturated contraction sums.
pub const COST_MAX: u32 = 0xffff_ffff;

// ---------------------------------------------------------------------------
// Specification helpers for sorted id and edge sequences
// ---------------------------------------------------------------------------

/// A sequence of node ids in strictly ascending order.
pub open spec fn strictly_sorted_ids(s: Seq<i64>) -> bool {
    forall|i: int, j: int| 0 <= i < j < s.len() ==> s[i] < s[j]
}

/// An adjacency list in strictly ascending order of destination, which also
/// rules out two edges to the same destination.
pub open spec fn edges_strictly_sorted(s: Seq<Edge>) -> bool {
    forall|i: int, j: int| 0 <= i < j < s.len() ==> s[i].node < s[j].node
}

/// Some edge of `s` leads to `v`.
pub open spec fn has_dest(s: Seq<Edge>, v: i64) -> bool {
    exists|j: int| 0 <= j < s.len() && s[j].node == v
}

/// The index of the edge of `s` leading to `v`; meaningful only when
/// `has_dest(s, v)` holds and `s` has no duplicate destinations.
pub open spec fn dest_index(s: Seq<Edge>, v: i64) -> int {
    choose|j: int| 0 <= j < s.len() && s[j].node == v
}

/// The cost of the edge of `s` leading to `v`.
pub open spec fn cost_at(s: Seq<Edge>, v: i64) -> u32 {
    s[dest_index(s, v)].cost
}

/// `c` is the least cost among the edges of `s` leading to `v`,
/// and is realized by one of them.
pub open spec fn is_min_cost(s: Seq<Edge>, v: i64, c: u32) -> bool {
    &&& exists|j: int| 0 <= j < s.len() && s[j].node == v && s[j].cost == c
    &&& forall|j: int| 0 <= j < s.len() && s[j].node == v ==> c <= #[trigger] s[j].cost
}

/// The smaller of two costs.
pub open spec fn min2(a: u32, b: u32) -> u32 {
    if a <= b {
        a
    } else {
        b
    }
}

/// `r` is the cleaned-up form of the raw adjacency list `raw` of node `u`:
/// self-loops dropped, sorted by destination, one edge per destination
/// keeping the least cost.
pub open spec fn is_normal_of(r: Seq<Edge>, u: i64, raw: Seq<Edge>) -> bool {
    &&& edges_strictly_sorted(r)
    &&& forall|j: int| 0 <= j < r.len() ==> (#[trigger] r[j]).node != u
    &&& forall|v: i64| #[trigger] has_dest(r, v) <==> (v != u && has_dest(raw, v))
    &&& forall|v: i64|
        v != u && #[trigger] has_dest(raw, v) ==> is_min_cost(raw, v, cost_at(r, v))
}

/// In a duplicate-free list the destination index is unique, so `cost_at`
/// agrees with any witness.
pub proof fn lemma_dest_unique(s: Seq<Edge>, j: int)
    requires
        edges_strictly_sorted(s),
        0 <= j < s.len(),
    ensures
        dest_index(s, s[j].node) == j,
        has_dest(s, s[j].node),
        cost_at(s, s[j].node) == s[j].cost,
{
    assert(0 <= j < s.len() && s[j].node == s[j].node);
    let k = dest_index(s, s[j].node);
    if k < j {
        assert(s[k].node < s[j].node);
    } else if k > j {
        assert(s[j].node < s[k].node);
    }
}

/// Every edge is paired with a reverse edge of the same cost, as the
/// builder produces for two-way roads.
pub open spec fn symmetric(g: Graph) -> bool {
    forall|x: i64, y: i64|
        #[trigger] g.has_arc(x, y) ==> g.has_arc(y, x) && g.arc_cost(y, x) == g.arc_cost(x, y)
}

/// No self-loops: no node of a well-formed graph has an edge to itself.
pub proof fn lemma_no_self_loops(g: Graph, u: i64)
    requires
        g.wf(),
        g@.dom().contains(u),
    ensures
        !has_dest(g@[u], u),
{
    g.lemma_view_contains(u);
    let k = g.keys@.index_of(u);
    if has_dest(g@[u], u) {
        let j = choose|j: int| 0 <= j < g@[u].len() && g@[u][j].node == u;
        assert(g.adj@[k]@[j].node != g.keys@[k]);
    }
}

/// No duplicate edges: in a well-formed graph at most one edge joins a
/// given source to a given destination.
pub proof fn lemma_no_duplicate_edges(g: Graph, u: i64, j1: int, j2: int)
    requires
        g.wf(),
        g@.dom().contains(u),
        0 <= j1 < g@[u].len(),
        0 <= j2 < g@[u].len(),
        g@[u][j1].node == g@[u][j2].node,
    ensures
        j1 == j2,
{
    g.lemma_view_contains(u);
    let k = g.keys@.index_of(u);
    if j1 < j2 {
        assert(g.adj@[k]@[j1].node < g.adj@[k]@[j2].node);
    } else if j2 < j1 {
        assert(g.adj@[k]@[j2].node < g.adj@[k]@[j1].node);
    }
}

/// Adjacency order: every adjacency list of a well-formed graph is
/// strictly ascending by destination.
pub proof fn lemma_adjacency_sorted(g: Graph, u: i64)
    requires
        g.wf(),
        g@.dom().contains(u),
    ensures
        edges_strictly_sorted(g@[u]),
{
    g.lemma_view_contains(u);
}

/// In a strictly sorted id sequence, `index_of` agrees with any witness.
pub proof fn lemma_sorted_index_of(s: Seq<i64>, j: int)
    requires
        strictly_sorted_ids(s),
        0 <= j < s.len(),
    ensures
        s.contains(s[j]),
        s.index_of(s[j]) == j,
{
    assert(0 <= j < s.len() && s[j] == s[j]);
    let k = s.index_of(s[j]);
    if k < j {
        assert(s[k] < s[j]);
    } else if k > j {
        assert(s[j] < s[k]);
    }
}

// ---------------------------------------------------------------------------
// The graph
// ---------------------------------------------------------------------------

/// A directed weighted graph: a map from node id to adjacency list, stored
/// as two parallel vectors sorted by node id.  Every operation keeps each
/// adjacency list strictly sorted by destination, free of self-loops and
/// free of duplicate destinations, and iterates nodes in ascending id
/// order, which makes the whole pipeline deterministic.
#[derive(Debug, PartialEq)]
pub struct Graph {
    pub keys: Vec<i64>,
    pub adj: Vec<Vec<Edge>>,
}

impl View for Graph {
    type V = Map<i64, Seq<Edge>>;

    open spec fn view(&self) -> Map<i64, Seq<Edge>> {
        Map::new(
            |u: i64| self.keys@.contains(u),
            |u: i64| self.adj@[self.keys@.index_of(u)]@,
        )
    }
}

impl Graph {
    /// The node ids in ascending order.
    pub open spec fn ids(self) -> Seq<i64> {
        self.keys@
    }

    pub open spec fn node_count(self) -> nat {
        self.keys@.len()
    }

    /// Structural invariant: sorted keys, parallel vectors, and every
    /// adjacency list normalized (sorted, duplicate-free, no self-loop).
    pub open spec fn wf(self) -> bool {
        &&& self.adj.len() == self.keys.len()
        &&& strictly_sorted_ids(self.keys@)
        &&& forall|i: int|
            0 <= i < self.keys@.len() ==> edges_strictly_sorted(#[trigger] self.adj@[i]@)
        &&& forall|i: int, j: int|
            0 <= i < self.keys@.len() && 0 <= j < self.adj@[i]@.len()
                ==> (#[trigger] self.adj@[i]@[j]).node != self.keys@[i]
    }

    /// Every edge leads to a node of the graph.
    pub open spec fn closed(self) -> bool {
        forall|u: i64, v: i64|
            self@.dom().contains(u) && #[trigger] has_dest(self@[u], v) ==> self@.dom().contains(v)
    }

    /// The node ids are exactly 0, 1, ..., node_count - 1.
    pub open spec fn dense(self) -> bool {
        forall|i: int| 0 <= i < self.keys@.len() ==> self.keys@[i] == i
    }

    /// The graph has an edge from `u` to `v`.
    pub open spec fn has_arc(self, u: i64, v: i64) -> bool {
        self@.dom().contains(u) && has_dest(self@[u], v)
    }

    /// The cost of the edge from `u` to `v`.
    pub open spec fn arc_cost(self, u: i64, v: i64) -> u32 {
        cost_at(self@[u], v)
    }

    /// Key facts linking the stored vectors to the map view.
    pub proof fn lemma_view_index(self, i: int)
        requires
            self.wf(),
            0 <= i < self.keys@.len(),
        ensures
            self@.dom().contains(self.keys@[i]),
            self@[self.keys@[i]] == self.adj@[i]@,
    {
        let u = self.keys@[i];
        assert(self.keys@.contains(u));
        let k = self.keys@.index_of(u);
        if k < i {
            assert(self.keys@[k] < self.keys@[i]);
        } else if k > i {
            assert(self.keys@[i] < self.keys@[k]);
        }
    }

    /// The index of a node id present in the view.
    pub proof fn lemma_view_contains(self, u: i64)
        requires
            self.wf(),
            self@.dom().contains(u),
        ensures
            0 <= self.keys@.index_of(u) < self.keys@.len(),
            self.keys@[self.keys@.index_of(u)] == u,
            self@[u] == self.adj@[self.keys@.index_of(u)]@,
    {
        assert(self.keys@.contains(u));
    }

    pub fn new() -> (g: Graph)
        ensures
            g.wf(),
            g@ =~= Map::<i64, Seq<Edge>>::empty(),
            g.ids() == Seq::<i64>::empty(),
    {
        Graph { keys: Vec::new(), adj: Vec::new() }
    }

    /// The number of nodes.
    pub fn len(&self) -> (n: usize)
        ensures
            n == self.node_count(),
    {
        self.keys.len()
    }

    /// The position of node `u` among the sorted keys, if present.
    pub fn lookup(&self, u: i64) -> (r: Option<usize>)
        requires
            self.wf(),
        ensures
            match r {
                Some(i) => i < self.keys@.len() && self.keys@[i as int] == u
                    && self@.dom().contains(u) && self@[u] == self.adj@[i as int]@,
                None => !self@.dom().contains(u),
            },
    {
        let n = self.keys.len();
        let mut i: usize = 0;
        while i < n
            invariant
                i <= n,
                n == self.keys@.len(),
                self.wf(),
                forall|k: int| 0 <= k < i ==> self.keys@[k] != u,
            decreases n - i,
        {
            if self.keys[i] == u {
                proof {
                    self.lemma_view_index(i as int);
                }
                return Some(i);
            }
            i += 1;
        }
        proof {
            if self.keys@.contains(u) {
                let k = self.keys@.index_of(u);
                assert(self.keys@[k] == u);
            }
        }
        None
    }

    /// The adjacency list of node `u`, if `u` is a node of the graph.
    pub fn get(&self, u: i64) -> (r: Option<&Vec<Edge>>)
        requires
            self.wf(),
        ensures
            match r {
                Some(es) => self@.dom().contains(u) && es@ == self@[u],
                None => !self@.dom().contains(u),
            },
    {
        match self.lookup(u) {
            Some(i) => Some(&self.adj[i]),
            None => None,
        }
    }

    pub fn contains_key(&self, u: i64) -> (b: bool)
        requires
            self.wf(),
        ensures
            b == self@.dom().contains(u),
    {
        self.lookup(u).is_some()
    }

    /// The node id at position `i` of the ascending id order.
    pub fn key_at(&self, i: usize) -> (u: i64)
        requires
            self.wf(),
            i < self.node_count(),
        ensures
            u == self.ids()[i as int],
            self@.dom().contains(u),
            self@[u] == self.adj@[i as int]@,
    {
        proof {
            self.lemma_view_index(i as int);
        }
        self.keys[i]
    }
}

// ---------------------------------------------------------------------------
// Normalization: sorted, duplicate-free, self-loop-free adjacency lists
// ---------------------------------------------------------------------------

/// Merge edge `e` into the sorted list `out`, keeping it sorted and keeping
/// the cheaper edge when the destination is already present.
pub fn merge_min(out: &mut Vec<Edge>, e: Edge)
    requires
        edges_strictly_sorted(old(out)@),
    ensures
        edges_strictly_sorted(final(out)@),
        forall|v: i64|
            #[trigger] has_dest(final(out)@, v) <==> (has_dest(old(out)@, v) || v == e.node),
        has_dest(old(out)@, e.node) ==> cost_at(final(out)@, e.node) == min2(
            cost_at(old(out)@, e.node),
            e.cost,
        ),
        !has_dest(old(out)@, e.node) ==> cost_at(final(out)@, e.node) == e.cost,
        forall|v: i64|
            v != e.node && #[trigger] has_dest(old(out)@, v) ==> cost_at(final(out)@, v) == cost_at(
                old(out)@,
                v,
            ),
        final(out)@.len() <= old(out)@.len() + 1,
{
    let ghost s = out@;
    let n = out.len();
    let mut i: usize = 0;
    while i < n && out[i].node < e.node
        invariant
            i <= n,
            n == out@.len(),
            out@ == s,
            edges_strictly_sorted(out@),
            forall|k: int| 0 <= k < i ==> (#[trigger] out@[k]).node < e.node,
        decreases n - i,
    {
        i += 1;
    }
    if i < n && out[i].node == e.node {
        let ghost j = i as int;
        if e.cost < out[i].cost {
            let c = out[i].cost;
            out.set(i, e);
            proof {
                assert(out@ =~= s.update(j, e));
                lemma_dest_unique(s, j);
                assert forall|v: i64| #[trigger] has_dest(out@, v) implies (has_dest(s, v) || v
                    == e.node) by {
                    let k = choose|k: int| 0 <= k < out@.len() && out@[k].node == v;
                    assert(s[k].node == v || k == j);
                }
                assert forall|v: i64| has_dest(s, v) implies #[trigger] has_dest(out@, v) by {
                    let k = choose|k: int| 0 <= k < s.len() && s[k].node == v;
                    if k == j {
                        assert(out@[j].node == v);
                    } else {
                        assert(out@[k].node == v);
                    }
                }
                lemma_dest_unique(out@, j);
                assert forall|v: i64| v != e.node && #[trigger] has_dest(s, v) implies cost_at(
                    out@,
                    v,
                ) == cost_at(s, v) by {
                    let k = choose|k: int| 0 <= k < s.len() && s[k].node == v;
                    assert(k != j);
                    lemma_dest_unique(s, k);
                    assert(out@[k].node == v && out@[k].cost == s[k].cost);
                    lemma_dest_unique(out@, k);
                }
            }
        } else {
            proof {
                lemma_dest_unique(s, j);
                assert forall|v: i64| #[trigger] has_dest(out@, v) implies (has_dest(s, v) || v
                    == e.node) by {}
            }
        }
    } else {
        let ghost j = i as int;
        proof {
            assert(!has_dest(s, e.node)) by {
                if has_dest(s, e.node) {
                    let k = choose|k: int| 0 <= k < s.len() && s[k].node == e.node;
                    if k < j {
                        assert(s[k].node < e.node);
                    } else {
                        assert(k >= j);
                        if j < s.len() {
                            // out[j].node >= e.node and != e.node, so > e.node
                            if k > j {
                                assert(s[j].node < s[k].node);
                            }
                        }
                    }
                }
            };
        }
        out.insert(i, e);
        proof {
            assert(out@ =~= s.insert(j, e));
            assert forall|p: int, q: int| 0 <= p < q < out@.len() implies out@[p].node
                < out@[q].node by {
                if p < j && q < j {
                } else if p < j && q == j {
                    assert(out@[p] == s[p]);
                } else if p < j && q > j {
                    assert(out@[p] == s[p] && out@[q] == s[q - 1]);
                    assert(s[p].node < e.node);
                    if q - 1 == j {
                        assert(s[j].node > e.node);
                    } else {
                        assert(s[j].node > e.node);
                        if q - 1 > j {
                            assert(s[j].node < s[q - 1].node);
                        }
                    }
                } else if p == j {
                    assert(out@[q] == s[q - 1] && q - 1 >= j);
                    assert(s[q - 1].node >= s[j].node);
                    assert(s[j].node > e.node);
                } else {
                    assert(out@[p] == s[p - 1] && out@[q] == s[q - 1]);
                }
            }
            lemma_dest_unique(out@, j);
            assert forall|v: i64| #[trigger] has_dest(out@, v) implies (has_dest(s, v) || v
                == e.node) by {
                let k = choose|k: int| 0 <= k < out@.len() && out@[k].node == v;
                if k < j {
                    assert(s[k].node == v);
                } else if k > j {
                    assert(s[k - 1].node == v);
                }
            }
            assert forall|v: i64| has_dest(s, v) implies #[trigger] has_dest(out@, v) by {
                let k = choose|k: int| 0 <= k < s.len() && s[k].node == v;
                if k < j {
                    assert(out@[k].node == v);
                } else {
                    assert(out@[k + 1].node == v);
                }
            }
            assert forall|v: i64| v != e.node && #[trigger] has_dest(s, v) implies cost_at(
                out@,
                v,
            ) == cost_at(s, v) by {
                let k = choose|k: int| 0 <= k < s.len() && s[k].node == v;
                lemma_dest_unique(s, k);
                if k < j {
                    assert(out@[k].node == v && out@[k].cost == s[k].cost);
                    lemma_dest_unique(out@, k);
                } else {
                    assert(out@[k + 1].node == v && out@[k + 1].cost == s[k].cost);
                    lemma_dest_unique(out@, k + 1);
                }
            }
        }
    }
}

/// Clean up the raw adjacency list `raw` of node `u`: drop self-loops, sort
/// by destination, and keep only the cheapest edge to each destination.
pub fn normalize_edges(u: i64, raw: &Vec<Edge>) -> (r: Vec<Edge>)
    ensures
        is_normal_of(r@, u, raw@),
        r@.len() <= raw@.len(),
{
    let mut out: Vec<Edge> = Vec::new();
    let n = raw.len();
    let mut i: usize = 0;
    while i < n
        invariant
            i <= n,
            n == raw@.len(),
            is_normal_of(out@, u, raw@.take(i as int)),
            out@.len() <= i,
        decreases n - i,
    {
        let e = raw[i];
        let ghost pre = out@;
        let ghost taken = raw@.take(i as int);
        let ghost taken1 = raw@.take(i as int + 1);
        proof {
            assert(taken1.drop_last() =~= taken);
            assert(taken1.last() == raw@[i as int]);
            assert forall|v: i64| #[trigger] has_dest(taken1, v) implies (has_dest(taken, v) || v
                == e.node) by {
                let k = choose|k: int| 0 <= k < taken1.len() && taken1[k].node == v;
                if k < i {
                    assert(taken[k].node == v);
                }
            }
            assert forall|v: i64| has_dest(taken, v) implies #[trigger] has_dest(taken1, v) by {
                let k = choose|k: int| 0 <= k < taken.len() && taken[k].node == v;
                assert(taken1[k].node == v);
            }
        }
        if e.node != u {
            merge_min(&mut out, e);
            proof {
                assert forall|j: int| 0 <= j < out@.len() implies (#[trigger] out@[j]).node
                    != u by {
                    lemma_dest_unique(out@, j);
                    assert(has_dest(out@, out@[j].node));
                }
                assert forall|v: i64| #[trigger] has_dest(out@, v) implies (v != u && has_dest(
                    taken1,
                    v,
                )) by {
                    if has_dest(pre, v) {
                        assert(has_dest(taken, v));
                        let k = choose|k: int| 0 <= k < taken.len() && taken[k].node == v;
                        assert(taken1[k].node == v);
                    } else {
                        assert(v == e.node);
                        assert(taken1[i as int].node == v);
                    }
                }
                assert forall|v: i64| v != u && has_dest(taken1, v) implies #[trigger] has_dest(
                    out@,
                    v,
                ) by {
                    if v != e.node {
                        let k = choose|k: int| 0 <= k < taken1.len() && taken1[k].node == v;
                        assert(k < i);
                        assert(taken[k].node == v);
                        assert(has_dest(taken, v));
                        assert(has_dest(pre, v));
                    }
                }
                assert forall|v: i64| v != u && #[trigger] has_dest(taken1, v) implies is_min_cost(
                    taken1,
                    v,
                    cost_at(out@, v),
                ) by {
                    if v == e.node {
                        if has_dest(pre, v) {
                            assert(has_dest(taken, v));
                            assert(is_min_cost(taken, v, cost_at(pre, v)));
                            let w = choose|k: int|
                                0 <= k < taken.len() && taken[k].node == v && taken[k].cost
                                    == cost_at(pre, v);
                            assert(cost_at(out@, v) == min2(cost_at(pre, v), e.cost));
                            if cost_at(pre, v) <= e.cost {
                                assert(taken1[w].node == v && taken1[w].cost == cost_at(out@, v));
                            } else {
                                assert(taken1[i as int].node == v && taken1[i as int].cost
                                    == cost_at(out@, v));
                            }
                            assert forall|k: int|
                                0 <= k < taken1.len() && taken1[k].node == v implies cost_at(
                                out@,
                                v,
                            ) <= #[trigger] taken1[k].cost by {
                                if k < i {
                                    assert(taken[k].node == v);
                                    assert(cost_at(pre, v) <= taken[k].cost);
                                }
                            }
                        } else {
                            assert(!has_dest(taken, v));
                            assert(cost_at(out@, v) == e.cost);
                            assert(taken1[i as int].node == v && taken1[i as int].cost == e.cost);
                            assert forall|k: int|
                                0 <= k < taken1.len() && taken1[k].node == v implies cost_at(
                                out@,
                                v,
                            ) <= #[trigger] taken1[k].cost by {
                                if k < i {
                                    assert(has_dest(taken, v));
                                }
                            }
                        }
                    } else {
                        assert(has_dest(taken, v));
                        assert(has_dest(pre, v));
                        assert(cost_at(out@, v) == cost_at(pre, v));
                        assert(is_min_cost(taken, v, cost_at(pre, v)));
                        let w = choose|k: int|
                            0 <= k < taken.len() && taken[k].node == v && taken[k].cost == cost_at(
                                pre,
                                v,
                            );
                        assert(taken1[w].node == v && taken1[w].cost == cost_at(out@, v));
                        assert forall|k: int|
                            0 <= k < taken1.len() && taken1[k].node == v implies cost_at(out@, v)
                            <= #[trigger] taken1[k].cost by {
                            if k < i {
                                assert(taken[k].node == v);
                            } else {
                                assert(k == i && taken1[k].node == e.node);
                            }
                        }
                    }
                }
            }
        } else {
            proof {
                assert forall|v: i64| #[trigger] has_dest(out@, v) implies (v != u && has_dest(
                    taken1,
                    v,
                )) by {
                    assert(has_dest(taken, v));
                }
                assert forall|v: i64| v != u && #[trigger] has_dest(taken1, v) implies has_dest(
                    out@,
                    v,
                ) && is_min_cost(taken1, v, cost_at(out@, v)) by {
                    assert(has_dest(taken, v));
                    assert(is_min_cost(taken, v, cost_at(out@, v)));
                    let w = choose|k: int|
                        0 <= k < taken.len() && taken[k].node == v && taken[k].cost == cost_at(
                            out@,
                            v,
                        );
                    assert(taken1[w].node == v && taken1[w].cost == cost_at(out@, v));
                    assert forall|k: int|
                        0 <= k < taken1.len() && taken1[k].node == v implies cost_at(out@, v)
                        <= #[trigger] taken1[k].cost by {
                        if k < i {
                            assert(taken[k].node == v);
                        } else {
                            assert(k == i && taken1[k].node == u);
                        }
                    }
                }
            }
        }
        i += 1;
    }
    proof {
        assert(raw@.take(n as int) =~= raw@);
    }
    out
}

/// An element-wise copy of an edge list.
pub fn copy_edges(es: &Vec<Edge>) -> (r: Vec<Edge>)
    ensures
        r@ == es@,
{
    let n = es.len();
    let mut r: Vec<Edge> = Vec::new();
    let mut i: usize = 0;
    while i < n
        invariant
            i <= n,
            n == es@.len(),
            r@ == es@.take(i as int),
        decreases n - i,
    {
        r.push(es[i]);
        proof {
            assert(r@ =~= es@.take(i as int + 1));
        }
        i += 1;
    }
    proof {
        assert(es@.take(n as int) =~= es@);
    }
    r
}

/// Whether `v` occurs in `xs`.
pub fn contains_id(xs: &Vec<i64>, v: i64) -> (b: bool)
    ensures
        b == xs@.contains(v),
{
    let n = xs.len();
    let mut i: usize = 0;
    while i < n
        invariant
            i <= n,
            n == xs@.len(),
            forall|k: int| 0 <= k < i ==> xs@[k] != v,
        decreases n - i,
    {
        if xs[i] == v {
            return true;
        }
        i += 1;
    }
    false
}

/// The cost of the edge to `v` in the sorted list `es`, if there is one.
pub fn find_cost(es: &Vec<Edge>, v: i64) -> (r: Option<u32>)
    requires
        edges_strictly_sorted(es@),
    ensures
        match r {
            Some(c) => has_dest(es@, v) && c == cost_at(es@, v),
            None => !has_dest(es@, v),
        },
{
    let n = es.len();
    let mut i: usize = 0;
    while i < n
        invariant
            i <= n,
            n == es@.len(),
            edges_strictly_sorted(es@),
            forall|k: int| 0 <= k < i ==> (#[trigger] es@[k]).node != v,
        decreases n - i,
    {
        if es[i].node == v {
            proof {
                lemma_dest_unique(es@, i as int);
            }
            return Some(es[i].cost);
        }
        i += 1;
    }
    None
}

impl Graph {
    /// The position at which `u` sits, or would be inserted, in the sorted keys.
    fn key_pos(&self, u: i64) -> (p: usize)
        requires
            self.wf(),
        ensures
            p <= self.keys@.len(),
            forall|k: int| 0 <= k < p ==> self.keys@[k] < u,
            forall|k: int| p <= k < self.keys@.len() ==> self.keys@[k] >= u,
    {
        let n = self.keys.len();
        let mut i: usize = 0;
        while i < n && self.keys[i] < u
            invariant
                i <= n,
                n == self.keys@.len(),
                self.wf(),
                forall|k: int| 0 <= k < i ==> self.keys@[k] < u,
            decreases n - i,
        {
            i += 1;
        }
        i
    }

    /// Add node `u` with the raw adjacency list `edges`, which is normalized
    /// on the way in; an existing adjacency list of `u` is replaced.
    pub fn insert(&mut self, u: i64, edges: Vec<Edge>)
        requires
            old(self).wf(),
        ensures
            final(self).wf(),
            final(self)@ == old(self)@.insert(u, final(self)@[u]),
            is_normal_of(final(self)@[u], u, edges@),
            old(self)@.dom().contains(u) ==> final(self).node_count() == old(self).node_count()
                && final(self).ids() == old(self).ids(),
            !old(self)@.dom().contains(u) ==> final(self).node_count() == old(self).node_count()
                + 1,
    {
        let ghost g0 = *self;
        let norm = normalize_edges(u, &edges);
        let pos = self.key_pos(u);
        let n = self.keys.len();
        if pos < n && self.keys[pos] == u {
            self.adj.set(pos, norm);
            proof {
                let p = pos as int;
                assert(self.wf()) by {
                    assert forall|i: int|
                        0 <= i < self.keys@.len() implies edges_strictly_sorted(
                        #[trigger] self.adj@[i]@,
                    ) by {
                        if i != p {
                            assert(self.adj@[i] == g0.adj@[i]);
                        }
                    }
                    assert forall|i: int, j: int|
                        0 <= i < self.keys@.len() && 0 <= j < self.adj@[i]@.len() implies (
                        #[trigger] self.adj@[i]@[j]).node != self.keys@[i] by {
                        if i != p {
                            assert(self.adj@[i] == g0.adj@[i]);
                        }
                    }
                }
                lemma_sorted_index_of(self.keys@, p);
                self.lemma_view_index(p);
                assert(self@[u] == norm@);
                assert(g0.keys@.contains(u));
                assert forall|v: i64| #[trigger] self@.dom().contains(v) implies g0@.dom().insert(
                    u,
                ).contains(v) by {}
                assert(self@ =~= g0@.insert(u, self@[u])) by {
                    assert forall|v: i64|
                        self@.dom().contains(v) && v != u implies self@[v] == g0@[v] by {
                        g0.lemma_view_contains(v);
                        let k = g0.keys@.index_of(v);
                        assert(k != p);
                        self.lemma_view_index(k);
                        assert(self.adj@[k] == g0.adj@[k]);
                    }
                }
            }
        } else {
            self.keys.insert(pos, u);
            self.adj.insert(pos, norm);
            proof {
                let p = pos as int;
                assert(self.keys@ == g0.keys@.insert(p, u));
                assert(self.adj@ == g0.adj@.insert(p, norm));
                assert(!g0.keys@.contains(u)) by {
                    if g0.keys@.contains(u) {
                        let k = g0.keys@.index_of(u);
                        assert(g0.keys@[k] == u);
                        if k < p {
                            assert(g0.keys@[k] < u);
                        } else {
                            assert(g0.keys@[k] >= u);
                            if p < g0.keys@.len() {
                                assert(g0.keys@[p] >= u);
                                assert(g0.keys@[p] != u);
                                if k > p {
                                    assert(g0.keys@[p] < g0.keys@[k]);
                                }
                            }
                        }
                    }
                };
                assert(strictly_sorted_ids(self.keys@)) by {
                    assert forall|a: int, b: int|
                        0 <= a < b < self.keys@.len() implies self.keys@[a] < self.keys@[b] by {
                        if a < p && b == p {
                            assert(self.keys@[a] == g0.keys@[a]);
                        } else if a < p && b > p {
                            assert(self.keys@[a] == g0.keys@[a] && self.keys@[b] == g0.keys@[b
                                - 1]);
                            assert(g0.keys@[a] < u);
                            assert(g0.keys@[b - 1] >= u);
                        } else if a == p && b > p {
                            assert(self.keys@[b] == g0.keys@[b - 1]);
                            assert(g0.keys@[b - 1] >= u && g0.keys@[b - 1] != u);
                        } else if a > p {
                            assert(self.keys@[a] == g0.keys@[a - 1] && self.keys@[b] == g0.keys@[b
                                - 1]);
                        }
                    }
                };
                assert(self.wf()) by {
                    assert forall|i: int|
                        0 <= i < self.keys@.len() implies edges_strictly_sorted(
                        #[trigger] self.adj@[i]@,
                    ) by {
                        if i < p {
                            assert(self.adj@[i] == g0.adj@[i]);
                        } else if i > p {
                            assert(self.adj@[i] == g0.adj@[i - 1]);
                        }
                    }
                    assert forall|i: int, j: int|
                        0 <= i < self.keys@.len() && 0 <= j < self.adj@[i]@.len() implies (
                        #[trigger] self.adj@[i]@[j]).node != self.keys@[i] by {
                        if i < p {
                            assert(self.adj@[i] == g0.adj@[i] && self.keys@[i] == g0.keys@[i]);
                        } else if i > p {
                            assert(self.adj@[i] == g0.adj@[i - 1] && self.keys@[i] == g0.keys@[i
                                - 1]);
                        }
                    }
                };
                lemma_sorted_index_of(self.keys@, p);
                self.lemma_view_index(p);
                assert(self@[u] == norm@);
                assert(self@ =~= g0@.insert(u, self@[u])) by {
                    assert forall|v: i64| #[trigger]
                        self.keys@.contains(v) implies g0.keys@.contains(v) || v == u by {
                        let k = self.keys@.index_of(v);
                        if k < p {
                            assert(g0.keys@[k] == v);
                        } else if k > p {
                            assert(g0.keys@[k - 1] == v);
                        }
                    }
                    assert forall|v: i64| #[trigger]
                        g0.keys@.contains(v) implies self.keys@.contains(v) by {
                        let k = g0.keys@.index_of(v);
                        if k < p {
                            assert(self.keys@[k] == v);
                        } else {
                            assert(self.keys@[k + 1] == v);
                        }
                    }
                    assert forall|v: i64|
                        self@.dom().contains(v) && v != u implies self@[v] == g0@[v] by {
                        g0.lemma_view_contains(v);
                        let k = g0.keys@.index_of(v);
                        let k2: int = if k < p {
                            k
                        } else {
                            k + 1
                        };
                        assert(self.keys@[k2] == v && self.adj@[k2] == g0.adj@[k]);
                        lemma_sorted_index_of(self.keys@, k2);
                        self.lemma_view_index(k2);
                    }
                }
            }
        }
    }

    /// Add the edge `e` to node `u`'s adjacency list, keeping the cheaper
    /// cost if an edge to the same destination already exists.
    pub fn upsert_min_edge(&mut self, u: i64, e: Edge)
        requires
            old(self).wf(),
            old(self)@.dom().contains(u),
            e.node != u,
        ensures
            final(self).wf(),
            final(self)@ == old(self)@.insert(u, final(self)@[u]),
            final(self).ids() == old(self).ids(),
            final(self).node_count() == old(self).node_count(),
            edges_strictly_sorted(final(self)@[u]),
            forall|v: i64|
                #[trigger] has_dest(final(self)@[u], v) <==> (has_dest(old(self)@[u], v) || v
                    == e.node),
            has_dest(old(self)@[u], e.node) ==> cost_at(final(self)@[u], e.node) == min2(
                cost_at(old(self)@[u], e.node),
                e.cost,
            ),
            !has_dest(old(self)@[u], e.node) ==> cost_at(final(self)@[u], e.node) == e.cost,
            forall|v: i64|
                v != e.node && #[trigger] has_dest(old(self)@[u], v) ==> cost_at(
                    final(self)@[u],
                    v,
                ) == cost_at(old(self)@[u], v),
    {
        let ghost g0 = *self;
        let i = match self.lookup(u) {
            Some(i) => i,
            None => {
                proof {
                    assert(false);
                }
                0
            },
        };
        let mut es = copy_edges(&self.adj[i]);
        proof {
            assert(es@ == g0.adj@[i as int]@);
            assert(g0@[u] == g0.adj@[i as int]@);
        }
        merge_min(&mut es, e);
        self.adj.set(i, es);
        proof {
            let p = i as int;
            assert(self.keys@ == g0.keys@);
            assert(self@[u] == self.adj@[p]@) by {
                lemma_sorted_index_of(self.keys@, p);
            }
            assert(self.wf()) by {
                assert forall|k: int|
                    0 <= k < self.keys@.len() implies edges_strictly_sorted(
                    #[trigger] self.adj@[k]@,
                ) by {
                    if k != p {
                        assert(self.adj@[k] == g0.adj@[k]);
                    }
                }
                assert forall|k: int, j: int|
                    0 <= k < self.keys@.len() && 0 <= j < self.adj@[k]@.len() implies (
                    #[trigger] self.adj@[k]@[j]).node != self.keys@[k] by {
                    if k != p {
                        assert(self.adj@[k] == g0.adj@[k]);
                    } else {
                        lemma_dest_unique(self.adj@[p]@, j);
                        assert(has_dest(self.adj@[p]@, self.adj@[p]@[j].node));
                    }
                }
            };
            assert(self@ =~= g0@.insert(u, self@[u])) by {
                assert forall|v: i64|
                    self@.dom().contains(v) && v != u implies self@[v] == g0@[v] by {
                    g0.lemma_view_contains(v);
                    let k = g0.keys@.index_of(v);
                    assert(k != p);
                    self.lemma_view_index(k);
                    assert(self.adj@[k] == g0.adj@[k]);
                }
            }
        }
    }

    /// Delete every node in `removals` and every edge whose destination is
    /// in `removals`; the rest of the graph is untouched.
    pub fn remove_nodes(&mut self, removals: &Vec<i64>)
        requires
            old(self).wf(),
        ensures
            final(self).wf(),
            forall|v: i64|
                #[trigger] final(self)@.dom().contains(v) <==> (old(self)@.dom().contains(v)
                    && !removals@.contains(v)),
            forall|v: i64, w: i64|
                final(self)@.dom().contains(v) ==> (#[trigger] has_dest(final(self)@[v], w) <==> (
                has_dest(old(self)@[v], w) && !removals@.contains(w))),
            forall|v: i64, w: i64|
                final(self)@.dom().contains(v) && has_dest(final(self)@[v], w) ==> cost_at(
                    final(self)@[v],
                    w,
                ) == cost_at(old(self)@[v], w),
            final(self).node_count() <= old(self).node_count(),
            (exists|k: int|
                0 <= k < removals@.len() && old(self)@.dom().contains(
                    #[trigger] removals@[k],
                )) ==> final(self).node_count() < old(self).node_count(),
    {
        let ghost g0 = *self;
        let n = self.keys.len();
        let mut keys2: Vec<i64> = Vec::new();
        let mut adj2: Vec<Vec<Edge>> = Vec::new();
        let ghost mut dropped: int = 0;
        let mut i: usize = 0;
        while i < n
            invariant
                i <= n,
                n == g0.keys@.len(),
                *self == g0,
                g0.wf(),
                keys2@.len() == adj2@.len(),
                keys2@.len() + dropped == i,
                dropped >= 0,
                (exists|k: int|
                    0 <= k < i && removals@.contains(#[trigger] g0.keys@[k])) ==> dropped >= 1,
                strictly_sorted_ids(keys2@),
                forall|j: int, k: int|
                    0 <= j < keys2@.len() && i <= k < n ==> keys2@[j] < g0.keys@[k],
                forall|v: i64| #[trigger]
                    keys2@.contains(v) <==> (g0.keys@.take(i as int).contains(v)
                        && !removals@.contains(v)),
                forall|j: int|
                    0 <= j < keys2@.len() ==> g0@.dom().contains(#[trigger] keys2@[j])
                        && adj2@[j]@ == g0@[keys2@[j]],
            decreases n - i,
        {
            let u = self.keys[i];
            proof {
                assert(g0.keys@.take(i as int + 1).drop_last() =~= g0.keys@.take(i as int));
                assert(g0.keys@.take(i as int + 1).last() == u);
                assert forall|v: i64| #[trigger]
                    g0.keys@.take(i as int + 1).contains(v) implies (g0.keys@.take(
                    i as int,
                ).contains(v) || v == u) by {
                    let k = choose|k: int|
                        0 <= k < i + 1 && #[trigger] g0.keys@.take(i as int + 1)[k] == v;
                    if k < i {
                        assert(g0.keys@.take(i as int)[k] == v);
                    }
                }
                assert forall|v: i64| #[trigger]
                    g0.keys@.take(i as int).contains(v) implies g0.keys@.take(
                    i as int + 1,
                ).contains(v) by {
                    let k = choose|k: int| 0 <= k < i && g0.keys@.take(i as int)[k] == v;
                    assert(g0.keys@.take(i as int + 1)[k] == v);
                }
            }
            if contains_id(removals, u) {
                proof {
                    dropped = dropped + 1;
                    assert(g0.keys@[i as int] == u);
                }
            } else {
                let ghost pre = keys2@;
                keys2.push(u);
                let es = copy_edges(&self.adj[i]);
                adj2.push(es);
                proof {
                    g0.lemma_view_index(i as int);
                    assert(keys2@ == pre.push(u));
                    assert forall|v: i64| #[trigger] keys2@.contains(v) implies (g0.keys@.take(
                        i as int + 1,
                    ).contains(v) && !removals@.contains(v)) by {
                        let k = choose|k: int| 0 <= k < keys2@.len() && keys2@[k] == v;
                        if k < keys2@.len() - 1 {
                            assert(pre[k] == v);
                            assert(pre.contains(v));
                        } else {
                            assert(v == u);
                            assert(g0.keys@.take(i as int + 1)[i as int] == v);
                        }
                    }
                    assert forall|v: i64|
                        g0.keys@.take(i as int + 1).contains(v) && !removals@.contains(
                            v,
                        ) implies #[trigger] keys2@.contains(v) by {
                        if v == u {
                            assert(keys2@[keys2@.len() - 1] == v);
                        } else {
                            assert(g0.keys@.take(i as int).contains(v));
                            assert(pre.contains(v));
                            let k = choose|k: int| 0 <= k < pre.len() && pre[k] == v;
                            assert(keys2@[k] == v);
                        }
                    }
                }
            }
            i += 1;
        }
        self.keys = keys2;
        self.adj = adj2;
        proof {
            assert(g0.keys@.take(n as int) =~= g0.keys@);
        }
        // Second pass: drop edges whose destination was removed.
        let ghost mid = *self;
        proof {
            assert(mid.wf()) by {
                assert forall|k: int|
                    0 <= k < mid.keys@.len() implies edges_strictly_sorted(
                    #[trigger] mid.adj@[k]@,
                ) by {
                    let v = mid.keys@[k];
                    g0.lemma_view_contains(v);
                    let ki = g0.keys@.index_of(v);
                    assert(mid.adj@[k]@ == g0.adj@[ki]@);
                }
                assert forall|k: int, jj: int|
                    0 <= k < mid.keys@.len() && 0 <= jj < mid.adj@[k]@.len() implies (
                    #[trigger] mid.adj@[k]@[jj]).node != mid.keys@[k] by {
                    let v = mid.keys@[k];
                    g0.lemma_view_contains(v);
                    let ki = g0.keys@.index_of(v);
                    assert(mid.adj@[k]@ == g0.adj@[ki]@);
                    assert(g0.adj@[ki]@[jj].node != g0.keys@[ki]);
                }
            };
        }
        let m = self.keys.len();
        let mut j: usize = 0;
        while j < m
            invariant
                j <= m,
                m == mid.keys@.len(),
                self.keys@ == mid.keys@,
                self.adj@.len() == m,
                mid.wf(),
                strictly_sorted_ids(self.keys@),
                forall|k: int| j <= k < m ==> self.adj@[k] == mid.adj@[k],
                forall|k: int|
                    0 <= k < j ==> edges_strictly_sorted(#[trigger] self.adj@[k]@) && (forall|
                        w: i64,
                    |
                        #[trigger] has_dest(self.adj@[k]@, w) <==> (has_dest(mid.adj@[k]@, w)
                            && !removals@.contains(w))) && (forall|w: i64|
                        #[trigger] has_dest(self.adj@[k]@, w) ==> cost_at(self.adj@[k]@, w)
                            == cost_at(mid.adj@[k]@, w)),
            decreases m - j,
        {
            let src = copy_edges(&self.adj[j]);
            let ghost sv = src@;
            proof {
                assert(self.adj@[j as int] == mid.adj@[j as int]);
                assert(edges_strictly_sorted(mid.adj@[j as int]@));
                assert(sv == mid.adj@[j as int]@);
            }
            let len = src.len();
            let mut out: Vec<Edge> = Vec::new();
            let mut t: usize = 0;
            while t < len
                invariant
                    t <= len,
                    len == sv.len(),
                    src@ == sv,
                    edges_strictly_sorted(sv),
                    edges_strictly_sorted(out@),
                    forall|a: int, b: int|
                        0 <= a < out@.len() && t <= b < len ==> out@[a].node < sv[b].node,
                    forall|w: i64|
                        #[trigger] has_dest(out@, w) <==> (has_dest(sv.take(t as int), w)
                            && !removals@.contains(w)),
                    forall|w: i64|
                        #[trigger] has_dest(out@, w) ==> cost_at(out@, w) == cost_at(sv, w),
                decreases len - t,
            {
                let e = src[t];
                let ghost pre = out@;
                proof {
                    assert(sv.take(t as int + 1).drop_last() =~= sv.take(t as int));
                    assert forall|w: i64| #[trigger]
                        has_dest(sv.take(t as int + 1), w) implies (has_dest(sv.take(t as int), w)
                        || w == e.node) by {
                        let k = choose|k: int|
                            0 <= k < t + 1 && (#[trigger] sv.take(t as int + 1)[k]).node == w;
                        if k < t {
                            assert(sv.take(t as int)[k].node == w);
                        }
                    }
                    assert forall|w: i64| #[trigger]
                        has_dest(sv.take(t as int), w) implies has_dest(
                        sv.take(t as int + 1),
                        w,
                    ) by {
                        let k = choose|k: int| 0 <= k < t && sv.take(t as int)[k].node == w;
                        assert(sv.take(t as int + 1)[k].node == w);
                    }
                }
                if !contains_id(removals, e.node) {
                    out.push(e);
                    proof {
                        assert forall|w: i64| #[trigger] has_dest(out@, w) implies (has_dest(
                            sv.take(t as int + 1),
                            w,
                        ) && !removals@.contains(w)) by {
                            let k = choose|k: int| 0 <= k < out@.len() && out@[k].node == w;
                            if k < out@.len() - 1 {
                                assert(pre[k].node == w);
                                assert(has_dest(pre, w));
                            } else {
                                assert(w == e.node);
                                assert(sv.take(t as int + 1)[t as int].node == w);
                            }
                        }
                        assert forall|w: i64| (has_dest(sv.take(t as int + 1), w)
                            && !removals@.contains(w)) implies #[trigger] has_dest(out@, w) by {
                            if w == e.node {
                                assert(out@[out@.len() - 1].node == w);
                            } else {
                                assert(has_dest(sv.take(t as int), w));
                                assert(has_dest(pre, w));
                                let k = choose|k: int| 0 <= k < pre.len() && pre[k].node == w;
                                assert(out@[k].node == w);
                            }
                        }
                        assert forall|w: i64| #[trigger] has_dest(out@, w) implies cost_at(
                            out@,
                            w,
                        ) == cost_at(sv, w) by {
                            let k = choose|k: int| 0 <= k < out@.len() && out@[k].node == w;
                            lemma_dest_unique(out@, k);
                            if k < out@.len() - 1 {
                                assert(pre[k].node == w && pre[k].cost == out@[k].cost);
                                lemma_dest_unique(pre, k);
                                assert(has_dest(pre, w));
                            } else {
                                assert(out@[k] == e);
                                assert(sv[t as int] == e);
                                lemma_dest_unique(sv, t as int);
                            }
                        }
                    }
                } else {
                    proof {
                        assert forall|w: i64| (has_dest(sv.take(t as int + 1), w)
                            && !removals@.contains(w)) implies #[trigger] has_dest(out@, w) by {
                            assert(w != e.node);
                            assert(has_dest(sv.take(t as int), w));
                        }
                    }
                }
                t += 1;
            }
            proof {
                assert(sv.take(len as int) =~= sv);
            }
            self.adj.set(j, out);
            j += 1;
        }
        proof {
            let f = *self;
            assert(f.keys@ == mid.keys@);
            assert(f.wf()) by {
                assert forall|k: int, jj: int|
                    0 <= k < f.keys@.len() && 0 <= jj < f.adj@[k]@.len() implies (
                    #[trigger] f.adj@[k]@[jj]).node != f.keys@[k] by {
                    lemma_dest_unique(f.adj@[k]@, jj);
                    assert(has_dest(f.adj@[k]@, f.adj@[k]@[jj].node));
                    assert(has_dest(mid.adj@[k]@, f.adj@[k]@[jj].node));
                    mid.lemma_view_index(k);
                }
            };
            // Membership of the final domain.
            assert forall|v: i64| #[trigger] f@.dom().contains(v) implies (g0@.dom().contains(v)
                && !removals@.contains(v)) by {}
            assert forall|v: i64| g0@.dom().contains(v) && !removals@.contains(v) implies f@.dom()
                .contains(v) by {}
            // Edge membership and costs of the survivors.
            assert forall|v: i64, w: i64| f@.dom().contains(v) implies (#[trigger] has_dest(
                f@[v],
                w,
            ) <==> (has_dest(g0@[v], w) && !removals@.contains(w))) by {
                f.lemma_view_contains(v);
                let k = f.keys@.index_of(v);
                mid.lemma_view_index(k);
                assert(f@[v] == f.adj@[k]@);
                assert(mid@[v] == mid.adj@[k]@);
                assert(mid@[v] == g0@[v]);
            }
            assert forall|v: i64, w: i64|
                f@.dom().contains(v) && has_dest(f@[v], w) implies cost_at(f@[v], w) == cost_at(
                g0@[v],
                w,
            ) by {
                f.lemma_view_contains(v);
                let k = f.keys@.index_of(v);
                mid.lemma_view_index(k);
            }
            // Node count.
            if exists|k: int|
                0 <= k < removals@.len() && g0@.dom().contains(#[trigger] removals@[k]) {
                let k = choose|k: int|
                    0 <= k < removals@.len() && g0@.dom().contains(#[trigger] removals@[k]);
                let v = removals@[k];
                assert(g0.keys@.contains(v));
                let ki = g0.keys@.index_of(v);
                assert(removals@.contains(v));
                assert(ki < n);
            }
        }
    }
}

// ---------------------------------------------------------------------------
// Building the initial graph from roads
// ---------------------------------------------------------------------------

/// Pushing onto a sequence only adds the pushed element.
pub proof fn lemma_push_contains<A>(s: Seq<A>, e: A, x: A)
    ensures
        s.push(e).contains(x) <==> (s.contains(x) || x == e),
{
    if s.push(e).contains(x) {
        let j = choose|j: int| 0 <= j < s.push(e).len() && s.push(e)[j] == x;
        if j < s.len() {
            assert(s[j] == x);
        }
    }
    if s.contains(x) {
        let j = choose|j: int| 0 <= j < s.len() && s[j] == x;
        assert(s.push(e)[j] == x);
    }
    if x == e {
        assert(s.push(e)[s.len() as int] == x);
    }
}

/// The position of `u` in `xs`, if it occurs.
pub fn find_id(xs: &Vec<i64>, u: i64) -> (r: Option<usize>)
    ensures
        match r {
            Some(i) => i < xs@.len() && xs@[i as int] == u,
            None => !xs@.contains(u),
        },
{
    let n = xs.len();
    let mut i: usize = 0;
    while i < n
        invariant
            i <= n,
            n == xs@.len(),
            forall|k: int| 0 <= k < i ==> xs@[k] != u,
        decreases n - i,
    {
        if xs[i] == u {
            return Some(i);
        }
        i += 1;
    }
    proof {
        if xs@.contains(u) {
            let k = choose|k: int| 0 <= k < xs@.len() && xs@[k] == u;
        }
    }
    None
}

/// An element-wise copy of an id list.
pub fn copy_ids(xs: &Vec<i64>) -> (r: Vec<i64>)
    ensures
        r@ == xs@,
{
    let n = xs.len();
    let mut r: Vec<i64> = Vec::new();
    let mut i: usize = 0;
    while i < n
        invariant
            i <= n,
            n == xs@.len(),
            r@ == xs@.take(i as int),
        decreases n - i,
    {
        r.push(xs[i]);
        proof {
            assert(r@ =~= xs@.take(i as int + 1));
        }
        i += 1;
    }
    proof {
        assert(xs@.take(n as int) =~= xs@);
    }
    r
}

/// The cost lists are parallel to the roads: one cost for each consecutive
/// pair of nodes of the road.
pub open spec fn costs_wf(roads: Seq<Road>, costs: Seq<Vec<u32>>) -> bool {
    &&& costs.len() == roads.len()
    &&& forall|r: int|
        0 <= r < roads.len() ==> (#[trigger] costs[r]@.len()) + 1 == roads[r].node_refs@.len()
}

/// Gap `k` of road `r` contributes the directed segment `u -> v`: either
/// the road passes `u` then `v`, or it passes `v` then `u` and is two-way.
pub open spec fn seg_matches(roads: Seq<Road>, r: int, k: int, u: i64, v: i64) -> bool {
    &&& 0 <= r < roads.len()
    &&& 0 <= k
    &&& k + 1 < roads[r].node_refs@.len()
    &&& ((roads[r].node_refs@[k] == u && roads[r].node_refs@[k + 1] == v) || (
    roads[r].direction == CarDirection::Twoway && roads[r].node_refs@[k] == v
        && roads[r].node_refs@[k + 1] == u))
}

/// Some road contributes the directed segment `u -> v`.
pub open spec fn seg_exists(roads: Seq<Road>, u: i64, v: i64) -> bool {
    exists|r: int, k: int| seg_matches(roads, r, k, u, v)
}

/// `c` is the least cost over all road segments `u -> v`, and is the cost
/// of one of them.
pub open spec fn is_min_seg_cost(
    roads: Seq<Road>,
    costs: Seq<Vec<u32>>,
    u: i64,
    v: i64,
    c: u32,
) -> bool {
    &&& exists|r: int, k: int| #[trigger] seg_matches(roads, r, k, u, v) && costs[r]@[k] == c
    &&& forall|r: int, k: int| #[trigger] seg_matches(roads, r, k, u, v) ==> c <= costs[r]@[k]
}

/// The pair `p` records a genuine road segment: some gap of some road
/// contributes exactly this source, destination and cost.
pub open spec fn seg_sound(roads: Seq<Road>, costs: Seq<Vec<u32>>, p: (i64, Edge)) -> bool {
    exists|r: int, k: int|
        #[trigger] seg_matches(roads, r, k, p.0, p.1.node) && costs[r]@[k] == p.1.cost
}

/// The pair `p` has been filed under its source node in `raw`.
pub open spec fn seg_placed(node_ids: Seq<i64>, raw: Seq<Vec<Edge>>, p: (i64, Edge)) -> bool {
    exists|t: int|
        0 <= t < node_ids.len() && #[trigger] node_ids[t] == p.0 && raw[t]@.contains(p.1)
}

/// `g` is the initial graph built of these inputs: one node per id, edges
/// exactly the road segments (reversed too for two-way roads), minimal
/// cost on duplicates, normalized lists, and every destination a node.
pub open spec fn built_graph(g: Graph, ids: Seq<i64>, roads: Seq<Road>, costs: Seq<Vec<u32>>) -> bool {
    &&& g.wf()
    &&& g.ids() == ids
    &&& forall|u: i64, v: i64|
        g@.dom().contains(u) ==> (#[trigger] has_dest(g@[u], v) <==> (v != u && seg_exists(
            roads,
            u,
            v,
        )))
    &&& forall|u: i64, v: i64|
        g@.dom().contains(u) && v != u && #[trigger] seg_exists(roads, u, v) ==> is_min_seg_cost(
            roads,
            costs,
            u,
            v,
            cost_at(g@[u], v),
        )
    &&& g.closed()
}

/// `r` is the transpose of `g`: the same nodes, every edge turned around
/// with its cost kept.
pub open spec fn transposed(g: Graph, r: Graph) -> bool {
    &&& r.wf()
    &&& r.ids() == g.ids()
    &&& forall|a: i64, b: i64| #[trigger] r.has_arc(b, a) <==> g.has_arc(a, b)
    &&& forall|a: i64, b: i64| #[trigger] r.has_arc(b, a) ==> r.arc_cost(b, a) == g.arc_cost(a, b)
    &&& r.closed()
}

/// Flatten the roads into directed `(source, edge)` pairs, two per gap for
/// two-way roads.
fn collect_segments(roads: &Vec<Road>, costs: &Vec<Vec<u32>>) -> (segs: Vec<(i64, Edge)>)
    requires
        costs_wf(roads@, costs@),
    ensures
        forall|j: int| 0 <= j < segs@.len() ==> seg_sound(roads@, costs@, #[trigger] segs@[j]),
        forall|r: int, k: int, u: i64, v: i64|
            #[trigger] seg_matches(roads@, r, k, u, v) ==> segs@.contains(
                (u, Edge { node: v, cost: costs@[r]@[k] }),
            ),
{
    let mut segs: Vec<(i64, Edge)> = Vec::new();
    let nr = roads.len();
    let mut r: usize = 0;
    while r < nr
        invariant
            r <= nr,
            nr == roads@.len(),
            costs_wf(roads@, costs@),
            forall|j: int| 0 <= j < segs@.len() ==> seg_sound(roads@, costs@, #[trigger] segs@[j]),
            forall|rr: int, kk: int, u: i64, v: i64|
                rr < r && #[trigger] seg_matches(roads@, rr, kk, u, v) ==> segs@.contains(
                    (u, Edge { node: v, cost: costs@[rr]@[kk] }),
                ),
        decreases nr - r,
    {
        let nc = costs[r].len();
        let mut k: usize = 0;
        while k < nc
            invariant
                k <= nc,
                r < nr,
                nr == roads@.len(),
                nc == costs@[r as int]@.len(),
                costs_wf(roads@, costs@),
                forall|j: int|
                    0 <= j < segs@.len() ==> seg_sound(roads@, costs@, #[trigger] segs@[j]),
                forall|rr: int, kk: int, u: i64, v: i64|
                    (rr < r || (rr == r && kk < k)) && #[trigger] seg_matches(roads@, rr, kk, u, v)
                        ==> segs@.contains((u, Edge { node: v, cost: costs@[rr]@[kk] })),
            decreases nc - k,
        {
            let u = roads[r].node_refs[k];
            let v = roads[r].node_refs[k + 1];
            let c = costs[r][k];
            let twoway = match roads[r].direction {
                CarDirection::Twoway => true,
                CarDirection::Forward => false,
            };
            let ghost pre = segs@;
            segs.push((u, Edge { node: v, cost: c }));
            let ghost mid1 = segs@;
            if twoway {
                segs.push((v, Edge { node: u, cost: c }));
            }
            proof {
                assert(seg_matches(roads@, r as int, k as int, u, v));
                if twoway {
                    assert(seg_matches(roads@, r as int, k as int, v, u));
                }
                assert forall|j: int| 0 <= j < segs@.len() implies seg_sound(
                    roads@,
                    costs@,
                    #[trigger] segs@[j],
                ) by {
                    if j < pre.len() {
                        assert(segs@[j] == pre[j]);
                    } else {
                        assert(seg_matches(
                            roads@,
                            r as int,
                            k as int,
                            segs@[j].0,
                            segs@[j].1.node,
                        ) && costs@[r as int]@[k as int] == segs@[j].1.cost);
                    }
                }
                assert forall|rr: int, kk: int, uu: i64, vv: i64|
                    (rr < r || (rr == r && kk < k + 1)) && #[trigger] seg_matches(
                        roads@,
                        rr,
                        kk,
                        uu,
                        vv,
                    ) implies segs@.contains(
                    (uu, Edge { node: vv, cost: costs@[rr]@[kk] }),
                ) by {
                    let x = (uu, Edge { node: vv, cost: costs@[rr]@[kk] });
                    if rr < r || (rr == r && kk < k) {
                        assert(pre.contains(x));
                        lemma_push_contains(pre, (u, Edge { node: v, cost: c }), x);
                        if twoway {
                            lemma_push_contains(mid1, (v, Edge { node: u, cost: c }), x);
                        }
                    } else {
                        assert(rr == r && kk == k);
                        if roads@[rr].node_refs@[kk] == uu && roads@[rr].node_refs@[kk + 1] == vv {
                            assert(uu == u && vv == v);
                            assert(mid1[pre.len() as int] == x);
                            assert(mid1.contains(x));
                            if twoway {
                                lemma_push_contains(mid1, (v, Edge { node: u, cost: c }), x);
                            }
                        } else {
                            assert(roads@[rr].direction == CarDirection::Twoway);
                            assert(uu == v && vv == u);
                            assert(twoway);
                            assert(segs@[mid1.len() as int] == x);
                        }
                    }
                }
            }
            k += 1;
        }
        proof {
            assert forall|rr: int, kk: int, u: i64, v: i64|
                rr < r + 1 && #[trigger] seg_matches(roads@, rr, kk, u, v) implies segs@.contains(
                (u, Edge { node: v, cost: costs@[rr]@[kk] }),
            ) by {
                if rr == r {
                    assert(kk + 1 < roads@[rr].node_refs@.len());
                    assert(kk < nc);
                }
            }
        }
        r += 1;
    }
    segs
}

impl Graph {
    /// Build the initial graph: one node per id in `node_ids`, and for every
    /// consecutive pair of nodes of every road an edge with the matching
    /// cost, reversed as well for two-way roads.  Each adjacency list is
    /// then normalized: no self-loops, sorted by destination, cheapest edge
    /// kept on duplicates.
    pub fn build_graph(node_ids: &Vec<i64>, roads: &Vec<Road>, costs: &Vec<Vec<u32>>) -> (g: Graph)
        requires
            strictly_sorted_ids(node_ids@),
            costs_wf(roads@, costs@),
            forall|r: int, k: int|
                0 <= r < roads@.len() && 0 <= k < roads@[r].node_refs@.len() ==> node_ids@.contains(
                    #[trigger] roads@[r].node_refs@[k],
                ),
        ensures
            g.wf(),
            g.ids() == node_ids@,
            forall|u: i64, v: i64|
                g@.dom().contains(u) ==> (#[trigger] has_dest(g@[u], v) <==> (v != u && seg_exists(
                    roads@,
                    u,
                    v,
                ))),
            forall|u: i64, v: i64|
                g@.dom().contains(u) && v != u && #[trigger] seg_exists(roads@, u, v)
                    ==> is_min_seg_cost(roads@, costs@, u, v, cost_at(g@[u], v)),
            g.closed(),
            built_graph(g, node_ids@, roads@, costs@),
    {
        let segs = collect_segments(roads, costs);
        let n = node_ids.len();
        let mut raw: Vec<Vec<Edge>> = Vec::new();
        let mut i: usize = 0;
        while i < n
            invariant
                i <= n,
                raw@.len() == i,
                forall|t: int| 0 <= t < i ==> (#[trigger] raw@[t]@) == Seq::<Edge>::empty(),
            decreases n - i,
        {
            raw.push(Vec::new());
            i += 1;
        }
        let m = segs.len();
        let mut j: usize = 0;
        while j < m
            invariant
                j <= m,
                m == segs@.len(),
                raw@.len() == n,
                n == node_ids@.len(),
                strictly_sorted_ids(node_ids@),
                forall|jj: int|
                    0 <= jj < segs@.len() ==> seg_sound(roads@, costs@, #[trigger] segs@[jj]),
                forall|r: int, k: int|
                    0 <= r < roads@.len() && 0 <= k < roads@[r].node_refs@.len()
                        ==> node_ids@.contains(#[trigger] roads@[r].node_refs@[k]),
                forall|t: int, x: int|
                    0 <= t < n && 0 <= x < raw@[t]@.len() ==> segs@.contains(
                        (node_ids@[t], (#[trigger] raw@[t]@[x])),
                    ),
                forall|jj: int|
                    0 <= jj < j ==> seg_placed(node_ids@, raw@, #[trigger] segs@[jj]),
            decreases m - j,
        {
            let (u, e) = segs[j];
            proof {
                assert(segs@[j as int].0 == u && segs@[j as int].1 == e);
                assert(seg_sound(roads@, costs@, segs@[j as int]));
                let (r, k) = choose|r: int, k: int|
                    #[trigger] seg_matches(roads@, r, k, segs@[j as int].0, segs@[j as int].1.node)
                        && costs@[r]@[k] == segs@[j as int].1.cost;
                assert(node_ids@.contains(roads@[r].node_refs@[k]));
                assert(node_ids@.contains(roads@[r].node_refs@[k + 1]));
                assert(node_ids@.contains(u));
            }
            let i2 = match find_id(node_ids, u) {
                Some(i2) => i2,
                None => {
                    proof {
                        assert(false);
                    }
                    0
                },
            };
            let ghost rawpre = raw@;
            let mut lst = copy_edges(&raw[i2]);
            let ghost lpre = lst@;
            lst.push(e);
            raw.set(i2, lst);
            proof {
                assert forall|t: int, x: int|
                    0 <= t < n && 0 <= x < raw@[t]@.len() implies segs@.contains(
                    (node_ids@[t], (#[trigger] raw@[t]@[x])),
                ) by {
                    if t == i2 {
                        if x < lpre.len() {
                            assert(raw@[t]@[x] == lpre[x]);
                            assert(segs@.contains((node_ids@[t], rawpre[t]@[x])));
                        } else {
                            assert(raw@[t]@[x] == e);
                            assert(segs@[j as int] == (node_ids@[t], raw@[t]@[x]));
                            assert(segs@.contains((node_ids@[t], raw@[t]@[x])));
                        }
                    } else {
                        assert(raw@[t] == rawpre[t]);
                    }
                }
                assert forall|jj: int| 0 <= jj < j + 1 implies seg_placed(
                    node_ids@,
                    raw@,
                    #[trigger] segs@[jj],
                ) by {
                    if jj < j {
                        assert(seg_placed(node_ids@, rawpre, segs@[jj]));
                        let t = choose|t: int|
                            0 <= t < n && #[trigger] node_ids@[t] == segs@[jj].0
                                && rawpre[t]@.contains(segs@[jj].1);
                        if t == i2 {
                            lemma_push_contains(lpre, e, segs@[jj].1);
                            assert(raw@[t]@.contains(segs@[jj].1));
                        } else {
                            assert(raw@[t] == rawpre[t]);
                        }
                        assert(0 <= t < n && node_ids@[t] == segs@[jj].0 && raw@[t]@.contains(
                            segs@[jj].1,
                        ));
                    } else {
                        assert(node_ids@[i2 as int] == u);
                        assert(raw@[i2 as int]@[lpre.len() as int] == e);
                        assert(raw@[i2 as int]@.contains(e));
                        assert(0 <= i2 < n && node_ids@[i2 as int] == segs@[jj].0 && raw@[
                            i2 as int
                        ]@.contains(segs@[jj].1));
                    }
                }
            }
            j += 1;
        }
        // Normalize each accumulated list and assemble the graph.
        let keys2 = copy_ids(node_ids);
        let mut adj2: Vec<Vec<Edge>> = Vec::new();
        let mut t: usize = 0;
        while t < n
            invariant
                t <= n,
                n == node_ids@.len(),
                raw@.len() == n,
                adj2@.len() == t,
                forall|x: int|
                    0 <= x < t ==> is_normal_of(
                        (#[trigger] adj2@[x])@,
                        node_ids@[x],
                        raw@[x]@,
                    ),
            decreases n - t,
        {
            let nrm = normalize_edges(node_ids[t], &raw[t]);
            adj2.push(nrm);
            t += 1;
        }
        let g = Graph { keys: keys2, adj: adj2 };
        proof {
            // Well-formedness.
            assert(g.keys@ == node_ids@);
            assert(g.wf()) by {
                assert forall|x: int|
                    0 <= x < g.keys@.len() implies edges_strictly_sorted(
                    #[trigger] g.adj@[x]@,
                ) by {
                    assert(is_normal_of(g.adj@[x]@, node_ids@[x], raw@[x]@));
                }
                assert forall|x: int, y: int|
                    0 <= x < g.keys@.len() && 0 <= y < g.adj@[x]@.len() implies (
                    #[trigger] g.adj@[x]@[y]).node != g.keys@[x] by {
                    assert(is_normal_of(g.adj@[x]@, node_ids@[x], raw@[x]@));
                }
            };
            // Edge membership matches segment existence; costs are minimal.
            assert forall|u: i64, v: i64| g@.dom().contains(u) implies (#[trigger] has_dest(
                g@[u],
                v,
            ) <==> (v != u && seg_exists(roads@, u, v))) by {
                g.lemma_view_contains(u);
                let x = g.keys@.index_of(u);
                assert(g@[u] == g.adj@[x]@);
                assert(is_normal_of(g.adj@[x]@, u, raw@[x]@));
                if has_dest(g@[u], v) {
                    assert(v != u && has_dest(raw@[x]@, v));
                    let y = choose|y: int| 0 <= y < raw@[x]@.len() && raw@[x]@[y].node == v;
                    assert(segs@.contains((u, raw@[x]@[y])));
                    let jj = choose|jj: int|
                        0 <= jj < segs@.len() && segs@[jj] == (u, raw@[x]@[y]);
                    assert(seg_sound(roads@, costs@, segs@[jj]));
                    let (r, k) = choose|r: int, k: int|
                        #[trigger] seg_matches(
                            roads@,
                            r,
                            k,
                            segs@[jj].0,
                            segs@[jj].1.node,
                        ) && costs@[r]@[k] == segs@[jj].1.cost;
                    assert(seg_matches(roads@, r, k, u, v));
                    assert(seg_exists(roads@, u, v));
                }
                if v != u && seg_exists(roads@, u, v) {
                    let (r, k) = choose|r: int, k: int| seg_matches(roads@, r, k, u, v);
                    assert(segs@.contains((u, Edge { node: v, cost: costs@[r]@[k] })));
                    let jj = choose|jj: int|
                        0 <= jj < segs@.len() && segs@[jj] == (
                            u,
                            Edge { node: v, cost: costs@[r]@[k] },
                        );
                    assert(seg_placed(node_ids@, raw@, segs@[jj]));
                    let tt = choose|tt: int|
                        0 <= tt < n && #[trigger] node_ids@[tt] == segs@[jj].0 && raw@[
                            tt
                        ]@.contains(segs@[jj].1);
                    assert(node_ids@[tt] == u && node_ids@[x] == u);
                    lemma_sorted_index_of(node_ids@, tt);
                    lemma_sorted_index_of(node_ids@, x);
                    assert(tt == x);
                    let y = choose|y: int|
                        0 <= y < raw@[x]@.len() && raw@[x]@[y] == segs@[jj].1;
                    assert(raw@[x]@[y].node == v);
                    assert(has_dest(raw@[x]@, v));
                    assert(has_dest(g@[u], v));
                }
            }
            assert forall|u: i64, v: i64|
                g@.dom().contains(u) && v != u && #[trigger] seg_exists(
                    roads@,
                    u,
                    v,
                ) implies is_min_seg_cost(roads@, costs@, u, v, cost_at(g@[u], v)) by {
                g.lemma_view_contains(u);
                let x = g.keys@.index_of(u);
                assert(g@[u] == g.adj@[x]@);
                assert(is_normal_of(g.adj@[x]@, u, raw@[x]@));
                assert(has_dest(g@[u], v));
                assert(has_dest(raw@[x]@, v));
                let c = cost_at(g@[u], v);
                assert(is_min_cost(raw@[x]@, v, c));
                // The minimum over the raw list is realized by some segment.
                let y = choose|y: int|
                    0 <= y < raw@[x]@.len() && raw@[x]@[y].node == v && raw@[x]@[y].cost == c;
                assert(segs@.contains((u, raw@[x]@[y])));
                let jj = choose|jj: int| 0 <= jj < segs@.len() && segs@[jj] == (u, raw@[x]@[y]);
                assert(seg_sound(roads@, costs@, segs@[jj]));
                let (r0, k0) = choose|r0: int, k0: int|
                    #[trigger] seg_matches(roads@, r0, k0, segs@[jj].0, segs@[jj].1.node)
                        && costs@[r0]@[k0] == segs@[jj].1.cost;
                assert(seg_matches(roads@, r0, k0, u, v) && costs@[r0]@[k0] == c);
                // And it is a lower bound over all matching segments.
                assert forall|r: int, k: int| #[trigger] seg_matches(roads@, r, k, u, v) implies c
                    <= costs@[r]@[k] by {
                    assert(segs@.contains((u, Edge { node: v, cost: costs@[r]@[k] })));
                    let j2 = choose|j2: int|
                        0 <= j2 < segs@.len() && segs@[j2] == (
                            u,
                            Edge { node: v, cost: costs@[r]@[k] },
                        );
                    assert(seg_placed(node_ids@, raw@, segs@[j2]));
                    let t2 = choose|t2: int|
                        0 <= t2 < n && #[trigger] node_ids@[t2] == segs@[j2].0 && raw@[
                            t2
                        ]@.contains(segs@[j2].1);
                    lemma_sorted_index_of(node_ids@, t2);
                    lemma_sorted_index_of(node_ids@, x);
                    assert(t2 == x);
                    let y2 = choose|y2: int|
                        0 <= y2 < raw@[x]@.len() && raw@[x]@[y2] == segs@[j2].1;
                    assert(raw@[x]@[y2].node == v);
                    assert(c <= raw@[x]@[y2].cost);
                }
            }
            // Every destination is itself a node.
            assert forall|u: i64, v: i64|
                g@.dom().contains(u) && #[trigger] has_dest(g@[u], v) implies g@.dom().contains(
                v,
            ) by {
                assert(seg_exists(roads@, u, v));
                let (r, k) = choose|r: int, k: int| seg_matches(roads@, r, k, u, v);
                assert(node_ids@.contains(roads@[r].node_refs@[k]));
                assert(node_ids@.contains(roads@[r].node_refs@[k + 1]));
                assert(node_ids@.contains(v));
                assert(g.keys@.contains(v));
            }
        }
        g
    }
}

// ---------------------------------------------------------------------------
// The reverse graph
// ---------------------------------------------------------------------------

/// The arcs of `g` enumerated before the lexicographic position `(i, x)`
/// contain an arc from `a` to `b`.
pub open spec fn arc_before(g: Graph, i: int, x: int, a: i64, b: i64) -> bool {
    exists|ii: int, xx: int|
        0 <= ii < g.keys@.len() && 0 <= xx < g.adj@[ii]@.len() && (ii < i || (ii == i && xx < x))
            && g.keys@[ii] == a && (#[trigger] g.adj@[ii]@[xx]).node == b
}

impl Graph {
    /// The reverse graph: same nodes, every edge turned around with its
    /// cost kept.
    pub fn get_bidirectional_graph(&self) -> (r: Graph)
        requires
            self.wf(),
            self.closed(),
        ensures
            r.wf(),
            r.ids() == self.ids(),
            forall|a: i64, b: i64| #[trigger] r.has_arc(b, a) <==> self.has_arc(a, b),
            forall|a: i64, b: i64|
                #[trigger] r.has_arc(b, a) ==> r.arc_cost(b, a) == self.arc_cost(a, b),
            r.closed(),
            transposed(*self, r),
    {
        let n = self.keys.len();
        // Start from the same node set with empty adjacency lists.
        let keys2 = copy_ids(&self.keys);
        let mut adj0: Vec<Vec<Edge>> = Vec::new();
        let mut i: usize = 0;
        while i < n
            invariant
                i <= n,
                adj0@.len() == i,
                forall|t: int| 0 <= t < i ==> (#[trigger] adj0@[t]@).len() == 0,
            decreases n - i,
        {
            adj0.push(Vec::new());
            i += 1;
        }
        let mut r = Graph { keys: keys2, adj: adj0 };
        proof {
            assert(r.keys@ == self.keys@);
            assert(r.wf());
            assert forall|u2: i64| r@.dom().contains(u2) implies (#[trigger] r@[u2]).len() == 0 by {
                r.lemma_view_contains(u2);
            }
            assert forall|a: i64, b: i64| #[trigger] r.has_arc(b, a) implies false by {
                assert(r@[b].len() == 0);
                let y = choose|y: int| 0 <= y < r@[b].len() && r@[b][y].node == a;
            }
            assert forall|a: i64, b: i64| !arc_before(*self, 0, 0, a, b) by {
                if arc_before(*self, 0, 0, a, b) {
                    let (ii, xx) = choose|ii: int, xx: int|
                        0 <= ii < self.keys@.len() && 0 <= xx < self.adj@[ii]@.len() && (ii < 0 || (
                        ii == 0 && xx < 0)) && self.keys@[ii] == a && (#[trigger] self.adj@[ii]@[
                            xx
                        ]).node == b;
                }
            }
        }
        // Turn every edge around.
        let mut i: usize = 0;
        while i < n
            invariant
                i <= n,
                n == self.keys@.len(),
                self.wf(),
                self.closed(),
                r.wf(),
                r.ids() == self.ids(),
                forall|a: i64, b: i64|
                    #[trigger] r.has_arc(b, a) <==> arc_before(*self, i as int, 0, a, b),
                forall|a: i64, b: i64|
                    #[trigger] r.has_arc(b, a) ==> r.arc_cost(b, a) == self.arc_cost(a, b),
            decreases n - i,
        {
            let u = self.key_at(i);
            let m = self.adj[i].len();
            let mut x: usize = 0;
            while x < m
                invariant
                    x <= m,
                    i < n,
                    n == self.keys@.len(),
                    m == self.adj@[i as int]@.len(),
                    self.wf(),
                    self.closed(),
                    u == self.keys@[i as int],
                    r.wf(),
                    r.ids() == self.ids(),
                    forall|a: i64, b: i64|
                        #[trigger] r.has_arc(b, a) <==> arc_before(*self, i as int, x as int, a, b),
                    forall|a: i64, b: i64|
                        #[trigger] r.has_arc(b, a) ==> r.arc_cost(b, a) == self.arc_cost(a, b),
                decreases m - x,
            {
                let e = self.adj[i][x];
                let v = e.node;
                let ghost r0 = r;
                proof {
                    self.lemma_view_index(i as int);
                    lemma_dest_unique(self.adj@[i as int]@, x as int);
                    assert(has_dest(self@[u], v));
                    assert(self@.dom().contains(v));
                    assert(r@.dom().contains(v)) by {
                        assert(self.keys@.contains(v));
                    };
                    assert(v != u);
                    // No arc u -> v has been recorded yet.
                    assert(!r0.has_arc(v, u)) by {
                        if arc_before(*self, i as int, x as int, u, v) {
                            let (ii, xx) = choose|ii: int, xx: int|
                                0 <= ii < self.keys@.len() && 0 <= xx < self.adj@[ii]@.len() && (ii
                                    < i || (ii == i && xx < x)) && self.keys@[ii] == u && (
                                #[trigger] self.adj@[ii]@[xx]).node == v;
                            lemma_sorted_index_of(self.keys@, ii);
                            lemma_sorted_index_of(self.keys@, i as int);
                            assert(ii == i);
                            lemma_dest_unique(self.adj@[i as int]@, xx);
                            lemma_dest_unique(self.adj@[i as int]@, x as int);
                        }
                    };
                }
                r.upsert_min_edge(v, Edge { node: u, cost: e.cost });
                proof {
                    assert(r.ids() == r0.ids());
                    lemma_dest_unique(self.adj@[i as int]@, x as int);
                    assert(self.arc_cost(u, v) == e.cost);
                    assert forall|a: i64, b: i64| #[trigger] r.has_arc(b, a) implies arc_before(
                        *self,
                        i as int,
                        x as int + 1,
                        a,
                        b,
                    ) by {
                        if b == v {
                            if a == u {
                                assert(self.adj@[i as int]@[x as int].node == b);
                                assert(arc_before(*self, i as int, x as int + 1, a, b));
                            } else {
                                assert(has_dest(r0@[v], a));
                                assert(r0.has_arc(v, a));
                            }
                        } else {
                            assert(r@[b] == r0@[b]);
                            assert(r0.has_arc(b, a));
                        }
                    }
                    assert forall|a: i64, b: i64| arc_before(
                        *self,
                        i as int,
                        x as int + 1,
                        a,
                        b,
                    ) implies #[trigger] r.has_arc(b, a) by {
                        let (ii, xx) = choose|ii: int, xx: int|
                            0 <= ii < self.keys@.len() && 0 <= xx < self.adj@[ii]@.len() && (ii < i
                                || (ii == i && xx < x + 1)) && self.keys@[ii] == a && (
                            #[trigger] self.adj@[ii]@[xx]).node == b;
                        if ii < i || (ii == i && xx < x) {
                            assert(r0.has_arc(b, a));
                            if b == v {
                                assert(has_dest(r0@[v], a));
                                assert(has_dest(r@[v], a));
                            } else {
                                assert(r@[b] == r0@[b]);
                            }
                        } else {
                            assert(ii == i && xx == x);
                            assert(a == u && b == v);
                            assert(has_dest(r@[v], u));
                        }
                    }
                    assert forall|a: i64, b: i64| #[trigger] r.has_arc(b, a) implies r.arc_cost(
                        b,
                        a,
                    ) == self.arc_cost(a, b) by {
                        if b == v {
                            if a == u {
                                assert(!has_dest(r0@[v], u));
                                assert(cost_at(r@[v], u) == e.cost);
                            } else {
                                assert(has_dest(r0@[v], a));
                                assert(cost_at(r@[v], a) == cost_at(r0@[v], a));
                                assert(r0.has_arc(v, a));
                            }
                        } else {
                            assert(r@[b] == r0@[b]);
                            assert(r0.has_arc(b, a));
                        }
                    }
                }
                x += 1;
            }
            proof {
                assert forall|a: i64, b: i64| arc_before(*self, i as int, m as int, a, b) implies
                    arc_before(*self, i as int + 1, 0, a, b) by {}
                assert forall|a: i64, b: i64| arc_before(*self, i as int + 1, 0, a, b) implies
                    arc_before(*self, i as int, m as int, a, b) by {
                    let (ii, xx) = choose|ii: int, xx: int|
                        0 <= ii < self.keys@.len() && 0 <= xx < self.adj@[ii]@.len() && (ii < i + 1
                            || (ii == i + 1 && xx < 0)) && self.keys@[ii] == a && (
                        #[trigger] self.adj@[ii]@[xx]).node == b;
                    assert(ii < i || (ii == i && xx < m));
                }
            }
            i += 1;
        }
        proof {
            assert forall|a: i64, b: i64| #[trigger] r.has_arc(b, a) <==> self.has_arc(a, b) by {
                if r.has_arc(b, a) {
                    let (ii, xx) = choose|ii: int, xx: int|
                        0 <= ii < self.keys@.len() && 0 <= xx < self.adj@[ii]@.len() && (ii < n || (
                        ii == n && xx < 0)) && self.keys@[ii] == a && (#[trigger] self.adj@[ii]@[
                            xx
                        ]).node == b;
                    self.lemma_view_index(ii);
                    assert(has_dest(self@[a], b)) by {
                        assert(self@[a][xx].node == b);
                    }
                }
                if self.has_arc(a, b) {
                    self.lemma_view_contains(a);
                    let ii = self.keys@.index_of(a);
                    let xx = choose|xx: int| 0 <= xx < self@[a].len() && self@[a][xx].node == b;
                    assert(self.adj@[ii]@[xx].node == b);
                    assert(arc_before(*self, n as int, 0, a, b));
                }
            }
            assert forall|u2: i64, a: i64|
                r@.dom().contains(u2) && #[trigger] has_dest(r@[u2], a) implies r@.dom().contains(
                a,
            ) by {
                assert(r.has_arc(u2, a));
                assert(self.has_arc(a, u2));
                assert(self.keys@.contains(a));
                assert(r.keys@.contains(a));
            }
        }
        r
    }
}

} // verus!
