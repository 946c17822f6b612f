use vstd::prelude::*;

use crate::edge::Edge;
use crate::graph::has_dest;
use crate::graph::COST_MAX;
use crate::graph::lemma_dest_unique;
use crate::graph::Graph;

verus! {

/// The distance of an unreachable node.
pub const INF: u64 = 0xffff_ffff_ffff_ffff;

// ---------------------------------------------------------------------------
// Paths
// ---------------------------------------------------------------------------

/// `p` is a walk through the graph: at least one node, and an edge between
/// every consecutive pair.
pub open spec fn is_path(g: Graph, p: Seq<i64>) -> bool {
    &&& p.len() >= 1
    &&& forall|i: int| 0 <= i < p.len() - 1 ==> g.has_arc(#[trigger] p[i], p[i + 1])
}

/// The summed edge cost along `p`.
pub open spec fn path_cost(g: Graph, p: Seq<i64>) -> int
    decreases p.len(),
{
    if p.len() <= 1 {
        0
    } else {
        path_cost(g, p.drop_last()) + g.arc_cost(p[p.len() - 2], p[p.len() - 1])
    }
}

/// `p` is a walk from `s` to `v`.
pub open spec fn connects(g: Graph, p: Seq<i64>, s: i64, v: i64) -> bool {
    is_path(g, p) && p[0] == s && p[p.len() - 1] == v
}

/// No edge can improve a distance: the fixed point of relaxation.
pub open spec fn no_tense(g: Graph, dist: Seq<u64>) -> bool {
    forall|u: int, j: int|
        0 <= u < dist.len() && 0 <= j < g@[u as i64].len() && dist[u] < INF && dist[u] + (
        #[trigger] g@[u as i64][j]).cost < INF ==> dist[g@[u as i64][j].node as int] <= dist[u]
            + g@[u as i64][j].cost
}

/// What single-source shortest-path search guarantees: one entry per node,
/// zero at the source, every finite entry realized by an actual walk, and
/// no edge left tense.  Together these determine the table completely
/// (`lemma_dijkstra_post_unique`).
#[verifier::opaque]
pub open spec fn dijkstra_post(g: Graph, start: i64, dist: Seq<u64>) -> bool {
    &&& dist.len() == g.node_count()
    &&& (g@.dom().contains(start) ==> dist[start as int] == 0)
    &&& forall|v: int|
        0 <= v < dist.len() && #[trigger] dist[v] < INF ==> exists|p: Seq<i64>|
            connects(g, p, start, v as i64) && path_cost(g, p) == dist[v]
    &&& no_tense(g, dist)
}

/// A node of a dense graph is one of the indices `0 .. node_count`.
pub proof fn lemma_dense_bounds(g: Graph, u: i64)
    requires
        g.wf(),
        g.dense(),
        g@.dom().contains(u),
    ensures
        0 <= u < g.node_count(),
        g.keys@.index_of(u) == u,
{
    assert(g.keys@.contains(u));
    let k = g.keys@.index_of(u);
    assert(g.keys@[k] == u);
}

/// Extending a walk by one edge extends its cost by that edge's cost.
pub proof fn lemma_path_extend(g: Graph, p: Seq<i64>, v: i64)
    requires
        is_path(g, p),
        g.has_arc(p[p.len() - 1], v),
    ensures
        is_path(g, p.push(v)),
        path_cost(g, p.push(v)) == path_cost(g, p) + g.arc_cost(p[p.len() - 1], v),
        p.push(v)[0] == p[0],
        p.push(v)[p.push(v).len() - 1] == v,
{
    let q = p.push(v);
    assert(q.drop_last() =~= p);
    assert forall|i: int| 0 <= i < q.len() - 1 implies g.has_arc(#[trigger] q[i], q[i + 1]) by {
        if i < p.len() - 1 {
            assert(q[i] == p[i] && q[i + 1] == p[i + 1]);
        } else {
            assert(q[i] == p[p.len() - 1] && q[i + 1] == v);
        }
    }
    assert(q[q.len() - 2] == p[p.len() - 1] && q[q.len() - 1] == v);
}

/// In a table with no tense edge and zero at the source, every node's entry
/// is at most the cost of any walk that reaches it.
pub proof fn lemma_dist_lower_bound(g: Graph, start: i64, dist: Seq<u64>, p: Seq<i64>)
    requires
        g.wf(),
        g.closed(),
        g.dense(),
        dist.len() == g.node_count(),
        g@.dom().contains(start),
        dist[start as int] == 0,
        no_tense(g, dist),
        is_path(g, p),
        p[0] == start,
        path_cost(g, p) < INF,
    ensures
        g@.dom().contains(p[p.len() - 1]),
        dist[p[p.len() - 1] as int] <= path_cost(g, p),
    decreases p.len(),
{
    lemma_dense_bounds(g, start);
    if p.len() == 1 {
        assert(p[p.len() - 1] == start);
    } else {
        let q = p.drop_last();
        let u = q[q.len() - 1];
        let v = p[p.len() - 1];
        assert(is_path(g, q)) by {
            assert forall|i: int| 0 <= i < q.len() - 1 implies g.has_arc(#[trigger] q[i], q[i + 1])
                by {
                assert(q[i] == p[i] && q[i + 1] == p[i + 1]);
            }
        }
        assert(g.has_arc(u, v)) by {
            assert(p[p.len() - 2] == u);
            assert(g.has_arc(p[p.len() - 2], p[p.len() - 1]));
        }
        let w = g.arc_cost(u, v);
        assert(path_cost(g, p) == path_cost(g, q) + w) by {
            assert(p[p.len() - 2] == u && p[p.len() - 1] == v);
        }
        assert(w >= 0);
        assert(path_cost(g, q) < INF);
        lemma_dist_lower_bound(g, start, dist, q);
        lemma_dense_bounds(g, u);
        g.lemma_view_contains(u);
        let j = choose|j: int| 0 <= j < g@[u].len() && g@[u][j].node == v;
        lemma_dest_unique(g@[u], j);
        assert(g@[u][j].cost == w);
        assert(g@.dom().contains(v));
        lemma_dense_bounds(g, v);
        assert(dist[u as int] <= path_cost(g, q));
        assert(dist[u as int] < INF);
        assert(dist[u as int] + w <= path_cost(g, p) < INF);
        // the relaxation fixed point bounds dist at v
        assert(g@[u as i64][j].cost == w && g@[u as i64][j].node == v);
        assert(dist[v as int] <= dist[u as int] + w);
    }
}

/// Any two tables meeting `dijkstra_post` agree: the table is the table of
/// shortest-path distances.
#[verifier::rlimit(60)]
#[verifier::spinoff_prover]
pub proof fn lemma_dijkstra_post_unique(g: Graph, start: i64, d1: Seq<u64>, d2: Seq<u64>)
    requires
        g.wf(),
        g.closed(),
        g.dense(),
        g@.dom().contains(start),
        dijkstra_post(g, start, d1),
        dijkstra_post(g, start, d2),
    ensures
        d1 == d2,
{
    reveal(dijkstra_post);
    assert forall|v: int| 0 <= v < d1.len() implies d1[v] == d2[v] by {
        assert(g.keys@[v] == v);
        if d1[v] < INF {
            let p = choose|p: Seq<i64>|
                connects(g, p, start, v as i64) && path_cost(g, p) == d1[v];
            lemma_dist_lower_bound(g, start, d2, p);
            assert(d2[v] <= d1[v]);
        }
        if d2[v] < INF {
            let p = choose|p: Seq<i64>|
                connects(g, p, start, v as i64) && path_cost(g, p) == d2[v];
            lemma_dist_lower_bound(g, start, d1, p);
            assert(d1[v] <= d2[v]);
        }
    }
    assert(d1 =~= d2);
}

// ---------------------------------------------------------------------------
// Counting helpers for termination of the search
// ---------------------------------------------------------------------------

pub open spec fn count_true(s: Seq<bool>) -> int
    decreases s.len(),
{
    if s.len() == 0 {
        0
    } else {
        count_true(s.drop_last()) + if s.last() {
            1int
        } else {
            0int
        }
    }
}

pub proof fn lemma_count_true_bounds(s: Seq<bool>)
    ensures
        0 <= count_true(s) <= s.len(),
    decreases s.len(),
{
    if s.len() > 0 {
        lemma_count_true_bounds(s.drop_last());
    }
}

pub proof fn lemma_count_true_update(s: Seq<bool>, i: int)
    requires
        0 <= i < s.len(),
        !s[i],
    ensures
        count_true(s.update(i, true)) == count_true(s) + 1,
    decreases s.len(),
{
    let t = s.update(i, true);
    if i == s.len() - 1 {
        assert(t.drop_last() =~= s.drop_last());
        assert(t.last());
        assert(!s.last());
    } else {
        assert(t.drop_last() =~= s.drop_last().update(i, true));
        assert(t.last() == s.last());
        lemma_count_true_update(s.drop_last(), i);
    }
}

// ---------------------------------------------------------------------------
// Single-source shortest paths
// ---------------------------------------------------------------------------

/// The view of a dense, closed graph agrees with its stored vectors: node
/// `u` is key number `u`, and every destination is again in range.
pub proof fn lemma_dense_view(g: Graph)
    requires
        g.wf(),
        g.closed(),
        g.dense(),
    ensures
        forall|u: int|
            0 <= u < g.node_count() ==> #[trigger] g@[u as i64] == g.adj@[u]@
                && g@.dom().contains(u as i64) && ((u as i64) as int) == u,
        forall|u: int, j: int|
            0 <= u < g.node_count() && 0 <= j < g.adj@[u]@.len() ==> 0 <= (#[trigger] g.adj@[u]@[
                j
            ]).node < g.node_count(),
{
    assert forall|u: int| 0 <= u < g.node_count() implies #[trigger] g@[u as i64] == g.adj@[u]@
        && g@.dom().contains(u as i64) && ((u as i64) as int) == u by {
        assert(g.keys@[u] == u);
        g.lemma_view_index(u);
    }
    assert forall|u: int, j: int|
        0 <= u < g.node_count() && 0 <= j < g.adj@[u]@.len() implies 0 <= (#[trigger] g.adj@[u]@[
        j
    ]).node < g.node_count() by {
        assert(g.keys@[u] == u);
        g.lemma_view_index(u);
        lemma_dest_unique(g.adj@[u]@, j);
        let v = g.adj@[u]@[j].node;
        assert(has_dest(g@[u as i64], v));
        assert(g@.dom().contains(v));
        lemma_dense_bounds(g, v);
    }
}

/// The relaxation fixed point, phrased over the stored vectors.
pub open spec fn no_tense_adj(g: Graph, dist: Seq<u64>) -> bool {
    forall|u: int, j: int|
        0 <= u < dist.len() && 0 <= j < g.adj@[u]@.len() && dist[u] < INF && dist[u] + (
        #[trigger] g.adj@[u]@[j]).cost < INF ==> dist[g.adj@[u]@[j].node as int] <= dist[u]
            + g.adj@[u]@[j].cost
}


/// After the chosen node's edges are all relaxed, the relaxation fixed
/// point holds for every visited node, and visited entries stay below the
/// unvisited ones.
proof fn lemma_relax_exit(g: Graph, dist: Seq<u64>, visited: Seq<bool>, bi: int, best_d: u64)
    requires
        dist.len() == visited.len(),
        0 <= bi < dist.len(),
        visited[bi],
        dist[bi] == best_d,
        forall|u: int| 0 <= u < dist.len() && #[trigger] visited[u] ==> dist[u] <= best_d,
        forall|w: int| 0 <= w < dist.len() && !(#[trigger] visited[w]) ==> dist[w] >= best_d,
        forall|u: int, j: int|
            0 <= u < dist.len() && #[trigger] visited[u] && u != bi && 0 <= j < g.adj@[u]@.len()
                && dist[u] + (#[trigger] g.adj@[u]@[j]).cost < INF ==> dist[g.adj@[u]@[j].node
                as int] <= dist[u] + g.adj@[u]@[j].cost,
        forall|j: int|
            0 <= j < g.adj@[bi]@.len() && best_d + (#[trigger] g.adj@[bi]@[j]).cost < INF ==> dist[
                g.adj@[bi]@[j].node as int
            ] <= best_d + g.adj@[bi]@[j].cost,
    ensures
        forall|u: int, j: int|
            0 <= u < dist.len() && #[trigger] visited[u] && 0 <= j < g.adj@[u]@.len() && dist[u]
                + (#[trigger] g.adj@[u]@[j]).cost < INF ==> dist[g.adj@[u]@[j].node as int]
                <= dist[u] + g.adj@[u]@[j].cost,
        forall|u: int, w: int|
            0 <= u < dist.len() && 0 <= w < dist.len() && visited[u] && !visited[w] ==> dist[u]
                <= dist[w],
{
    assert forall|u: int, j: int|
        0 <= u < dist.len() && #[trigger] visited[u] && 0 <= j < g.adj@[u]@.len() && dist[u] + (
        #[trigger] g.adj@[u]@[j]).cost < INF implies dist[g.adj@[u]@[j].node as int] <= dist[u]
        + g.adj@[u]@[j].cost by {
        if u == bi {
            assert(dist[u] == best_d);
        }
    }
    assert forall|u: int, w: int|
        0 <= u < dist.len() && 0 <= w < dist.len() && visited[u] && !visited[w] implies dist[u]
        <= dist[w] by {
        assert(dist[u] <= best_d);
        assert(dist[w] >= best_d);
    }
}

/// When every unvisited node is unreachable, the fixed point over the
/// visited nodes is the fixed point over the whole graph.
proof fn lemma_break_no_tense(g: Graph, dist: Seq<u64>, visited: Seq<bool>)
    requires
        dist.len() == visited.len(),
        forall|w: int| 0 <= w < dist.len() && !(#[trigger] visited[w]) ==> dist[w] >= INF,
        forall|u: int, j: int|
            0 <= u < dist.len() && #[trigger] visited[u] && 0 <= j < g.adj@[u]@.len() && dist[u]
                + (#[trigger] g.adj@[u]@[j]).cost < INF ==> dist[g.adj@[u]@[j].node as int]
                <= dist[u] + g.adj@[u]@[j].cost,
    ensures
        no_tense_adj(g, dist),
{
    assert forall|u: int, j: int|
        0 <= u < dist.len() && 0 <= j < g.adj@[u]@.len() && dist[u] < INF && dist[u] + (
        #[trigger] g.adj@[u]@[j]).cost < INF implies dist[g.adj@[u]@[j].node as int] <= dist[u]
        + g.adj@[u]@[j].cost by {
        assert(visited[u]);
    }
}

impl Graph {
    /// Dijkstra's algorithm from `start` over a dense graph: the result
    /// holds, for every node, the least cost of a walk from `start`, with
    /// `INF` for the unreachable.
    #[verifier::rlimit(100)]
    pub fn dijkstra_all(&self, start: i64) -> (dist: Vec<u64>)
        requires
            self.wf(),
            self.closed(),
            self.dense(),
            self@.dom().contains(start),
        ensures
            dijkstra_post(*self, start, dist@),
            dist@.len() == self.node_count(),
    {
        let g = self;
        proof {
            reveal(dijkstra_post);
            lemma_dense_bounds(*g, start);
        }
        let n = g.keys.len();
        let mut dist: Vec<u64> = Vec::new();
        let mut visited: Vec<bool> = Vec::new();
        let mut i: usize = 0;
        while i < n
            invariant
                i <= n,
                dist@.len() == i,
                visited@.len() == i,
                forall|k: int| 0 <= k < i ==> dist@[k] == INF,
                forall|k: int| 0 <= k < i ==> !visited@[k],
            decreases n - i,
        {
            dist.push(INF);
            visited.push(false);
            i += 1;
        }
        dist.set(start as usize, 0);
        proof {
            let p0 = seq![start];
            assert(connects(*g, p0, start, start) && path_cost(*g, p0) == 0) by {
                assert(p0[0] == start && p0.len() == 1);
            }
            assert forall|v: int| 0 <= v < dist@.len() && #[trigger] dist@[v] < INF implies exists|
                p: Seq<i64>,
            | connects(*g, p, start, v as i64) && path_cost(*g, p) == dist@[v] by {
                assert(v == start);
                assert(connects(*g, p0, start, v as i64) && path_cost(*g, p0) == dist@[v]);
            }
        }
        proof {
            lemma_count_true_bounds(visited@);
        }
        loop
            invariant
                n == g.keys@.len(),
                0 <= count_true(visited@) <= n,
                g.wf(),
                g.closed(),
                g.dense(),
                g@.dom().contains(start),
                0 <= start < n,
                dist@.len() == n,
                visited@.len() == n,
                dist@[start as int] == 0,
                forall|v: int|
                    0 <= v < n && #[trigger] dist@[v] < INF ==> exists|p: Seq<i64>|
                        connects(*g, p, start, v as i64) && path_cost(*g, p) == dist@[v],
                forall|u: int, w: int|
                    0 <= u < n && 0 <= w < n && visited@[u] && !visited@[w] ==> dist@[u]
                        <= dist@[w],
                forall|u: int| 0 <= u < n && #[trigger] visited@[u] ==> dist@[u] < INF,
                forall|u: int, j: int|
                    0 <= u < n && #[trigger] visited@[u] && 0 <= j < g.adj@[u]@.len() && dist@[u]
                        + (#[trigger] g.adj@[u]@[j]).cost < INF ==> dist@[g.adj@[u]@[j].node
                        as int] <= dist@[u] + g.adj@[u]@[j].cost,
            ensures
                dist@.len() == n,
                dist@[start as int] == 0,
                forall|v: int|
                    0 <= v < n && #[trigger] dist@[v] < INF ==> exists|p: Seq<i64>|
                        connects(*g, p, start, v as i64) && path_cost(*g, p) == dist@[v],
                no_tense_adj(*g, dist@),
            decreases n - count_true(visited@),
        {
            // Pick the unvisited node with the least tentative distance.
            let mut best: usize = n;
            let mut best_d: u64 = INF;
            let mut s: usize = 0;
            while s < n
                invariant
                    s <= n,
                    n == dist@.len(),
                    n == visited@.len(),
                    best <= n,
                    best < n ==> !visited@[best as int] && dist@[best as int] == best_d && best_d
                        < INF,
                    best == n ==> best_d == INF,
                    forall|k: int| 0 <= k < s && !visited@[k] ==> dist@[k] >= best_d,
                decreases n - s,
            {
                if !visited[s] && dist[s] < best_d {
                    best = s;
                    best_d = dist[s];
                }
                s += 1;
            }
            if best == n {
                proof {
                    lemma_break_no_tense(*g, dist@, visited@);
                }
                break ;
            }
            let ghost vis0 = visited@;
            visited.set(best, true);
            proof {
                lemma_count_true_bounds(vis0);
                lemma_count_true_update(vis0, best as int);
            }
            // Relax every edge leaving the chosen node.
            let bi = best;
            let m = g.adj[bi].len();
            let mut x: usize = 0;
            while x < m
                invariant
                    x <= m,
                    n == g.keys@.len(),
                    g.wf(),
                    g.closed(),
                    g.dense(),
                    g@.dom().contains(start),
                    0 <= start < n,
                    bi < n,
                    m == g.adj@[bi as int]@.len(),
                    dist@.len() == n,
                    visited@.len() == n,
                    visited@[bi as int],
                    best_d < INF,
                    dist@[bi as int] == best_d,
                    dist@[start as int] == 0,
                    count_true(visited@) == count_true(vis0) + 1,
                    forall|v: int|
                        0 <= v < n && #[trigger] dist@[v] < INF ==> exists|p: Seq<i64>|
                            connects(*g, p, start, v as i64) && path_cost(*g, p) == dist@[v],
                    forall|u: int| 0 <= u < n && #[trigger] visited@[u] ==> dist@[u] <= best_d,
                    forall|w: int| 0 <= w < n && !visited@[w] ==> dist@[w] >= best_d,
                    forall|u: int| 0 <= u < n && #[trigger] visited@[u] ==> dist@[u] < INF,
                    forall|u: int, j: int|
                        0 <= u < n && #[trigger] visited@[u] && u != bi && 0 <= j < g.adj@[
                            u
                        ]@.len() && dist@[u] + (#[trigger] g.adj@[u]@[j]).cost < INF ==> dist@[
                            g.adj@[u]@[j].node as int
                        ] <= dist@[u] + g.adj@[u]@[j].cost,
                    forall|j: int|
                        0 <= j < x && best_d + (#[trigger] g.adj@[bi as int]@[j]).cost < INF
                            ==> dist@[g.adj@[bi as int]@[j].node as int] <= best_d + g.adj@[
                            bi as int
                        ]@[j].cost,
                decreases m - x,
            {
                let e = g.adj[bi][x];
                proof {
                    lemma_dense_view(*g);
                    assert(g.adj@[bi as int]@[x as int] == e);
                    assert(0 <= e.node < n);
                }
                let vtx = e.node as usize;
                let ghost d0 = dist@;
                if (e.cost as u64) < INF - best_d {
                    let nd = best_d + e.cost as u64;
                    if nd < dist[vtx] {
                        proof {
                            // Never a visited node: its distance is already
                            // at most best_d.
                            if visited@[vtx as int] {
                                assert(dist@[vtx as int] <= best_d);
                                assert(false);
                            }
                            // A walk reaching the new distance.
                            let bu = bi as i64;
                            assert(g@[bu] == g.adj@[bi as int]@);
                            lemma_dest_unique(g.adj@[bi as int]@, x as int);
                            assert(has_dest(g@[bu], e.node));
                            assert(g.has_arc(bu, e.node));
                            assert(g.arc_cost(bu, e.node) == e.cost);
                            let p = choose|p: Seq<i64>|
                                connects(*g, p, start, bu) && path_cost(*g, p) == dist@[bi as int];
                            assert(p[p.len() - 1] == bu);
                            lemma_path_extend(*g, p, e.node);
                        }
                        dist.set(vtx, nd);
                        proof {
                            let bu = bi as i64;
                            let p = choose|p: Seq<i64>|
                                connects(*g, p, start, bu) && path_cost(*g, p) == d0[bi as int];
                            let q = p.push(e.node);
                            assert(connects(*g, q, start, e.node)) by {
                                assert(q[0] == p[0] && q[q.len() - 1] == e.node);
                            }
                            assert(path_cost(*g, q) == d0[bi as int] + e.cost);
                            assert(!visited@[vtx as int]);
                            assert(vtx as int != bi as int);
                            assert(vtx as int != start) by {
                                if vtx as int == start {
                                    assert(d0[start as int] == 0);
                                }
                            };
                            assert((e.node as int) == vtx as int);
                            assert forall|v: int|
                                0 <= v < n && #[trigger] dist@[v] < INF implies exists|
                                p2: Seq<i64>,
                            | connects(*g, p2, start, v as i64) && path_cost(*g, p2)
                                == dist@[v] by {
                                if v == vtx as int {
                                    assert((v as i64) == e.node);
                                    assert(connects(*g, q, start, v as i64) && path_cost(*g, q)
                                        == dist@[v]);
                                } else {
                                    assert(d0[v] == dist@[v]);
                                }
                            }
                            assert forall|w: int|
                                0 <= w < n && !visited@[w] implies dist@[w] >= best_d by {
                                if w != vtx as int {
                                    assert(dist@[w] == d0[w]);
                                }
                            }
                            assert forall|u: int|
                                0 <= u < n && #[trigger] visited@[u] implies dist@[u] <= best_d
                                    && dist@[u] < INF by {
                                assert(u != vtx as int);
                                assert(dist@[u] == d0[u]);
                            }
                            assert(dist@[bi as int] == best_d);
                            assert(dist@[start as int] == 0);
                            assert forall|u: int, j: int|
                                0 <= u < n && #[trigger] visited@[u] && u != bi && 0 <= j < g.adj@[
                                    u
                                ]@.len() && dist@[u] + (#[trigger] g.adj@[u]@[j]).cost
                                    < INF implies dist@[g.adj@[u]@[j].node as int] <= dist@[u]
                                + g.adj@[u]@[j].cost by {
                                assert(u != vtx as int);
                                assert(dist@[u] == d0[u]);
                                let dest = g.adj@[u]@[j].node as int;
                                assert(d0[dest] <= d0[u] + g.adj@[u]@[j].cost);
                                if dest == vtx as int {
                                    assert(dist@[dest] == nd);
                                } else {
                                    assert(dist@[dest] == d0[dest]);
                                }
                            }
                            assert forall|j: int|
                                0 <= j < x + 1 && best_d + (#[trigger] g.adj@[bi as int]@[j]).cost
                                    < INF implies dist@[g.adj@[bi as int]@[j].node as int] <= best_d
                                + g.adj@[bi as int]@[j].cost by {
                                let dest = g.adj@[bi as int]@[j].node as int;
                                if j == x {
                                    assert(g.adj@[bi as int]@[j] == e);
                                    assert(dest == vtx as int);
                                    assert(dist@[dest] == nd);
                                } else {
                                    assert(d0[dest] <= best_d + g.adj@[bi as int]@[j].cost);
                                    if dest == vtx as int {
                                        assert(dist@[dest] == nd && nd < d0[dest]);
                                    } else {
                                        assert(dist@[dest] == d0[dest]);
                                    }
                                }
                            }
                        }
                    } else {
                        proof {
                            assert forall|j: int|
                                0 <= j < x + 1 && best_d + (#[trigger] g.adj@[bi as int]@[j]).cost
                                    < INF implies dist@[g.adj@[bi as int]@[j].node as int] <= best_d
                                + g.adj@[bi as int]@[j].cost by {
                                if j == x {
                                    assert(g.adj@[bi as int]@[j] == e);
                                    assert(dist@[vtx as int] <= nd);
                                }
                            }
                        }
                    }
                } else {
                    proof {
                        assert forall|j: int|
                            0 <= j < x + 1 && best_d + (#[trigger] g.adj@[bi as int]@[j]).cost
                                < INF implies dist@[g.adj@[bi as int]@[j].node as int] <= best_d
                            + g.adj@[bi as int]@[j].cost by {
                            if j == x {
                                assert(g.adj@[bi as int]@[j] == e);
                                assert(e.cost as u64 >= INF - best_d);
                                assert(false);
                            }
                        }
                    }
                }
                x += 1;
            }
            proof {
                lemma_relax_exit(*g, dist@, visited@, bi as int, best_d);
                lemma_count_true_bounds(visited@);
            }
        }
        proof {
            lemma_dense_view(*g);
            assert forall|u: int, j: int|
                0 <= u < n && 0 <= j < g@[u as i64].len() && dist@[u] < INF && dist@[u] + (
                #[trigger] g@[u as i64][j]).cost < INF implies dist@[g@[u as i64][j].node as int]
                <= dist@[u] + g@[u as i64][j].cost by {
                assert(g@[u as i64] == g.adj@[u]@);
            }
        }
        dist
    }
}


// ---------------------------------------------------------------------------
// Edge domination: minimization cannot undercut the original distances
// ---------------------------------------------------------------------------

/// Every edge of `g` is matched in `base` by a walk of at most its cost;
/// an edge whose cost saturated at `COST_MAX` is exempt.  This is the
/// invariant that makes contraction safe: a new shortcut never claims to
/// be cheaper than what the original graph already offered.
pub open spec fn edge_dominated(base: Graph, g: Graph) -> bool {
    forall|x: i64, y: i64|
        #[trigger] g.has_arc(x, y) ==> g.arc_cost(x, y) == COST_MAX || (exists|p: Seq<i64>|
            connects(base, p, x, y) && path_cost(base, p) <= g.arc_cost(x, y))
}

/// A walk's cost is never negative.
pub proof fn lemma_path_cost_nonneg(g: Graph, p: Seq<i64>)
    ensures
        path_cost(g, p) >= 0,
    decreases p.len(),
{
    if p.len() > 1 {
        lemma_path_cost_nonneg(g, p.drop_last());
    }
}

/// The two-node walk along an edge costs exactly that edge.
pub proof fn lemma_one_hop(g: Graph, a: i64, b: i64)
    requires
        g.has_arc(a, b),
    ensures
        connects(g, seq![a, b], a, b),
        path_cost(g, seq![a, b]) == g.arc_cost(a, b),
{
    let p = seq![a, b];
    assert(p.drop_last() =~= seq![a]);
    assert(p[0] == a && p[1] == b);
    assert(is_path(g, p)) by {
        assert forall|i: int| 0 <= i < p.len() - 1 implies g.has_arc(#[trigger] p[i], p[i + 1]) by {
            assert(i == 0);
        }
    }
    assert(path_cost(g, p.drop_last()) == 0);
    assert(path_cost(g, p) == path_cost(g, p.drop_last()) + g.arc_cost(p[p.len() - 2], p[p.len()
        - 1]));
}

/// The three-node walk across a contracted node costs the sum of its legs.
pub proof fn lemma_two_hop(g: Graph, a: i64, b: i64, c: i64)
    requires
        g.has_arc(a, b),
        g.has_arc(b, c),
    ensures
        connects(g, seq![a, b, c], a, c),
        path_cost(g, seq![a, b, c]) == g.arc_cost(a, b) + g.arc_cost(b, c),
{
    let p = seq![a, b, c];
    assert(p.drop_last() =~= seq![a, b]);
    lemma_one_hop(g, a, b);
    assert(p[0] == a && p[1] == b && p[2] == c);
    assert(is_path(g, p)) by {
        assert forall|i: int| 0 <= i < p.len() - 1 implies g.has_arc(#[trigger] p[i], p[i + 1]) by {
            assert(i == 0 || i == 1);
        }
    }
    assert(path_cost(g, p) == path_cost(g, p.drop_last()) + g.arc_cost(b, c));
}

/// Joining a walk to `y` and a walk from `y` gives a walk whose cost is
/// the sum of the two.
pub proof fn lemma_path_concat(g: Graph, p1: Seq<i64>, p2: Seq<i64>, x: i64, y: i64, z: i64)
    requires
        connects(g, p1, x, y),
        connects(g, p2, y, z),
    ensures
        connects(g, p1 + p2.drop_first(), x, z),
        path_cost(g, p1 + p2.drop_first()) == path_cost(g, p1) + path_cost(g, p2),
    decreases p2.len(),
{
    let q = p1 + p2.drop_first();
    if p2.len() == 1 {
        assert(y == z);
        assert(q =~= p1);
    } else {
        let p2h = p2.drop_last();
        let w = p2[p2.len() - 2];
        assert(connects(g, p2h, y, w)) by {
            assert(p2h[0] == p2[0]);
            assert(p2h[p2h.len() - 1] == w);
            assert forall|i: int| 0 <= i < p2h.len() - 1 implies g.has_arc(
                #[trigger] p2h[i],
                p2h[i + 1],
            ) by {
                assert(p2h[i] == p2[i] && p2h[i + 1] == p2[i + 1]);
            }
        }
        assert(g.has_arc(w, z)) by {
            assert(g.has_arc(p2[p2.len() - 2], p2[p2.len() - 1]));
        }
        lemma_path_concat(g, p1, p2h, x, y, w);
        let qh = p1 + p2h.drop_first();
        assert(q =~= qh.push(z)) by {
            assert(q.len() == qh.len() + 1);
            assert forall|i: int| 0 <= i < q.len() implies q[i] == qh.push(z)[i] by {
                if i < p1.len() {
                } else if i < q.len() - 1 {
                    assert(q[i] == p2.drop_first()[i - p1.len()]);
                    assert(qh.push(z)[i] == p2h.drop_first()[i - p1.len()]);
                    assert(p2.drop_first()[i - p1.len()] == p2[i - p1.len() + 1]);
                    assert(p2h.drop_first()[i - p1.len()] == p2h[i - p1.len() + 1]);
                } else {
                    assert(q[i] == p2.drop_first()[p2.len() - 2]);
                    assert(p2.drop_first()[p2.len() - 2] == p2[p2.len() - 1]);
                }
            }
        }
        assert(qh[qh.len() - 1] == w);
        lemma_path_extend(g, qh, z);
        assert(path_cost(g, q) == path_cost(g, qh) + g.arc_cost(w, z));
        assert(path_cost(g, p2) == path_cost(g, p2h) + g.arc_cost(w, z)) by {
            assert(p2.drop_last() == p2h);
            assert(p2[p2.len() - 2] == w && p2[p2.len() - 1] == z);
        }
    }
}

/// Through a dominated graph, every walk is matched in the base graph by a
/// walk of at most its cost, unless its cost has reached `COST_MAX`.
pub proof fn lemma_dominated_path(base: Graph, g: Graph, p: Seq<i64>, x: i64, y: i64)
    requires
        edge_dominated(base, g),
        connects(g, p, x, y),
    ensures
        path_cost(g, p) >= COST_MAX || (exists|q: Seq<i64>|
            connects(base, q, x, y) && path_cost(base, q) <= path_cost(g, p)),
    decreases p.len(),
{
    if p.len() == 1 {
        assert(x == y);
        let q = seq![x];
        assert(connects(base, q, x, y) && path_cost(base, q) <= path_cost(g, p)) by {
            assert(q[0] == x && q.len() == 1);
            lemma_path_cost_nonneg(g, p);
        }
    } else {
        let ph = p.drop_last();
        let w = p[p.len() - 2];
        assert(connects(g, ph, x, w)) by {
            assert(ph[0] == p[0]);
            assert(ph[ph.len() - 1] == w);
            assert forall|i: int| 0 <= i < ph.len() - 1 implies g.has_arc(
                #[trigger] ph[i],
                ph[i + 1],
            ) by {
                assert(ph[i] == p[i] && ph[i + 1] == p[i + 1]);
            }
        }
        assert(g.has_arc(w, y)) by {
            assert(g.has_arc(p[p.len() - 2], p[p.len() - 1]));
        }
        let c = g.arc_cost(w, y);
        assert(path_cost(g, p) == path_cost(g, ph) + c) by {
            assert(p.drop_last() == ph);
        }
        lemma_dominated_path(base, g, ph, x, w);
        lemma_path_cost_nonneg(g, ph);
        if path_cost(g, ph) >= COST_MAX {
            assert(path_cost(g, p) >= COST_MAX);
        } else if c == COST_MAX {
            assert(path_cost(g, p) >= COST_MAX);
        } else {
            let qh = choose|qh: Seq<i64>|
                connects(base, qh, x, w) && path_cost(base, qh) <= path_cost(g, ph);
            let r = choose|r: Seq<i64>|
                connects(base, r, w, y) && path_cost(base, r) <= g.arc_cost(w, y);
            lemma_path_concat(base, qh, r, x, w, y);
            assert(connects(base, qh + r.drop_first(), x, y));
            assert(path_cost(base, qh + r.drop_first()) <= path_cost(g, p));
        }
    }
}

/// A graph whose edges all occur in `base` with the same cost is dominated.
pub proof fn lemma_dominated_of_subedges(base: Graph, g: Graph)
    requires
        forall|x: i64, y: i64|
            #[trigger] g.has_arc(x, y) ==> base.has_arc(x, y) && g.arc_cost(x, y)
                == base.arc_cost(x, y),
    ensures
        edge_dominated(base, g),
{
    assert forall|x: i64, y: i64| #[trigger] g.has_arc(x, y) implies g.arc_cost(x, y) == COST_MAX
        || (exists|p: Seq<i64>|
        connects(base, p, x, y) && path_cost(base, p) <= g.arc_cost(x, y)) by {
        lemma_one_hop(base, x, y);
        assert(connects(base, seq![x, y], x, y) && path_cost(base, seq![x, y]) <= g.arc_cost(
            x,
            y,
        ));
    }
}

/// Domination is reflexive.
pub proof fn lemma_dominated_refl(g: Graph)
    ensures
        edge_dominated(g, g),
{
    lemma_dominated_of_subedges(g, g);
}

/// Domination composes.
pub proof fn lemma_dominated_trans(g0: Graph, g1: Graph, g2: Graph)
    requires
        edge_dominated(g0, g1),
        edge_dominated(g1, g2),
    ensures
        edge_dominated(g0, g2),
{
    assert forall|x: i64, y: i64| #[trigger] g2.has_arc(x, y) implies g2.arc_cost(x, y) == COST_MAX
        || (exists|p: Seq<i64>|
        connects(g0, p, x, y) && path_cost(g0, p) <= g2.arc_cost(x, y)) by {
        if g2.arc_cost(x, y) != COST_MAX {
            let p = choose|p: Seq<i64>|
                connects(g1, p, x, y) && path_cost(g1, p) <= g2.arc_cost(x, y);
            lemma_dominated_path(g0, g1, p, x, y);
            if path_cost(g1, p) >= COST_MAX {
                assert(g2.arc_cost(x, y) >= COST_MAX);
            } else {
                let q = choose|q: Seq<i64>|
                    connects(g0, q, x, y) && path_cost(g0, q) <= path_cost(g1, p);
            }
        }
    }
}

// ---------------------------------------------------------------------------
// Landmarks
// ---------------------------------------------------------------------------

/// A landmark: a node together with its table of distances to every node
/// (`distances`, on the forward graph) and from every node (`bi_distances`,
/// computed on the reverse graph).
pub struct Landmark {
    pub node_id: i64,
    pub distances: Vec<u64>,
    pub bi_distances: Vec<u64>,
}

/// Both tables of the landmark are exactly the shortest-path distances
/// from its node, on the forward and on the reverse graph.
pub open spec fn landmark_wf(g: Graph, rev: Graph, lm: Landmark) -> bool {
    &&& g@.dom().contains(lm.node_id)
    &&& lm.distances@.len() == g.node_count()
    &&& lm.bi_distances@.len() == rev.node_count()
    &&& dijkstra_post(g, lm.node_id, lm.distances@)
    &&& dijkstra_post(rev, lm.node_id, lm.bi_distances@)
}

/// The least forward distance from any of the landmarks to node `v`.
pub open spec fn lm_min_dist(lms: Seq<Landmark>, v: int) -> u64
    decreases lms.len(),
{
    if lms.len() == 0 {
        INF
    } else {
        let rest = lm_min_dist(lms.drop_last(), v);
        if lms.last().distances@[v] < rest {
            lms.last().distances@[v]
        } else {
            rest
        }
    }
}

/// `v` could serve as the next landmark: it is reachable from the current
/// ones but not one of them (farther than zero, nearer than infinity).
pub open spec fn is_candidate(lms: Seq<Landmark>, v: int) -> bool {
    0 < lm_min_dist(lms, v) < INF
}

/// `v` is the next landmark that farthest-point sampling chooses among
/// `count` nodes: a candidate at maximal distance from the current
/// landmarks, the one with the smallest id on ties.
pub open spec fn is_farthest_pick(lms: Seq<Landmark>, count: int, v: int) -> bool {
    &&& 0 <= v < count
    &&& is_candidate(lms, v)
    &&& forall|w: int|
        0 <= w < count && #[trigger] is_candidate(lms, w) ==> lm_min_dist(lms, w) <= lm_min_dist(
            lms,
            v,
        )
    &&& forall|w: int|
        0 <= w < v && #[trigger] is_candidate(lms, w) ==> lm_min_dist(lms, w) < lm_min_dist(
            lms,
            v,
        )
}

/// A landmark's stored table is the table that single-source shortest-path
/// search produces for its node: any table meeting the search's guarantee
/// agrees with it entry by entry.
pub proof fn lemma_landmark_table_is_dijkstra(g: Graph, rev: Graph, lm: Landmark, d: Seq<u64>)
    requires
        g.wf(),
        g.closed(),
        g.dense(),
        g@.dom().contains(lm.node_id),
        landmark_wf(g, rev, lm),
        dijkstra_post(g, lm.node_id, d),
    ensures
        lm.distances@ == d,
{
    lemma_dijkstra_post_unique(g, lm.node_id, lm.distances@, d);
}

/// What farthest-point sampling promises of its pick: at most `n`
/// landmarks with exact tables, the lowest id first, each later one the
/// farthest remaining candidate (lowest id on ties), stopping early only
/// when no candidate is left.
pub open spec fn farthest_selection(g: Graph, rev: Graph, n: u32, lms: Seq<Landmark>) -> bool {
    &&& lms.len() <= n
    &&& forall|i: int| 0 <= i < lms.len() ==> landmark_wf(g, rev, #[trigger] lms[i])
    &&& (n > 0 && g.node_count() >= 1 ==> lms.len() >= 1 && lms[0].node_id == 0)
    &&& forall|i: int|
        1 <= i < lms.len() ==> is_farthest_pick(
            lms.take(i),
            g.node_count() as int,
            (#[trigger] lms[i]).node_id as int,
        )
    &&& (lms.len() < n ==> forall|v: int| 0 <= v < g.node_count() ==> !is_candidate(lms, v))
}

impl Graph {
    /// Landmarks at the `n` lowest node ids, with their distance tables.
    pub fn random_landmarks(&self, bi_graph: &Graph, n: u32) -> (r: Vec<Landmark>)
        requires
            self.wf(),
            self.closed(),
            self.dense(),
            bi_graph.wf(),
            bi_graph.closed(),
            bi_graph.dense(),
            bi_graph.node_count() == self.node_count(),
            n as nat <= self.node_count(),
        ensures
            r@.len() == n,
            forall|i: int| 0 <= i < n ==> (#[trigger] r@[i]).node_id == i,
            forall|i: int| 0 <= i < n ==> landmark_wf(*self, *bi_graph, #[trigger] r@[i]),
    {
        let mut landmarks: Vec<Landmark> = Vec::new();
        let m = n as usize;
        let mut i: usize = 0;
        while i < m
            invariant
                i <= m,
                m == n,
                self.wf(),
                self.closed(),
                self.dense(),
                bi_graph.wf(),
                bi_graph.closed(),
                bi_graph.dense(),
                bi_graph.node_count() == self.node_count(),
                m <= self.node_count(),
                landmarks@.len() == i,
                forall|k: int| 0 <= k < i ==> (#[trigger] landmarks@[k]).node_id == k,
                forall|k: int|
                    0 <= k < i ==> landmark_wf(*self, *bi_graph, #[trigger] landmarks@[k]),
            decreases m - i,
        {
            let current = self.key_at(i);
            proof {
                assert(current == i as i64);
                assert(bi_graph.keys@[i as int] == i);
                assert(bi_graph.keys@.contains(current));
            }
            let distances = self.dijkstra_all(current);
            let bi_distances = bi_graph.dijkstra_all(current);
            landmarks.push(Landmark { node_id: current, distances, bi_distances });
            i += 1;
        }
        landmarks
    }

    /// Farthest-point sampling of up to `n` landmarks: the node with the
    /// lowest id first, then repeatedly the node farthest from all chosen
    /// landmarks (smallest id on ties), stopping early when no reachable
    /// unchosen node is left.
    pub fn farthest_landmarks(&self, bi_graph: &Graph, n: u32) -> (r: Vec<Landmark>)
        requires
            self.wf(),
            self.closed(),
            self.dense(),
            bi_graph.wf(),
            bi_graph.closed(),
            bi_graph.dense(),
            bi_graph.node_count() == self.node_count(),
            self.node_count() >= 1,
        ensures
            r@.len() <= n,
            forall|i: int| 0 <= i < r@.len() ==> landmark_wf(*self, *bi_graph, #[trigger] r@[i]),
            n > 0 ==> r@.len() >= 1 && r@[0].node_id == 0,
            forall|i: int|
                1 <= i < r@.len() ==> is_farthest_pick(
                    r@.take(i),
                    self.node_count() as int,
                    (#[trigger] r@[i]).node_id as int,
                ),
            r@.len() < n ==> forall|v: int|
                0 <= v < self.node_count() ==> !is_candidate(r@, v),
            farthest_selection(*self, *bi_graph, n, r@),
    {
        let mut landmarks: Vec<Landmark> = Vec::new();
        if n == 0 {
            return landmarks;
        }
        let nn = self.keys.len();
        let mut current = self.key_at(0);
        proof {
            assert(current == 0);
        }
        let m = n as usize;
        loop
            invariant_except_break
                landmarks@.len() < m,
                landmarks@.len() >= 1 ==> is_farthest_pick(
                    landmarks@,
                    nn as int,
                    current as int,
                ),
            invariant
                m == n,
                m >= 1,
                nn == self.node_count(),
                nn >= 1,
                self.wf(),
                self.closed(),
                self.dense(),
                bi_graph.wf(),
                bi_graph.closed(),
                bi_graph.dense(),
                bi_graph.node_count() == self.node_count(),
                landmarks@.len() <= m,
                self@.dom().contains(current),
                landmarks@.len() == 0 ==> current == 0,
                landmarks@.len() >= 1 ==> landmarks@[0].node_id == 0,
                forall|i: int|
                    0 <= i < landmarks@.len() ==> landmark_wf(
                        *self,
                        *bi_graph,
                        #[trigger] landmarks@[i],
                    ),
                forall|i: int|
                    1 <= i < landmarks@.len() ==> is_farthest_pick(
                        landmarks@.take(i),
                        nn as int,
                        (#[trigger] landmarks@[i]).node_id as int,
                    ),
            ensures
                landmarks@.len() <= m,
                landmarks@.len() >= 1,
                landmarks@[0].node_id == 0,
                forall|i: int|
                    0 <= i < landmarks@.len() ==> landmark_wf(
                        *self,
                        *bi_graph,
                        #[trigger] landmarks@[i],
                    ),
                forall|i: int|
                    1 <= i < landmarks@.len() ==> is_farthest_pick(
                        landmarks@.take(i),
                        nn as int,
                        (#[trigger] landmarks@[i]).node_id as int,
                    ),
                landmarks@.len() < m ==> forall|v: int|
                    0 <= v < nn ==> !is_candidate(landmarks@, v),
            decreases m - landmarks@.len(),
        {
            let ghost lms0 = landmarks@;
            proof {
                lemma_dense_bounds(*self, current);
                assert(bi_graph.keys@[current as int] == current);
                assert(bi_graph.keys@.contains(current));
            }
            let distances = self.dijkstra_all(current);
            let bi_distances = bi_graph.dijkstra_all(current);
            landmarks.push(Landmark { node_id: current, distances, bi_distances });
            proof {
                assert forall|i: int|
                    1 <= i < landmarks@.len() implies is_farthest_pick(
                    landmarks@.take(i),
                    nn as int,
                    (#[trigger] landmarks@[i]).node_id as int,
                ) by {
                    assert(landmarks@.take(i) =~= lms0.take(i));
                    if i < lms0.len() {
                        assert(landmarks@[i] == lms0[i]);
                    } else {
                        assert(landmarks@[i].node_id == current);
                        assert(lms0.take(i) =~= lms0);
                    }
                }
            }
            if landmarks.len() == m {
                break ;
            }
            // Find the reachable node farthest from all landmarks chosen
            // so far; the scan order makes ties fall to the lowest id.
            let ghost lms = landmarks@;
            let mut max_dist: u64 = 0;
            let mut next_node: usize = nn;
            let mut v: usize = 0;
            while v < nn
                invariant
                    v <= nn,
                    nn == self.node_count(),
                    lms == landmarks@,
                    forall|i: int|
                        0 <= i < landmarks@.len() ==> landmark_wf(
                            *self,
                            *bi_graph,
                            #[trigger] landmarks@[i],
                        ),
                    next_node == nn || next_node < v,
                    next_node == nn ==> max_dist == 0 && (forall|w: int|
                        0 <= w < v ==> !is_candidate(lms, w)),
                    next_node < nn ==> is_candidate(lms, next_node as int) && max_dist
                        == lm_min_dist(lms, next_node as int) && 0 < max_dist < INF,
                    forall|w: int|
                        0 <= w < v && #[trigger] is_candidate(lms, w) ==> lm_min_dist(lms, w)
                            <= max_dist,
                    next_node < nn ==> forall|w: int|
                        0 <= w < next_node && #[trigger] is_candidate(lms, w) ==> lm_min_dist(
                            lms,
                            w,
                        ) < max_dist,
                decreases nn - v,
            {
                // The least distance from any chosen landmark to `v`.
                let nl = landmarks.len();
                let mut md: u64 = INF;
                let mut li: usize = 0;
                while li < nl
                    invariant
                        li <= nl,
                        nl == landmarks@.len(),
                        lms == landmarks@,
                        v < nn,
                        nn == self.node_count(),
                        forall|i: int|
                            0 <= i < landmarks@.len() ==> landmark_wf(
                                *self,
                                *bi_graph,
                                #[trigger] landmarks@[i],
                            ),
                        md == lm_min_dist(lms.take(li as int), v as int),
                    decreases nl - li,
                {
                    let lm = &landmarks[li];
                    proof {
                        assert(landmark_wf(*self, *bi_graph, landmarks@[li as int]));
                        assert(lms.take(li as int + 1).drop_last() =~= lms.take(li as int));
                        assert(lms.take(li as int + 1).last() == lms[li as int]);
                    }
                    let d = lm.distances[v];
                    if d < md {
                        md = d;
                    }
                    li += 1;
                }
                proof {
                    assert(lms.take(nl as int) =~= lms);
                }
                if md > max_dist && md < INF {
                    proof {
                        assert(is_candidate(lms, v as int));
                        assert forall|w: int|
                            0 <= w < v && #[trigger] is_candidate(lms, w) implies lm_min_dist(
                            lms,
                            w,
                        ) < md by {
                            assert(lm_min_dist(lms, w) <= max_dist);
                        }
                    }
                    max_dist = md;
                    next_node = v;
                } else {
                    proof {
                        if md == 0 || md >= INF {
                            assert(!is_candidate(lms, v as int));
                        }
                    }
                }
                v += 1;
            }
            if next_node == nn {
                proof {
                    assert forall|w: int| 0 <= w < nn implies !is_candidate(landmarks@, w) by {}
                }
                break ;
            }
            proof {
                assert(self.keys@[next_node as int] == next_node as i64);
                assert(self.keys@.contains(next_node as i64));
            }
            current = next_node as i64;
            proof {
                assert(is_farthest_pick(landmarks@, nn as int, current as int));
            }
        }
        landmarks
    }
}

/// Order the landmarks by node id, keeping exactly the same landmarks.
pub fn sort_landmarks(v: &mut Vec<Landmark>)
    ensures
        final(v)@.len() == old(v)@.len(),
        final(v)@.to_multiset() == old(v)@.to_multiset(),
        forall|i: int, j: int|
            0 <= i < j < final(v)@.len() ==> final(v)@[i].node_id <= final(v)@[j].node_id,
{
    let n = v.len();
    if n <= 1 {
        return ;
    }
    let mut i: usize = 1;
    while i < n
        invariant
            1 <= i <= n,
            v@.len() == n,
            v@.to_multiset() == old(v)@.to_multiset(),
            forall|a: int, b: int| 0 <= a < b < i ==> v@[a].node_id <= v@[b].node_id,
        decreases n - i,
    {
        let ghost pre = v@;
        let x = v.remove(i);
        proof {
            vstd::seq_lib::to_multiset_remove(pre, i as int);
        }
        let key_id = x.node_id;
        let mut pos: usize = 0;
        while pos < i && v[pos].node_id <= key_id
            invariant
                pos <= i,
                i < n,
                v@.len() == n - 1,
                v@ == pre.remove(i as int),
                forall|k: int| 0 <= k < pos ==> v@[k].node_id <= key_id,
            decreases i - pos,
        {
            pos += 1;
        }
        let ghost mid = v@;
        v.insert(pos, x);
        proof {
            vstd::seq_lib::to_multiset_insert(mid, pos as int, x);
            assert(v@.to_multiset() == pre.to_multiset()) by {
                assert(mid.to_multiset() == pre.to_multiset().remove(pre[i as int]));
                assert(pre[i as int] == x);
                assert(v@.to_multiset() == mid.to_multiset().insert(x));
                assert(pre.to_multiset().remove(x).insert(x) =~= pre.to_multiset()) by {
                    assert(pre.contains(pre[i as int]));
                    pre.to_multiset_ensures();
                }
            };
            assert forall|a: int, b: int|
                0 <= a < b < i + 1 implies v@[a].node_id <= v@[b].node_id by {
                // mid's prefix below i is pre's prefix, already sorted
                if a < pos && b < pos {
                    assert(v@[a] == mid[a] && v@[b] == mid[b]);
                    assert(mid[a] == pre[a] && mid[b] == pre[b]);
                } else if a < pos && b == pos {
                    assert(v@[a] == mid[a] && mid[a] == pre[a]);
                    assert(v@[b] == x);
                } else if a < pos && b > pos {
                    assert(v@[a] == mid[a] && mid[a] == pre[a]);
                    assert(v@[b] == mid[b - 1] && mid[b - 1] == pre[b - 1]);
                } else if a == pos && b > pos {
                    assert(v@[a] == x);
                    assert(v@[b] == mid[b - 1] && mid[b - 1] == pre[b - 1]);
                    assert(pos < i);
                    assert(mid[pos as int] == pre[pos as int]);
                    assert(mid[pos as int].node_id > key_id);
                    assert(pre[pos as int].node_id <= pre[b - 1].node_id);
                } else if a > pos {
                    assert(v@[a] == mid[a - 1] && mid[a - 1] == pre[a - 1]);
                    assert(v@[b] == mid[b - 1] && mid[b - 1] == pre[b - 1]);
                }
            }
        }
        i += 1;
    }
}

} // verus!
