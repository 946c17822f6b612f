use vstd::prelude::*;

use crate::edge::Edge;
use crate::graph::cost_at;
use crate::graph::find_cost;
use crate::graph::has_dest;
use crate::graph::lemma_dest_unique;
use crate::graph::min2;
use crate::graph::strictly_sorted_ids;
use crate::graph::symmetric;
use crate::graph::Graph;
use crate::graph::COST_MAX;
use crate::routing::connects;
use crate::routing::edge_dominated;
use crate::routing::path_cost;
use crate::routing::lemma_dominated_of_subedges;
use crate::routing::lemma_dominated_refl;
use crate::routing::lemma_dominated_trans;
use crate::routing::lemma_one_hop;
use crate::routing::lemma_two_hop;

verus! {

// ---------------------------------------------------------------------------
// Node classification
// ---------------------------------------------------------------------------

/// `v` is a node of `g` with an edge to `u`.
pub open spec fn is_in_nbr(g: Graph, v: i64, u: i64) -> bool {
    g@.dom().contains(v) && has_dest(g@[v], u)
}

pub open spec fn has_in_nbr(g: Graph, u: i64) -> bool {
    exists|v: i64| is_in_nbr(g, v, u)
}

/// `u` sits on a one-way chain `p -> u -> s` with `p != s`: exactly one
/// outgoing edge, exactly one incoming edge, and they meet different nodes.
pub open spec fn is_oneway_intermediate(g: Graph, u: i64) -> bool {
    &&& g@.dom().contains(u)
    &&& g@[u].len() == 1
    &&& has_in_nbr(g, u)
    &&& forall|p1: i64, p2: i64| is_in_nbr(g, p1, u) && is_in_nbr(g, p2, u) ==> p1 == p2
    &&& forall|p: i64| is_in_nbr(g, p, u) ==> p != g@[u][0].node
}

/// `u` sits between two nodes of a two-way road: exactly two outgoing
/// edges, and the incoming neighbors are exactly the same two nodes.
pub open spec fn is_twoway_intermediate(g: Graph, u: i64) -> bool {
    &&& g@.dom().contains(u)
    &&& g@[u].len() == 2
    &&& forall|v: i64|
        #[trigger] is_in_nbr(g, v, u) <==> (v == g@[u][0].node || v == g@[u][1].node)
}

pub open spec fn is_intermediate(g: Graph, u: i64) -> bool {
    is_oneway_intermediate(g, u) || is_twoway_intermediate(g, u)
}

/// A source nothing points at: no traffic can ever reach it.  This is
/// deliberately broader than the narrow dangling start (one outgoing edge,
/// none incoming): any out-degree qualifies, so pruning removes every
/// unreachable source.
pub open spec fn is_start_end(g: Graph, u: i64) -> bool {
    &&& g@.dom().contains(u)
    &&& g@[u].len() >= 1
    &&& !has_in_nbr(g, u)
}

/// A sink with no way out: traffic that enters can never leave.  This is
/// deliberately broader than the narrow dangling end (exactly one incoming
/// edge): any in-degree qualifies, so pruning removes every inescapable
/// sink.
pub open spec fn is_sink_end(g: Graph, u: i64) -> bool {
    &&& g@.dom().contains(u)
    &&& g@[u].len() == 0
    &&& has_in_nbr(g, u)
}

/// The dead end of a two-way stub: one neighbor, reached in both directions.
pub open spec fn is_twoway_leaf(g: Graph, u: i64) -> bool {
    &&& g@.dom().contains(u)
    &&& g@[u].len() == 1
    &&& forall|v: i64| #[trigger] is_in_nbr(g, v, u) <==> v == g@[u][0].node
}

/// An isolated node.
pub open spec fn is_dead(g: Graph, u: i64) -> bool {
    &&& g@.dom().contains(u)
    &&& g@[u].len() == 0
    &&& !has_in_nbr(g, u)
}

pub open spec fn is_end_node(g: Graph, u: i64) -> bool {
    is_start_end(g, u) || is_sink_end(g, u) || is_twoway_leaf(g, u) || is_dead(g, u)
}

/// Nothing is left for the minimizer to do.
pub open spec fn is_minimized(g: Graph, remove_ends: bool) -> bool {
    &&& forall|u: i64| !is_intermediate(g, u)
    &&& remove_ends ==> forall|u: i64| !is_end_node(g, u)
}

/// The in-neighbor lists are parallel to the graph's nodes and exact.
pub open spec fn preds_wf(g: Graph, preds: Seq<Vec<i64>>) -> bool {
    &&& preds.len() == g.keys@.len()
    &&& forall|i: int| 0 <= i < preds.len() ==> strictly_sorted_ids((#[trigger] preds[i])@)
    &&& forall|i: int, v: i64|
        0 <= i < preds.len() ==> (#[trigger] preds[i]@.contains(v) <==> is_in_nbr(
            g,
            v,
            g.keys@[i],
        ))
}


/// The one in-neighbor of a one-way intermediate.
pub open spec fn oneway_pred(g: Graph, u: i64) -> i64 {
    choose|p: i64| is_in_nbr(g, p, u)
}

/// The one out-neighbor of a one-way intermediate.
pub open spec fn oneway_succ(g: Graph, u: i64) -> i64 {
    g@[u][0].node
}

/// The cost of a contracted two-hop path: the plain sum, capped at
/// `COST_MAX`.
pub open spec fn sat_add(a: u32, b: u32) -> u32 {
    if a + b > COST_MAX {
        COST_MAX
    } else {
        (a + b) as u32
    }
}

/// `post_l` holds exactly the edges of `pre_l` except any to `dropped`,
/// with unchanged costs.
pub open spec fn edges_same_except(post_l: Seq<Edge>, pre_l: Seq<Edge>, dropped: i64) -> bool {
    &&& forall|w: i64| #[trigger] has_dest(post_l, w) <==> (has_dest(pre_l, w) && w != dropped)
    &&& forall|w: i64|
        w != dropped && #[trigger] has_dest(pre_l, w) ==> cost_at(post_l, w) == cost_at(pre_l, w)
}

/// `post_l` is `pre_l` with edges to `dropped` removed and an edge to
/// `dest` of cost `c` merged in, the cheaper edge winning on a duplicate.
pub open spec fn edges_merged(
    post_l: Seq<Edge>,
    pre_l: Seq<Edge>,
    dropped: i64,
    dest: i64,
    c: u32,
) -> bool {
    &&& forall|w: i64|
        #[trigger] has_dest(post_l, w) <==> ((has_dest(pre_l, w) && w != dropped) || w == dest)
    &&& forall|w: i64|
        w != dropped && w != dest && #[trigger] has_dest(pre_l, w) ==> cost_at(post_l, w)
            == cost_at(pre_l, w)
    &&& cost_at(post_l, dest) == (if has_dest(pre_l, dest) {
        min2(cost_at(pre_l, dest), c)
    } else {
        c
    })
}

/// Contracting the one-way intermediate `u` (spec 4.3.2): `u` and its two
/// incident edges go, its predecessor gains the direct edge to its
/// successor at the summed cost, a cheaper parallel edge wins, and every
/// other node is untouched.
pub open spec fn oneway_step(pre: Graph, post: Graph, u: i64) -> bool {
    let p = oneway_pred(pre, u);
    let s = oneway_succ(pre, u);
    let c = sat_add(cost_at(pre@[p], u), cost_at(pre@[u], s));
    &&& post.wf()
    &&& forall|v: i64| #[trigger] post@.dom().contains(v) <==> (pre@.dom().contains(v) && v != u)
    &&& forall|v: i64|
        #[trigger] post@.dom().contains(v) && v != p ==> edges_same_except(post@[v], pre@[v], u)
    &&& edges_merged(post@[p], pre@[p], u, s, c)
}

/// Contracting the two-way intermediate `u` (spec 4.3.2): `u` and its four
/// incident edges go, both neighbors gain the direct edge at the sum of
/// `u`'s outgoing legs, cheaper parallel edges win, and every other node
/// is untouched.
pub open spec fn twoway_step(pre: Graph, post: Graph, u: i64) -> bool {
    let a = pre@[u][0].node;
    let b = pre@[u][1].node;
    let c = sat_add(cost_at(pre@[u], a), cost_at(pre@[u], b));
    &&& post.wf()
    &&& forall|v: i64| #[trigger] post@.dom().contains(v) <==> (pre@.dom().contains(v) && v != u)
    &&& forall|v: i64|
        #[trigger] post@.dom().contains(v) && v != a && v != b ==> edges_same_except(
            post@[v],
            pre@[v],
            u,
        )
    &&& edges_merged(post@[a], pre@[a], u, b, c)
    &&& edges_merged(post@[b], pre@[b], u, a, c)
}

/// Deleting the node `u` outright, with every edge touching it.
pub open spec fn drop_step(pre: Graph, post: Graph, u: i64) -> bool {
    &&& post.wf()
    &&& forall|v: i64| #[trigger] post@.dom().contains(v) <==> (pre@.dom().contains(v) && v != u)
    &&& forall|v: i64|
        #[trigger] post@.dom().contains(v) ==> edges_same_except(post@[v], pre@[v], u)
}

/// What one visit of the batch processor does to node `u`, depending on
/// what `u` is at that moment: a one-way or two-way intermediate is
/// contracted, a node that has collapsed into a two-way leaf is dropped
/// with its stub edges, and anything else is left alone.
pub open spec fn contract_step(pre: Graph, post: Graph, u: i64) -> bool {
    if !pre@.dom().contains(u) {
        post == pre
    } else if is_oneway_intermediate(pre, u) {
        oneway_step(pre, post, u)
    } else if is_twoway_leaf(pre, u) {
        drop_step(pre, post, u)
    } else if is_twoway_intermediate(pre, u) {
        twoway_step(pre, post, u)
    } else {
        post == pre
    }
}

/// The batch is processed front to back: each adjacent pair of states is
/// one `contract_step` on the matching batch member.
pub open spec fn contract_chain(states: Seq<Graph>, batch: Seq<i64>) -> bool {
    &&& states.len() == batch.len() + 1
    &&& forall|k: int|
        0 <= k < batch.len() ==> contract_step(states[k], states[k + 1], #[trigger] batch[k])
}

/// The batch of one fixed-point round: exactly the intermediates of the
/// graph, in ascending order.
pub open spec fn is_intermediate_batch(g: Graph, batch: Seq<i64>) -> bool {
    &&& strictly_sorted_ids(batch)
    &&& forall|u: i64| #[trigger] batch.contains(u) <==> is_intermediate(g, u)
}

/// One round of the contraction fixed point: a nonempty batch of exactly
/// the current intermediates, processed as a `contract_chain`.
pub open spec fn contract_round(pre: Graph, post: Graph) -> bool {
    exists|batch: Seq<i64>, states: Seq<Graph>|
        is_intermediate_batch(pre, batch) && batch.len() > 0 && #[trigger] contract_chain(
            states,
            batch,
        ) && states[0] == pre && states[states.len() - 1] == post
}

/// Rounds of contraction, one after another.
pub open spec fn contract_trace(states: Seq<Graph>) -> bool {
    &&& states.len() >= 1
    &&& forall|k: int|
        0 <= k < states.len() - 1 ==> #[trigger] contract_round(states[k], states[k + 1])
}

pub open spec fn has_end_node(g: Graph) -> bool {
    exists|u: i64| is_end_node(g, u)
}

/// One pruning pass (spec 4.3.4): exactly the end-like nodes go, with
/// every edge touching them; the survivors keep their other edges and
/// costs unchanged.
pub open spec fn prune_round(pre: Graph, post: Graph) -> bool {
    &&& post.wf()
    &&& forall|v: i64|
        #[trigger] post@.dom().contains(v) <==> (pre@.dom().contains(v) && !is_end_node(pre, v))
    &&& forall|v: i64, w: i64|
        post@.dom().contains(v) ==> (#[trigger] has_dest(post@[v], w) <==> (has_dest(pre@[v], w)
            && !is_end_node(pre, w)))
    &&& forall|v: i64, w: i64|
        post@.dom().contains(v) && #[trigger] has_dest(post@[v], w) ==> cost_at(post@[v], w)
            == cost_at(pre@[v], w)
}

/// One move of the minimizer: a contraction round while intermediates
/// remain; otherwise, when pruning is on and end nodes remain, a pruning
/// pass.
pub open spec fn minimize_step(pre: Graph, post: Graph, remove_ends: bool) -> bool {
    ||| contract_round(pre, post)
    ||| (remove_ends && (forall|u: i64| !is_intermediate(pre, u)) && has_end_node(pre)
        && prune_round(pre, post))
}

/// Every adjacent pair of states is one minimizer move.
pub open spec fn minimize_trace(states: Seq<Graph>, remove_ends: bool) -> bool {
    &&& states.len() >= 1
    &&& forall|k: int|
        0 <= k < states.len() - 1 ==> #[trigger] minimize_step(states[k], states[k + 1], remove_ends)
}

/// A chain of contraction rounds is a minimizer trace for either setting.
proof fn lemma_contract_trace_steps(tr: Seq<Graph>, remove_ends: bool)
    requires
        contract_trace(tr),
    ensures
        minimize_trace(tr, remove_ends),
{
    assert forall|k: int| 0 <= k < tr.len() - 1 implies #[trigger] minimize_step(
        tr[k],
        tr[k + 1],
        remove_ends,
    ) by {
        assert(contract_round(tr[k], tr[k + 1]));
    }
}

/// Appending one round extends a chain of rounds.
proof fn lemma_contract_trace_extend(tr: Seq<Graph>, post: Graph)
    requires
        contract_trace(tr),
        contract_round(tr[tr.len() - 1], post),
    ensures
        contract_trace(tr.push(post)),
        tr.push(post)[0] == tr[0],
        tr.push(post)[tr.push(post).len() - 1] == post,
{
    let q = tr.push(post);
    assert forall|k: int| 0 <= k < q.len() - 1 implies #[trigger] contract_round(
        q[k],
        q[k + 1],
    ) by {
        if k < tr.len() - 1 {
            assert(q[k] == tr[k] && q[k + 1] == tr[k + 1]);
            assert(contract_round(tr[k], tr[k + 1]));
        } else {
            assert(q[k] == tr[tr.len() - 1] && q[k + 1] == post);
        }
    }
}

/// Appending one move extends a trace.
proof fn lemma_trace_extend(tr: Seq<Graph>, post: Graph, remove_ends: bool)
    requires
        minimize_trace(tr, remove_ends),
        minimize_step(tr[tr.len() - 1], post, remove_ends),
    ensures
        minimize_trace(tr.push(post), remove_ends),
        tr.push(post)[0] == tr[0],
        tr.push(post)[tr.push(post).len() - 1] == post,
{
    let q = tr.push(post);
    assert forall|k: int| 0 <= k < q.len() - 1 implies #[trigger] minimize_step(
        q[k],
        q[k + 1],
        remove_ends,
    ) by {
        if k < tr.len() - 1 {
            assert(q[k] == tr[k] && q[k + 1] == tr[k + 1]);
            assert(minimize_step(tr[k], tr[k + 1], remove_ends));
        } else {
            assert(q[k] == tr[tr.len() - 1] && q[k + 1] == post);
        }
    }
}

/// Traces sharing an endpoint join into one.
proof fn lemma_trace_join(t1: Seq<Graph>, t2: Seq<Graph>, remove_ends: bool)
    requires
        minimize_trace(t1, remove_ends),
        minimize_trace(t2, remove_ends),
        t1[t1.len() - 1] == t2[0],
    ensures
        minimize_trace(t1 + t2.drop_first(), remove_ends),
        (t1 + t2.drop_first())[0] == t1[0],
        (t1 + t2.drop_first()).len() == t1.len() + t2.len() - 1,
        (t1 + t2.drop_first())[(t1 + t2.drop_first()).len() - 1] == t2[t2.len() - 1],
{
    let q = t1 + t2.drop_first();
    assert(q.len() == t1.len() + t2.len() - 1);
    assert forall|k: int| 0 <= k < q.len() - 1 implies #[trigger] minimize_step(
        q[k],
        q[k + 1],
        remove_ends,
    ) by {
        if k + 1 < t1.len() {
            assert(q[k] == t1[k] && q[k + 1] == t1[k + 1]);
            assert(minimize_step(t1[k], t1[k + 1], remove_ends));
        } else if k + 1 == t1.len() {
            assert(q[k] == t1[k]);
            assert(q[k + 1] == t2.drop_first()[0]);
            assert(t2.drop_first()[0] == t2[1]);
            assert(minimize_step(t2[0], t2[1], remove_ends));
        } else {
            assert(q[k] == t2.drop_first()[k - t1.len()]);
            assert(q[k + 1] == t2.drop_first()[k + 1 - t1.len()]);
            assert(t2.drop_first()[k - t1.len()] == t2[k - t1.len() + 1]);
            assert(t2.drop_first()[k + 1 - t1.len()] == t2[k + 1 - t1.len() + 1]);
            assert(minimize_step(t2[k - t1.len() + 1], t2[k - t1.len() + 2], remove_ends));
        }
    }
    if t2.len() == 1 {
        assert(q =~= t1);
    } else {
        assert(q[q.len() - 1] == t2.drop_first()[t2.len() - 2]);
    }
}

/// Dropping nodes keeps every remaining edge as it was, so the shrunken
/// graph is dominated by the one before, and cost symmetry survives.
proof fn lemma_removal_props(pre: Graph, post: Graph, removals: Seq<i64>)
    requires
        forall|v: i64|
            #[trigger] post@.dom().contains(v) <==> (pre@.dom().contains(v)
                && !removals.contains(v)),
        forall|v: i64, w: i64|
            post@.dom().contains(v) ==> (#[trigger] has_dest(post@[v], w) <==> (has_dest(
                pre@[v],
                w,
            ) && !removals.contains(w))),
        forall|v: i64, w: i64|
            post@.dom().contains(v) && has_dest(post@[v], w) ==> cost_at(post@[v], w) == cost_at(
                pre@[v],
                w,
            ),
    ensures
        edge_dominated(pre, post),
        symmetric(pre) ==> symmetric(post),
{
    assert forall|x: i64, y: i64| #[trigger] post.has_arc(x, y) implies pre.has_arc(x, y)
        && post.arc_cost(x, y) == pre.arc_cost(x, y) by {}
    lemma_dominated_of_subedges(pre, post);
    if symmetric(pre) {
        assert forall|x: i64, y: i64| #[trigger] post.has_arc(x, y) implies post.has_arc(y, x)
            && post.arc_cost(y, x) == post.arc_cost(x, y) by {
            assert(pre.has_arc(x, y));
            assert(pre.has_arc(y, x));
            assert(post@.dom().contains(y)) by {
                assert(!removals.contains(y));
            }
            assert(has_dest(post@[y], x)) by {
                assert(!removals.contains(x));
            }
        }
    }
}

impl Graph {
    /// All nodes with an edge into `u`, in ascending order.
    pub fn in_neighbors(&self, u: i64) -> (ins: Vec<i64>)
        requires
            self.wf(),
        ensures
            strictly_sorted_ids(ins@),
            forall|v: i64| #[trigger] ins@.contains(v) <==> is_in_nbr(*self, v, u),
    {
        let n = self.keys.len();
        let mut ins: Vec<i64> = Vec::new();
        let mut i: usize = 0;
        while i < n
            invariant
                i <= n,
                n == self.keys@.len(),
                self.wf(),
                strictly_sorted_ids(ins@),
                forall|j: int, k: int| 0 <= j < ins@.len() && i <= k < n ==> ins@[j]
                    < self.keys@[k],
                forall|v: i64|
                    #[trigger] ins@.contains(v) <==> (self.ids().take(i as int).contains(v)
                        && is_in_nbr(*self, v, u)),
            decreases n - i,
        {
            let ghost pre = ins@;
            proof {
                self.lemma_view_index(i as int);
                assert(self.ids().take(i as int + 1).drop_last() =~= self.ids().take(i as int));
                assert forall|v: i64| #[trigger]
                    self.ids().take(i as int + 1).contains(v) implies (self.ids().take(
                    i as int,
                ).contains(v) || v == self.keys@[i as int]) by {
                    let k = choose|k: int|
                        0 <= k < i + 1 && #[trigger] self.ids().take(i as int + 1)[k] == v;
                    if k < i {
                        assert(self.ids().take(i as int)[k] == v);
                    }
                }
                assert forall|v: i64| #[trigger]
                    self.ids().take(i as int).contains(v) implies self.ids().take(
                    i as int + 1,
                ).contains(v) by {
                    let k = choose|k: int|
                        0 <= k < i && #[trigger] self.ids().take(i as int)[k] == v;
                    assert(self.ids().take(i as int + 1)[k] == v);
                }
            }
            if find_cost(&self.adj[i], u).is_some() {
                let w = self.keys[i];
                ins.push(w);
                proof {
                    assert(is_in_nbr(*self, w, u));
                    assert(self.ids().take(i as int + 1)[i as int] == w);
                    assert forall|v: i64| #[trigger] ins@.contains(v) implies (self.ids().take(
                        i as int + 1,
                    ).contains(v) && is_in_nbr(*self, v, u)) by {
                        let k = choose|k: int| 0 <= k < ins@.len() && ins@[k] == v;
                        if k < pre.len() {
                            assert(pre[k] == v);
                            assert(pre.contains(v));
                        }
                    }
                    assert forall|v: i64|
                        self.ids().take(i as int + 1).contains(v) && is_in_nbr(
                            *self,
                            v,
                            u,
                        ) implies #[trigger] ins@.contains(v) by {
                        if v == w {
                            assert(ins@[ins@.len() - 1] == v);
                        } else {
                            assert(self.ids().take(i as int).contains(v));
                            assert(pre.contains(v));
                            let k = choose|k: int| 0 <= k < pre.len() && pre[k] == v;
                            assert(ins@[k] == v);
                        }
                    }
                }
            } else {
                proof {
                    assert forall|v: i64|
                        self.ids().take(i as int + 1).contains(v) && is_in_nbr(
                            *self,
                            v,
                            u,
                        ) implies #[trigger] ins@.contains(v) by {
                        if v == self.keys@[i as int] {
                            assert(self@[v] == self.adj@[i as int]@);
                            assert(false);
                        } else {
                            assert(self.ids().take(i as int).contains(v));
                        }
                    }
                }
            }
            i += 1;
        }
        proof {
            assert(self.ids().take(n as int) =~= self.ids());
            assert forall|v: i64| is_in_nbr(*self, v, u) implies self.ids().contains(v) by {
                assert(self.keys@.contains(v));
            }
        }
        ins
    }

    /// For every node, the list of nodes pointing at it.
    pub fn find_nodes_pointing_to_node(&self) -> (preds: Vec<Vec<i64>>)
        requires
            self.wf(),
        ensures
            preds_wf(*self, preds@),
    {
        let n = self.keys.len();
        let mut preds: Vec<Vec<i64>> = Vec::new();
        let mut i: usize = 0;
        while i < n
            invariant
                i <= n,
                n == self.keys@.len(),
                self.wf(),
                preds@.len() == i,
                forall|j: int| 0 <= j < i ==> strictly_sorted_ids((#[trigger] preds@[j])@),
                forall|j: int, v: i64|
                    0 <= j < i ==> (#[trigger] preds@[j]@.contains(v) <==> is_in_nbr(
                        *self,
                        v,
                        self.keys@[j],
                    )),
            decreases n - i,
        {
            let u = self.keys[i];
            let ins = self.in_neighbors(u);
            preds.push(ins);
            i += 1;
        }
        preds
    }

    /// All intermediate nodes of the graph, in ascending order.
    pub fn find_intermediate_nodes(&self, preds: &Vec<Vec<i64>>) -> (inter: Vec<i64>)
        requires
            self.wf(),
            preds_wf(*self, preds@),
        ensures
            strictly_sorted_ids(inter@),
            forall|u: i64| #[trigger] inter@.contains(u) <==> is_intermediate(*self, u),
            is_intermediate_batch(*self, inter@),
    {
        let n = self.keys.len();
        let mut inter: Vec<i64> = Vec::new();
        let mut i: usize = 0;
        while i < n
            invariant
                i <= n,
                n == self.keys@.len(),
                self.wf(),
                preds_wf(*self, preds@),
                strictly_sorted_ids(inter@),
                forall|j: int, k: int| 0 <= j < inter@.len() && i <= k < n ==> inter@[j]
                    < self.keys@[k],
                forall|u: i64|
                    #[trigger] inter@.contains(u) <==> (self.ids().take(i as int).contains(u)
                        && is_intermediate(*self, u)),
            decreases n - i,
        {
            let u = self.keys[i];
            let ghost pre = inter@;
            proof {
                self.lemma_view_index(i as int);
                assert forall|v: i64| #[trigger]
                    self.ids().take(i as int + 1).contains(v) implies (self.ids().take(
                    i as int,
                ).contains(v) || v == u) by {
                    let k = choose|k: int|
                        0 <= k < i + 1 && #[trigger] self.ids().take(i as int + 1)[k] == v;
                    if k < i {
                        assert(self.ids().take(i as int)[k] == v);
                    }
                }
                assert forall|v: i64| #[trigger]
                    self.ids().take(i as int).contains(v) implies self.ids().take(
                    i as int + 1,
                ).contains(v) by {
                    let k = choose|k: int|
                        0 <= k < i && #[trigger] self.ids().take(i as int)[k] == v;
                    assert(self.ids().take(i as int + 1)[k] == v);
                }
                assert(self.ids().take(i as int + 1)[i as int] == u);
            }
            let found = self.classify_intermediate(i, &preds[i]);
            if found {
                inter.push(u);
                proof {
                    assert forall|v: i64| #[trigger] inter@.contains(v) implies (self.ids().take(
                        i as int + 1,
                    ).contains(v) && is_intermediate(*self, v)) by {
                        let k = choose|k: int| 0 <= k < inter@.len() && inter@[k] == v;
                        if k < pre.len() {
                            assert(pre[k] == v);
                            assert(pre.contains(v));
                        }
                    }
                    assert forall|v: i64|
                        self.ids().take(i as int + 1).contains(v) && is_intermediate(
                            *self,
                            v,
                        ) implies #[trigger] inter@.contains(v) by {
                        if v == u {
                            assert(inter@[inter@.len() - 1] == v);
                        } else {
                            assert(pre.contains(v));
                            let k = choose|k: int| 0 <= k < pre.len() && pre[k] == v;
                            assert(inter@[k] == v);
                        }
                    }
                }
            }
            i += 1;
        }
        proof {
            assert(self.ids().take(n as int) =~= self.ids());
            assert forall|u: i64| is_intermediate(*self, u) implies self.ids().contains(u) by {
                assert(self.keys@.contains(u));
            }
        }
        inter
    }

    /// Decide whether the node at position `i` is an intermediate, from its
    /// adjacency list and its exact in-neighbor list.
    fn classify_intermediate(&self, i: usize, ins: &Vec<i64>) -> (found: bool)
        requires
            self.wf(),
            i < self.keys@.len(),
            strictly_sorted_ids(ins@),
            forall|v: i64| #[trigger] ins@.contains(v) <==> is_in_nbr(*self, v, self.keys@[i as int]),
        ensures
            found == is_intermediate(*self, self.keys@[i as int]),
    {
        let ghost u = self.keys@[i as int];
        proof {
            self.lemma_view_index(i as int);
        }
        let outs_len = self.adj[i].len();
        let ins_len = ins.len();
        let found: bool;
        if outs_len == 1 && ins_len == 1 {
            let p = ins[0];
            let s = self.adj[i][0].node;
            found = p != s;
            proof {
                assert(ins@.contains(p)) by {
                    assert(ins@[0] == p);
                }
                assert(is_in_nbr(*self, p, u));
                if p != s {
                    assert(is_oneway_intermediate(*self, u)) by {
                        assert forall|p1: i64, p2: i64|
                            is_in_nbr(*self, p1, u) && is_in_nbr(*self, p2, u) implies p1 == p2 by {
                            assert(ins@.contains(p1));
                            assert(ins@.contains(p2));
                            let k1 = choose|k: int| 0 <= k < ins@.len() && ins@[k] == p1;
                            let k2 = choose|k: int| 0 <= k < ins@.len() && ins@[k] == p2;
                        }
                        assert forall|q: i64| is_in_nbr(*self, q, u) implies q != self@[u][0].node
                            by {
                            assert(ins@.contains(q));
                            let k = choose|k: int| 0 <= k < ins@.len() && ins@[k] == q;
                            assert(q == p);
                        }
                    }
                } else {
                    // One neighbor in each direction and they coincide: a
                    // two-way leaf, not an intermediate.
                    assert(!is_oneway_intermediate(*self, u)) by {
                        if is_oneway_intermediate(*self, u) {
                            assert(is_in_nbr(*self, p, u));
                            assert(p != self@[u][0].node);
                        }
                    }
                    assert(!is_twoway_intermediate(*self, u));
                }
            }
        } else if outs_len == 2 && ins_len == 2 {
            let p0 = ins[0];
            let p1 = ins[1];
            let s0 = self.adj[i][0].node;
            let s1 = self.adj[i][1].node;
            found = p0 == s0 && p1 == s1;
            proof {
                assert(ins@.contains(p0)) by {
                    assert(ins@[0] == p0);
                }
                assert(ins@.contains(p1)) by {
                    assert(ins@[1] == p1);
                }
                assert(p0 < p1);
                assert(s0 < s1);
                if p0 == s0 && p1 == s1 {
                    assert(is_twoway_intermediate(*self, u)) by {
                        assert forall|v: i64| #[trigger] is_in_nbr(*self, v, u) implies (v
                            == self@[u][0].node || v == self@[u][1].node) by {
                            assert(ins@.contains(v));
                            let k = choose|k: int| 0 <= k < ins@.len() && ins@[k] == v;
                            assert(k == 0 || k == 1);
                        }
                    }
                } else {
                    assert(!is_twoway_intermediate(*self, u)) by {
                        if is_twoway_intermediate(*self, u) {
                            assert(is_in_nbr(*self, p0, u));
                            assert(is_in_nbr(*self, p1, u));
                            if s0 != p0 && s0 != p1 {
                                // s0 must be an in-neighbor but is in neither slot
                                assert(is_in_nbr(*self, s0, u));
                                assert(ins@.contains(s0));
                                let k = choose|k: int| 0 <= k < ins@.len() && ins@[k] == s0;
                            }
                            if s1 != p0 && s1 != p1 {
                                assert(is_in_nbr(*self, s1, u));
                                assert(ins@.contains(s1));
                                let k = choose|k: int| 0 <= k < ins@.len() && ins@[k] == s1;
                            }
                            // {p0, p1} == {s0, s1}; both sorted, so slots agree
                            assert(p0 == s0 && p1 == s1);
                        }
                    }
                    assert(!is_oneway_intermediate(*self, u));
                }
            }
        } else {
            found = false;
            proof {
                assert(!is_oneway_intermediate(*self, u)) by {
                    if is_oneway_intermediate(*self, u) {
                        assert(outs_len == 1);
                        let p = choose|v: i64| is_in_nbr(*self, v, u);
                        assert(ins@.contains(p));
                        if ins@.len() >= 2 {
                            assert(ins@[0] != ins@[1]);
                            assert(ins@.contains(ins@[0]) && ins@.contains(ins@[1])) by {
                                assert(ins@[0] == ins@[0] && ins@[1] == ins@[1]);
                            }
                            assert(is_in_nbr(*self, ins@[0], u) && is_in_nbr(*self, ins@[1], u));
                        } else {
                            assert(ins@.len() == 1);
                        }
                    }
                }
                assert(!is_twoway_intermediate(*self, u)) by {
                    if is_twoway_intermediate(*self, u) {
                        assert(outs_len == 2);
                        assert(self@[u][0].node != self@[u][1].node);
                        assert(is_in_nbr(*self, self@[u][0].node, u));
                        assert(is_in_nbr(*self, self@[u][1].node, u));
                        assert(ins@.contains(self@[u][0].node));
                        assert(ins@.contains(self@[u][1].node));
                        let k1 = choose|k: int| 0 <= k < ins@.len() && ins@[k] == self@[u][0].node;
                        let k2 = choose|k: int| 0 <= k < ins@.len() && ins@[k] == self@[u][1].node;
                        assert(k1 != k2);
                        if ins@.len() < 2 {
                            assert(false);
                        }
                        assert(ins@.len() >= 2);
                        if ins@.len() > 2 {
                            assert(ins@[0] < ins@[1] < ins@[2]);
                            assert(forall|k: int|
                                0 <= k < ins@.len() ==> is_in_nbr(*self, #[trigger] ins@[k], u))
                                by {
                                assert forall|k: int| 0 <= k < ins@.len() implies is_in_nbr(
                                    *self,
                                    #[trigger] ins@[k],
                                    u,
                                ) by {
                                    assert(ins@.contains(ins@[k]));
                                }
                            }
                            assert(ins@[0] == self@[u][0].node || ins@[0] == self@[u][1].node);
                            assert(ins@[1] == self@[u][0].node || ins@[1] == self@[u][1].node);
                            assert(ins@[2] == self@[u][0].node || ins@[2] == self@[u][1].node);
                        }
                    }
                }
            }
        }
        found
    }

    /// Contract node `u` if it is (still) an intermediate: replace the
    /// two-hop paths through it by direct edges carrying the summed cost,
    /// keeping a cheaper pre-existing edge, then delete `u`.  A batch
    /// member that has collapsed into a two-way leaf is deleted with its
    /// stub edges; anything else is left alone.
    #[verifier::rlimit(100)]
    fn contract_node(&mut self, u: i64)
        requires
            old(self).wf(),
        ensures
            final(self).wf(),
            forall|v: i64|
                #[trigger] final(self)@.dom().contains(v) ==> old(self)@.dom().contains(v),
            old(self).closed() ==> final(self).closed(),
            final(self).node_count() <= old(self).node_count(),
            is_intermediate(*old(self), u) ==> final(self).node_count() < old(self).node_count(),
            symmetric(*old(self)) ==> symmetric(*final(self)) && edge_dominated(
                *old(self),
                *final(self),
            ),
            contract_step(*old(self), *final(self), u),
    {
        let ghost g0 = *self;
        let i = match self.lookup(u) {
            Some(i) => i,
            None => {
                proof {
                    assert(!is_intermediate(g0, u));
                    lemma_dominated_refl(g0);
                    assert(contract_step(g0, *self, u));
                }
                return ;
            },
        };
        let ins = self.in_neighbors(u);
        let outs_len = self.adj[i].len();
        proof {
            self.lemma_view_index(i as int);
            assert(self@[u] == self.adj@[i as int]@);
        }
        let mut single: Vec<i64> = Vec::new();
        single.push(u);
        proof {
            assert(single@.contains(u)) by {
                assert(single@[0] == u);
            }
            assert forall|v: i64| v != u implies !single@.contains(v) by {
                if single@.contains(v) {
                    let k = choose|k: int| 0 <= k < single@.len() && single@[k] == v;
                }
            }
        }
        if outs_len == 1 && ins.len() == 1 {
            let e = self.adj[i][0];
            let s = e.node;
            let p = ins[0];
            proof {
                assert(ins@.contains(p)) by {
                    assert(ins@[0] == p);
                }
                assert(is_in_nbr(g0, p, u));
                lemma_dest_unique(self.adj@[i as int]@, 0);
                assert(has_dest(g0@[u], s));
                assert(s != u);
                assert(p != u) by {
                    if p == u {
                        let k = choose|k: int| 0 <= k < g0@[u].len() && g0@[u][k].node == u;
                    }
                };
            }
            if p != s {
                // One-way chain p -> u -> s.
                let pi = match self.lookup(p) {
                    Some(pi) => pi,
                    None => {
                        proof {
                            assert(false);
                        }
                        return ;
                    },
                };
                let cp = match find_cost(&self.adj[pi], u) {
                    Some(cp) => cp,
                    None => {
                        proof {
                            assert(self@[p] == self.adj@[pi as int]@);
                            assert(false);
                        }
                        return ;
                    },
                };
                let sum: u64 = cp as u64 + e.cost as u64;
                let c: u32 = if sum > 0xffff_ffffu64 {
                    0xffff_ffffu32
                } else {
                    sum as u32
                };
                self.upsert_min_edge(p, Edge { node: s, cost: c });
                let ghost gmid = *self;
                proof {
                    assert(gmid@.dom() =~= g0@.dom());
                    assert(g0.closed() ==> gmid.closed()) by {
                        if g0.closed() {
                            assert forall|v: i64, w: i64|
                                gmid@.dom().contains(v) && #[trigger] has_dest(
                                    gmid@[v],
                                    w,
                                ) implies gmid@.dom().contains(w) by {
                                if v == p {
                                    assert(has_dest(g0@[p], w) || w == s);
                                } else {
                                    assert(gmid@[v] == g0@[v]);
                                }
                            }
                        }
                    };
                }
                self.remove_nodes(&single);
                proof {
                    assert(u != p);
                    assert(gmid@.dom().contains(u));
                    assert(self.node_count() < gmid.node_count());
                    // This branch's tests are exactly the one-way class.
                    assert(is_oneway_intermediate(g0, u)) by {
                        assert forall|p1: i64, p2: i64|
                            is_in_nbr(g0, p1, u) && is_in_nbr(g0, p2, u) implies p1 == p2 by {
                            assert(ins@.contains(p1));
                            assert(ins@.contains(p2));
                            let k1 = choose|k: int| 0 <= k < ins@.len() && ins@[k] == p1;
                            let k2 = choose|k: int| 0 <= k < ins@.len() && ins@[k] == p2;
                        }
                        assert forall|q: i64| is_in_nbr(g0, q, u) implies q != g0@[u][0].node by {
                            assert(ins@.contains(q));
                            let k = choose|k: int| 0 <= k < ins@.len() && ins@[k] == q;
                            assert(q == p);
                        }
                    };
                    let pp = oneway_pred(g0, u);
                    assert(is_in_nbr(g0, pp, u));
                    assert(pp == p);
                    assert(oneway_succ(g0, u) == s);
                    assert(cost_at(g0@[p], u) == cp);
                    assert(cost_at(g0@[u], s) == e.cost);
                    assert(c == sat_add(cp, e.cost));
                    // The exact effect of the contraction.
                    assert(oneway_step(g0, *self, u)) by {
                        assert forall|v: i64|
                            #[trigger] self@.dom().contains(v) && v != p implies edges_same_except(
                            self@[v],
                            g0@[v],
                            u,
                        ) by {
                            assert(gmid@[v] == g0@[v]);
                            assert forall|w: i64| w != u && #[trigger] has_dest(
                                g0@[v],
                                w,
                            ) implies cost_at(self@[v], w) == cost_at(g0@[v], w) by {
                                assert(has_dest(gmid@[v], w));
                                assert(has_dest(self@[v], w));
                            }
                        }
                        assert(edges_merged(self@[p], g0@[p], u, s, c)) by {
                            assert(self@.dom().contains(p));
                            assert forall|w: i64| #[trigger] has_dest(self@[p], w) <==> ((has_dest(
                                g0@[p],
                                w,
                            ) && w != u) || w == s) by {
                                assert(has_dest(self@[p], w) <==> (has_dest(gmid@[p], w) && w
                                    != u));
                            }
                            assert forall|w: i64|
                                w != u && w != s && #[trigger] has_dest(g0@[p], w) implies cost_at(
                                self@[p],
                                w,
                            ) == cost_at(g0@[p], w) by {
                                assert(has_dest(gmid@[p], w));
                                assert(cost_at(gmid@[p], w) == cost_at(g0@[p], w));
                                assert(has_dest(self@[p], w));
                            }
                            assert(has_dest(gmid@[p], s));
                            assert(has_dest(self@[p], s));
                            assert(cost_at(self@[p], s) == cost_at(gmid@[p], s));
                        }
                    };
                    assert(contract_step(g0, *self, u));
                    if symmetric(g0) {
                        // Impossible: with paired edges the one in-neighbor
                        // is also the one out-neighbor.
                        assert(g0.has_arc(p, u));
                        assert(g0.has_arc(u, p));
                        let k = choose|k: int| 0 <= k < g0@[u].len() && g0@[u][k].node == p;
                        assert(k == 0);
                        assert(false);
                    }
                    assert(gmid.closed() ==> self.closed()) by {
                        if gmid.closed() {
                            assert forall|v: i64, w: i64|
                                self@.dom().contains(v) && #[trigger] has_dest(
                                    self@[v],
                                    w,
                                ) implies self@.dom().contains(w) by {
                                assert(has_dest(gmid@[v], w) && !single@.contains(w));
                            }
                        }
                    };
                }
            } else {
                // In and out meet the same neighbor: a two-way leaf that
                // appeared while the batch was processed; drop it whole.
                let ghost gmid = *self;
                self.remove_nodes(&single);
                proof {
                    assert(gmid == g0);
                    lemma_removal_props(g0, *self, single@);
                    assert(!is_intermediate(g0, u)) by {
                        if is_oneway_intermediate(g0, u) {
                            assert(is_in_nbr(g0, p, u));
                            assert(p != g0@[u][0].node);
                        }
                        if is_twoway_intermediate(g0, u) {
                            assert(g0@[u].len() == 2);
                        }
                    };
                    assert(is_twoway_leaf(g0, u)) by {
                        assert forall|q: i64| #[trigger] is_in_nbr(g0, q, u) implies q == g0@[u][
                            0
                        ].node by {
                            assert(ins@.contains(q));
                            let k = choose|k: int| 0 <= k < ins@.len() && ins@[k] == q;
                        }
                        assert(is_in_nbr(g0, g0@[u][0].node, u));
                    };
                    assert(drop_step(g0, *self, u)) by {
                        assert forall|v: i64|
                            #[trigger] self@.dom().contains(v) implies edges_same_except(
                            self@[v],
                            g0@[v],
                            u,
                        ) by {
                            assert forall|w: i64| w != u && #[trigger] has_dest(
                                g0@[v],
                                w,
                            ) implies cost_at(self@[v], w) == cost_at(g0@[v], w) by {
                                assert(has_dest(self@[v], w));
                            }
                        }
                    };
                    assert(contract_step(g0, *self, u));
                    assert(gmid@.dom().contains(u));
                    assert(gmid.closed() ==> self.closed()) by {
                        if gmid.closed() {
                            assert forall|v: i64, w: i64|
                                self@.dom().contains(v) && #[trigger] has_dest(
                                    self@[v],
                                    w,
                                ) implies self@.dom().contains(w) by {
                                assert(has_dest(gmid@[v], w) && !single@.contains(w));
                            }
                        }
                    };
                }
            }
        } else if outs_len == 2 && ins.len() == 2 {
            let ea = self.adj[i][0];
            let eb = self.adj[i][1];
            let p0 = ins[0];
            let p1 = ins[1];
            proof {
                assert(ins@.contains(p0)) by {
                    assert(ins@[0] == p0);
                }
                assert(ins@.contains(p1)) by {
                    assert(ins@[1] == p1);
                }
                assert(is_in_nbr(g0, p0, u));
                assert(is_in_nbr(g0, p1, u));
                lemma_dest_unique(self.adj@[i as int]@, 0);
                lemma_dest_unique(self.adj@[i as int]@, 1);
                assert(ea.node != u && eb.node != u);
                assert(ea.node < eb.node);
            }
            if p0 == ea.node && p1 == eb.node {
                // A two-way intermediate between ea.node and eb.node.
                let sum: u64 = ea.cost as u64 + eb.cost as u64;
                let c: u32 = if sum > 0xffff_ffffu64 {
                    0xffff_ffffu32
                } else {
                    sum as u32
                };
                self.upsert_min_edge(ea.node, Edge { node: eb.node, cost: c });
                let ghost gm1 = *self;
                proof {
                    assert(gm1@.dom() =~= g0@.dom());
                    assert(gm1@.dom().contains(eb.node));
                }
                self.upsert_min_edge(eb.node, Edge { node: ea.node, cost: c });
                let ghost gm2 = *self;
                proof {
                    assert(gm2@.dom() =~= g0@.dom());
                    if symmetric(g0) {
                        let an = ea.node;
                        let bn = eb.node;
                        g0.lemma_view_index(i as int);
                        assert(g0.keys@[i as int] == u);
                        assert(g0@[u] == g0.adj@[i as int]@);
                        lemma_dest_unique(g0.adj@[i as int]@, 0);
                        lemma_dest_unique(g0.adj@[i as int]@, 1);
                        assert(g0.has_arc(u, an) && g0.arc_cost(u, an) == ea.cost);
                        assert(g0.has_arc(u, bn) && g0.arc_cost(u, bn) == eb.cost);
                        assert(g0.has_arc(an, u) && g0.arc_cost(an, u) == ea.cost);
                        assert(g0.has_arc(bn, u) && g0.arc_cost(bn, u) == eb.cost);
                        assert(gm1@[bn] == g0@[bn]);
                        assert(gm2@[an] == gm1@[an]);
                        // Every edge of the doubly-upserted graph is matched
                        // by a walk of the original one.
                        assert forall|x: i64, y: i64| #[trigger] gm2.has_arc(x, y) implies
                            gm2.arc_cost(x, y) == COST_MAX || (exists|p2: Seq<i64>|
                            connects(g0, p2, x, y) && path_cost(g0, p2) <= gm2.arc_cost(
                                x,
                                y,
                            )) by {
                            let w = gm2.arc_cost(x, y);
                            if x == bn {
                                if y == an {
                                    if has_dest(g0@[bn], an) && cost_at(g0@[bn], an) <= c {
                                        assert(w == cost_at(g0@[bn], an));
                                        assert(g0.has_arc(bn, an));
                                        lemma_one_hop(g0, bn, an);
                                        assert(connects(g0, seq![bn, an], x, y) && path_cost(
                                            g0,
                                            seq![bn, an],
                                        ) <= w);
                                    } else {
                                        assert(w == c);
                                        if c != COST_MAX {
                                            lemma_two_hop(g0, bn, u, an);
                                            assert(path_cost(g0, seq![bn, u, an]) == eb.cost
                                                + ea.cost);
                                            assert(connects(g0, seq![bn, u, an], x, y)
                                                && path_cost(g0, seq![bn, u, an]) <= w);
                                        }
                                    }
                                } else {
                                    assert(has_dest(gm1@[bn], y));
                                    assert(cost_at(gm2@[bn], y) == cost_at(gm1@[bn], y));
                                    assert(g0.has_arc(bn, y) && g0.arc_cost(bn, y) == w);
                                    lemma_one_hop(g0, bn, y);
                                    assert(connects(g0, seq![bn, y], x, y) && path_cost(
                                        g0,
                                        seq![bn, y],
                                    ) <= w);
                                }
                            } else if x == an {
                                if y == bn {
                                    if has_dest(g0@[an], bn) && cost_at(g0@[an], bn) <= c {
                                        assert(w == cost_at(g0@[an], bn));
                                        assert(g0.has_arc(an, bn));
                                        lemma_one_hop(g0, an, bn);
                                        assert(connects(g0, seq![an, bn], x, y) && path_cost(
                                            g0,
                                            seq![an, bn],
                                        ) <= w);
                                    } else {
                                        assert(w == c);
                                        if c != COST_MAX {
                                            lemma_two_hop(g0, an, u, bn);
                                            assert(path_cost(g0, seq![an, u, bn]) == ea.cost
                                                + eb.cost);
                                            assert(connects(g0, seq![an, u, bn], x, y)
                                                && path_cost(g0, seq![an, u, bn]) <= w);
                                        }
                                    }
                                } else {
                                    assert(has_dest(g0@[an], y));
                                    assert(cost_at(gm1@[an], y) == cost_at(g0@[an], y));
                                    assert(g0.has_arc(an, y) && g0.arc_cost(an, y) == w);
                                    lemma_one_hop(g0, an, y);
                                    assert(connects(g0, seq![an, y], x, y) && path_cost(
                                        g0,
                                        seq![an, y],
                                    ) <= w);
                                }
                            } else {
                                assert(gm2@[x] == gm1@[x]);
                                assert(gm1@[x] == g0@[x]);
                                assert(g0.has_arc(x, y) && g0.arc_cost(x, y) == w);
                                lemma_one_hop(g0, x, y);
                                assert(connects(g0, seq![x, y], x, y) && path_cost(
                                    g0,
                                    seq![x, y],
                                ) <= w);
                            }
                        }
                        assert(edge_dominated(g0, gm2));
                        // Cost symmetry survives the pair of upserts.
                        let aexists = has_dest(g0@[an], bn);
                        let bexists = has_dest(g0@[bn], an);
                        assert(aexists == bexists) by {
                            if aexists {
                                assert(g0.has_arc(an, bn));
                            }
                            if bexists {
                                assert(g0.has_arc(bn, an));
                            }
                        }
                        assert(cost_at(gm2@[an], bn) == cost_at(gm2@[bn], an)) by {
                            if aexists {
                                assert(g0.has_arc(an, bn));
                                assert(g0.arc_cost(bn, an) == g0.arc_cost(an, bn));
                            }
                        }
                        assert forall|x: i64, y: i64| #[trigger] gm2.has_arc(x, y) implies
                            gm2.has_arc(y, x) && gm2.arc_cost(y, x) == gm2.arc_cost(x, y) by {
                            if x == an && y == bn {
                                assert(has_dest(gm2@[bn], an));
                            } else if x == bn && y == an {
                                assert(has_dest(gm2@[an], bn));
                            } else {
                                // the edge comes unchanged from the base graph
                                if x == an {
                                    assert(has_dest(g0@[an], y));
                                    assert(cost_at(gm2@[an], y) == cost_at(g0@[an], y));
                                } else if x == bn {
                                    assert(has_dest(gm1@[bn], y));
                                    assert(cost_at(gm2@[bn], y) == cost_at(gm1@[bn], y));
                                } else {
                                    assert(gm2@[x] == gm1@[x] && gm1@[x] == g0@[x]);
                                }
                                assert(g0.has_arc(x, y) && g0.arc_cost(x, y) == gm2.arc_cost(
                                    x,
                                    y,
                                ));
                                assert(g0.has_arc(y, x));
                                // and its reverse is likewise untouched
                                if y == an {
                                    assert(x != bn);
                                    assert(has_dest(gm1@[an], x) == has_dest(g0@[an], x));
                                    assert(has_dest(g0@[an], x));
                                    assert(cost_at(gm1@[an], x) == cost_at(g0@[an], x));
                                    assert(gm2@[an] == gm1@[an]);
                                } else if y == bn {
                                    assert(x != an);
                                    assert(has_dest(gm2@[bn], x) == (has_dest(gm1@[bn], x) || x
                                        == an));
                                    assert(has_dest(g0@[bn], x));
                                    assert(cost_at(gm2@[bn], x) == cost_at(gm1@[bn], x));
                                } else {
                                    assert(gm2@[y] == gm1@[y] && gm1@[y] == g0@[y]);
                                }
                            }
                        }
                        assert(symmetric(gm2));
                    }
                    assert(g0.closed() ==> gm2.closed()) by {
                        if g0.closed() {
                            assert(has_dest(g0@[u], ea.node) && has_dest(g0@[u], eb.node));
                            assert forall|v: i64, w: i64|
                                gm2@.dom().contains(v) && #[trigger] has_dest(
                                    gm2@[v],
                                    w,
                                ) implies gm2@.dom().contains(w) by {
                                if v == eb.node {
                                    assert(has_dest(gm1@[eb.node], w) || w == ea.node);
                                    if w != ea.node {
                                        if eb.node == ea.node {
                                        } else {
                                            assert(gm1@[eb.node] == g0@[eb.node]);
                                        }
                                    }
                                } else if v == ea.node {
                                    assert(gm2@[v] == gm1@[v]);
                                    assert(has_dest(g0@[ea.node], w) || w == eb.node);
                                } else {
                                    assert(gm2@[v] == gm1@[v]);
                                    assert(gm1@[v] == g0@[v]);
                                }
                            }
                        }
                    };
                }
                self.remove_nodes(&single);
                proof {
                    assert(gm2@.dom().contains(u));
                    assert(self.node_count() < gm2.node_count());
                    // This branch's tests are exactly the two-way class.
                    assert(is_twoway_intermediate(g0, u)) by {
                        assert forall|q: i64| #[trigger] is_in_nbr(g0, q, u) implies (q == g0@[u][
                            0
                        ].node || q == g0@[u][1].node) by {
                            assert(ins@.contains(q));
                            let k = choose|k: int| 0 <= k < ins@.len() && ins@[k] == q;
                            assert(k == 0 || k == 1);
                        }
                        assert(is_in_nbr(g0, g0@[u][0].node, u));
                        assert(is_in_nbr(g0, g0@[u][1].node, u));
                    };
                    let an = ea.node;
                    let bn = eb.node;
                    assert(g0@[u][0].node == an && g0@[u][1].node == bn);
                    assert(cost_at(g0@[u], an) == ea.cost);
                    assert(cost_at(g0@[u], bn) == eb.cost);
                    assert(c == sat_add(ea.cost, eb.cost));
                    assert(gm2@[an] == gm1@[an]);
                    assert(gm1@[bn] == g0@[bn]);
                    if has_dest(g0@[an], bn) {
                        assert(cost_at(gm1@[an], bn) == min2(cost_at(g0@[an], bn), c));
                    } else {
                        assert(cost_at(gm1@[an], bn) == c);
                    }
                    if has_dest(g0@[bn], an) {
                        assert(cost_at(gm2@[bn], an) == min2(cost_at(g0@[bn], an), c));
                    } else {
                        assert(cost_at(gm2@[bn], an) == c);
                    }
                    // The exact effect of the contraction.
                    assert(twoway_step(g0, *self, u)) by {
                        assert forall|v: i64|
                            #[trigger] self@.dom().contains(v) && v != an && v
                                != bn implies edges_same_except(self@[v], g0@[v], u) by {
                            assert(gm2@[v] == gm1@[v]);
                            assert(gm1@[v] == g0@[v]);
                            assert forall|w: i64| w != u && #[trigger] has_dest(
                                g0@[v],
                                w,
                            ) implies cost_at(self@[v], w) == cost_at(g0@[v], w) by {
                                assert(has_dest(gm2@[v], w));
                                assert(has_dest(self@[v], w));
                            }
                        }
                        assert(self@.dom().contains(an) && self@.dom().contains(bn));
                        assert(edges_merged(self@[an], g0@[an], u, bn, c)) by {
                            assert forall|w: i64| #[trigger] has_dest(self@[an], w) <==> ((has_dest(
                                g0@[an],
                                w,
                            ) && w != u) || w == bn) by {
                                assert(has_dest(self@[an], w) <==> (has_dest(gm2@[an], w) && w
                                    != u));
                                assert(has_dest(gm1@[an], w) <==> (has_dest(g0@[an], w) || w
                                    == bn));
                            }
                            assert forall|w: i64|
                                w != u && w != bn && #[trigger] has_dest(g0@[an], w) implies
                                cost_at(self@[an], w) == cost_at(g0@[an], w) by {
                                assert(has_dest(gm1@[an], w));
                                assert(cost_at(gm1@[an], w) == cost_at(g0@[an], w));
                                assert(has_dest(self@[an], w));
                                assert(cost_at(self@[an], w) == cost_at(gm2@[an], w));
                            }
                            assert(has_dest(gm1@[an], bn));
                            assert(has_dest(self@[an], bn));
                            assert(cost_at(self@[an], bn) == cost_at(gm2@[an], bn));
                        }
                        assert(edges_merged(self@[bn], g0@[bn], u, an, c)) by {
                            assert forall|w: i64| #[trigger] has_dest(self@[bn], w) <==> ((has_dest(
                                g0@[bn],
                                w,
                            ) && w != u) || w == an) by {
                                assert(has_dest(self@[bn], w) <==> (has_dest(gm2@[bn], w) && w
                                    != u));
                                assert(has_dest(gm2@[bn], w) <==> (has_dest(gm1@[bn], w) || w
                                    == an));
                            }
                            assert forall|w: i64|
                                w != u && w != an && #[trigger] has_dest(g0@[bn], w) implies
                                cost_at(self@[bn], w) == cost_at(g0@[bn], w) by {
                                assert(has_dest(gm1@[bn], w));
                                assert(cost_at(gm2@[bn], w) == cost_at(gm1@[bn], w));
                                assert(has_dest(self@[bn], w));
                                assert(cost_at(self@[bn], w) == cost_at(gm2@[bn], w));
                            }
                            assert(has_dest(gm2@[bn], an));
                            assert(has_dest(self@[bn], an));
                            assert(cost_at(self@[bn], an) == cost_at(gm2@[bn], an));
                        }
                    };
                    assert(contract_step(g0, *self, u));
                    if symmetric(g0) {
                        lemma_removal_props(gm2, *self, single@);
                        lemma_dominated_trans(g0, gm2, *self);
                    }
                    assert(gm2.closed() ==> self.closed()) by {
                        if gm2.closed() {
                            assert forall|v: i64, w: i64|
                                self@.dom().contains(v) && #[trigger] has_dest(
                                    self@[v],
                                    w,
                                ) implies self@.dom().contains(w) by {
                                assert(has_dest(gm2@[v], w) && !single@.contains(w));
                            }
                        }
                    };
                }
            } else {
                proof {
                    lemma_dominated_refl(g0);
                    assert(g0@[u].len() == 2);
                    assert(!is_intermediate(g0, u)) by {
                        if is_oneway_intermediate(g0, u) {
                            assert(g0@[u].len() == 1);
                        }
                        if is_twoway_intermediate(g0, u) {
                            if ea.node != p0 && ea.node != p1 {
                                assert(is_in_nbr(g0, ea.node, u));
                                assert(ins@.contains(ea.node));
                                let k = choose|k: int| 0 <= k < ins@.len() && ins@[k] == ea.node;
                            }
                            if eb.node != p0 && eb.node != p1 {
                                assert(is_in_nbr(g0, eb.node, u));
                                assert(ins@.contains(eb.node));
                                let k = choose|k: int| 0 <= k < ins@.len() && ins@[k] == eb.node;
                            }
                            assert(p0 < p1);
                            assert(p0 == ea.node && p1 == eb.node);
                        }
                    };
                    assert(contract_step(g0, *self, u));
                }
            }
        } else {
            proof {
                lemma_dominated_refl(g0);
                assert(!is_intermediate(g0, u)) by {
                    if is_oneway_intermediate(g0, u) {
                        assert(outs_len == 1);
                        let p = choose|v: i64| is_in_nbr(g0, v, u);
                        assert(ins@.contains(p));
                        if ins@.len() >= 2 {
                            assert(ins@[0] != ins@[1]);
                            assert(ins@.contains(ins@[0]) && ins@.contains(ins@[1])) by {
                                assert(ins@[0] == ins@[0] && ins@[1] == ins@[1]);
                            }
                            assert(is_in_nbr(g0, ins@[0], u) && is_in_nbr(g0, ins@[1], u));
                        } else {
                            assert(ins@.len() == 1);
                        }
                    }
                    if is_twoway_intermediate(g0, u) {
                        assert(outs_len == 2);
                        assert(g0@[u][0].node != g0@[u][1].node);
                        assert(is_in_nbr(g0, g0@[u][0].node, u));
                        assert(is_in_nbr(g0, g0@[u][1].node, u));
                        assert(ins@.contains(g0@[u][0].node));
                        assert(ins@.contains(g0@[u][1].node));
                        let k1 = choose|k: int| 0 <= k < ins@.len() && ins@[k] == g0@[u][0].node;
                        let k2 = choose|k: int| 0 <= k < ins@.len() && ins@[k] == g0@[u][1].node;
                        assert(k1 != k2);
                        if ins@.len() < 2 {
                            assert(false);
                        }
                        if ins@.len() > 2 {
                            assert(ins@[0] < ins@[1] < ins@[2]);
                            assert forall|k: int| 0 <= k < ins@.len() implies is_in_nbr(
                                g0,
                                #[trigger] ins@[k],
                                u,
                            ) by {
                                assert(ins@.contains(ins@[k]));
                            }
                            assert(ins@[0] == g0@[u][0].node || ins@[0] == g0@[u][1].node);
                            assert(ins@[1] == g0@[u][0].node || ins@[1] == g0@[u][1].node);
                            assert(ins@[2] == g0@[u][0].node || ins@[2] == g0@[u][1].node);
                        }
                    }
                };
                assert(!is_twoway_leaf(g0, u)) by {
                    if is_twoway_leaf(g0, u) {
                        assert(outs_len == 1);
                        assert(is_in_nbr(g0, g0@[u][0].node, u));
                        assert(ins@.contains(g0@[u][0].node));
                        if ins@.len() >= 2 {
                            assert(ins@[0] != ins@[1]);
                            assert(ins@.contains(ins@[0]) && ins@.contains(ins@[1])) by {
                                assert(ins@[0] == ins@[0] && ins@[1] == ins@[1]);
                            }
                            assert(is_in_nbr(g0, ins@[0], u) && is_in_nbr(g0, ins@[1], u));
                        } else {
                            assert(ins@.len() == 1);
                        }
                    }
                };
                assert(contract_step(g0, *self, u));
            }
        }
    }

    /// Contract, one after the other, every node of the batch that is still
    /// an intermediate when its turn comes: the states chain through one
    /// `contract_step` per batch member, which pins the whole effect.
    pub fn fix_intermediate_nodes(&mut self, intermediate_nodes: &Vec<i64>)
        requires
            old(self).wf(),
        ensures
            final(self).wf(),
            forall|v: i64|
                #[trigger] final(self)@.dom().contains(v) ==> old(self)@.dom().contains(v),
            old(self).closed() ==> final(self).closed(),
            final(self).node_count() <= old(self).node_count(),
            intermediate_nodes@.len() > 0 && is_intermediate(*old(self), intermediate_nodes@[0])
                ==> final(self).node_count() < old(self).node_count(),
            symmetric(*old(self)) ==> symmetric(*final(self)) && edge_dominated(
                *old(self),
                *final(self),
            ),
            exists|states: Seq<Graph>|
                #[trigger] contract_chain(states, intermediate_nodes@) && states[0] == *old(self)
                    && states[states.len() - 1] == *final(self),
    {
        let ghost g0 = *self;
        let ghost mut states: Seq<Graph> = seq![g0];
        proof {
            lemma_dominated_refl(g0);
        }
        let m = intermediate_nodes.len();
        let mut idx: usize = 0;
        while idx < m
            invariant
                idx <= m,
                m == intermediate_nodes@.len(),
                self.wf(),
                forall|v: i64| #[trigger] self@.dom().contains(v) ==> g0@.dom().contains(v),
                g0.closed() ==> self.closed(),
                self.node_count() <= g0.node_count(),
                idx == 0 ==> *self == g0,
                idx > 0 && is_intermediate(g0, intermediate_nodes@[0]) ==> self.node_count()
                    < g0.node_count(),
                symmetric(g0) ==> symmetric(*self) && edge_dominated(g0, *self),
                states.len() == idx + 1,
                states[0] == g0,
                states[states.len() - 1] == *self,
                forall|k: int|
                    0 <= k < idx ==> contract_step(
                        states[k],
                        states[k + 1],
                        #[trigger] intermediate_nodes@[k],
                    ),
            decreases m - idx,
        {
            let u = intermediate_nodes[idx];
            let ghost gpre = *self;
            self.contract_node(u);
            proof {
                states = states.push(*self);
                if idx == 0 && is_intermediate(g0, intermediate_nodes@[0]) {
                    assert(self.node_count() < gpre.node_count());
                }
                if symmetric(g0) {
                    lemma_dominated_trans(g0, gpre, *self);
                }
                assert(states[idx as int] == gpre && states[idx as int + 1] == *self);
            }
            idx += 1;
        }
        proof {
            assert(contract_chain(states, intermediate_nodes@) && states[0] == g0
                && states[states.len() - 1] == *self);
        }
    }

    /// Contract intermediates in batches until none remain.
    fn contract_intermediates(&mut self)
        requires
            old(self).wf(),
        ensures
            final(self).wf(),
            forall|v: i64|
                #[trigger] final(self)@.dom().contains(v) ==> old(self)@.dom().contains(v),
            old(self).closed() ==> final(self).closed(),
            final(self).node_count() <= old(self).node_count(),
            forall|u: i64| !is_intermediate(*final(self), u),
            (forall|u: i64| !is_intermediate(*old(self), u)) ==> *final(self) == *old(self),
            symmetric(*old(self)) ==> symmetric(*final(self)) && edge_dominated(
                *old(self),
                *final(self),
            ),
            exists|tr: Seq<Graph>|
                #[trigger] contract_trace(tr) && tr[0] == *old(self) && tr[tr.len() - 1]
                    == *final(self),
    {
        let ghost g0 = *self;
        let ghost mut tr: Seq<Graph> = seq![g0];
        proof {
            lemma_dominated_refl(g0);
        }
        loop
            invariant
                self.wf(),
                forall|v: i64| #[trigger] self@.dom().contains(v) ==> g0@.dom().contains(v),
                g0.closed() ==> self.closed(),
                self.node_count() <= g0.node_count(),
                (forall|u: i64| !is_intermediate(g0, u)) ==> *self == g0,
                symmetric(g0) ==> symmetric(*self) && edge_dominated(g0, *self),
                contract_trace(tr),
                tr[0] == g0,
                tr[tr.len() - 1] == *self,
            ensures
                self.wf(),
                forall|v: i64| #[trigger] self@.dom().contains(v) ==> g0@.dom().contains(v),
                g0.closed() ==> self.closed(),
                self.node_count() <= g0.node_count(),
                forall|u: i64| !is_intermediate(*self, u),
                (forall|u: i64| !is_intermediate(g0, u)) ==> *self == g0,
                symmetric(g0) ==> symmetric(*self) && edge_dominated(g0, *self),
                contract_trace(tr),
                tr[0] == g0,
                tr[tr.len() - 1] == *self,
            decreases self.node_count(),
        {
            let preds = self.find_nodes_pointing_to_node();
            let inter = self.find_intermediate_nodes(&preds);
            if inter.len() == 0 {
                proof {
                    assert forall|u: i64| !is_intermediate(*self, u) by {
                        if is_intermediate(*self, u) {
                            assert(inter@.contains(u));
                        }
                    }
                }
                break ;
            }
            let ghost gpre = *self;
            proof {
                assert(inter@.contains(inter@[0]));
                assert(is_intermediate(*self, inter@[0]));
                if forall|u: i64| !is_intermediate(g0, u) {
                    assert(gpre == g0);
                    assert(false);
                }
            }
            self.fix_intermediate_nodes(&inter);
            proof {
                if symmetric(g0) {
                    lemma_dominated_trans(g0, gpre, *self);
                }
                assert(contract_round(gpre, *self)) by {
                    let states = choose|states: Seq<Graph>|
                        #[trigger] contract_chain(states, inter@) && states[0] == gpre
                            && states[states.len() - 1] == *self;
                    assert(is_intermediate_batch(gpre, inter@));
                    assert(is_intermediate_batch(gpre, inter@) && inter@.len() > 0
                        && contract_chain(states, inter@) && states[0] == gpre
                        && states[states.len() - 1] == *self);
                };
                lemma_contract_trace_extend(tr, *self);
                tr = tr.push(*self);
            }
        }
        proof {
            assert(contract_trace(tr) && tr[0] == *old(self) && tr[tr.len() - 1] == *self);
        }
    }

    /// All end-like nodes, classified: sinks, unreachable sources, two-way
    /// leaves and isolated nodes, each list in ascending order of id.  The
    /// source and sink classes take the loose reading of the
    /// classification — any out-degree for a source no one reaches, any
    /// in-degree for a sink with no way out — since the pruning pass is
    /// meant to drop everything unreachable or inescapable.
    pub fn find_end_nodes(&self, preds: &Vec<Vec<i64>>) -> (r: (
        Vec<i64>,
        Vec<i64>,
        Vec<i64>,
        Vec<i64>,
    ))
        requires
            self.wf(),
            preds_wf(*self, preds@),
        ensures
            forall|u: i64| #[trigger] r.0@.contains(u) <==> is_sink_end(*self, u),
            forall|u: i64| #[trigger] r.1@.contains(u) <==> is_start_end(*self, u),
            forall|u: i64| #[trigger] r.2@.contains(u) <==> is_twoway_leaf(*self, u),
            forall|u: i64| #[trigger] r.3@.contains(u) <==> is_dead(*self, u),
    {
        let n = self.keys.len();
        let mut end_nodes: Vec<i64> = Vec::new();
        let mut start_nodes: Vec<i64> = Vec::new();
        let mut two_way_end_nodes: Vec<i64> = Vec::new();
        let mut dead_nodes: Vec<i64> = Vec::new();
        let mut i: usize = 0;
        while i < n
            invariant
                i <= n,
                n == self.keys@.len(),
                self.wf(),
                preds_wf(*self, preds@),
                forall|u: i64|
                    #[trigger] end_nodes@.contains(u) <==> (self.ids().take(i as int).contains(u)
                        && is_sink_end(*self, u)),
                forall|u: i64|
                    #[trigger] start_nodes@.contains(u) <==> (self.ids().take(i as int).contains(u)
                        && is_start_end(*self, u)),
                forall|u: i64|
                    #[trigger] two_way_end_nodes@.contains(u) <==> (self.ids().take(
                        i as int,
                    ).contains(u) && is_twoway_leaf(*self, u)),
                forall|u: i64|
                    #[trigger] dead_nodes@.contains(u) <==> (self.ids().take(i as int).contains(u)
                        && is_dead(*self, u)),
            decreases n - i,
        {
            let u = self.keys[i];
            let ghost e0 = end_nodes@;
            let ghost s0 = start_nodes@;
            let ghost t0 = two_way_end_nodes@;
            let ghost d0 = dead_nodes@;
            proof {
                self.lemma_view_index(i as int);
                assert forall|v: i64| #[trigger]
                    self.ids().take(i as int + 1).contains(v) implies (self.ids().take(
                    i as int,
                ).contains(v) || v == u) by {
                    let k = choose|k: int|
                        0 <= k < i + 1 && #[trigger] self.ids().take(i as int + 1)[k] == v;
                    if k < i {
                        assert(self.ids().take(i as int)[k] == v);
                    }
                }
                assert forall|v: i64| #[trigger]
                    self.ids().take(i as int).contains(v) implies self.ids().take(
                    i as int + 1,
                ).contains(v) by {
                    let k = choose|k: int|
                        0 <= k < i && #[trigger] self.ids().take(i as int)[k] == v;
                    assert(self.ids().take(i as int + 1)[k] == v);
                }
                assert(self.ids().take(i as int + 1)[i as int] == u);
            }
            let outs_len = self.adj[i].len();
            let ins_len = preds[i].len();
            let ghost ins = preds@[i as int]@;
            proof {
                if ins_len > 0 {
                    assert(ins.contains(ins[0])) by {
                        assert(ins[0] == ins[0]);
                    }
                    assert(is_in_nbr(*self, ins[0], u));
                    assert(has_in_nbr(*self, u));
                }
                if has_in_nbr(*self, u) {
                    let p = choose|v: i64| is_in_nbr(*self, v, u);
                    assert(ins.contains(p));
                }
            }
            if outs_len == 0 && ins_len >= 1 {
                end_nodes.push(u);
                proof {
                    lemma_id_membership(end_nodes@, e0, u);
                }
            } else if outs_len >= 1 && ins_len == 0 {
                start_nodes.push(u);
                proof {
                    lemma_id_membership(start_nodes@, s0, u);
                }
            } else if outs_len == 0 && ins_len == 0 {
                dead_nodes.push(u);
                proof {
                    lemma_id_membership(dead_nodes@, d0, u);
                }
            } else if outs_len == 1 && ins_len == 1 {
                let p = preds[i][0];
                let s = self.adj[i][0].node;
                if p == s {
                    two_way_end_nodes.push(u);
                    proof {
                        assert(ins.contains(p)) by {
                            assert(ins[0] == p);
                        }
                        assert(is_twoway_leaf(*self, u)) by {
                            assert forall|v: i64| #[trigger] is_in_nbr(*self, v, u) implies v
                                == self@[u][0].node by {
                                assert(ins.contains(v));
                                let k = choose|k: int| 0 <= k < ins.len() && ins[k] == v;
                                assert(k == 0);
                            }
                        }
                        lemma_id_membership(two_way_end_nodes@, t0, u);
                    }
                } else {
                    proof {
                        assert(ins.contains(p)) by {
                            assert(ins[0] == p);
                        }
                        assert(!is_twoway_leaf(*self, u)) by {
                            if is_twoway_leaf(*self, u) {
                                assert(is_in_nbr(*self, p, u));
                            }
                        }
                    }
                }
            }
            proof {
                // A node falls in no class it was not put in.
                assert(is_sink_end(*self, u) ==> (outs_len == 0 && ins_len >= 1)) by {
                    if is_sink_end(*self, u) && ins_len == 0 {
                        let p = choose|v: i64| is_in_nbr(*self, v, u);
                        assert(ins.contains(p));
                    }
                };
                assert(is_start_end(*self, u) ==> (outs_len >= 1 && ins_len == 0)) by {
                    if is_start_end(*self, u) && ins_len > 0 {
                        assert(ins.contains(ins[0])) by {
                            assert(ins[0] == ins[0]);
                        }
                    }
                };
                assert(is_dead(*self, u) ==> (outs_len == 0 && ins_len == 0)) by {
                    if is_dead(*self, u) && ins_len > 0 {
                        assert(ins.contains(ins[0])) by {
                            assert(ins[0] == ins[0]);
                        }
                    }
                };
                assert(is_twoway_leaf(*self, u) ==> (outs_len == 1 && ins_len == 1 && ins[0]
                    == self@[u][0].node)) by {
                    if is_twoway_leaf(*self, u) {
                        assert(is_in_nbr(*self, self@[u][0].node, u));
                        assert(ins.contains(self@[u][0].node));
                        if ins_len != 1 {
                            if ins_len >= 2 {
                                assert(ins[0] != ins[1]);
                                assert(ins.contains(ins[0]) && ins.contains(ins[1])) by {
                                    assert(ins[0] == ins[0] && ins[1] == ins[1]);
                                }
                                assert(is_in_nbr(*self, ins[0], u) && is_in_nbr(*self, ins[1], u));
                            } else {
                                let k = choose|k: int|
                                    0 <= k < ins.len() && ins[k] == self@[u][0].node;
                            }
                        }
                        let k = choose|k: int| 0 <= k < ins.len() && ins[k] == self@[u][0].node;
                        assert(k == 0);
                    }
                };
            }
            i += 1;
        }
        proof {
            assert(self.ids().take(n as int) =~= self.ids());
            assert forall|u: i64| is_sink_end(*self, u) || is_start_end(*self, u)
                || is_twoway_leaf(*self, u) || is_dead(*self, u) implies self.ids().contains(
                u,
            ) by {
                assert(self.keys@.contains(u));
            }
        }
        (end_nodes, start_nodes, two_way_end_nodes, dead_nodes)
    }

    /// Delete the listed nodes and every edge touching them; the
    /// survivors keep exactly their remaining edges and costs.
    pub fn fix_end_nodes(
        &mut self,
        start_nodes: &Vec<i64>,
        end_nodes: &Vec<i64>,
        two_way_end_nodes: &Vec<i64>,
        dead_nodes: &Vec<i64>,
    )
        requires
            old(self).wf(),
        ensures
            final(self).wf(),
            forall|v: i64|
                #[trigger] final(self)@.dom().contains(v) <==> (old(self)@.dom().contains(v)
                    && !start_nodes@.contains(v) && !end_nodes@.contains(v)
                    && !two_way_end_nodes@.contains(v) && !dead_nodes@.contains(v)),
            old(self).closed() ==> final(self).closed(),
            final(self).node_count() <= old(self).node_count(),
            (exists|k: int|
                0 <= k < start_nodes@.len() && old(self)@.dom().contains(
                    #[trigger] start_nodes@[k],
                )) ==> final(self).node_count() < old(self).node_count(),
            (exists|k: int|
                0 <= k < end_nodes@.len() && old(self)@.dom().contains(#[trigger] end_nodes@[k]))
                ==> final(self).node_count() < old(self).node_count(),
            (exists|k: int|
                0 <= k < two_way_end_nodes@.len() && old(self)@.dom().contains(
                    #[trigger] two_way_end_nodes@[k],
                )) ==> final(self).node_count() < old(self).node_count(),
            (exists|k: int|
                0 <= k < dead_nodes@.len() && old(self)@.dom().contains(
                    #[trigger] dead_nodes@[k],
                )) ==> final(self).node_count() < old(self).node_count(),
            forall|v: i64, w: i64|
                final(self)@.dom().contains(v) ==> (#[trigger] has_dest(final(self)@[v], w) <==> (
                has_dest(old(self)@[v], w) && !start_nodes@.contains(w) && !end_nodes@.contains(w)
                    && !two_way_end_nodes@.contains(w) && !dead_nodes@.contains(w))),
            forall|v: i64, w: i64|
                final(self)@.dom().contains(v) && #[trigger] has_dest(final(self)@[v], w)
                    ==> cost_at(final(self)@[v], w) == cost_at(old(self)@[v], w),
            edge_dominated(*old(self), *final(self)),
            symmetric(*old(self)) ==> symmetric(*final(self)),
    {
        let ghost g0 = *self;
        let mut removals: Vec<i64> = Vec::new();
        append_ids(&mut removals, start_nodes);
        append_ids(&mut removals, end_nodes);
        append_ids(&mut removals, two_way_end_nodes);
        append_ids(&mut removals, dead_nodes);
        proof {
            assert forall|v: i64| #[trigger] removals@.contains(v) <==> (start_nodes@.contains(v)
                || end_nodes@.contains(v) || two_way_end_nodes@.contains(v)
                || dead_nodes@.contains(v)) by {
                lemma_concat_membership(start_nodes@, end_nodes@, two_way_end_nodes@, dead_nodes@, removals@, v);
            }
        }
        self.remove_nodes(&removals);
        proof {
            lemma_removal_props(g0, *self, removals@);
            assert(g0.closed() ==> self.closed()) by {
                if g0.closed() {
                    assert forall|v: i64, w: i64|
                        self@.dom().contains(v) && #[trigger] has_dest(self@[v], w) implies self@
                        .dom().contains(w) by {
                        assert(has_dest(g0@[v], w) && !removals@.contains(w));
                    }
                }
            };
            if exists|k: int|
                0 <= k < start_nodes@.len() && g0@.dom().contains(#[trigger] start_nodes@[k]) {
                let k = choose|k: int|
                    0 <= k < start_nodes@.len() && g0@.dom().contains(#[trigger] start_nodes@[k]);
                assert(removals@.contains(start_nodes@[k])) by {
                    assert(start_nodes@.contains(start_nodes@[k]));
                }
                let k2 = choose|k2: int|
                    0 <= k2 < removals@.len() && removals@[k2] == start_nodes@[k];
            }
            if exists|k: int|
                0 <= k < end_nodes@.len() && g0@.dom().contains(#[trigger] end_nodes@[k]) {
                let k = choose|k: int|
                    0 <= k < end_nodes@.len() && g0@.dom().contains(#[trigger] end_nodes@[k]);
                assert(removals@.contains(end_nodes@[k])) by {
                    assert(end_nodes@.contains(end_nodes@[k]));
                }
                let k2 = choose|k2: int|
                    0 <= k2 < removals@.len() && removals@[k2] == end_nodes@[k];
            }
            if exists|k: int|
                0 <= k < two_way_end_nodes@.len() && g0@.dom().contains(
                    #[trigger] two_way_end_nodes@[k],
                ) {
                let k = choose|k: int|
                    0 <= k < two_way_end_nodes@.len() && g0@.dom().contains(
                        #[trigger] two_way_end_nodes@[k],
                    );
                assert(removals@.contains(two_way_end_nodes@[k])) by {
                    assert(two_way_end_nodes@.contains(two_way_end_nodes@[k]));
                }
                let k2 = choose|k2: int|
                    0 <= k2 < removals@.len() && removals@[k2] == two_way_end_nodes@[k];
            }
            if exists|k: int|
                0 <= k < dead_nodes@.len() && g0@.dom().contains(#[trigger] dead_nodes@[k]) {
                let k = choose|k: int|
                    0 <= k < dead_nodes@.len() && g0@.dom().contains(#[trigger] dead_nodes@[k]);
                assert(removals@.contains(dead_nodes@[k])) by {
                    assert(dead_nodes@.contains(dead_nodes@[k]));
                }
                let k2 = choose|k2: int|
                    0 <= k2 < removals@.len() && removals@[k2] == dead_nodes@[k];
            }
        }
    }

    /// Contract intermediates to a fixed point; when `remove_ends` is set,
    /// alternate pruning of end nodes with further contraction until the
    /// graph is stable.  A graph with nothing to do comes back unchanged.
    ///
    /// The whole run is pinned by a `minimize_trace`: rounds of
    /// contraction over exactly the current intermediates, each a chain of
    /// exact `contract_step`s, alternating with pruning passes that remove
    /// exactly the end-like nodes, until neither move applies.  A
    /// contraction replaces the two-hop path through the dropped node by a
    /// direct edge of the summed cost, keeping a cheaper parallel edge.
    /// For a graph whose edges come in equal-cost pairs, as the builder
    /// produces for two-way roads, this is additionally proved sound: the
    /// result is `edge_dominated` by the input, so no minimized walk is
    /// cheaper than what the input graph already offered
    /// (`lemma_dominated_path`), and the pairing itself survives.
    pub fn minimize_graph(&mut self, remove_ends: bool)
        requires
            old(self).wf(),
        ensures
            final(self).wf(),
            is_minimized(*final(self), remove_ends),
            forall|v: i64|
                #[trigger] final(self)@.dom().contains(v) ==> old(self)@.dom().contains(v),
            old(self).closed() ==> final(self).closed(),
            final(self).node_count() <= old(self).node_count(),
            is_minimized(*old(self), remove_ends) ==> *final(self) == *old(self),
            symmetric(*old(self)) ==> symmetric(*final(self)) && edge_dominated(
                *old(self),
                *final(self),
            ),
            exists|tr: Seq<Graph>|
                #[trigger] minimize_trace(tr, remove_ends) && tr[0] == *old(self) && tr[tr.len()
                    - 1] == *final(self),
    {
        let ghost g0 = *self;
        self.contract_intermediates();
        let ghost mut trace = choose|tr: Seq<Graph>|
            #[trigger] contract_trace(tr) && tr[0] == g0 && tr[tr.len() - 1] == *self;
        proof {
            lemma_contract_trace_steps(trace, remove_ends);
        }
        if remove_ends {
            loop
                invariant
                    remove_ends,
                    self.wf(),
                    forall|v: i64| #[trigger] self@.dom().contains(v) ==> g0@.dom().contains(v),
                    g0.closed() ==> self.closed(),
                    self.node_count() <= g0.node_count(),
                    forall|u: i64| !is_intermediate(*self, u),
                    is_minimized(g0, true) ==> *self == g0,
                    symmetric(g0) ==> symmetric(*self) && edge_dominated(g0, *self),
                    minimize_trace(trace, remove_ends),
                    trace[0] == g0,
                    trace[trace.len() - 1] == *self,
                ensures
                    self.wf(),
                    forall|v: i64| #[trigger] self@.dom().contains(v) ==> g0@.dom().contains(v),
                    g0.closed() ==> self.closed(),
                    self.node_count() <= g0.node_count(),
                    forall|u: i64| !is_intermediate(*self, u),
                    forall|u: i64| !is_end_node(*self, u),
                    is_minimized(g0, true) ==> *self == g0,
                    symmetric(g0) ==> symmetric(*self) && edge_dominated(g0, *self),
                    minimize_trace(trace, remove_ends),
                    trace[0] == g0,
                    trace[trace.len() - 1] == *self,
                decreases self.node_count(),
            {
                let preds = self.find_nodes_pointing_to_node();
                let (end_nodes, start_nodes, two_way_end_nodes, dead_nodes) = self.find_end_nodes(
                    &preds,
                );
                if end_nodes.len() == 0 && start_nodes.len() == 0 && two_way_end_nodes.len() == 0
                    && dead_nodes.len() == 0 {
                    proof {
                        assert forall|u: i64| !is_end_node(*self, u) by {
                            if is_sink_end(*self, u) {
                                assert(end_nodes@.contains(u));
                            }
                            if is_start_end(*self, u) {
                                assert(start_nodes@.contains(u));
                            }
                            if is_twoway_leaf(*self, u) {
                                assert(two_way_end_nodes@.contains(u));
                            }
                            if is_dead(*self, u) {
                                assert(dead_nodes@.contains(u));
                            }
                        }
                    }
                    break ;
                }
                let ghost gpre = *self;
                proof {
                    if is_minimized(g0, true) {
                        assert(gpre == g0);
                        if end_nodes@.len() > 0 {
                            assert(end_nodes@.contains(end_nodes@[0]));
                            assert(is_sink_end(g0, end_nodes@[0]));
                            assert(is_end_node(g0, end_nodes@[0]));
                        } else if start_nodes@.len() > 0 {
                            assert(start_nodes@.contains(start_nodes@[0]));
                            assert(is_start_end(g0, start_nodes@[0]));
                            assert(is_end_node(g0, start_nodes@[0]));
                        } else if two_way_end_nodes@.len() > 0 {
                            assert(two_way_end_nodes@.contains(two_way_end_nodes@[0]));
                            assert(is_twoway_leaf(g0, two_way_end_nodes@[0]));
                            assert(is_end_node(g0, two_way_end_nodes@[0]));
                        } else {
                            assert(dead_nodes@.contains(dead_nodes@[0]));
                            assert(is_dead(g0, dead_nodes@[0]));
                            assert(is_end_node(g0, dead_nodes@[0]));
                        }
                        assert(false);
                    }
                }
                self.fix_end_nodes(&start_nodes, &end_nodes, &two_way_end_nodes, &dead_nodes);
                let ghost gcut = *self;
                proof {
                    if symmetric(g0) {
                        lemma_dominated_trans(g0, gpre, gcut);
                    }
                    if end_nodes@.len() > 0 {
                        assert(end_nodes@.contains(end_nodes@[0]));
                        assert(is_sink_end(gpre, end_nodes@[0]));
                        assert(is_end_node(gpre, end_nodes@[0]));
                    } else if start_nodes@.len() > 0 {
                        assert(start_nodes@.contains(start_nodes@[0]));
                        assert(is_start_end(gpre, start_nodes@[0]));
                        assert(is_end_node(gpre, start_nodes@[0]));
                    } else if two_way_end_nodes@.len() > 0 {
                        assert(two_way_end_nodes@.contains(two_way_end_nodes@[0]));
                        assert(is_twoway_leaf(gpre, two_way_end_nodes@[0]));
                        assert(is_end_node(gpre, two_way_end_nodes@[0]));
                    } else {
                        assert(dead_nodes@.contains(dead_nodes@[0]));
                        assert(is_dead(gpre, dead_nodes@[0]));
                        assert(is_end_node(gpre, dead_nodes@[0]));
                    }
                    assert(self.node_count() < gpre.node_count());
                    // The pass removed exactly the end-like nodes.
                    assert(prune_round(gpre, gcut)) by {
                        assert forall|v: i64| #[trigger] gcut@.dom().contains(v) <==> (gpre@.dom()
                            .contains(v) && !is_end_node(gpre, v)) by {
                            if is_end_node(gpre, v) {
                                assert(end_nodes@.contains(v) || start_nodes@.contains(v)
                                    || two_way_end_nodes@.contains(v) || dead_nodes@.contains(v));
                            }
                        }
                        assert forall|v: i64, w: i64|
                            gcut@.dom().contains(v) implies (#[trigger] has_dest(gcut@[v], w) <==> (
                        has_dest(gpre@[v], w) && !is_end_node(gpre, w))) by {
                            if is_end_node(gpre, w) {
                                assert(end_nodes@.contains(w) || start_nodes@.contains(w)
                                    || two_way_end_nodes@.contains(w) || dead_nodes@.contains(w));
                            }
                        }
                    };
                    assert(minimize_step(gpre, gcut, remove_ends));
                    lemma_trace_extend(trace, gcut, remove_ends);
                    trace = trace.push(gcut);
                }
                self.contract_intermediates();
                proof {
                    if symmetric(g0) {
                        lemma_dominated_trans(g0, gcut, *self);
                    }
                    let tr2 = choose|tr: Seq<Graph>|
                        #[trigger] contract_trace(tr) && tr[0] == gcut && tr[tr.len() - 1]
                            == *self;
                    lemma_contract_trace_steps(tr2, remove_ends);
                    lemma_trace_join(trace, tr2, remove_ends);
                    trace = trace + tr2.drop_first();
                }
            }
        }
        proof {
            assert(minimize_trace(trace, remove_ends) && trace[0] == *old(self) && trace[trace.len()
                - 1] == *self);
        }
    }
}

/// Append the ids of `src` to `dst`.
fn append_ids(dst: &mut Vec<i64>, src: &Vec<i64>)
    ensures
        final(dst)@ == old(dst)@ + src@,
{
    let ghost d0 = dst@;
    let n = src.len();
    let mut i: usize = 0;
    while i < n
        invariant
            i <= n,
            n == src@.len(),
            dst@ == d0 + src@.take(i as int),
        decreases n - i,
    {
        dst.push(src[i]);
        proof {
            assert(dst@ =~= d0 + src@.take(i as int + 1));
        }
        i += 1;
    }
    proof {
        assert(d0 + src@.take(n as int) =~= d0 + src@);
    }
}

/// Membership in the concatenation of four id lists.
proof fn lemma_concat_membership(
    a: Seq<i64>,
    b: Seq<i64>,
    c: Seq<i64>,
    d: Seq<i64>,
    all: Seq<i64>,
    v: i64,
)
    requires
        all == a + b + c + d,
    ensures
        all.contains(v) <==> (a.contains(v) || b.contains(v) || c.contains(v) || d.contains(v)),
{
    if all.contains(v) {
        let k = choose|k: int| 0 <= k < all.len() && all[k] == v;
        if k < a.len() {
            assert(a[k] == v);
        } else if k < a.len() + b.len() {
            assert(b[k - a.len()] == v);
        } else if k < a.len() + b.len() + c.len() {
            assert(c[k - a.len() - b.len()] == v);
        } else {
            assert(d[k - a.len() - b.len() - c.len()] == v);
        }
    }
    if a.contains(v) {
        let k = choose|k: int| 0 <= k < a.len() && a[k] == v;
        assert(all[k] == v);
    }
    if b.contains(v) {
        let k = choose|k: int| 0 <= k < b.len() && b[k] == v;
        assert(all[a.len() + k] == v);
    }
    if c.contains(v) {
        let k = choose|k: int| 0 <= k < c.len() && c[k] == v;
        assert(all[a.len() + b.len() + k] == v);
    }
    if d.contains(v) {
        let k = choose|k: int| 0 <= k < d.len() && d[k] == v;
        assert(all[a.len() + b.len() + c.len() + k] == v);
    }
}

/// After pushing `u` onto `pre`, membership is membership in `pre` or `u`.
proof fn lemma_id_membership(cur: Seq<i64>, pre: Seq<i64>, u: i64)
    requires
        cur == pre.push(u),
    ensures
        forall|v: i64| #[trigger] cur.contains(v) <==> (pre.contains(v) || v == u),
{
    assert forall|v: i64| #[trigger] cur.contains(v) implies (pre.contains(v) || v == u) by {
        let k = choose|k: int| 0 <= k < cur.len() && cur[k] == v;
        if k < pre.len() {
            assert(pre[k] == v);
        }
    }
    assert forall|v: i64| pre.contains(v) implies #[trigger] cur.contains(v) by {
        let k = choose|k: int| 0 <= k < pre.len() && pre[k] == v;
        assert(cur[k] == v);
    }
    assert(cur[pre.len() as int] == u);
}

} // verus!
