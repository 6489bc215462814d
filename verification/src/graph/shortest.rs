use vstd::prelude::*;
use super::{Graph, GraphView, NodeId, ShortestPaths, incident, is_invalid_graph, lemma_incident_complete, lemma_incident_sound, missing_node, missing_node_message, node_ids};
use super::search::lemma_distinct_ids_bound;
use crate::error::MathError;
use crate::scalar::Scalar;
use crate::vector::sum;

verus! {

/// The weight of edge `e`, as an integer.
pub open spec fn edge_weight<N, E, W: Scalar>(g: GraphView<N, E, W>, e: int) -> int {
    g.edges[e].weight.value()
}

/// `p` is a walk of `g` whose step from `p[i]` to `p[i + 1]` is taken along
/// edge `es[i]`.
pub open spec fn is_edge_walk<N, E, W>(g: GraphView<N, E, W>, p: Seq<int>, es: Seq<int>) -> bool {
    &&& p.len() == es.len() + 1
    &&& forall|i: int| 0 <= i < p.len() ==> 0 <= #[trigger] p[i] < g.nodes.len()
    &&& forall|i: int| 0 <= i < es.len() ==> g.edge_step(#[trigger] es[i], p[i], p[i + 1])
}

/// The total weight of the edges `es`.
pub open spec fn walk_weight<N, E, W: Scalar>(g: GraphView<N, E, W>, es: Seq<int>) -> int {
    sum(Seq::new(es.len(), |i: int| edge_weight(g, es[i])))
}

impl<W: Scalar> ShortestPaths<W> {
    /// The recorded distance of `v`, as an integer.
    pub open spec fn dist(self, v: int) -> int {
        self.distances@[v].unwrap().value()
    }

    /// The recorded predecessor of `v`.
    pub open spec fn pred(self, v: int) -> int {
        self.previous@[v].unwrap().0 as int
    }

    /// Node `v` is entered from its predecessor along an edge whose weight is
    /// the difference of their distances.
    pub open spec fn tree_step<N, E>(self, g: GraphView<N, E, W>, v: int) -> bool {
        exists|e: int| #[trigger] g.edge_step(e, self.pred(v), v)
            && self.dist(v) == self.dist(self.pred(v)) + edge_weight(g, e)
    }

    /// The `previous` links form a tree of walks rooted at the source: the
    /// source has distance 0 and no predecessor, every other node with a
    /// distance has a predecessor with a distance joined to it by an edge
    /// that accounts for the difference, following the links from any node
    /// with a distance ends, and a node without distance has no predecessor.
    pub open spec fn is_path_tree<N, E>(self, g: GraphView<N, E, W>) -> bool {
        let n = g.nodes.len();
        let s = self.source.0 as int;
        &&& self.distances@.len() == n
        &&& self.previous@.len() == n
        &&& 0 <= s < n
        &&& self.distances@[s] is Some
        &&& self.dist(s) == 0
        &&& self.previous@[s] is None
        &&& forall|v: int| 0 <= v < n && (#[trigger] self.distances@[v]) is None ==> self.previous@[v] is None
        &&& forall|v: int| 0 <= v < n && v != s && (#[trigger] self.distances@[v]) is Some ==> {
            &&& self.previous@[v] is Some
            &&& 0 <= self.pred(v) < n
            &&& self.distances@[self.pred(v)] is Some
            &&& self.tree_step(g, v)
        }
        &&& forall|v: int| 0 <= v < n && (#[trigger] self.distances@[v]) is Some ==> self.walk_ends(NodeId(v as usize))
    }

    /// The predecessor of `v` is as close to the source as any node with a
    /// distance whose edge reaches `v` at exactly `v`'s distance: the
    /// predecessor is the first such node settled, since a distance changes
    /// only for a strictly shorter walk.
    pub open spec fn pred_is_closest<N, E>(self, g: GraphView<N, E, W>, v: int) -> bool {
        forall|u: int, e: int| 0 <= u < g.nodes.len() && #[trigger] g.edge_step(e, u, v)
            && self.distances@[u] is Some && self.dist(u) + edge_weight(g, e) == self.dist(v)
            ==> self.dist(self.pred(v)) <= self.dist(u)
    }

    /// Every walk from the source ends at a node whose distance is at most
    /// the walk's weight.
    pub open spec fn bounds_every_walk<N, E>(self, g: GraphView<N, E, W>) -> bool {
        forall|p: Seq<int>, es: Seq<int>| #[trigger] is_edge_walk(g, p, es) && p[0] == self.source.0 ==> {
            &&& self.distances@[p.last()] is Some
            &&& self.dist(p.last()) <= walk_weight(g, es)
        }
    }
}

/// The integer a present distance stands for.
pub(super) open spec fn dv<W: Scalar>(dist: Seq<Option<W>>, v: int) -> int {
    dist[v].unwrap().value()
}

/// The recorded predecessor of `v`.
pub(super) open spec fn pv(prev: Seq<Option<NodeId>>, v: int) -> int {
    prev[v].unwrap().0 as int
}

/// Node `v` hangs below a settled predecessor, entered along edge `via[v]`
/// whose weight is the difference of their distances.
pub(super) open spec fn tree_link<N, E, W: Scalar>(
    g: GraphView<N, E, W>,
    dist: Seq<Option<W>>,
    prev: Seq<Option<NodeId>>,
    done: Seq<bool>,
    via: Seq<int>,
    rank: Seq<int>,
    v: int,
) -> bool {
    &&& prev[v] is Some
    &&& 0 <= pv(prev, v) < g.nodes.len()
    &&& done[pv(prev, v)]
    &&& g.edge_step(via[v], pv(prev, v), v)
    &&& dv(dist, v) == dv(dist, pv(prev, v)) + edge_weight(g, via[v])
    &&& done[v] ==> rank[pv(prev, v)] < rank[v]
}

/// Every edge leaving `x` whose sum with `x`'s distance fits `W` has been
/// relaxed.
pub(super) open spec fn relaxed_from<N, E, W: Scalar>(g: GraphView<N, E, W>, dist: Seq<Option<W>>, x: int) -> bool {
    forall|e: int, v: int| #[trigger] g.edge_step(e, x, v) && dv(dist, x) + edge_weight(g, e) <= W::highest()
        ==> dist[v] is Some && dv(dist, v) <= dv(dist, x) + edge_weight(g, e)
}

/// Some walk from `s` to `v` has a weight that `W` can hold.
pub open spec fn reached_within<N, E, W: Scalar>(g: GraphView<N, E, W>, s: int, v: int) -> bool {
    exists|q: Seq<int>, fs: Seq<int>| #[trigger] is_edge_walk(g, q, fs) && q[0] == s && q.last() == v
        && walk_weight(g, fs) <= W::highest()
}

/// Every node reachable from `s` has a walk from `s` whose weight `W` can
/// hold, so that every shortest distance from `s` is a value of `W`.
pub open spec fn distances_fit<N, E, W: Scalar>(g: GraphView<N, E, W>, s: int) -> bool {
    forall|p: Seq<int>, es: Seq<int>| #[trigger] is_edge_walk(g, p, es) && p[0] == s ==> reached_within(g, s, p.last())
}

/// The state of the search: `settled` lists the settled nodes in order
/// (`rank` gives each its position), `via` the tree edge of each node.
pub(super) open spec fn search_state<N, E, W: Scalar>(
    g: GraphView<N, E, W>,
    s: int,
    dist: Seq<Option<W>>,
    prev: Seq<Option<NodeId>>,
    done: Seq<bool>,
    settled: Seq<NodeId>,
    via: Seq<int>,
    rank: Seq<int>,
) -> bool {
    let n = g.nodes.len();
    &&& dist.len() == n
    &&& prev.len() == n
    &&& done.len() == n
    &&& via.len() == n
    &&& rank.len() == n
    &&& 0 <= s < n
    &&& dist[s] is Some
    &&& dv(dist, s) == 0
    &&& prev[s] is None
    &&& settled.len() == 0 ==> forall|v: int| 0 <= v < n && v != s ==> (#[trigger] dist[v]) is None
    &&& settled.len() > 0 ==> settled[0].0 == s
    &&& forall|i: int| 0 <= i < settled.len() ==> (#[trigger] settled[i]).0 < n
        && done[settled[i].0 as int] && rank[settled[i].0 as int] == i
    &&& forall|i: int, j: int| 0 <= i < j < settled.len() ==> (#[trigger] settled[i]).0 != (#[trigger] settled[j]).0
    &&& forall|x: int| 0 <= x < n && #[trigger] done[x] ==> 0 <= rank[x] < settled.len()
        && settled[rank[x]].0 == x && dist[x] is Some
    &&& forall|v: int| 0 <= v < n && (#[trigger] dist[v]) is None ==> prev[v] is None
    &&& forall|v: int| 0 <= v < n && v != s && (#[trigger] dist[v]) is Some ==> tree_link(g, dist, prev, done, via, rank, v)
    &&& forall|x: int, y: int| 0 <= x < n && 0 <= y < n && #[trigger] done[x] && (#[trigger] dist[y]) is Some && !done[y]
        ==> dv(dist, x) <= dv(dist, y)
}

/// Every node other than the source with a distance has a predecessor as
/// close as any settled node whose edge reaches it at exactly its distance.
pub(super) open spec fn closest_preds<N, E, W: Scalar>(
    g: GraphView<N, E, W>,
    s: int,
    dist: Seq<Option<W>>,
    prev: Seq<Option<NodeId>>,
    done: Seq<bool>,
) -> bool {
    forall|v: int, x: int, e: int| 0 <= v < g.nodes.len() && v != s && dist[v] is Some && 0 <= x < g.nodes.len()
        && done[x] && #[trigger] g.edge_step(e, x, v) && dv(dist, x) + edge_weight(g, e) == dv(dist, v)
        ==> dv(dist, pv(prev, v)) <= dv(dist, x)
}

/// Settling a node at least as far as every settled one keeps the
/// predecessors closest.
pub(super) proof fn lemma_closest_settle<N, E, W: Scalar>(
    g: GraphView<N, E, W>,
    s: int,
    dist: Seq<Option<W>>,
    prev: Seq<Option<NodeId>>,
    done: Seq<bool>,
    settled: Seq<NodeId>,
    via: Seq<int>,
    rank: Seq<int>,
    u: int,
)
    requires
        search_state(g, s, dist, prev, done, settled, via, rank),
        closest_preds(g, s, dist, prev, done),
        0 <= u < g.nodes.len(),
        forall|x: int| 0 <= x < g.nodes.len() && #[trigger] done.update(u, true)[x] ==> dv(dist, x) <= dv(dist, u),
    ensures
        closest_preds(g, s, dist, prev, done.update(u, true)),
{
    let done2 = done.update(u, true);
    assert forall|v: int, x: int, e: int| 0 <= v < g.nodes.len() && v != s && dist[v] is Some && 0 <= x < g.nodes.len()
        && done2[x] && #[trigger] g.edge_step(e, x, v) && dv(dist, x) + edge_weight(g, e) == dv(dist, v)
        implies dv(dist, pv(prev, v)) <= dv(dist, x) by {
        if x == u {
            assert(tree_link(g, dist, prev, done, via, rank, v));
            assert(done2[pv(prev, v)]);
        }
    }
}

/// Lowering the distance of `v` from the settled node `u` keeps the
/// predecessors closest: no other settled node reaches `v` that cheaply.
pub(super) proof fn lemma_closest_relax<N, E, W: Scalar>(
    g: GraphView<N, E, W>,
    s: int,
    dist: Seq<Option<W>>,
    prev: Seq<Option<NodeId>>,
    done: Seq<bool>,
    settled: Seq<NodeId>,
    via: Seq<int>,
    rank: Seq<int>,
    u: usize,
    e: int,
    v: usize,
    c: W,
)
    requires
        search_state(g, s, dist, prev, done, settled, via, rank),
        closest_preds(g, s, dist, prev, done),
        u < g.nodes.len(),
        v < g.nodes.len(),
        done[u as int],
        !done[v as int],
        g.edge_step(e, u as int, v as int),
        forall|x: int| 0 <= x < g.nodes.len() && #[trigger] done[x] && x != u ==> relaxed_from(g, dist, x),
        c.value() == dv(dist, u as int) + edge_weight(g, e),
        dist[v as int] is None || c.value() < dv(dist, v as int),
    ensures
        closest_preds(g, s, dist.update(v as int, Some(c)), prev.update(v as int, Some(NodeId(u))), done),
{
    let n = g.nodes.len();
    let dist2 = dist.update(v as int, Some(c));
    let prev2 = prev.update(v as int, Some(NodeId(u)));
    assert forall|y: int, x: int, f: int| 0 <= y < n && y != s && dist2[y] is Some && 0 <= x < n
        && done[x] && #[trigger] g.edge_step(f, x, y) && dv(dist2, x) + edge_weight(g, f) == dv(dist2, y)
        implies dv(dist2, pv(prev2, y)) <= dv(dist2, x) by {
        assert(x != v);
        if y == v {
            if x != u {
                W::lemma_range(c);
                assert(relaxed_from(g, dist, x));
                assert(g.edge_step(f, x, v as int));
            }
            assert(dist2[u as int] == dist[u as int]);
        } else {
            assert(dist[y] is Some);
            assert(tree_link(g, dist, prev, done, via, rank, y));
            assert(pv(prev, y) != v);
            assert(dv(dist, pv(prev, y)) <= dv(dist, x));
        }
    }
}

/// Settling the closest pending node `u` keeps the search state, and every
/// settled node is at least as close as `u`.
pub(super) proof fn lemma_settle<N, E, W: Scalar>(
    g: GraphView<N, E, W>,
    s: int,
    dist: Seq<Option<W>>,
    prev: Seq<Option<NodeId>>,
    done: Seq<bool>,
    settled: Seq<NodeId>,
    via: Seq<int>,
    rank: Seq<int>,
    u: usize,
)
    requires
        search_state(g, s, dist, prev, done, settled, via, rank),
        forall|e: int| 0 <= e < g.edges.len() ==> (#[trigger] g.edges[e]).weight.value() >= 0,
        0 <= u < g.nodes.len(),
        !done[u as int],
        dist[u as int] is Some,
        forall|y: int| 0 <= y < g.nodes.len() && !done[y] && (#[trigger] dist[y]) is Some ==> dv(dist, u as int) <= dv(dist, y),
    ensures
        settled.len() < g.nodes.len(),
        search_state(
            g,
            s,
            dist,
            prev,
            done.update(u as int, true),
            settled.push(NodeId(u)),
            via,
            rank.update(u as int, settled.len() as int),
        ),
        forall|x: int| 0 <= x < g.nodes.len() && #[trigger] done.update(u as int, true)[x] ==> dv(dist, x) <= dv(dist, u as int),
{
    let n = g.nodes.len();
    let done2 = done.update(u as int, true);
    let settled2 = settled.push(NodeId(u));
    let rank2 = rank.update(u as int, settled.len() as int);
    let len = settled.len() as int;
    assert forall|i: int| 0 <= i < len implies (#[trigger] settled[i]).0 != u by {
        assert(done[settled[i].0 as int]);
    }
    assert forall|i: int, j: int| 0 <= i < j < settled2.len() implies (#[trigger] settled2[i]).0 != (#[trigger] settled2[j]).0 by {
        if j < len {
            assert(settled2[i] == settled[i] && settled2[j] == settled[j]);
        } else {
            assert(settled2[i] == settled[i]);
            assert(settled[i].0 != u);
        }
    }
    assert forall|i: int| 0 <= i < settled2.len() implies (#[trigger] settled2[i]).0 < n by {
        if i < len {
            assert(settled2[i] == settled[i]);
        }
    }
    lemma_distinct_ids_bound(settled2, n as int);
    if len == 0 {
        assert(u == s);
    }
    assert forall|i: int| 0 <= i < settled2.len() implies (#[trigger] settled2[i]).0 < n
        && done2[settled2[i].0 as int] && rank2[settled2[i].0 as int] == i by {
        if i < len {
            assert(settled2[i] == settled[i]);
            assert(settled[i].0 != u);
        }
    }
    assert forall|x: int| 0 <= x < n && #[trigger] done2[x] implies 0 <= rank2[x] < settled2.len()
        && settled2[rank2[x]].0 == x && dist[x] is Some by {
        if x != u {
            assert(settled2[rank[x]] == settled[rank[x]]);
        }
    }
    assert forall|v: int| 0 <= v < n && v != s && (#[trigger] dist[v]) is Some implies tree_link(g, dist, prev, done2, via, rank2, v) by {
        assert(tree_link(g, dist, prev, done, via, rank, v));
        if v == u {
            assert(rank[pv(prev, v)] < len);
        }
    }
    assert forall|x: int, y: int| 0 <= x < n && 0 <= y < n && #[trigger] done2[x] && (#[trigger] dist[y]) is Some && !done2[y]
        implies dv(dist, x) <= dv(dist, y) by {
        if x != u {
            assert(done[x]);
        }
    }
    assert forall|x: int| 0 <= x < n && #[trigger] done2[x] implies dv(dist, x) <= dv(dist, u as int) by {
        if x != u {
            assert(done[x]);
        }
    }
}

/// Lowering the distance of `v` to `c`, reached from the settled node `u`
/// along edge `e`, keeps the search state; `v` is not settled.
pub(super) proof fn lemma_relax_update<N, E, W: Scalar>(
    g: GraphView<N, E, W>,
    s: int,
    dist: Seq<Option<W>>,
    prev: Seq<Option<NodeId>>,
    done: Seq<bool>,
    settled: Seq<NodeId>,
    via: Seq<int>,
    rank: Seq<int>,
    u: usize,
    e: int,
    v: usize,
    c: W,
)
    requires
        search_state(g, s, dist, prev, done, settled, via, rank),
        forall|e2: int| 0 <= e2 < g.edges.len() ==> (#[trigger] g.edges[e2]).weight.value() >= 0,
        u < g.nodes.len(),
        v < g.nodes.len(),
        done[u as int],
        g.edge_step(e, u as int, v as int),
        forall|x: int| 0 <= x < g.nodes.len() && #[trigger] done[x] ==> dv(dist, x) <= dv(dist, u as int),
        c.value() == dv(dist, u as int) + edge_weight(g, e),
        dist[v as int] is None || c.value() < dv(dist, v as int),
    ensures
        !done[v as int],
        v != s,
        search_state(
            g,
            s,
            dist.update(v as int, Some(c)),
            prev.update(v as int, Some(NodeId(u))),
            done,
            settled,
            via.update(v as int, e),
            rank,
        ),
{
    let n = g.nodes.len();
    let dist2 = dist.update(v as int, Some(c));
    let prev2 = prev.update(v as int, Some(NodeId(u)));
    let via2 = via.update(v as int, e);
    assert(g.edges[e].weight.value() >= 0);
    if done[v as int] {
        assert(dv(dist, v as int) <= dv(dist, u as int));
    }
    assert(v != s);
    assert(settled.len() > 0) by {
        assert(settled[rank[u as int]].0 == u);
    }
    assert forall|v2: int| 0 <= v2 < n && v2 != s && (#[trigger] dist2[v2]) is Some implies tree_link(g, dist2, prev2, done, via2, rank, v2) by {
        if v2 != v {
            assert(tree_link(g, dist, prev, done, via, rank, v2));
            assert(pv(prev, v2) != v);
        }
    }
    assert forall|x: int, y: int| 0 <= x < n && 0 <= y < n && #[trigger] done[x] && (#[trigger] dist2[y]) is Some && !done[y]
        implies dv(dist2, x) <= dv(dist2, y) by {
        if y != v {
            assert(dist2[y] == dist[y]);
        }
    }
}

/// Lowering the distance of a node other than `x` keeps the edges leaving
/// `x` relaxed.
pub(super) proof fn lemma_relaxed_lower<N, E, W: Scalar>(g: GraphView<N, E, W>, dist: Seq<Option<W>>, x: int, v: int, c: W)
    requires
        relaxed_from(g, dist, x),
        g.endpoints_valid(),
        dist.len() == g.nodes.len(),
        x != v,
        0 <= v < dist.len(),
        dist[v] is None || c.value() < dv(dist, v),
    ensures
        relaxed_from(g, dist.update(v, Some(c)), x),
{
    let dist2 = dist.update(v, Some(c));
    assert forall|e: int, y: int| #[trigger] g.edge_step(e, x, y) && dv(dist2, x) + edge_weight(g, e) <= W::highest()
        implies dist2[y] is Some && dv(dist2, y) <= dv(dist2, x) + edge_weight(g, e) by {
        assert(0 <= g.edges[e].source < g.nodes.len());
        assert(dist2[x] == dist[x]);
        assert(dist[y] is Some);
    }
}

/// When every node with a distance has its leaving edges relaxed, each walk
/// from the source reaches a node whose distance is at most the weight of
/// the walk so far.
pub(super) proof fn lemma_walk_bound<N, E, W: Scalar>(
    g: GraphView<N, E, W>,
    s: int,
    dist: Seq<Option<W>>,
    p: Seq<int>,
    es: Seq<int>,
    k: int,
)
    requires
        dist.len() == g.nodes.len(),
        0 <= s < g.nodes.len(),
        dist[s] is Some,
        dv(dist, s) == 0,
        forall|x: int| 0 <= x < g.nodes.len() && (#[trigger] dist[x]) is Some ==> relaxed_from(g, dist, x),
        forall|e: int| 0 <= e < g.edges.len() ==> (#[trigger] g.edges[e]).weight.value() >= 0,
        is_edge_walk(g, p, es),
        p[0] == s,
        0 <= k < p.len(),
        walk_weight(g, es.take(k)) <= W::highest(),
    ensures
        dist[p[k]] is Some,
        dv(dist, p[k]) <= walk_weight(g, es.take(k)),
    decreases k,
{
    if k == 0 {
        assert(Seq::new(es.take(0).len(), |i: int| edge_weight(g, es.take(0)[i])) =~= Seq::<int>::empty());
    } else {
        let terms = Seq::new(es.take(k).len(), |i: int| edge_weight(g, es.take(k)[i]));
        assert(terms.drop_last() =~= Seq::new(es.take(k - 1).len(), |i: int| edge_weight(g, es.take(k - 1)[i])));
        assert(terms.last() == edge_weight(g, es[k - 1]));
        assert(g.edge_step(es[k - 1], p[k - 1], p[k]));
        assert(edge_weight(g, es[k - 1]) >= 0);
        lemma_walk_bound(g, s, dist, p, es, k - 1);
        let x = p[k - 1];
        assert(0 <= x < g.nodes.len());
        assert(relaxed_from(g, dist, x));
    }
}

/// Following the predecessors from a settled node ends within more steps
/// than its rank.
pub(super) proof fn lemma_back_walk_ends<N, E, W: Scalar>(
    sp: ShortestPaths<W>,
    g: GraphView<N, E, W>,
    dist: Seq<Option<W>>,
    prev: Seq<Option<NodeId>>,
    done: Seq<bool>,
    settled: Seq<NodeId>,
    via: Seq<int>,
    rank: Seq<int>,
    v: usize,
    fuel: nat,
)
    requires
        search_state(g, sp.source.0 as int, dist, prev, done, settled, via, rank),
        sp.previous@ == prev,
        sp.distances@ == dist,
        v < g.nodes.len(),
        done[v as int],
        fuel > rank[v as int],
    ensures
        sp.back_walk(NodeId(v), fuel) is Some,
    decreases rank[v as int],
{
    if v != sp.source.0 {
        assert(tree_link(g, dist, prev, done, via, rank, v as int));
        let p = prev[v as int].unwrap();
        lemma_back_walk_ends(sp, g, dist, prev, done, settled, via, rank, p.0, (fuel - 1) as nat);
    }
}

/// The walk back from a reached node within `fuel` steps, read from the
/// source, is a walk of `g` from the source to the node whose weight is the
/// node's distance.
pub(super) proof fn lemma_back_walk_weight<N, E, W: Scalar>(sp: ShortestPaths<W>, g: GraphView<N, E, W>, v: usize, fuel: nat)
    requires
        sp.is_path_tree(g),
        v < g.nodes.len(),
        sp.distances@[v as int] is Some,
        sp.back_walk(NodeId(v), fuel) is Some,
    ensures
        ({
            let q = node_ids(sp.back_walk(NodeId(v), fuel).unwrap().reverse());
            &&& q[0] == sp.source.0
            &&& q.last() == v
            &&& exists|es: Seq<int>| #[trigger] is_edge_walk(g, q, es) && walk_weight(g, es) == sp.dist(v as int)
        }),
    decreases fuel,
{
    let q = node_ids(sp.back_walk(NodeId(v), fuel).unwrap().reverse());
    if v == sp.source.0 {
        assert(q =~= seq![v as int]);
        let es = Seq::<int>::empty();
        assert(Seq::new(es.len(), |i: int| edge_weight(g, es[i])) =~= Seq::<int>::empty());
        assert(is_edge_walk(g, q, es));
    } else {
        let p = sp.previous@[v as int].unwrap();
        assert(sp.distances@[v as int] is Some);
        assert(sp.tree_step(g, v as int));
        let e = choose|e: int| #[trigger] g.edge_step(e, sp.pred(v as int), v as int)
            && sp.dist(v as int) == sp.dist(sp.pred(v as int)) + edge_weight(g, e);
        lemma_back_walk_weight(sp, g, p.0, (fuel - 1) as nat);
        let rest = sp.back_walk(p, (fuel - 1) as nat).unwrap();
        let q1 = node_ids(rest.reverse());
        let es1 = choose|es: Seq<int>| #[trigger] is_edge_walk(g, q1, es) && walk_weight(g, es) == sp.dist(p.0 as int);
        assert(sp.back_walk(NodeId(v), fuel).unwrap() == seq![NodeId(v)] + rest);
        assert(q =~= q1.push(v as int));
        let es = es1.push(e);
        assert(is_edge_walk(g, q, es)) by {
            assert forall|i: int| 0 <= i < es.len() implies g.edge_step(#[trigger] es[i], q[i], q[i + 1]) by {
                if i < es1.len() {
                    assert(g.edge_step(es1[i], q1[i], q1[i + 1]));
                }
            }
        }
        let terms = Seq::new(es.len(), |i: int| edge_weight(g, es[i]));
        assert(terms.drop_last() =~= Seq::new(es1.len(), |i: int| edge_weight(g, es1[i])));
    }
}

/// The route that `path_to` reads from a shortest-path tree is a walk of
/// the graph from the source to the node whose weight is the node's
/// distance; together with `bounds_every_walk`, it is a lightest such walk.
pub proof fn lemma_route_realizes_distance<N, E, W: Scalar>(sp: ShortestPaths<W>, g: GraphView<N, E, W>, v: usize)
    requires
        sp.is_path_tree(g),
        v < g.nodes.len(),
        sp.distances@[v as int] is Some,
    ensures
        node_ids(sp.route(NodeId(v)).reverse())[0] == sp.source.0,
        node_ids(sp.route(NodeId(v)).reverse()).last() == v,
        exists|es: Seq<int>| #[trigger] is_edge_walk(g, node_ids(sp.route(NodeId(v)).reverse()), es)
            && walk_weight(g, es) == sp.dist(v as int),
{
    assert(sp.walk_ends(NodeId(v)));
    let fuel = choose|fuel: nat| #[trigger] sp.back_walk(NodeId(v), fuel) is Some;
    lemma_back_walk_weight(sp, g, v, fuel);
}

impl<N, E, W: Scalar> Graph<N, E, W> {
    /// The pending node (not settled, with a distance) of least distance,
    /// the first such on ties, if any.
    fn closest_pending(dist: &Vec<Option<W>>, done: &Vec<bool>) -> (r: Option<usize>)
        requires
            dist@.len() == done@.len(),
        ensures
            r matches Some(u) ==> u < dist@.len() && !done@[u as int] && dist@[u as int] is Some
                && forall|y: int| 0 <= y < dist@.len() && !done@[y] && (#[trigger] dist@[y]) is Some
                    ==> dv(dist@, u as int) <= dv(dist@, y),
            r is None ==> forall|y: int| 0 <= y < dist@.len() && (#[trigger] dist@[y]) is Some ==> done@[y],
    {
        let mut best: Option<usize> = None;
        let mut k: usize = 0;
        while k < dist.len()
            invariant
                dist@.len() == done@.len(),
                k <= dist@.len(),
                best matches Some(b) ==> b < k && !done@[b as int] && dist@[b as int] is Some
                    && forall|y: int| 0 <= y < k && !done@[y] && (#[trigger] dist@[y]) is Some
                        ==> dv(dist@, b as int) <= dv(dist@, y),
                best is None ==> forall|y: int| 0 <= y < k && (#[trigger] dist@[y]) is Some ==> done@[y],
            decreases dist@.len() - k,
        {
            if !done[k] {
                match dist[k] {
                    Some(d) => {
                        match best {
                            None => {
                                best = Some(k);
                            },
                            Some(b) => {
                                match dist[b] {
                                    Some(bd) => {
                                        if d.less_than(bd) {
                                            best = Some(k);
                                        }
                                    },
                                    None => {},
                                }
                            },
                        }
                    },
                    None => {},
                }
            }
            k = k + 1;
        }
        best
    }

    /// Shortest distances from `source` along edges of nonnegative weight, and
    /// for each node reached the node before it on a shortest walk. Nodes are
    /// settled closest first; each settled node relaxes its edges, lowering
    /// the distance of a neighbour only when it finds a strictly shorter
    /// walk. Fails when `source` does not exist.
    pub fn dijkstra(&self, source: NodeId) -> (r: Result<ShortestPaths<W>, MathError>)
        requires
            self.well_formed(),
            forall|e: int| 0 <= e < self@.edges.len() ==> (#[trigger] self@.edges[e]).weight.value() >= 0,
            distances_fit(self@, source.0 as int),
        ensures
            r is Ok <==> source.0 < self@.nodes.len(),
            r matches Ok(p) ==> {
                &&& p.source == source
                &&& p.is_path_tree(self@)
                &&& p.bounds_every_walk(self@)
                &&& forall|v: int| 0 <= v < self@.nodes.len() && v != source.0 && (#[trigger] p.distances@[v]) is Some
                    ==> p.pred_is_closest(self@, v)
            },
            r matches Err(e) ==> is_invalid_graph(e, missing_node_message(source.0 as nat)),
    {
        match self.ensure_node(source) {
            Ok(()) => {},
            Err(e) => return Err(e),
        }
        let n = self.nodes.len();
        let ghost g = self@;
        let ghost s = source.0 as int;
        let ghost m = self.edges@.len() as int;
        let mut dist: Vec<Option<W>> = Vec::new();
        let mut prev: Vec<Option<NodeId>> = Vec::new();
        let mut done: Vec<bool> = Vec::new();
        let mut i: usize = 0;
        while i < n
            invariant
                i <= n,
                dist@.len() == i,
                prev@.len() == i,
                done@.len() == i,
                forall|j: int| 0 <= j < i ==> (#[trigger] dist@[j]) is None,
                forall|j: int| 0 <= j < i ==> (#[trigger] prev@[j]) is None,
                forall|j: int| 0 <= j < i ==> !(#[trigger] done@[j]),
            decreases n - i,
        {
            dist.push(None);
            prev.push(None);
            done.push(false);
            i = i + 1;
        }
        dist.set(source.0, Some(W::zero()));
        let ghost mut settled: Seq<NodeId> = Seq::empty();
        let ghost mut via: Seq<int> = Seq::new(n as nat, |j: int| 0int);
        let ghost mut rank: Seq<int> = Seq::new(n as nat, |j: int| 0int);
        proof {
            self.lemma_endpoints_valid();
            assert forall|v: int| 0 <= v < n && v != s implies (#[trigger] dist@[v]) is None by {
                assert(dist@[v] == Option::<W>::None);
            }
            assert forall|x: int| 0 <= x < n implies !(#[trigger] done@[x]) by {}
            assert forall|v: int| 0 <= v < n && (#[trigger] dist@[v]) is None implies prev@[v] is None by {}
            assert(prev@[s] is None);
            assert(search_state(g, s, dist@, prev@, done@, settled, via, rank));
            assert(closest_preds(g, s, dist@, prev@, done@));
        }
        loop
            invariant
                self.well_formed(),
                g == self@,
                g.endpoints_valid(),
                n == g.nodes.len(),
                m == g.edges.len(),
                s == source.0,
                forall|e: int| 0 <= e < g.edges.len() ==> (#[trigger] g.edges[e]).weight.value() >= 0,
                distances_fit(g, s),
                search_state(g, s, dist@, prev@, done@, settled, via, rank),
                forall|x: int| 0 <= x < n && #[trigger] done@[x] ==> relaxed_from(g, dist@, x),
                closest_preds(g, s, dist@, prev@, done@),
            ensures
                forall|v: int| 0 <= v < n && (#[trigger] dist@[v]) is Some ==> done@[v],
            decreases n - settled.len(),
        {
            let next = Self::closest_pending(&dist, &done);
            let u = match next {
                None => break,
                Some(u) => u,
            };
            proof {
                lemma_settle(g, s, dist@, prev@, done@, settled, via, rank, u);
                lemma_closest_settle(g, s, dist@, prev@, done@, settled, via, rank, u as int);
            }
            let ghost done0 = done@;
            done.set(u, true);
            proof {
                rank = rank.update(u as int, settled.len() as int);
                settled = settled.push(NodeId(u));
                assert(done@ == done0.update(u as int, true));
                assert forall|x: int| 0 <= x < n && #[trigger] done@[x] && x != u implies relaxed_from(g, dist@, x) by {
                    assert(done0[x]);
                }
            }
            let du = match dist[u] {
                Some(d) => d,
                None => return Err(missing_node(source)),
            };
            let list = &self.adjacency[u];
            let ghost adj = self.adj_view(u as int);
            proof {
                assert(adj == incident(g, u as int, m));
            }
            let mut k: usize = 0;
            while k < list.len()
                invariant
                    self.well_formed(),
                    g == self@,
                    g.endpoints_valid(),
                    n == g.nodes.len(),
                    m == g.edges.len(),
                    s == source.0,
                    forall|e: int| 0 <= e < g.edges.len() ==> (#[trigger] g.edges[e]).weight.value() >= 0,
                    distances_fit(g, s),
                    search_state(g, s, dist@, prev@, done@, settled, via, rank),
                    u < n,
                    done@[u as int],
                    du.value() == dv(dist@, u as int),
                    forall|x: int| 0 <= x < n && #[trigger] done@[x] ==> dv(dist@, x) <= dv(dist@, u as int),
                    forall|x: int| 0 <= x < n && #[trigger] done@[x] && x != u ==> relaxed_from(g, dist@, x),
                    list@ == self.adjacency@[u as int]@,
                    adj == self.adj_view(u as int),
                    adj == incident(g, u as int, m),
                    k <= list@.len(),
                    forall|j: int| 0 <= j < k && dv(dist@, u as int) + edge_weight(g, adj[j].0) <= W::highest()
                        ==> (#[trigger] dist@[adj[j].1]) is Some
                        && dv(dist@, adj[j].1) <= dv(dist@, u as int) + edge_weight(g, adj[j].0),
                    closest_preds(g, s, dist@, prev@, done@),
                decreases list@.len() - k,
            {
                let e = list[k].edge_id;
                let v = list[k].neighbor;
                proof {
                    lemma_incident_sound(g, u as int, m, k as int);
                    assert(adj[k as int] == (e.0 as int, v.0 as int));
                    assert(g.edge_step(e.0 as int, u as int, v.0 as int));
                    assert(v.0 < n);
                }
                let w = self.edges[e.0].weight;
                proof {
                    assert(g.edges[e.0 as int].weight == w);
                }
                match du.checked_plus(w) {
                    Some(c) => {
                        let better = match dist[v.0] {
                            None => true,
                            Some(d) => c.less_than(d),
                        };
                        if better {
                            proof {
                                lemma_relax_update(g, s, dist@, prev@, done@, settled, via, rank, u, e.0 as int, v.0, c);
                                lemma_closest_relax(g, s, dist@, prev@, done@, settled, via, rank, u, e.0 as int, v.0, c);
                                assert forall|x: int| 0 <= x < n && #[trigger] done@[x] && x != u
                                    implies relaxed_from(g, dist@.update(v.0 as int, Some(c)), x) by {
                                    lemma_relaxed_lower(g, dist@, x, v.0 as int, c);
                                }
                            }
                            let ghost dist0 = dist@;
                            dist.set(v.0, Some(c));
                            prev.set(v.0, Some(NodeId(u)));
                            proof {
                                via = via.update(v.0 as int, e.0 as int);
                                assert(dist@[u as int] == dist0[u as int]);
                                assert forall|j: int| 0 <= j < k && dv(dist@, u as int) + edge_weight(g, adj[j].0) <= W::highest()
                                    implies (#[trigger] dist@[adj[j].1]) is Some
                                    && dv(dist@, adj[j].1) <= dv(dist@, u as int) + edge_weight(g, adj[j].0) by {
                                    lemma_incident_sound(g, u as int, m, j);
                                    assert(dist0[adj[j].1] is Some);
                                }
                            }
                        }
                    },
                    None => {
                        proof {
                            W::lemma_range(du);
                            assert(g.edges[e.0 as int].weight.value() >= 0);
                        }
                    },
                }
                k = k + 1;
            }
            proof {
                assert(adj.len() == list@.len());
                assert forall|e: int, v: int| #[trigger] g.edge_step(e, u as int, v) && dv(dist@, u as int) + edge_weight(g, e) <= W::highest()
                    implies dist@[v] is Some && dv(dist@, v) <= dv(dist@, u as int) + edge_weight(g, e) by {
                    lemma_incident_complete(g, u as int, m, e, v);
                    let j = choose|j: int| 0 <= j < incident(g, u as int, m).len()
                        && #[trigger] incident(g, u as int, m)[j] == (e, v);
                    assert(adj[j] == (e, v));
                    assert(dist@[adj[j].1] is Some);
                }
            }
        }
        let result = ShortestPaths { source, distances: dist, previous: prev };
        proof {
            let sp = result;
            assert forall|v: int| 0 <= v < n && (#[trigger] sp.distances@[v]) is Some implies sp.walk_ends(NodeId(v as usize)) by {
                lemma_back_walk_ends(sp, g, dist@, prev@, done@, settled, via, rank, v as usize, (rank[v] + 1) as nat);
            }
            assert forall|v: int| 0 <= v < n && v != s && (#[trigger] sp.distances@[v]) is Some implies {
                &&& sp.previous@[v] is Some
                &&& 0 <= sp.pred(v) < n
                &&& sp.distances@[sp.pred(v)] is Some
                &&& sp.tree_step(g, v)
            } by {
                assert(tree_link(g, dist@, prev@, done@, via, rank, v));
                assert(g.edge_step(via[v], sp.pred(v), v));
            }
            assert forall|v: int| 0 <= v < n && v != s && (#[trigger] sp.distances@[v]) is Some implies sp.pred_is_closest(g, v) by {
                assert forall|x: int, e: int| 0 <= x < n && #[trigger] g.edge_step(e, x, v)
                    && sp.distances@[x] is Some && sp.dist(x) + edge_weight(g, e) == sp.dist(v)
                    implies sp.dist(sp.pred(v)) <= sp.dist(x) by {
                    assert(done@[x]);
                }
            }
            assert forall|p: Seq<int>, es: Seq<int>| #[trigger] is_edge_walk(g, p, es) && p[0] == sp.source.0 implies {
                &&& sp.distances@[p.last()] is Some
                &&& sp.dist(p.last()) <= walk_weight(g, es)
            } by {
                assert(es.take(p.len() - 1) =~= es);
                if walk_weight(g, es) <= W::highest() {
                    lemma_walk_bound(g, s, dist@, p, es, p.len() - 1);
                } else {
                    assert(reached_within(g, s, p.last()));
                    let (q, fs) = choose|q: Seq<int>, fs: Seq<int>| #[trigger] is_edge_walk(g, q, fs) && q[0] == s
                        && q.last() == p.last() && walk_weight(g, fs) <= W::highest();
                    assert(fs.take(q.len() - 1) =~= fs);
                    lemma_walk_bound(g, s, dist@, q, fs, q.len() - 1);
                }
            }
        }
        Ok(result)
    }
}

} // verus!
