use vstd::prelude::*;
use super::{GraphView, NodeId, incident, is_listed, lemma_listed_push};
use super::search::{count_nb, in_count, kahn_state, lemma_count_take_bound, lemma_in_count_positive};

verus! {

/// In a directed graph the list of `u` holds exactly the edges leaving `u`
/// among the first `k`, in increasing order, each with its target.
pub(super) proof fn lemma_incident_exact<N, E, W>(g: GraphView<N, E, W>, u: int, k: int)
    requires
        g.directed,
        0 <= k <= g.edges.len(),
    ensures
        forall|i: int, j: int| 0 <= i < j < incident(g, u, k).len() ==>
            (#[trigger] incident(g, u, k)[i]).0 < (#[trigger] incident(g, u, k)[j]).0,
        forall|i: int| 0 <= i < incident(g, u, k).len() ==> 0 <= (#[trigger] incident(g, u, k)[i]).0 < k
            && g.edges[incident(g, u, k)[i].0].source == u && g.edges[incident(g, u, k)[i].0].target == incident(g, u, k)[i].1,
        forall|f: int| 0 <= f < k && (#[trigger] g.edges[f]).source == u ==>
            exists|i: int| 0 <= i < incident(g, u, k).len() && incident(g, u, k)[i].0 == f,
    decreases k,
{
    if k > 0 {
        lemma_incident_exact(g, u, k - 1);
        let prev = incident(g, u, k - 1);
        let cur = incident(g, u, k);
        let e = g.edges[k - 1];
        if e.source == u {
            assert(cur == prev.push((k - 1, e.target)));
            assert forall|i: int, j: int| 0 <= i < j < cur.len() implies (#[trigger] cur[i]).0 < (#[trigger] cur[j]).0 by {
                assert(cur[i] == prev[i]);
                if j < prev.len() {
                    assert(cur[j] == prev[j]);
                }
            }
            assert forall|i: int| 0 <= i < cur.len() implies 0 <= (#[trigger] cur[i]).0 < k
                && g.edges[cur[i].0].source == u && g.edges[cur[i].0].target == cur[i].1 by {
                if i < prev.len() {
                    assert(cur[i] == prev[i]);
                }
            }
            assert forall|f: int| 0 <= f < k && (#[trigger] g.edges[f]).source == u implies
                exists|i: int| 0 <= i < cur.len() && cur[i].0 == f by {
                if f < k - 1 {
                    let i = choose|i: int| 0 <= i < prev.len() && prev[i].0 == f;
                    assert(cur[i] == prev[i]);
                } else {
                    assert(cur[prev.len() as int].0 == f);
                }
            }
        } else {
            assert(cur == prev);
        }
    }
}

/// The first `t` entries count every `v` of the list exactly when no later
/// entry has `v` at its other end.
pub(super) proof fn lemma_count_tail(s: Seq<(int, int)>, t: int, v: int)
    requires
        0 <= t <= s.len(),
    ensures
        (count_nb(s.take(t), v) == count_nb(s, v)) <==> (forall|i: int| t <= i < s.len() ==> s[i].1 != v),
    decreases s.len(),
{
    if t == s.len() {
        assert(s.take(t) =~= s);
    } else {
        let d = s.drop_last();
        lemma_count_tail(d, t, v);
        assert(d.take(t) =~= s.take(t));
        lemma_count_take_bound(d, t, v);
        if s.last().1 == v {
            assert(s[s.len() - 1].1 == v);
        } else {
            if forall|i: int| t <= i < d.len() ==> d[i].1 != v {
                assert forall|i: int| t <= i < s.len() implies s[i].1 != v by {
                    if i < d.len() {
                        assert(d[i] == s[i]);
                    }
                }
            }
            if forall|i: int| t <= i < s.len() ==> s[i].1 != v {
                assert forall|i: int| t <= i < d.len() implies d[i].1 != v by {
                    assert(d[i] == s[i]);
                }
            }
        }
    }
}

/// Progress of Kahn's algorithm over the nodes `s` queued so far, of which
/// those before position `p` have been taken out, and of the node at `p` the
/// first `t` edges of its list `adj`: `s` is Kahn's order so far; every
/// source is queued; every node released by an edge already taken is queued.
#[verifier::opaque]
pub(super) open spec fn kahn_listing<N, E, W>(g: GraphView<N, E, W>, s: Seq<NodeId>, p: int, adj: Seq<(int, int)>, t: int) -> bool {
    &&& g.is_kahn_order(s)
    &&& forall|v: int| 0 <= v < g.nodes.len() && #[trigger] g.is_source(v) ==> is_listed(s, v)
    &&& forall|y: int, j: int, f: int| #[trigger] g.releases(s, j, f, y) && j < p ==> is_listed(s, y)
    &&& forall|y: int, i: int| 0 <= i < t && #[trigger] g.releases(s, p, adj[i].0, y) ==> is_listed(s, y)
}

/// Kahn's algorithm starts with the sources in increasing order of id.
pub(super) proof fn lemma_kahn_listing_start<N, E, W>(g: GraphView<N, E, W>, q: Seq<NodeId>)
    requires
        forall|i: int| 0 <= i < q.len() ==> (#[trigger] q[i]).0 < g.nodes.len() && g.is_source(q[i].0 as int),
        forall|i: int, j: int| 0 <= i < j < q.len() ==> q[i].0 < q[j].0,
        forall|v: int| 0 <= v < g.nodes.len() && #[trigger] g.is_source(v) ==> exists|i: int| 0 <= i < q.len() && q[i].0 == v,
    ensures
        kahn_listing(g, q, 0, Seq::empty(), 0),
{
    reveal(kahn_listing);
    assert forall|i: int| 0 <= i < q.len() implies #[trigger] g.kahn_next(q.take(i), q[i].0 as int) by {
        let x = q[i].0 as int;
        let l = q.take(i);
        assert(!is_listed(l, x)) by {
            if is_listed(l, x) {
                let k = choose|k: int| 0 <= k < l.len() && l[k].0 == x;
                assert(q[k].0 < q[i].0);
            }
        }
        assert forall|v: int| 0 <= v < x && #[trigger] g.is_source(v) implies is_listed(l, v) by {
            let k = choose|k: int| 0 <= k < q.len() && q[k].0 == v;
            if k >= i {
                if k > i {
                    assert(q[i].0 < q[k].0);
                }
            }
            assert(l[k] == q[k]);
        }
    }
    assert forall|v: int| 0 <= v < g.nodes.len() && #[trigger] g.is_source(v) implies is_listed(q, v) by {
        let k = choose|k: int| 0 <= k < q.len() && q[k].0 == v;
    }
}

/// Taking the next node out of the queue: nothing of its list is taken yet.
pub(super) proof fn lemma_kahn_listing_begin<N, E, W>(g: GraphView<N, E, W>, s: Seq<NodeId>, p: int, adj: Seq<(int, int)>)
    requires
        kahn_listing(g, s, p, Seq::empty(), 0),
    ensures
        kahn_listing(g, s, p, adj, 0),
{
    reveal(kahn_listing);
}

/// Taking edge `t` of the node at position `p`, which leads to `x`: `x` is
/// queued (`zero`) exactly when no edge into it is left, and then it is
/// Kahn's choice.
pub(super) proof fn lemma_kahn_listing_step<N, E, W>(
    g: GraphView<N, E, W>,
    s: Seq<NodeId>,
    p: int,
    adj: Seq<(int, int)>,
    t: int,
    done0: Seq<bool>,
    x: NodeId,
    zero: bool,
)
    requires
        g.directed,
        g.endpoints_valid(),
        kahn_listing(g, s, p, adj, t),
        0 <= p < s.len(),
        0 <= s[p].0 < g.nodes.len(),
        adj == incident(g, s[p].0 as int, g.edges.len() as int),
        0 <= t < adj.len(),
        x.0 == adj[t].1,
        done0.len() == g.nodes.len(),
        forall|v: int| 0 <= v < g.nodes.len() ==> (done0[v] <==> is_listed(s.take(p), v)),
        !done0[s[p].0 as int],
        !is_listed(s, x.0 as int),
        zero <==> (in_count(g, x.0 as int, done0.update(s[p].0 as int, true), g.edges.len() as int) == 0
            && count_nb(adj.take(t + 1), x.0 as int) == count_nb(adj, x.0 as int)),
    ensures
        zero ==> kahn_listing(g, s.push(x), p, adj, t + 1),
        !zero ==> kahn_listing(g, s, p, adj, t + 1),
{
    reveal(kahn_listing);
    let u = s[p].0 as int;
    let m = g.edges.len() as int;
    let f = adj[t].0;
    let xv = x.0 as int;
    let done = done0.update(u, true);
    lemma_incident_exact(g, u, m);
    lemma_in_count_positive(g, xv, done, m);
    lemma_count_tail(adj, t + 1, xv);
    assert(adj[t].0 == f);
    assert(0 <= f < m && g.edges[f].source == u && g.edges[f].target == xv);
    assert(0 <= xv < g.nodes.len());
    assert(!is_listed(s.take(p), u));
    assert(zero <==> g.releases(s, p, f, xv)) by {
        if zero {
            assert forall|e: int| 0 <= e < m && (#[trigger] g.edges[e]).target == xv implies
                is_listed(s.take(p), g.edges[e].source) || (g.edges[e].source == u && e <= f) by {
                let src = g.edges[e].source;
                assert(0 <= src < g.nodes.len());
                if !done[src] {
                    assert(0 <= e < m && g.edges[e].target == xv && !done[src]);
                }
                if src == u {
                    let i = choose|i: int| 0 <= i < adj.len() && adj[i].0 == e;
                    if i > t {
                        assert(adj[i].1 == xv);
                    } else if i < t {
                        assert(adj[i].0 < adj[t].0);
                    }
                } else {
                    assert(done0[src]);
                }
            }
        }
        if g.releases(s, p, f, xv) {
            if in_count(g, xv, done, m) != 0 {
                let e = choose|e: int| 0 <= e < m && #[trigger] g.edges[e].target == xv && !done[g.edges[e].source];
                let src = g.edges[e].source;
                assert(0 <= src < g.nodes.len());
                if is_listed(s.take(p), src) {
                    assert(done0[src]);
                }
            }
            assert forall|i: int| t + 1 <= i < adj.len() implies adj[i].1 != xv by {
                if adj[i].1 == xv {
                    let e = adj[i].0;
                    assert(adj[t].0 < adj[i].0);
                    assert(g.edges[e].target == xv && g.edges[e].source == u);
                }
            }
        }
    }
    if zero {
        let s2 = s.push(x);
        lemma_listed_push(g, s, x);
        assert(!g.is_source(xv)) by {
            assert(g.edges[f].target == xv);
        }
        assert(g.released_first(s, p, f)) by {
            assert forall|y: int, j2: int, f2: int| #[trigger] g.releases(s, j2, f2, y) && !is_listed(s, y) implies
                p < j2 || (p == j2 && f <= f2) by {
                if j2 == p {
                    assert(g.edges[f2].source == u);
                    let i = choose|i: int| 0 <= i < adj.len() && adj[i].0 == f2;
                    if i < t {
                        assert(g.releases(s, p, adj[i].0, y));
                    } else if i > t {
                        assert(adj[t].0 < adj[i].0);
                    }
                }
            }
        }
        assert(g.kahn_next(s, xv));
        assert forall|i: int| 0 <= i < s2.len() implies #[trigger] g.kahn_next(s2.take(i), s2[i].0 as int) by {
            if i < s.len() {
                assert(s2.take(i) =~= s.take(i));
                assert(s2[i] == s[i]);
            } else {
                assert(s2.take(i) =~= s);
            }
        }
        assert forall|y: int, j: int, f2: int| #[trigger] g.releases(s2, j, f2, y) && j < p implies is_listed(s2, y) by {
            assert(s2.take(j) =~= s.take(j));
            assert(s2[j] == s[j]);
            assert(g.releases(s, j, f2, y));
        }
        assert forall|y: int, i: int| 0 <= i < t + 1 && #[trigger] g.releases(s2, p, adj[i].0, y) implies is_listed(s2, y) by {
            assert(s2.take(p) =~= s.take(p));
            assert(s2[p] == s[p]);
            if i < t {
                assert(g.releases(s, p, adj[i].0, y));
            } else {
                assert(y == xv);
            }
        }
    } else {
        assert forall|y: int, i: int| 0 <= i < t + 1 && #[trigger] g.releases(s, p, adj[i].0, y) implies is_listed(s, y) by {
            if i == t {
                assert(y == xv);
            }
        }
    }
}

/// Once every edge of the node at position `p` is taken, that node is done.
pub(super) proof fn lemma_kahn_listing_finish<N, E, W>(g: GraphView<N, E, W>, s: Seq<NodeId>, p: int, adj: Seq<(int, int)>)
    requires
        g.directed,
        kahn_listing(g, s, p, adj, adj.len() as int),
        0 <= p < s.len(),
        adj == incident(g, s[p].0 as int, g.edges.len() as int),
    ensures
        kahn_listing(g, s, p + 1, Seq::empty(), 0),
{
    reveal(kahn_listing);
    let u = s[p].0 as int;
    lemma_incident_exact(g, u, g.edges.len() as int);
    assert forall|y: int, j: int, f: int| #[trigger] g.releases(s, j, f, y) && j < p + 1 implies is_listed(s, y) by {
        if j == p {
            assert(g.edges[f].source == u);
            let i = choose|i: int| 0 <= i < adj.len() && adj[i].0 == f;
            assert(g.releases(s, p, adj[i].0, y));
        }
    }
}

/// The order found is Kahn's order.
pub(super) proof fn lemma_kahn_listing_order<N, E, W>(g: GraphView<N, E, W>, s: Seq<NodeId>, p: int, adj: Seq<(int, int)>, t: int)
    requires
        kahn_listing(g, s, p, adj, t),
    ensures
        g.is_kahn_order(s),
{
    reveal(kahn_listing);
}

/// A node that is neither taken out nor waiting with no edge left is not
/// queued.
pub(super) proof fn lemma_kahn_unlisted<N, E, W>(g: GraphView<N, E, W>, order: Seq<NodeId>, queue: Seq<NodeId>, done: Seq<bool>, indeg: Seq<usize>, x: int)
    requires
        kahn_state(g, order, queue, done, indeg),
        0 <= x < g.nodes.len(),
        !done[x],
        indeg[x] >= 1,
    ensures
        !is_listed(order + queue, x),
{
    reveal(kahn_state);
    if is_listed(order + queue, x) {
        let i = choose|i: int| 0 <= i < (order + queue).len() && (order + queue)[i].0 == x;
        if i < order.len() {
            assert(order[i] == (order + queue)[i]);
        } else {
            assert(queue[i - order.len()] == (order + queue)[i]);
        }
    }
}

} // verus!
