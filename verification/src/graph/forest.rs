use vstd::prelude::*;
use super::{EdgeId, Graph, GraphView, is_invalid_graph};
use crate::error::MathError;
use crate::scalar::Scalar;
use crate::vector::sum;
use super::optimal::lemma_greedy_forest_minimal;

verus! {

pub(super) proof fn lemma_joined_refl<N, E, W>(g: GraphView<N, E, W>, set: Seq<EdgeId>, x: int)
    ensures
        g.joined(set, x, x),
{
    let p = seq![x];
    assert(g.is_path_in(set, p));
}

/// With no edges only a node and itself are connected.
pub(super) proof fn lemma_joined_empty<N, E, W>(g: GraphView<N, E, W>, set: Seq<EdgeId>, x: int, y: int)
    requires
        set.len() == 0,
    ensures
        g.joined(set, x, y) ==> x == y,
{
    if g.joined(set, x, y) {
        let p = choose|p: Seq<int>| #[trigger] g.is_path_in(set, p) && p[0] == x && p.last() == y;
        if p.len() > 1 {
            assert(g.set_joins(set, p[0], p[0int + 1]));
        }
    }
}

pub(super) proof fn lemma_joined_step<N, E, W>(g: GraphView<N, E, W>, set: Seq<EdgeId>, x: int, y: int)
    requires
        g.set_joins(set, x, y),
    ensures
        g.joined(set, x, y),
{
    let p = seq![x, y];
    assert(g.set_joins(set, p[0], p[0int + 1]));
    assert(g.is_path_in(set, p));
}

pub(super) proof fn lemma_joined_sym<N, E, W>(g: GraphView<N, E, W>, set: Seq<EdgeId>, x: int, y: int)
    requires
        g.joined(set, x, y),
    ensures
        g.joined(set, y, x),
{
    let p = choose|p: Seq<int>| #[trigger] g.is_path_in(set, p) && p[0] == x && p.last() == y;
    let q = p.reverse();
    assert forall|i: int| 0 <= i < q.len() - 1 implies #[trigger] g.set_joins(set, q[i], q[i + 1]) by {
        let j = p.len() - 2 - i;
        assert(g.set_joins(set, p[j], p[j + 1]));
        let k = choose|k: int| 0 <= k < set.len() && #[trigger] g.edge_joins(set[k].0 as int, p[j], p[j + 1]);
        assert(q[i] == p[j + 1] && q[i + 1] == p[j]);
        assert(g.edge_joins(set[k].0 as int, q[i], q[i + 1]));
    }
    assert(g.is_path_in(set, q));
}

pub(super) proof fn lemma_joined_sym_iff<N, E, W>(g: GraphView<N, E, W>, set: Seq<EdgeId>, x: int, y: int)
    ensures
        g.joined(set, x, y) <==> g.joined(set, y, x),
{
    if g.joined(set, x, y) {
        lemma_joined_sym(g, set, x, y);
    }
    if g.joined(set, y, x) {
        lemma_joined_sym(g, set, y, x);
    }
}

pub(super) proof fn lemma_joined_trans<N, E, W>(g: GraphView<N, E, W>, set: Seq<EdgeId>, x: int, y: int, z: int)
    requires
        g.joined(set, x, y),
        g.joined(set, y, z),
    ensures
        g.joined(set, x, z),
{
    let p = choose|p: Seq<int>| #[trigger] g.is_path_in(set, p) && p[0] == x && p.last() == y;
    let q = choose|q: Seq<int>| #[trigger] g.is_path_in(set, q) && q[0] == y && q.last() == z;
    let r = p + q.drop_first();
    assert forall|i: int| 0 <= i < r.len() - 1 implies #[trigger] g.set_joins(set, r[i], r[i + 1]) by {
        if i < p.len() - 1 {
            assert(r[i] == p[i] && r[i + 1] == p[i + 1]);
        } else {
            let j = i - (p.len() - 1);
            assert(g.set_joins(set, q[j], q[j + 1]));
            assert(r[i] == q[j]);
            assert(r[i + 1] == q[j + 1]);
        }
    }
    assert(g.is_path_in(set, r));
    if q.len() == 1 {
        assert(r =~= p);
    } else {
        assert(r.last() == q.last());
    }
}

/// Connections over fewer edges survive adding one.
pub(super) proof fn lemma_joined_grow<N, E, W>(g: GraphView<N, E, W>, set: Seq<EdgeId>, f: EdgeId, x: int, y: int)
    requires
        g.joined(set, x, y),
    ensures
        g.joined(set.push(f), x, y),
{
    let p = choose|p: Seq<int>| #[trigger] g.is_path_in(set, p) && p[0] == x && p.last() == y;
    let s2 = set.push(f);
    assert forall|i: int| 0 <= i < p.len() - 1 implies #[trigger] g.set_joins(s2, p[i], p[i + 1]) by {
        assert(g.set_joins(set, p[i], p[i + 1]));
        let k = choose|k: int| 0 <= k < set.len() && #[trigger] g.edge_joins(set[k].0 as int, p[i], p[i + 1]);
        assert(s2[k] == set[k]);
    }
    assert(g.is_path_in(s2, p));
}

/// What one more edge `f` connects: old connections, and connections that
/// run through `f` once.
pub(super) open spec fn joined_via<N, E, W>(g: GraphView<N, E, W>, set: Seq<EdgeId>, f: EdgeId, x: int, z: int) -> bool {
    let a = g.edges[f.0 as int].source;
    let b = g.edges[f.0 as int].target;
    ||| g.joined(set, x, z)
    ||| (g.joined(set, x, a) && g.joined(set, b, z))
    ||| (g.joined(set, x, b) && g.joined(set, a, z))
}

pub(super) proof fn lemma_joined_push_prefix<N, E, W>(g: GraphView<N, E, W>, set: Seq<EdgeId>, f: EdgeId, p: Seq<int>, k: int)
    requires
        0 <= f.0 < g.edges.len(),
        g.is_path_in(set.push(f), p),
        0 <= k < p.len(),
    ensures
        joined_via(g, set, f, p[0], p[k]),
    decreases k,
{
    let x = p[0];
    let a = g.edges[f.0 as int].source;
    let b = g.edges[f.0 as int].target;
    let s2 = set.push(f);
    if k == 0 {
        lemma_joined_refl(g, set, x);
    } else {
        lemma_joined_push_prefix(g, set, f, p, k - 1);
        let z = p[k - 1];
        let w = p[k];
        assert(g.set_joins(s2, p[k - 1], p[(k - 1) + 1]));
        let j = choose|j: int| 0 <= j < s2.len() && #[trigger] g.edge_joins(s2[j].0 as int, z, w);
        if j < set.len() {
            assert(s2[j] == set[j]);
            assert(g.set_joins(set, z, w));
            lemma_joined_step(g, set, z, w);
            if g.joined(set, x, z) {
                lemma_joined_trans(g, set, x, z, w);
            }
            if g.joined(set, x, a) && g.joined(set, b, z) {
                lemma_joined_trans(g, set, b, z, w);
            }
            if g.joined(set, x, b) && g.joined(set, a, z) {
                lemma_joined_trans(g, set, a, z, w);
            }
        } else {
            assert(s2[j] == f);
            lemma_joined_refl(g, set, a);
            lemma_joined_refl(g, set, b);
            if z == a && w == b {
                if g.joined(set, x, b) && g.joined(set, a, z) {
                }
            } else {
                assert(z == b && w == a);
            }
        }
    }
}

/// Exactly what one more edge adds to the connections.
pub(super) proof fn lemma_joined_push<N, E, W>(g: GraphView<N, E, W>, set: Seq<EdgeId>, f: EdgeId, x: int, y: int)
    requires
        0 <= f.0 < g.edges.len(),
    ensures
        g.joined(set.push(f), x, y) <==> joined_via(g, set, f, x, y),
{
    let a = g.edges[f.0 as int].source;
    let b = g.edges[f.0 as int].target;
    let s2 = set.push(f);
    if g.joined(s2, x, y) {
        let p = choose|p: Seq<int>| #[trigger] g.is_path_in(s2, p) && p[0] == x && p.last() == y;
        lemma_joined_push_prefix(g, set, f, p, p.len() - 1);
    }
    if joined_via(g, set, f, x, y) {
        assert(g.edge_joins(s2[set.len() as int].0 as int, a, b));
        assert(g.set_joins(s2, a, b));
        lemma_joined_step(g, s2, a, b);
        lemma_joined_sym(g, s2, a, b);
        if g.joined(set, x, y) {
            lemma_joined_grow(g, set, f, x, y);
        } else if g.joined(set, x, a) && g.joined(set, b, y) {
            lemma_joined_grow(g, set, f, x, a);
            lemma_joined_grow(g, set, f, b, y);
            lemma_joined_trans(g, s2, x, a, b);
            lemma_joined_trans(g, s2, x, b, y);
        } else {
            lemma_joined_grow(g, set, f, x, b);
            lemma_joined_grow(g, set, f, a, y);
            lemma_joined_trans(g, s2, x, b, a);
            lemma_joined_trans(g, s2, x, a, y);
        }
    }
}

/// Kruskal's forest spans: it connects exactly the pairs of nodes that the
/// edges it was chosen from connect.
pub proof fn lemma_greedy_forest_spans<N, E, W>(g: GraphView<N, E, W>, order: Seq<EdgeId>, x: int, y: int)
    requires
        forall|i: int| 0 <= i < order.len() ==> (#[trigger] order[i]).0 < g.edges.len(),
    ensures
        g.joined(g.greedy_forest(order), x, y) <==> g.joined(order, x, y),
    decreases order.len(),
{
    if order.len() == 0 {
        lemma_joined_empty(g, order, x, y);
        lemma_joined_empty(g, g.greedy_forest(order), x, y);
        if x == y {
            lemma_joined_refl(g, order, x);
            lemma_joined_refl(g, g.greedy_forest(order), x);
        }
    } else {
        let o1 = order.drop_last();
        let f = order.last();
        let s1 = g.greedy_forest(o1);
        let a = g.edges[f.0 as int].source;
        let b = g.edges[f.0 as int].target;
        assert(o1.push(f) =~= order);
        assert(f.0 < g.edges.len());
        assert forall|i: int| 0 <= i < o1.len() implies (#[trigger] o1[i]).0 < g.edges.len() by {
            assert(o1[i] == order[i]);
        }
        lemma_greedy_forest_spans(g, o1, x, y);
        lemma_greedy_forest_spans(g, o1, x, a);
        lemma_greedy_forest_spans(g, o1, b, y);
        lemma_greedy_forest_spans(g, o1, x, b);
        lemma_greedy_forest_spans(g, o1, a, y);
        lemma_greedy_forest_spans(g, o1, a, b);
        lemma_joined_push(g, o1, f, x, y);
        if g.joined(s1, a, b) {
            assert(g.greedy_forest(order) == s1);
            if g.joined(o1, x, a) && g.joined(o1, b, y) {
                lemma_joined_trans(g, o1, x, a, b);
                lemma_joined_trans(g, o1, x, b, y);
            }
            if g.joined(o1, x, b) && g.joined(o1, a, y) {
                lemma_joined_sym(g, o1, a, b);
                lemma_joined_trans(g, o1, x, b, a);
                lemma_joined_trans(g, o1, x, a, y);
            }
        } else {
            assert(g.greedy_forest(order) == s1.push(f));
            lemma_joined_push(g, s1, f, x, y);
        }
    }
}

/// Kruskal's forest has no cycle: each of its edges joins two nodes that
/// the forest edges taken before it do not connect.
pub proof fn lemma_greedy_forest_acyclic<N, E, W>(g: GraphView<N, E, W>, order: Seq<EdgeId>, k: int)
    requires
        0 <= k < g.greedy_forest(order).len(),
    ensures
        !g.joined(
            g.greedy_forest(order).take(k),
            g.edges[g.greedy_forest(order)[k].0 as int].source,
            g.edges[g.greedy_forest(order)[k].0 as int].target,
        ),
    decreases order.len(),
{
    let o1 = order.drop_last();
    let s1 = g.greedy_forest(o1);
    let sel = g.greedy_forest(order);
    if sel == s1 {
        lemma_greedy_forest_acyclic(g, o1, k);
    } else {
        assert(sel == s1.push(order.last()));
        if k < s1.len() {
            lemma_greedy_forest_acyclic(g, o1, k);
            assert(sel.take(k) =~= s1.take(k));
            assert(sel[k] == s1[k]);
        } else {
            assert(sel.take(k) =~= s1);
        }
    }
}

/// The edges Kruskal's choice keeps from the first `k` edges of the order
/// are the first edges it keeps from the whole order.
pub proof fn lemma_greedy_forest_prefix<N, E, W>(g: GraphView<N, E, W>, order: Seq<EdgeId>, k: int)
    requires
        0 <= k <= order.len(),
    ensures
        g.greedy_forest(order.take(k)).len() <= g.greedy_forest(order).len(),
        g.greedy_forest(order.take(k)) == g.greedy_forest(order).take(g.greedy_forest(order.take(k)).len() as int),
    decreases order.len(),
{
    if k == order.len() {
        assert(order.take(k) =~= order);
        assert(g.greedy_forest(order).take(g.greedy_forest(order).len() as int) =~= g.greedy_forest(order));
    } else {
        let o1 = order.drop_last();
        lemma_greedy_forest_prefix(g, o1, k);
        assert(o1.take(k) =~= order.take(k));
        let f1 = g.greedy_forest(o1);
        let f = g.greedy_forest(order);
        let fk = g.greedy_forest(order.take(k));
        if f != f1 {
            assert(f == f1.push(order.last()));
            assert(f.take(fk.len() as int) =~= f1.take(fk.len() as int));
        }
    }
}

/// Cycle optimality of Kruskal's choice: an edge it leaves out joins two
/// nodes that the edges kept before it already connect, and those come first
/// among the kept edges.
pub proof fn lemma_left_out_edge_closes_cycle<N, E, W>(g: GraphView<N, E, W>, order: Seq<EdgeId>, k: int)
    requires
        0 <= k < order.len(),
        g.greedy_forest(order.take(k + 1)) == g.greedy_forest(order.take(k)),
    ensures
        g.joined(
            g.greedy_forest(order.take(k)),
            g.edges[order[k].0 as int].source,
            g.edges[order[k].0 as int].target,
        ),
        g.greedy_forest(order.take(k)) == g.greedy_forest(order).take(g.greedy_forest(order.take(k)).len() as int),
{
    let t = order.take(k + 1);
    assert(t.drop_last() =~= order.take(k));
    assert(t.last() == order[k]);
    let prev = g.greedy_forest(order.take(k));
    if !g.joined(prev, g.edges[order[k].0 as int].source, g.edges[order[k].0 as int].target) {
        assert(g.greedy_forest(t) == prev.push(order[k]));
        assert(g.greedy_forest(t).len() == prev.len() + 1);
    }
    lemma_greedy_forest_prefix(g, order, k);
}

/// In Kruskal's order by weight, the kept edges that connect the endpoints of
/// a left-out edge are each no heavier than it: the left-out edge is a
/// heaviest edge of the cycle it closes.
pub proof fn lemma_left_out_edge_is_heaviest<N, E, W: Scalar>(g: GraphView<N, E, W>, order: Seq<EdgeId>, k: int)
    requires
        is_weight_order(g, order),
        0 <= k < order.len(),
        g.greedy_forest(order.take(k + 1)) == g.greedy_forest(order.take(k)),
    ensures
        g.joined(
            g.greedy_forest(order.take(k)),
            g.edges[order[k].0 as int].source,
            g.edges[order[k].0 as int].target,
        ),
        forall|i: int| 0 <= i < g.greedy_forest(order.take(k)).len()
            ==> g.edges[(#[trigger] g.greedy_forest(order.take(k))[i]).0 as int].weight.value()
                <= g.edges[order[k].0 as int].weight.value(),
{
    lemma_left_out_edge_closes_cycle(g, order, k);
    let prefix = order.take(k);
    assert forall|i: int, j: int| 0 <= i < j < prefix.len() implies (#[trigger] prefix[i]).0 != (#[trigger] prefix[j]).0 by {
        assert(lighter(g, order[i], order[j]));
    }
    assert forall|i: int| 0 <= i < prefix.len() implies (#[trigger] prefix[i]).0 < g.edges.len() by {
        assert(prefix[i] == order[i]);
    }
    lemma_greedy_forest_distinct(g, prefix);
    let f = g.greedy_forest(prefix);
    assert forall|i: int| 0 <= i < f.len() implies g.edges[(#[trigger] f[i]).0 as int].weight.value()
        <= g.edges[order[k].0 as int].weight.value() by {
        let j = choose|j: int| 0 <= j < prefix.len() && prefix[j] == f[i];
        assert(lighter(g, order[j], order[k]));
    }
}

/// A minimum spanning forest: the edges it keeps and their total weight.
#[derive(Debug, Clone, PartialEq)]
pub struct MinimumSpanningTree<W> {
    pub total_weight: W,
    pub edges: Vec<EdgeId>,
}

/// Edge `a` comes before edge `b` in Kruskal's order: it is lighter, or as
/// heavy and added earlier.
pub open spec fn lighter<N, E, W: Scalar>(g: GraphView<N, E, W>, a: EdgeId, b: EdgeId) -> bool {
    let wa = g.edges[a.0 as int].weight.value();
    let wb = g.edges[b.0 as int].weight.value();
    wa < wb || (wa == wb && a.0 < b.0)
}

/// `order` lists each edge of `g` once, in Kruskal's order.
pub open spec fn is_weight_order<N, E, W: Scalar>(g: GraphView<N, E, W>, order: Seq<EdgeId>) -> bool {
    &&& order.len() == g.edges.len()
    &&& forall|i: int| 0 <= i < order.len() ==> (#[trigger] order[i]).0 < g.edges.len()
    &&& forall|i: int, j: int| 0 <= i < j < order.len() ==> lighter(g, #[trigger] order[i], #[trigger] order[j])
}

/// The weight of the forest Kruskal's order builds is a value `W` can hold.
pub open spec fn forest_weight_fits<N, E, W: Scalar>(g: GraphView<N, E, W>) -> bool {
    forall|order: Seq<EdgeId>| #[trigger] is_weight_order(g, order) ==>
        sum(weights_of(g, g.greedy_forest(order))) <= W::highest()
}

/// `set` lists distinct edges of `g` that together connect the two ends of
/// every edge of `g`.
pub open spec fn is_connecting_set<N, E, W>(g: GraphView<N, E, W>, set: Seq<EdgeId>) -> bool {
    &&& forall|i: int| 0 <= i < set.len() ==> (#[trigger] set[i]).0 < g.edges.len()
    &&& forall|i: int, j: int| 0 <= i < j < set.len() ==> (#[trigger] set[i]).0 != (#[trigger] set[j]).0
    &&& forall|e: int| 0 <= e < g.edges.len() ==> #[trigger] g.joined(set, g.edges[e].source, g.edges[e].target)
}

/// The weights of the listed edges, as integers.
pub open spec fn weights_of<N, E, W: Scalar>(g: GraphView<N, E, W>, set: Seq<EdgeId>) -> Seq<int> {
    Seq::new(set.len(), |i: int| g.edges[set[i].0 as int].weight.value())
}

/// The weights of all edges of `g`, in edge order.
pub open spec fn all_weights<N, E, W: Scalar>(g: GraphView<N, E, W>) -> Seq<int> {
    Seq::new(g.edges.len(), |e: int| g.edges[e].weight.value())
}

/// The sum of the weights of distinct edges is at most the sum of all the
/// (nonnegative) weights.
pub(super) proof fn lemma_weights_of_distinct<N, E, W: Scalar>(g: GraphView<N, E, W>, set: Seq<EdgeId>)
    requires
        forall|e: int| 0 <= e < g.edges.len() ==> (#[trigger] g.edges[e]).weight.value() >= 0,
        forall|i: int| 0 <= i < set.len() ==> (#[trigger] set[i]).0 < g.edges.len(),
        forall|i: int, j: int| 0 <= i < j < set.len() ==> (#[trigger] set[i]).0 != (#[trigger] set[j]).0,
    ensures
        0 <= sum(weights_of(g, set)) <= sum(all_weights(g)),
{
    let w = all_weights(g);
    let idx = Seq::new(set.len(), |i: int| set[i].0 as int);
    assert forall|i: int, j: int| 0 <= i < j < idx.len() implies idx[i] != idx[j] by {
        assert(set[i].0 != set[j].0);
    }
    crate::vector::lemma_sum_pick_distinct(w, idx);
    assert(weights_of(g, set) =~= Seq::new(idx.len(), |i: int| w[idx[i]]));
}

impl<N, E, W: Scalar> Graph<N, E, W> {
    /// Edge `a` comes before edge `b` in Kruskal's order.
    fn is_lighter(&self, a: EdgeId, b: EdgeId) -> (r: bool)
        requires
            self.well_formed(),
            a.0 < self@.edges.len(),
            b.0 < self@.edges.len(),
        ensures
            r == lighter(self@, a, b),
    {
        let wa = self.edges[a.0].weight;
        let wb = self.edges[b.0].weight;
        proof {
            assert(self@.edges[a.0 as int].weight == wa);
            assert(self@.edges[b.0 as int].weight == wb);
        }
        if wa.less_than(wb) {
            true
        } else if wb.less_than(wa) {
            false
        } else {
            a.0 < b.0
        }
    }

    /// All edge ids in Kruskal's order, by insertion sort.
    fn weight_order(&self) -> (r: Vec<EdgeId>)
        requires
            self.well_formed(),
        ensures
            is_weight_order(self@, r@),
    {
        let m = self.edges.len();
        let ghost g = self@;
        let mut order: Vec<EdgeId> = Vec::new();
        let mut i: usize = 0;
        while i < m
            invariant
                self.well_formed(),
                g == self@,
                m == g.edges.len(),
                i <= m,
                order@.len() == i,
                forall|k: int| 0 <= k < i ==> (#[trigger] order@[k]).0 < i,
                forall|a: int, b: int| 0 <= a < b < i ==> lighter(g, #[trigger] order@[a], #[trigger] order@[b]),
            decreases m - i,
        {
            // insert edge i into the sorted prefix
            order.push(EdgeId(i));
            let mut j: usize = i;
            while j > 0 && self.is_lighter(order[j], order[j - 1])
                invariant
                    self.well_formed(),
                    g == self@,
                    m == g.edges.len(),
                    i < m,
                    j <= i,
                    order@.len() == i + 1,
                    order@[j as int].0 == i,
                    forall|k: int| 0 <= k <= i && k != j ==> (#[trigger] order@[k]).0 < i,
                    forall|a: int, b: int| 0 <= a < b <= i && a != j && b != j
                        ==> lighter(g, #[trigger] order@[a], #[trigger] order@[b]),
                    forall|b: int| j < b <= i ==> lighter(g, order@[j as int], #[trigger] order@[b]),
                    forall|a: int, b: int| 0 <= a < j && j < b <= i
                        ==> lighter(g, #[trigger] order@[a], #[trigger] order@[b]),
                decreases j,
            {
                let x = order[j];
                let y = order[j - 1];
                order.set(j, y);
                order.set(j - 1, x);
                j = j - 1;
            }
            proof {
                if j > 0 {
                    assert forall|a: int| 0 <= a < j implies lighter(g, order@[a], order@[j as int]) by {
                        if a < j - 1 {
                            assert(lighter(g, order@[a], order@[j - 1]));
                        }
                    }
                }
                assert forall|a: int, b: int| 0 <= a < b < i + 1 implies lighter(g, #[trigger] order@[a], #[trigger] order@[b]) by {
                    if b == j {
                        if a < j - 1 {
                            assert(lighter(g, order@[a], order@[j - 1]));
                        }
                    }
                }
            }
            i = i + 1;
        }
        order
    }

    /// Kruskal's minimum spanning forest of an undirected graph: the edges
    /// are considered lightest first (equal weights in the order they were
    /// added) and each edge joining two parts not yet connected is kept.
    /// Fails for a directed graph.
    pub fn minimum_spanning_tree(&self) -> (r: Result<MinimumSpanningTree<W>, MathError>)
        requires
            self.well_formed(),
            forall|e: int| 0 <= e < self@.edges.len() ==> (#[trigger] self@.edges[e]).weight.value() >= 0,
            forest_weight_fits(self@),
        ensures
            r is Ok <==> !self@.directed,
            r matches Ok(t) ==> {
                &&& exists|order: Seq<EdgeId>| #[trigger] is_weight_order(self@, order)
                    && t.edges@ == self@.greedy_forest(order)
                &&& t.total_weight.value() == sum(weights_of(self@, t.edges@))
                &&& forall|c: Seq<EdgeId>| #[trigger] is_connecting_set(self@, c) ==>
                    t.total_weight.value() <= sum(weights_of(self@, c))
            },
            r matches Err(e) ==> is_invalid_graph(e, "minimum spanning tree requires an undirected graph"@),
    {
        if self.directed {
            return Err(MathError::InvalidGraph {
                message: String::from_str("minimum spanning tree requires an undirected graph"),
            });
        }
        let order = self.weight_order();
        let selected = match self.spanning_forest(order.as_slice()) {
            Ok(s) => s,
            Err(e) => return Err(e),
        };
        let ghost g = self@;
        proof {
            lemma_greedy_forest_distinct(g, order@);
            lemma_weights_of_distinct(g, selected@);
            assert(is_weight_order(g, order@));
        }
        let ghost terms = weights_of(g, selected@);
        let mut total = W::zero();
        let mut k: usize = 0;
        assert(terms.take(0) =~= Seq::<int>::empty());
        while k < selected.len()
            invariant
                self.well_formed(),
                g == self@,
                terms == weights_of(g, selected@),
                forall|i: int| 0 <= i < selected@.len() ==> (#[trigger] selected@[i]).0 < g.edges.len(),
                forall|e: int| 0 <= e < g.edges.len() ==> (#[trigger] g.edges[e]).weight.value() >= 0,
                0 <= sum(terms) <= W::highest(),
                k <= selected@.len(),
                total.value() == sum(terms.take(k as int)),
            decreases selected@.len() - k,
        {
            let id = selected[k];
            let w = self.edges[id.0].weight;
            proof {
                assert(g.edges[id.0 as int].weight == w);
                assert(terms.take(k + 1).drop_last() =~= terms.take(k as int));
                crate::vector::lemma_sum_nonnegative_prefix(terms, k + 1);
                W::lemma_range(w);
            }
            total = total.plus(w);
            k = k + 1;
        }
        assert(terms.take(k as int) =~= terms);
        proof {
            self.lemma_endpoints_valid();
            assert forall|c: Seq<EdgeId>| #[trigger] is_connecting_set(g, c) implies
                total.value() <= sum(weights_of(g, c)) by {
                lemma_greedy_forest_minimal(g, order@, c);
            }
        }
        Ok(MinimumSpanningTree { total_weight: total, edges: selected })
    }
}

/// The forest lists each of its edges once, when the order does.
pub(super) proof fn lemma_greedy_forest_distinct<N, E, W>(g: GraphView<N, E, W>, order: Seq<EdgeId>)
    requires
        forall|i: int, j: int| 0 <= i < j < order.len() ==> (#[trigger] order[i]).0 != (#[trigger] order[j]).0,
        forall|i: int| 0 <= i < order.len() ==> (#[trigger] order[i]).0 < g.edges.len(),
    ensures
        forall|i: int, j: int| 0 <= i < j < g.greedy_forest(order).len()
            ==> (#[trigger] g.greedy_forest(order)[i]).0 != (#[trigger] g.greedy_forest(order)[j]).0,
        forall|i: int| 0 <= i < g.greedy_forest(order).len() ==> (#[trigger] g.greedy_forest(order)[i]).0 < g.edges.len(),
        forall|i: int| 0 <= i < g.greedy_forest(order).len()
            ==> exists|k: int| 0 <= k < order.len() && order[k] == #[trigger] g.greedy_forest(order)[i],
    decreases order.len(),
{
    if order.len() > 0 {
        let o1 = order.drop_last();
        assert forall|i: int, j: int| 0 <= i < j < o1.len() implies (#[trigger] o1[i]).0 != (#[trigger] o1[j]).0 by {
            assert(o1[i] == order[i] && o1[j] == order[j]);
        }
        assert forall|i: int| 0 <= i < o1.len() implies (#[trigger] o1[i]).0 < g.edges.len() by {
            assert(o1[i] == order[i]);
        }
        lemma_greedy_forest_distinct(g, o1);
        let s1 = g.greedy_forest(o1);
        let sel = g.greedy_forest(order);
        assert forall|i: int| 0 <= i < sel.len()
            implies exists|k: int| 0 <= k < order.len() && order[k] == #[trigger] sel[i] by {
            if i < s1.len() {
                assert(sel[i] == s1[i]);
                let k = choose|k: int| 0 <= k < o1.len() && o1[k] == s1[i];
                assert(order[k] == o1[k]);
            } else {
                assert(sel[i] == order[order.len() - 1]);
            }
        }
        if sel != s1 {
            assert(sel == s1.push(order.last()));
            assert forall|i: int| 0 <= i < s1.len() implies (#[trigger] s1[i]).0 != order.last().0 by {
                let k = choose|k: int| 0 <= k < o1.len() && o1[k] == s1[i];
                assert(order[k] == o1[k]);
            }
            assert forall|i: int, j: int| 0 <= i < j < sel.len() implies (#[trigger] sel[i]).0 != (#[trigger] sel[j]).0 by {
                assert(sel[i] == s1[i]);
                if j < s1.len() {
                    assert(sel[j] == s1[j]);
                }
            }
        }
    }
}


/// Edge `e` is among `order`.
spec fn lists_edge(order: Seq<EdgeId>, e: int) -> bool {
    exists|i: int| 0 <= i < order.len() && order[i].0 == e
}

/// Every edge of `g` has its place in a weight order.
proof fn lemma_weight_order_complete<N, E, W: Scalar>(g: GraphView<N, E, W>, order: Seq<EdgeId>)
    requires
        is_weight_order(g, order),
    ensures
        forall|e: int| 0 <= e < g.edges.len() ==> #[trigger] lists_edge(order, e),
{
    let n = g.edges.len() as int;
    let ids = Seq::new(order.len(), |i: int| order[i].0 as int);
    assert(ids.no_duplicates()) by {
        assert forall|i: int, j: int| 0 <= i < ids.len() && 0 <= j < ids.len() && i != j implies ids[i] != ids[j] by {
            if i < j {
                assert(lighter(g, order[i], order[j]));
            } else {
                assert(lighter(g, order[j], order[i]));
            }
        }
    }
    ids.unique_seq_to_set();
    vstd::set_lib::lemma_int_range(0, n);
    let range = vstd::set_lib::set_int_range(0, n);
    assert(ids.to_set().subset_of(range)) by {
        assert forall|v: int| ids.to_set().contains(v) implies range.contains(v) by {
            let i = choose|i: int| 0 <= i < ids.len() && ids[i] == v;
            assert(order[i].0 < n);
        }
    }
    vstd::set_lib::lemma_len_subset(ids.to_set(), range);
    vstd::set_lib::lemma_subset_equality(ids.to_set(), range);
    assert forall|e: int| 0 <= e < n implies #[trigger] lists_edge(order, e) by {
        assert(range.contains(e));
        assert(ids.to_set().contains(e));
        let i = choose|i: int| 0 <= i < ids.len() && ids[i] == e;
        assert(order[i].0 == e);
    }
}

/// Two weight orders agree up to position `i`.
proof fn lemma_weight_orders_agree<N, E, W: Scalar>(g: GraphView<N, E, W>, o1: Seq<EdgeId>, o2: Seq<EdgeId>, i: int)
    requires
        is_weight_order(g, o1),
        is_weight_order(g, o2),
        0 <= i < o1.len(),
    ensures
        forall|k: int| 0 <= k <= i ==> o1[k] == o2[k],
    decreases i,
{
    if i > 0 {
        lemma_weight_orders_agree(g, o1, o2, i - 1);
    }
    lemma_weight_order_complete(g, o1);
    lemma_weight_order_complete(g, o2);
    let x = o1[i];
    let y = o2[i];
    assert(x.0 < g.edges.len() && y.0 < g.edges.len());
    assert(lists_edge(o2, x.0 as int));
    assert(lists_edge(o1, y.0 as int));
    let p = choose|p: int| 0 <= p < o2.len() && o2[p].0 == x.0;
    let q = choose|q: int| 0 <= q < o1.len() && o1[q].0 == y.0;
    if p < i {
        assert(o1[p] == o2[p]);
        assert(lighter(g, o1[p], o1[i]));
    }
    if q < i {
        assert(o1[q] == o2[q]);
        assert(lighter(g, o2[q], o2[i]));
    }
    if x != y {
        assert(x.0 != y.0);
        assert(p != i && q != i);
        assert(lighter(g, o2[i], o2[p]));
        assert(lighter(g, o1[i], o1[q]));
    }
}

/// Kruskal's order is determined by the graph: the edges sorted by weight,
/// equal weights by id. Any two weight orders of a graph are the same
/// sequence, so the forest built from one is the forest built from any.
pub proof fn lemma_weight_order_unique<N, E, W: Scalar>(g: GraphView<N, E, W>, o1: Seq<EdgeId>, o2: Seq<EdgeId>)
    requires
        is_weight_order(g, o1),
        is_weight_order(g, o2),
    ensures
        o1 == o2,
{
    if o1.len() > 0 {
        lemma_weight_orders_agree(g, o1, o2, o1.len() - 1);
    }
    assert(o1 =~= o2);
}

} // verus!
