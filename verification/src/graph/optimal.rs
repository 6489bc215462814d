use vstd::prelude::*;
use super::{EdgeId, GraphView};
use super::forest::{is_weight_order, lemma_greedy_forest_spans, lighter, weights_of};
use super::search::{has_id, lemma_ids_fill};
use super::NodeId;
use crate::scalar::Scalar;
use crate::vector::sum;
use super::forest::{lemma_joined_grow, lemma_joined_push, lemma_joined_refl, lemma_joined_step, lemma_joined_sym, lemma_joined_trans};

verus! {

/// No node below `x` is connected to `x` by the edges of `s`: `x` is the
/// least node of its part.
pub(super) open spec fn is_least<N, E, W>(g: GraphView<N, E, W>, s: Seq<EdgeId>, x: int) -> bool {
    forall|y: int| 0 <= y < x ==> !#[trigger] g.joined(s, x, y)
}

/// The least nodes of the parts into which the edges of `s` divide the nodes.
pub(super) open spec fn leaders<N, E, W>(g: GraphView<N, E, W>, s: Seq<EdgeId>) -> Set<int> {
    Set::new(|x: int| 0 <= x < g.nodes.len() && is_least(g, s, x))
}

/// The number of parts into which the edges of `s` divide the nodes.
pub(super) open spec fn part_count<N, E, W>(g: GraphView<N, E, W>, s: Seq<EdgeId>) -> nat {
    leaders(g, s).len()
}

/// The edges of `s` exist.
pub(super) open spec fn valid_edges<N, E, W>(g: GraphView<N, E, W>, s: Seq<EdgeId>) -> bool {
    forall|i: int| 0 <= i < s.len() ==> (#[trigger] s[i]).0 < g.edges.len()
}

proof fn lemma_leaders_finite<N, E, W>(g: GraphView<N, E, W>, s: Seq<EdgeId>)
    ensures
        leaders(g, s).finite(),
        leaders(g, s).len() <= g.nodes.len(),
{
    let range = vstd::set_lib::set_int_range(0, g.nodes.len() as int);
    vstd::set_lib::lemma_int_range(0, g.nodes.len() as int);
    assert(leaders(g, s).subset_of(range));
    vstd::set_lib::lemma_len_subset(leaders(g, s), range);
}

/// Every existing node is connected to the least node of its part.
proof fn lemma_leader_exists<N, E, W>(g: GraphView<N, E, W>, s: Seq<EdgeId>, x: int) -> (r: int)
    requires
        g.endpoints_valid(),
        valid_edges(g, s),
        0 <= x < g.nodes.len(),
    ensures
        0 <= r <= x,
        g.joined(s, x, r),
        is_least(g, s, r),
    decreases x,
{
    if is_least(g, s, x) {
        lemma_joined_refl(g, s, x);
        x
    } else {
        let y = choose|y: int| 0 <= y < x && #[trigger] g.joined(s, x, y);
        let r = lemma_leader_exists(g, s, y);
        lemma_joined_trans(g, s, x, y, r);
        r
    }
}

/// A part has one least node.
proof fn lemma_leader_unique<N, E, W>(g: GraphView<N, E, W>, s: Seq<EdgeId>, x: int, r1: int, r2: int)
    requires
        g.joined(s, x, r1),
        g.joined(s, x, r2),
        is_least(g, s, r1),
        is_least(g, s, r2),
        0 <= r1,
        0 <= r2,
    ensures
        r1 == r2,
{
    lemma_joined_sym(g, s, x, r1);
    lemma_joined_trans(g, s, r1, x, r2);
    lemma_joined_sym(g, s, r1, r2);
    if r1 < r2 {
        assert(g.joined(s, r2, r1));
    } else if r2 < r1 {
        assert(g.joined(s, r1, r2));
    }
}

/// Without edges every node is a part of its own.
proof fn lemma_part_count_empty<N, E, W>(g: GraphView<N, E, W>, s: Seq<EdgeId>)
    requires
        s.len() == 0,
    ensures
        part_count(g, s) == g.nodes.len(),
{
    let range = vstd::set_lib::set_int_range(0, g.nodes.len() as int);
    vstd::set_lib::lemma_int_range(0, g.nodes.len() as int);
    assert forall|x: int| #[trigger] leaders(g, s).contains(x) <==> range.contains(x) by {
        if 0 <= x < g.nodes.len() {
            assert forall|y: int| 0 <= y < x implies !#[trigger] g.joined(s, x, y) by {
                super::forest::lemma_joined_empty(g, s, x, y);
            }
        }
    }
    assert(leaders(g, s) =~= range);
}

/// Adding an edge merges two parts into one when its ends lie in different
/// parts, and changes nothing otherwise.
proof fn lemma_part_count_push<N, E, W>(g: GraphView<N, E, W>, s: Seq<EdgeId>, f: EdgeId)
    requires
        g.endpoints_valid(),
        valid_edges(g, s),
        f.0 < g.edges.len(),
    ensures
        part_count(g, s.push(f)) == if g.joined(s, g.edges[f.0 as int].source, g.edges[f.0 as int].target) {
            part_count(g, s)
        } else {
            (part_count(g, s) - 1) as nat
        },
{
    let a = g.edges[f.0 as int].source;
    let b = g.edges[f.0 as int].target;
    let s2 = s.push(f);
    let n = g.nodes.len();
    lemma_leaders_finite(g, s);
    lemma_leaders_finite(g, s2);
    assert(0 <= a < n && 0 <= b < n);
    if g.joined(s, a, b) {
        assert forall|x: int, y: int| #![trigger g.joined(s2, x, y)] #![trigger g.joined(s, x, y)]
            g.joined(s2, x, y) <==> g.joined(s, x, y) by {
            lemma_joined_push(g, s, f, x, y);
            if g.joined(s, x, a) && g.joined(s, b, y) {
                lemma_joined_trans(g, s, x, a, b);
                lemma_joined_trans(g, s, x, b, y);
            }
            if g.joined(s, x, b) && g.joined(s, a, y) {
                lemma_joined_sym(g, s, a, b);
                lemma_joined_trans(g, s, x, b, a);
                lemma_joined_trans(g, s, x, a, y);
            }
        }
        assert(leaders(g, s2) =~= leaders(g, s));
    } else {
        let ra = lemma_leader_exists(g, s, a);
        let rb = lemma_leader_exists(g, s, b);
        if ra == rb {
            lemma_joined_sym(g, s, b, rb);
            lemma_joined_trans(g, s, a, ra, b);
        }
        let big = if ra < rb { rb } else { ra };
        let small = if ra < rb { ra } else { rb };
        // the two least nodes are now connected
        lemma_joined_grow(g, s, f, a, ra);
        lemma_joined_grow(g, s, f, b, rb);
        assert(g.set_joins(s2, a, b)) by {
            assert(s2[s.len() as int] == f);
            assert(g.edge_joins(f.0 as int, a, b));
        }
        lemma_joined_step(g, s2, a, b);
        lemma_joined_sym(g, s2, a, ra);
        lemma_joined_trans(g, s2, ra, a, b);
        lemma_joined_trans(g, s2, ra, b, rb);
        lemma_joined_sym(g, s2, ra, rb);
        assert(g.joined(s2, big, small));
        assert forall|x: int| #[trigger] leaders(g, s2).contains(x) <==> leaders(g, s).remove(big).contains(x) by {
            if 0 <= x < n {
                if is_least(g, s2, x) {
                    assert forall|y: int| 0 <= y < x implies !#[trigger] g.joined(s, x, y) by {
                        if g.joined(s, x, y) {
                            lemma_joined_grow(g, s, f, x, y);
                        }
                    }
                    if x == big {
                        assert(g.joined(s2, x, small));
                    }
                }
                if is_least(g, s, x) && x != big {
                    assert forall|y: int| 0 <= y < x implies !#[trigger] g.joined(s2, x, y) by {
                        lemma_joined_push(g, s, f, x, y);
                        if g.joined(s, x, a) && g.joined(s, b, y) {
                            lemma_joined_sym(g, s, x, a);
                            lemma_leader_unique(g, s, a, ra, x);
                            let ry = lemma_leader_exists(g, s, y);
                            lemma_joined_trans(g, s, b, y, ry);
                            lemma_leader_unique(g, s, b, rb, ry);
                        }
                        if g.joined(s, x, b) && g.joined(s, a, y) {
                            lemma_joined_sym(g, s, x, b);
                            lemma_leader_unique(g, s, b, rb, x);
                            let ry = lemma_leader_exists(g, s, y);
                            lemma_joined_trans(g, s, a, y, ry);
                            lemma_leader_unique(g, s, a, ra, ry);
                        }
                    }
                }
            }
        }
        assert(leaders(g, s2) =~= leaders(g, s).remove(big));
        assert(leaders(g, s).contains(big));
    }
}

/// When the edges of `b` connect the ends of every edge of `a`, they connect
/// whatever `a` connects.
proof fn lemma_joined_cover<N, E, W>(g: GraphView<N, E, W>, a: Seq<EdgeId>, b: Seq<EdgeId>, x: int, y: int)
    requires
        forall|k: int| 0 <= k < a.len() ==> g.joined(b, g.edges[(#[trigger] a[k]).0 as int].source, g.edges[a[k].0 as int].target),
        g.joined(a, x, y),
    ensures
        g.joined(b, x, y),
{
    let p = choose|p: Seq<int>| #[trigger] g.is_path_in(a, p) && p[0] == x && p.last() == y;
    lemma_joined_cover_prefix(g, a, b, p, p.len() - 1);
}

proof fn lemma_joined_cover_prefix<N, E, W>(g: GraphView<N, E, W>, a: Seq<EdgeId>, b: Seq<EdgeId>, p: Seq<int>, k: int)
    requires
        forall|i: int| 0 <= i < a.len() ==> g.joined(b, g.edges[(#[trigger] a[i]).0 as int].source, g.edges[a[i].0 as int].target),
        g.is_path_in(a, p),
        0 <= k < p.len(),
    ensures
        g.joined(b, p[0], p[k]),
    decreases k,
{
    if k == 0 {
        lemma_joined_refl(g, b, p[0]);
    } else {
        lemma_joined_cover_prefix(g, a, b, p, k - 1);
        assert(g.set_joins(a, p[k - 1], p[(k - 1) + 1]));
        let i = choose|i: int| 0 <= i < a.len() && #[trigger] g.edge_joins(a[i].0 as int, p[k - 1], p[k]);
        assert(g.joined(b, g.edges[a[i].0 as int].source, g.edges[a[i].0 as int].target));
        if g.edges[a[i].0 as int].source == p[k - 1] {
            lemma_joined_trans(g, b, p[0], p[k - 1], p[k]);
        } else {
            lemma_joined_sym(g, b, g.edges[a[i].0 as int].source, g.edges[a[i].0 as int].target);
            lemma_joined_trans(g, b, p[0], p[k - 1], p[k]);
        }
    }
}

/// Edge lists that connect the same pairs of nodes divide the nodes into the
/// same number of parts.
proof fn lemma_part_count_same<N, E, W>(g: GraphView<N, E, W>, a: Seq<EdgeId>, b: Seq<EdgeId>)
    requires
        forall|x: int, y: int| 0 <= x < g.nodes.len() && 0 <= y < g.nodes.len() ==> (#[trigger] g.joined(a, x, y) <==> g.joined(b, x, y)),
    ensures
        part_count(g, a) == part_count(g, b),
{
    assert forall|x: int| #[trigger] leaders(g, a).contains(x) <==> leaders(g, b).contains(x) by {
        if 0 <= x < g.nodes.len() {
            assert forall|y: int| 0 <= y < x implies (g.joined(a, x, y) <==> #[trigger] g.joined(b, x, y)) by {}
        }
    }
    assert(leaders(g, a) =~= leaders(g, b));
}

/// Kruskal's forest divides the nodes into as many parts as there are nodes
/// left over after one per kept edge.
proof fn lemma_part_count_greedy<N, E, W>(g: GraphView<N, E, W>, order: Seq<EdgeId>)
    requires
        g.endpoints_valid(),
        valid_edges(g, order),
    ensures
        g.greedy_forest(order).len() <= g.nodes.len(),
        part_count(g, g.greedy_forest(order)) == g.nodes.len() - g.greedy_forest(order).len(),
        valid_edges(g, g.greedy_forest(order)),
    decreases order.len(),
{
    let f = g.greedy_forest(order);
    if order.len() == 0 {
        lemma_part_count_empty(g, f);
    } else {
        let o1 = order.drop_last();
        assert forall|i: int| 0 <= i < o1.len() implies (#[trigger] o1[i]).0 < g.edges.len() by {
            assert(o1[i] == order[i]);
        }
        lemma_part_count_greedy(g, o1);
        let f1 = g.greedy_forest(o1);
        let e = order.last();
        assert(e == order[order.len() - 1]);
        lemma_part_count_push(g, f1, e);
        lemma_leaders_finite(g, f1);
        if f != f1 {
            assert(f == f1.push(e));
            let a = g.edges[e.0 as int].source;
            assert(0 <= a < g.nodes.len());
            let ra = lemma_leader_exists(g, f1, a);
            assert(leaders(g, f1).contains(ra));
            assert(part_count(g, f1) >= 1) by {
                vstd::set_lib::lemma_set_empty_equivalency_len(leaders(g, f1));
            }
            assert forall|i: int| 0 <= i < f.len() implies (#[trigger] f[i]).0 < g.edges.len() by {
                if i < f1.len() {
                    assert(f[i] == f1[i]);
                }
            }
        }
    }
}

/// Adding edges lowers the number of parts by at most one per edge.
proof fn lemma_part_count_append<N, E, W>(g: GraphView<N, E, W>, s: Seq<EdgeId>, x: Seq<EdgeId>)
    requires
        g.endpoints_valid(),
        valid_edges(g, s),
        valid_edges(g, x),
    ensures
        part_count(g, s + x) + x.len() >= part_count(g, s),
    decreases x.len(),
{
    if x.len() == 0 {
        assert(s + x =~= s);
    } else {
        let x1 = x.drop_last();
        assert forall|i: int| 0 <= i < x1.len() implies (#[trigger] x1[i]).0 < g.edges.len() by {
            assert(x1[i] == x[i]);
        }
        lemma_part_count_append(g, s, x1);
        assert(s + x =~= (s + x1).push(x.last()));
        assert forall|i: int| 0 <= i < (s + x1).len() implies (#[trigger] (s + x1)[i]).0 < g.edges.len() by {
            if i < s.len() {
                assert((s + x1)[i] == s[i]);
            } else {
                assert((s + x1)[i] == x1[i - s.len()]);
            }
        }
        assert(x.last() == x[x.len() - 1]);
        lemma_part_count_push(g, s + x1, x.last());
    }
}

/// The number of flags set at position `k` and after.
pub(super) open spec fn count_from(f: Seq<bool>, k: int) -> int
    decreases f.len() - k,
{
    if k < 0 || k >= f.len() {
        0
    } else {
        (if f[k] { 1int } else { 0int }) + count_from(f, k + 1)
    }
}

/// The sum of the weights `w` at the positions, `k` and after, whose flag is set.
pub(super) open spec fn weight_from(w: Seq<int>, f: Seq<bool>, k: int) -> int
    decreases f.len() - k,
{
    if k < 0 || k >= f.len() {
        0
    } else {
        (if f[k] { w[k] } else { 0int }) + weight_from(w, f, k + 1)
    }
}

/// The entries of `order` at positions `k` and after whose flag is set.
pub(super) open spec fn picked_from(order: Seq<EdgeId>, f: Seq<bool>, k: int) -> Seq<EdgeId>
    decreases f.len() - k,
{
    if k < 0 || k >= f.len() {
        Seq::empty()
    } else {
        (if f[k] { seq![order[k]] } else { Seq::<EdgeId>::empty() }) + picked_from(order, f, k + 1)
    }
}

/// With weights that never decrease, a set that has, from every position
/// on, at least as many members as another, weighs at least as much from
/// position `k` on, by at least `w[k]` times the difference of the counts.
proof fn lemma_exchange(w: Seq<int>, fa: Seq<bool>, fb: Seq<bool>, k: int)
    requires
        w.len() == fa.len(),
        w.len() == fb.len(),
        0 <= k < w.len(),
        forall|j: int| 0 <= j < w.len() ==> 0 <= #[trigger] w[j],
        forall|i: int, j: int| 0 <= i <= j < w.len() ==> #[trigger] w[i] <= #[trigger] w[j],
        forall|j: int| 0 <= j <= w.len() ==> #[trigger] count_from(fa, j) <= count_from(fb, j),
    ensures
        weight_from(w, fb, k) - weight_from(w, fa, k) >= w[k] * (count_from(fb, k) - count_from(fa, k)),
    decreases w.len() - k,
{
    let ca = if fa[k] { 1int } else { 0int };
    let cb = if fb[k] { 1int } else { 0int };
    if fa[k] {
        assert(w[k] * ca == w[k]) by (nonlinear_arith)
            requires
                ca == 1,
        ;
    } else {
        assert(w[k] * ca == 0) by (nonlinear_arith)
            requires
                ca == 0,
        ;
    }
    if fb[k] {
        assert(w[k] * cb == w[k]) by (nonlinear_arith)
            requires
                cb == 1,
        ;
    } else {
        assert(w[k] * cb == 0) by (nonlinear_arith)
            requires
                cb == 0,
        ;
    }
    assert(weight_from(w, fa, k) == w[k] * ca + weight_from(w, fa, k + 1));
    assert(weight_from(w, fb, k) == w[k] * cb + weight_from(w, fb, k + 1));
    assert(count_from(fa, k) == ca + count_from(fa, k + 1));
    assert(count_from(fb, k) == cb + count_from(fb, k + 1));
    if k + 1 < w.len() {
        lemma_exchange(w, fa, fb, k + 1);
        let d = count_from(fb, k + 1) - count_from(fa, k + 1);
        assert(d >= 0);
        assert(w[k] <= w[k + 1]);
        assert(w[k + 1] * d >= w[k] * d) by (nonlinear_arith)
            requires
                d >= 0,
                w[k] <= w[k + 1],
        ;
        assert(w[k] * (d + cb - ca) == w[k] * d + w[k] * cb - w[k] * ca) by (nonlinear_arith);
    } else {
        assert(count_from(fa, k + 1) == 0);
        assert(count_from(fb, k + 1) == 0);
        assert(w[k] * (cb - ca) == w[k] * cb - w[k] * ca) by (nonlinear_arith);
    }
}

/// The whole weight comparison that follows from the counts.
proof fn lemma_exchange_total(w: Seq<int>, fa: Seq<bool>, fb: Seq<bool>)
    requires
        w.len() == fa.len(),
        w.len() == fb.len(),
        forall|j: int| 0 <= j < w.len() ==> 0 <= #[trigger] w[j],
        forall|i: int, j: int| 0 <= i <= j < w.len() ==> #[trigger] w[i] <= #[trigger] w[j],
        forall|j: int| 0 <= j <= w.len() ==> #[trigger] count_from(fa, j) <= count_from(fb, j),
    ensures
        weight_from(w, fa, 0) <= weight_from(w, fb, 0),
{
    if w.len() > 0 {
        lemma_exchange(w, fa, fb, 0);
        let d = count_from(fb, 0) - count_from(fa, 0);
        assert(w[0] * d >= 0) by (nonlinear_arith)
            requires
                d >= 0,
                w[0] >= 0,
        ;
    }
}

/// `e` is an entry of `order` at position `k` or after.
pub(super) open spec fn listed_from(order: Seq<EdgeId>, k: int, e: EdgeId) -> bool {
    exists|j: int| k <= j < order.len() && order[j] == e
}

/// The picked entries: as many as the set flags, each an entry of `order`
/// at or after `k`, and every flagged entry from `k` on among them.
proof fn lemma_picked_from(order: Seq<EdgeId>, f: Seq<bool>, k: int)
    requires
        order.len() == f.len(),
        0 <= k <= f.len(),
    ensures
        picked_from(order, f, k).len() == count_from(f, k),
        forall|i: int| 0 <= i < picked_from(order, f, k).len()
            ==> listed_from(order, k, #[trigger] picked_from(order, f, k)[i]),
        forall|j: int| k <= j < order.len() && f[j] ==> picked_from(order, f, k).contains(#[trigger] order[j]),
    decreases f.len() - k,
{
    if k < f.len() {
        lemma_picked_from(order, f, k + 1);
        let rest = picked_from(order, f, k + 1);
        let head = if f[k] { seq![order[k]] } else { Seq::<EdgeId>::empty() };
        let all = picked_from(order, f, k);
        assert(all == head + rest);
        assert forall|i: int| 0 <= i < all.len() implies listed_from(order, k, #[trigger] all[i]) by {
            if i < head.len() {
                assert(all[i] == order[k]);
                assert(k <= k < order.len() && order[k] == all[i]);
            } else {
                assert(all[i] == rest[i - head.len()]);
                assert(listed_from(order, k + 1, rest[i - head.len()]));
                let j = choose|j: int| k + 1 <= j < order.len() && order[j] == rest[i - head.len()];
                assert(k <= j < order.len() && order[j] == all[i]);
            }
        }
        assert forall|j: int| k <= j < order.len() && f[j] implies all.contains(#[trigger] order[j]) by {
            if j == k {
                assert(all[0] == order[k]);
            } else {
                assert(rest.contains(order[j]));
                let i = choose|i: int| 0 <= i < rest.len() && rest[i] == order[j];
                assert(all[i + head.len()] == rest[i]);
            }
        }
    } else {
        assert(picked_from(order, f, k) =~= Seq::<EdgeId>::empty());
    }
}

/// Setting one unset flag adds its weight to every suffix that holds it.
proof fn lemma_weight_from_set(w: Seq<int>, f: Seq<bool>, p: int, k: int)
    requires
        w.len() == f.len(),
        0 <= p < f.len(),
        !f[p],
        0 <= k <= f.len(),
    ensures
        weight_from(w, f.update(p, true), k) == weight_from(w, f, k) + (if k <= p { w[p] } else { 0int }),
    decreases f.len() - k,
{
    if k < f.len() {
        lemma_weight_from_set(w, f, p, k + 1);
    }
}

/// No flag set, no weight.
proof fn lemma_weight_from_none(w: Seq<int>, f: Seq<bool>, k: int)
    requires
        forall|j: int| 0 <= j < f.len() ==> !f[j],
    ensures
        weight_from(w, f, k) == 0,
    decreases f.len() - k,
{
    if 0 <= k < f.len() {
        lemma_weight_from_none(w, f, k + 1);
    }
}

/// For each position of `order`, whether Kruskal's choice keeps that edge.
pub(super) open spec fn kept_flags<N, E, W>(g: GraphView<N, E, W>, order: Seq<EdgeId>) -> Seq<bool> {
    Seq::new(order.len(), |j: int| !g.joined(
        g.greedy_forest(order.take(j)),
        g.edges[order[j].0 as int].source,
        g.edges[order[j].0 as int].target,
    ))
}

/// For each position of `order`, whether `t` lists that edge.
pub(super) open spec fn member_flags(order: Seq<EdgeId>, t: Seq<EdgeId>) -> Seq<bool> {
    Seq::new(order.len(), |j: int| t.contains(order[j]))
}

/// The weights of the edges of `order`, in order.
pub(super) open spec fn order_weights<N, E, W: Scalar>(g: GraphView<N, E, W>, order: Seq<EdgeId>) -> Seq<int> {
    Seq::new(order.len(), |j: int| g.edges[order[j].0 as int].weight.value())
}

/// Kruskal's forest gains, after position `k`, one edge and its weight per
/// kept position.
proof fn lemma_kept_counts<N, E, W: Scalar>(g: GraphView<N, E, W>, order: Seq<EdgeId>, k: int)
    requires
        0 <= k <= order.len(),
    ensures
        g.greedy_forest(order).len() - g.greedy_forest(order.take(k)).len() == count_from(kept_flags(g, order), k),
        sum(weights_of(g, g.greedy_forest(order))) - sum(weights_of(g, g.greedy_forest(order.take(k))))
            == weight_from(order_weights(g, order), kept_flags(g, order), k),
    decreases order.len() - k,
{
    if k == order.len() {
        assert(order.take(k) =~= order);
    } else {
        lemma_kept_counts(g, order, k + 1);
        let t = order.take(k + 1);
        assert(t.drop_last() =~= order.take(k));
        assert(t.last() == order[k]);
        let fk = g.greedy_forest(order.take(k));
        let fk1 = g.greedy_forest(t);
        if fk1 != fk {
            assert(fk1 == fk.push(order[k]));
            assert(weights_of(g, fk1).drop_last() =~= weights_of(g, fk));
        }
    }
}

/// Every edge of `g` is listed by a weight order.
proof fn lemma_order_covers<N, E, W: Scalar>(g: GraphView<N, E, W>, order: Seq<EdgeId>, e: int)
    requires
        is_weight_order(g, order),
        0 <= e < g.edges.len(),
    ensures
        exists|j: int| 0 <= j < order.len() && order[j].0 == e,
{
    let ids = Seq::new(order.len(), |j: int| NodeId(order[j].0));
    assert forall|i: int, j: int| 0 <= i < j < ids.len() implies ids[i].0 != ids[j].0 by {
        assert(lighter(g, order[i], order[j]));
    }
    lemma_ids_fill(ids, g.edges.len() as int);
    assert(has_id(ids, e));
    let j = choose|j: int| 0 <= j < ids.len() && ids[j].0 == e;
    assert(order[j].0 == e);
}

/// The weight of a list of distinct edges, read along a weight order.
proof fn lemma_member_weights<N, E, W: Scalar>(g: GraphView<N, E, W>, order: Seq<EdgeId>, t: Seq<EdgeId>)
    requires
        is_weight_order(g, order),
        valid_edges(g, t),
        forall|i: int, j: int| 0 <= i < j < t.len() ==> (#[trigger] t[i]).0 != (#[trigger] t[j]).0,
    ensures
        sum(weights_of(g, t)) == weight_from(order_weights(g, order), member_flags(order, t), 0),
    decreases t.len(),
{
    let w = order_weights(g, order);
    if t.len() == 0 {
        assert forall|j: int| 0 <= j < member_flags(order, t).len() implies !member_flags(order, t)[j] by {}
        lemma_weight_from_none(w, member_flags(order, t), 0);
        assert(weights_of(g, t) =~= Seq::<int>::empty());
    } else {
        let t1 = t.drop_last();
        let x = t.last();
        assert forall|i: int| 0 <= i < t1.len() implies (#[trigger] t1[i]).0 < g.edges.len() by {
            assert(t1[i] == t[i]);
        }
        assert forall|i: int, j: int| 0 <= i < j < t1.len() implies (#[trigger] t1[i]).0 != (#[trigger] t1[j]).0 by {
            assert(t1[i] == t[i] && t1[j] == t[j]);
        }
        lemma_member_weights(g, order, t1);
        assert(x == t[t.len() - 1]);
        lemma_order_covers(g, order, x.0 as int);
        let p = choose|j: int| 0 <= j < order.len() && order[j].0 == x.0;
        assert(order[p] == x);
        let f1 = member_flags(order, t1);
        assert(!f1[p]) by {
            if t1.contains(order[p]) {
                let i = choose|i: int| 0 <= i < t1.len() && t1[i] == order[p];
                assert(t[i] == t1[i]);
            }
        }
        assert(member_flags(order, t) =~= f1.update(p, true)) by {
            assert forall|j: int| 0 <= j < order.len() implies member_flags(order, t)[j] == f1.update(p, true)[j] by {
                if j != p {
                    assert(order[j].0 != order[p].0) by {
                        if j < p {
                            assert(lighter(g, order[j], order[p]));
                        } else {
                            assert(lighter(g, order[p], order[j]));
                        }
                    }
                    if t.contains(order[j]) {
                        let i = choose|i: int| 0 <= i < t.len() && t[i] == order[j];
                        assert(i != t.len() - 1);
                        assert(t1[i] == t[i]);
                    }
                    if t1.contains(order[j]) {
                        let i = choose|i: int| 0 <= i < t1.len() && t1[i] == order[j];
                        assert(t[i] == t1[i]);
                    }
                } else {
                    assert(t[t.len() - 1] == order[p]);
                }
            }
        }
        lemma_weight_from_set(w, f1, p, 0);
        assert(weights_of(g, t).drop_last() =~= weights_of(g, t1));
    }
}

/// From every position on, Kruskal's forest keeps no more edges than any
/// list of edges that connects the ends of every edge.
proof fn lemma_kept_count_bound<N, E, W: Scalar>(g: GraphView<N, E, W>, order: Seq<EdgeId>, t: Seq<EdgeId>, k: int)
    requires
        g.endpoints_valid(),
        is_weight_order(g, order),
        valid_edges(g, t),
        forall|e: int| 0 <= e < g.edges.len() ==> #[trigger] g.joined(t, g.edges[e].source, g.edges[e].target),
        0 <= k <= order.len(),
    ensures
        count_from(kept_flags(g, order), k) <= count_from(member_flags(order, t), k),
{
    let n = g.nodes.len() as int;
    let m = order.len() as int;
    let prefix = order.take(k);
    let f = g.greedy_forest(order);
    let fk = g.greedy_forest(prefix);
    let flags = member_flags(order, t);
    let x = picked_from(order, flags, k);
    let q = prefix + x;
    assert(valid_edges(g, order));
    assert forall|i: int| 0 <= i < prefix.len() implies (#[trigger] prefix[i]).0 < g.edges.len() by {
        assert(prefix[i] == order[i]);
    }
    lemma_kept_counts(g, order, k);
    lemma_part_count_greedy(g, order);
    lemma_part_count_greedy(g, prefix);
    lemma_picked_from(order, flags, k);
    assert forall|i: int| 0 <= i < x.len() implies (#[trigger] x[i]).0 < g.edges.len() by {
        assert(listed_from(order, k, x[i]));
    }
    // the prefix and its forest connect the same pairs, and so do the order and its forest
    assert forall|u: int, v: int| 0 <= u < n && 0 <= v < n implies (#[trigger] g.joined(prefix, u, v) <==> g.joined(fk, u, v)) by {
        lemma_greedy_forest_spans(g, prefix, u, v);
    }
    lemma_part_count_same(g, prefix, fk);
    assert forall|u: int, v: int| 0 <= u < n && 0 <= v < n implies (#[trigger] g.joined(order, u, v) <==> g.joined(f, u, v)) by {
        lemma_greedy_forest_spans(g, order, u, v);
    }
    lemma_part_count_same(g, order, f);
    // adding the listed edges after the prefix lowers the count by at most their number
    lemma_part_count_append(g, prefix, x);
    // those edges, with the prefix, connect what the whole order connects
    assert forall|i: int| 0 <= i < q.len() implies g.joined(order, g.edges[(#[trigger] q[i]).0 as int].source, g.edges[q[i].0 as int].target) by {
        let j = if i < k { i } else {
            assert(q[i] == x[i - k]);
            assert(listed_from(order, k, x[i - k]));
            choose|j: int| k <= j < order.len() && order[j] == x[i - k]
        };
        assert(order[j] == q[i]);
        assert(g.edge_joins(order[j].0 as int, g.edges[q[i].0 as int].source, g.edges[q[i].0 as int].target));
        assert(g.set_joins(order, g.edges[q[i].0 as int].source, g.edges[q[i].0 as int].target));
        lemma_joined_step(g, order, g.edges[q[i].0 as int].source, g.edges[q[i].0 as int].target);
    }
    assert forall|i: int| 0 <= i < t.len() implies g.joined(q, g.edges[(#[trigger] t[i]).0 as int].source, g.edges[t[i].0 as int].target) by {
        lemma_order_covers(g, order, t[i].0 as int);
        let p = choose|j: int| 0 <= j < order.len() && order[j].0 == t[i].0;
        assert(order[p] == t[i]);
        let idx = if p < k {
            assert(q[p] == prefix[p]);
            p
        } else {
            assert(flags[p]) by {
                assert(t[i] == order[p]);
            }
            assert(x.contains(order[p]));
            let r = choose|r: int| 0 <= r < x.len() && x[r] == order[p];
            assert(q[k + r] == x[r]);
            k + r
        };
        assert(q[idx] == t[i]);
        assert(g.edge_joins(q[idx].0 as int, g.edges[t[i].0 as int].source, g.edges[t[i].0 as int].target));
        assert(g.set_joins(q, g.edges[t[i].0 as int].source, g.edges[t[i].0 as int].target));
        lemma_joined_step(g, q, g.edges[t[i].0 as int].source, g.edges[t[i].0 as int].target);
    }
    assert forall|i: int| 0 <= i < order.len() implies g.joined(q, g.edges[(#[trigger] order[i]).0 as int].source, g.edges[order[i].0 as int].target) by {
        let e = order[i].0 as int;
        assert(g.joined(t, g.edges[e].source, g.edges[e].target));
        lemma_joined_cover(g, t, q, g.edges[e].source, g.edges[e].target);
    }
    assert forall|u: int, v: int| 0 <= u < n && 0 <= v < n implies (#[trigger] g.joined(q, u, v) <==> g.joined(order, u, v)) by {
        if g.joined(q, u, v) {
            lemma_joined_cover(g, q, order, u, v);
        }
        if g.joined(order, u, v) {
            lemma_joined_cover(g, order, q, u, v);
        }
    }
    lemma_part_count_same(g, q, order);
}

/// Kruskal's forest is a lightest way to connect what the edges connect:
/// over edges of nonnegative weight considered in a weight order, the edges
/// it keeps weigh no more than any list of distinct edges that connects the
/// ends of every edge.
pub proof fn lemma_greedy_forest_minimal<N, E, W: Scalar>(g: GraphView<N, E, W>, order: Seq<EdgeId>, t: Seq<EdgeId>)
    requires
        g.endpoints_valid(),
        forall|e: int| 0 <= e < g.edges.len() ==> (#[trigger] g.edges[e]).weight.value() >= 0,
        is_weight_order(g, order),
        forall|i: int| 0 <= i < t.len() ==> (#[trigger] t[i]).0 < g.edges.len(),
        forall|i: int, j: int| 0 <= i < j < t.len() ==> (#[trigger] t[i]).0 != (#[trigger] t[j]).0,
        forall|e: int| 0 <= e < g.edges.len() ==> #[trigger] g.joined(t, g.edges[e].source, g.edges[e].target),
    ensures
        sum(weights_of(g, g.greedy_forest(order))) <= sum(weights_of(g, t)),
{
    let w = order_weights(g, order);
    let fa = kept_flags(g, order);
    let fb = member_flags(order, t);
    assert forall|j: int| 0 <= j < w.len() implies 0 <= #[trigger] w[j] by {
        assert(order[j].0 < g.edges.len());
    }
    assert forall|i: int, j: int| 0 <= i <= j < w.len() implies #[trigger] w[i] <= #[trigger] w[j] by {
        if i < j {
            assert(lighter(g, order[i], order[j]));
        }
    }
    assert forall|j: int| 0 <= j <= w.len() implies #[trigger] count_from(fa, j) <= count_from(fb, j) by {
        lemma_kept_count_bound(g, order, t, j);
    }
    lemma_exchange_total(w, fa, fb);
    lemma_kept_counts(g, order, 0);
    assert(order.take(0) =~= Seq::<EdgeId>::empty());
    assert(weights_of(g, g.greedy_forest(order.take(0))) =~= Seq::<int>::empty());
    lemma_member_weights(g, order, t);
}

} // verus!
