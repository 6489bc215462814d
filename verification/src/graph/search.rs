use vstd::prelude::*;
use super::{GraphView, NodeId, incident, node_ids};

verus! {

/// An edge whose endpoints are not `u` changes nothing in `u`'s list.
pub(super) proof fn lemma_incident_none<N, E, W>(g: GraphView<N, E, W>, u: int, k: int)
    requires
        0 <= k <= g.edges.len(),
        forall|e: int| 0 <= e < k ==> (#[trigger] g.edges[e]).source != u && g.edges[e].target != u,
    ensures
        incident(g, u, k) == Seq::<(int, int)>::empty(),
    decreases k,
{
    if k > 0 {
        lemma_incident_none(g, u, k - 1);
    }
}

/// The lists depend only on the kind of graph and the first `k` edges.
pub(super) proof fn lemma_incident_same<N1, E1, W1, N2, E2, W2>(
    g1: GraphView<N1, E1, W1>,
    g2: GraphView<N2, E2, W2>,
    u: int,
    k: int,
)
    requires
        0 <= k <= g1.edges.len(),
        k <= g2.edges.len(),
        g1.directed == g2.directed,
        forall|e: int| 0 <= e < k ==> (#[trigger] g1.edges[e]).source == g2.edges[e].source
            && g1.edges[e].target == g2.edges[e].target,
    ensures
        incident(g1, u, k) == incident(g2, u, k),
    decreases k,
{
    if k > 0 {
        lemma_incident_same(g1, g2, u, k - 1);
    }
}


/// A sequence of distinct ids below `n` has at most `n` elements.
pub(super) proof fn lemma_distinct_ids_bound(s: Seq<NodeId>, n: int)
    requires
        0 <= n,
        forall|i: int, j: int| 0 <= i < j < s.len() ==> s[i].0 != s[j].0,
        forall|i: int| 0 <= i < s.len() ==> (#[trigger] s[i]).0 < n,
    ensures
        s.len() <= n,
{
    let ids = node_ids(s);
    assert forall|i: int, j: int| 0 <= i < ids.len() && 0 <= j < ids.len() && i != j implies ids[i] != ids[j] by {
        if i < j {
            assert(s[i].0 != s[j].0);
        } else {
            assert(s[j].0 != s[i].0);
        }
    }
    assert(ids.no_duplicates());
    ids.unique_seq_to_set();
    vstd::set_lib::lemma_int_range(0, n);
    assert forall|x: int| ids.to_set().contains(x) implies vstd::set_lib::set_int_range(0, n).contains(x) by {
        let i = choose|i: int| 0 <= i < ids.len() && ids[i] == x;
        assert(s[i].0 < n);
    }
    vstd::set_lib::lemma_len_subset(ids.to_set(), vstd::set_lib::set_int_range(0, n));
}

/// Every existing node reaches itself.
pub(super) proof fn lemma_reach_self<N, E, W>(g: GraphView<N, E, W>, u: int)
    requires
        0 <= u < g.nodes.len(),
    ensures
        g.reachable(u, u),
{
    let p = seq![u];
    assert(g.is_walk(p));
}

/// A walk can be extended by one arc.
pub(super) proof fn lemma_reach_step<N, E, W>(g: GraphView<N, E, W>, u: int, v: int, w: int)
    requires
        g.reachable(u, v),
        g.arc(v, w),
        0 <= w < g.nodes.len(),
    ensures
        g.reachable(u, w),
{
    let p = choose|p: Seq<int>| #[trigger] g.is_walk(p) && p[0] == u && p.last() == v;
    let q = p.push(w);
    assert forall|i: int| 0 <= i < q.len() - 1 implies #[trigger] g.arc(q[i], q[i + 1]) by {
        if i < p.len() - 1 {
            assert(q[i] == p[i] && q[i + 1] == p[i + 1]);
        }
    }
    assert(g.is_walk(q));
}

/// A set of nodes that holds `u` and is closed under arcs holds every node
/// reachable from `u`.
pub(super) proof fn lemma_closed_holds_reachable<N, E, W>(g: GraphView<N, E, W>, inside: spec_fn(int) -> bool, u: int, v: int)
    requires
        inside(u),
        forall|x: int, y: int| inside(x) && #[trigger] g.arc(x, y) && 0 <= y < g.nodes.len() ==> inside(y),
        g.reachable(u, v),
    ensures
        inside(v),
{
    let p = choose|p: Seq<int>| #[trigger] g.is_walk(p) && p[0] == u && p.last() == v;
    lemma_walk_inside(g, inside, p, p.len() - 1);
}

pub(super) proof fn lemma_walk_inside<N, E, W>(g: GraphView<N, E, W>, inside: spec_fn(int) -> bool, p: Seq<int>, k: int)
    requires
        g.is_walk(p),
        inside(p[0]),
        0 <= k < p.len(),
        forall|x: int, y: int| inside(x) && #[trigger] g.arc(x, y) && 0 <= y < g.nodes.len() ==> inside(y),
    ensures
        inside(p[k]),
    decreases k,
{
    if k > 0 {
        lemma_walk_inside(g, inside, p, k - 1);
        assert(g.arc(p[k - 1], p[(k - 1) + 1]));
        assert(0 <= p[k] < g.nodes.len());
    }
}

/// The invariant of the traversals: `s` lists distinct existing nodes,
/// starting with `start`, each reachable from it and each after the first
/// entered by an arc from an earlier one; `visited` marks exactly the nodes of `s`.
#[verifier::opaque]
pub(super) open spec fn discovered<N, E, W>(g: GraphView<N, E, W>, s: Seq<NodeId>, visited: Seq<bool>, start: int) -> bool {
    &&& visited.len() == g.nodes.len()
    &&& s.len() >= 1
    &&& s[0].0 == start
    &&& forall|i: int, j: int| 0 <= i < j < s.len() ==> s[i].0 != s[j].0
    &&& forall|i: int| 0 <= i < s.len() ==> (#[trigger] s[i]).0 < g.nodes.len()
    &&& forall|v: int| 0 <= v < g.nodes.len() ==> (visited[v] <==> exists|i: int| 0 <= i < s.len() && s[i].0 == v)
    &&& forall|i: int| 0 <= i < s.len() ==> #[trigger] g.reachable(start, s[i].0 as int)
    &&& forall|i: int| 1 <= i < s.len() ==> #[trigger] g.entered_from_earlier(s, i)
}

pub(super) proof fn lemma_discovered_start<N, E, W>(g: GraphView<N, E, W>, visited: Seq<bool>, st: NodeId)
    requires
        st.0 < g.nodes.len(),
        visited.len() == g.nodes.len(),
        forall|v: int| 0 <= v < g.nodes.len() ==> (visited[v] <==> v == st.0),
    ensures
        discovered(g, seq![st], visited, st.0 as int),
{
    reveal(discovered);
    let start = st.0 as int;
    lemma_reach_self(g, start);
    let s = seq![st];
    assert forall|v: int| 0 <= v < g.nodes.len() implies (visited[v] <==> exists|i: int| 0 <= i < s.len() && s[i].0 == v) by {
        if v == start {
            assert(s[0].0 == v);
        }
    }
}

pub(super) proof fn lemma_discovered_push<N, E, W>(g: GraphView<N, E, W>, s: Seq<NodeId>, visited: Seq<bool>, start: int, pos: int, nb: NodeId)
    requires
        discovered(g, s, visited, start),
        0 <= pos < s.len(),
        g.arc(s[pos].0 as int, nb.0 as int),
        nb.0 < g.nodes.len(),
        !visited[nb.0 as int],
    ensures
        discovered(g, s.push(nb), visited.update(nb.0 as int, true), start),
{
    reveal(discovered);
    let s2 = s.push(nb);
    let vis2 = visited.update(nb.0 as int, true);
    lemma_reach_step(g, start, s[pos].0 as int, nb.0 as int);
    assert(s2[pos] == s[pos]);
    assert forall|i: int| 1 <= i < s2.len() implies #[trigger] g.entered_from_earlier(s2, i) by {
        if i < s.len() {
            assert(g.entered_from_earlier(s, i));
            let j = choose|j: int| 0 <= j < i && #[trigger] g.arc(s[j].0 as int, s[i].0 as int);
            assert(s2[j] == s[j] && s2[i] == s[i]);
            assert(g.arc(s2[j].0 as int, s2[i].0 as int));
        } else {
            assert(g.arc(s2[pos].0 as int, s2[i].0 as int));
        }
    }
    assert forall|v: int| 0 <= v < g.nodes.len() implies (vis2[v] <==> exists|i: int| 0 <= i < s2.len() && s2[i].0 == v) by {
        if v != nb.0 {
            if vis2[v] {
                let i = choose|i: int| 0 <= i < s.len() && s[i].0 == v;
                assert(s2[i] == s[i]);
            }
            if exists|i: int| 0 <= i < s2.len() && s2[i].0 == v {
                let i = choose|i: int| 0 <= i < s2.len() && s2[i].0 == v;
                assert(s[i] == s2[i]);
            }
        } else {
            assert(s2[s.len() as int].0 == v);
        }
    }
    assert forall|i: int| 0 <= i < s2.len() implies #[trigger] g.reachable(start, s2[i].0 as int) by {
        if i < s.len() {
            assert(s2[i] == s[i]);
        }
    }
    assert forall|i: int, j: int| 0 <= i < j < s2.len() implies s2[i].0 != s2[j].0 by {
        if j == s.len() {
            assert(s2[i] == s[i]);
            if s[i].0 == nb.0 {
                assert(visited[nb.0 as int]);
            }
        } else {
            assert(s2[i] == s[i] && s2[j] == s[j]);
        }
    }
    assert forall|i: int| 0 <= i < s2.len() implies (#[trigger] s2[i]).0 < g.nodes.len() by {
        if i < s.len() {
            assert(s2[i] == s[i]);
        }
    }
}

/// A finished traversal: when every listed node has all its successors
/// listed, the list is a traversal.
pub(super) proof fn lemma_discovered_closed<N, E, W>(g: GraphView<N, E, W>, s: Seq<NodeId>, visited: Seq<bool>, start: int)
    requires
        discovered(g, s, visited, start),
        forall|i: int, v: int| 0 <= i < s.len() && #[trigger] g.arc(s[i].0 as int, v) && 0 <= v < g.nodes.len() ==> visited[v],
    ensures
        g.is_traversal(s, start),
{
    reveal(discovered);
    let n = g.nodes.len();
    let inside = |v: int| 0 <= v < n && visited[v];
    assert forall|x: int, y: int| inside(x) && #[trigger] g.arc(x, y) && 0 <= y < g.nodes.len() implies inside(y) by {
        let i = choose|i: int| 0 <= i < s.len() && s[i].0 == x;
        assert(g.arc(s[i].0 as int, y));
    }
    assert(s[0].0 < n);
    assert(visited[start]);
    assert forall|v: int| 0 <= v < n && #[trigger] g.reachable(start, v) implies
        exists|i: int| 0 <= i < s.len() && s[i].0 == v by {
        lemma_closed_holds_reachable(g, inside, start, v);
    }
    assert(s.len() >= 1);
    assert(s[0].0 == start);
    assert(forall|i: int, j: int| 0 <= i < j < s.len() ==> s[i].0 != s[j].0);
    assert(forall|i: int| 0 <= i < s.len() ==> #[trigger] g.reachable(start, s[i].0 as int));
    assert(forall|v: int| 0 <= v < g.nodes.len() && #[trigger] g.reachable(start, v) ==>
            exists|i: int| 0 <= i < s.len() && s[i].0 == v);
}

/// Some listed node has an arc to `x`.
pub(super) open spec fn fed_by<N, E, W>(g: GraphView<N, E, W>, order: Seq<NodeId>, x: NodeId) -> bool {
    exists|j: int| 0 <= j < order.len() && #[trigger] g.arc(order[j].0 as int, x.0 as int)
}

/// Every node on the stack is entered by an arc from a node already listed.
#[verifier::opaque]
pub(super) open spec fn stack_fed<N, E, W>(g: GraphView<N, E, W>, order: Seq<NodeId>, stack: Seq<NodeId>) -> bool {
    forall|k: int| 0 <= k < stack.len() ==> #[trigger] fed_by(g, order, stack[k])
}

pub(super) proof fn lemma_stack_fed_pop<N, E, W>(g: GraphView<N, E, W>, order: Seq<NodeId>, stack: Seq<NodeId>)
    requires
        stack_fed(g, order, stack),
        stack.len() > 0,
    ensures
        stack_fed(g, order, stack.drop_last()),
        fed_by(g, order, stack.last()),
{
    reveal(stack_fed);
    let s2 = stack.drop_last();
    assert forall|k: int| 0 <= k < s2.len() implies #[trigger] fed_by(g, order, s2[k]) by {
        assert(s2[k] == stack[k]);
    }
    assert(fed_by(g, order, stack[stack.len() - 1]));
}

/// Growing the order keeps the stack fed, and a pushed successor of the last
/// listed node is fed too.
pub(super) proof fn lemma_stack_fed_grow<N, E, W>(g: GraphView<N, E, W>, order: Seq<NodeId>, x: NodeId, stack: Seq<NodeId>)
    requires
        order.len() > 0,
        stack_fed(g, order.drop_last(), stack) || stack_fed(g, order, stack),
    ensures
        stack_fed(g, order, stack),
        g.arc(order.last().0 as int, x.0 as int) ==> stack_fed(g, order, stack.push(x)),
{
    reveal(stack_fed);
    let o1 = order.drop_last();
    assert forall|k: int| 0 <= k < stack.len() implies #[trigger] fed_by(g, order, stack[k]) by {
        if stack_fed(g, o1, stack) {
            assert(fed_by(g, o1, stack[k]));
            let j = choose|j: int| 0 <= j < o1.len() && #[trigger] g.arc(o1[j].0 as int, stack[k].0 as int);
            assert(order[j] == o1[j]);
            assert(g.arc(order[j].0 as int, stack[k].0 as int));
        }
    }
    if g.arc(order.last().0 as int, x.0 as int) {
        let s2 = stack.push(x);
        assert forall|k: int| 0 <= k < s2.len() implies #[trigger] fed_by(g, order, s2[k]) by {
            if k < stack.len() {
                assert(s2[k] == stack[k]);
            } else {
                assert(g.arc(order[order.len() - 1].0 as int, s2[k].0 as int));
            }
        }
    }
}

/// Every arc out of the first `upto` listed nodes leads to a visited node or
/// to one waiting on the stack.
#[verifier::opaque]
pub(super) open spec fn covered<N, E, W>(g: GraphView<N, E, W>, order: Seq<NodeId>, upto: int, visited: Seq<bool>, stack: Seq<NodeId>) -> bool {
    forall|i: int, v: int| 0 <= i < upto && #[trigger] g.arc(order[i].0 as int, v) && 0 <= v < g.nodes.len() ==>
        visited[v] || exists|k: int| 0 <= k < stack.len() && stack[k].0 == v
}

pub(super) proof fn lemma_covered_pop<N, E, W>(g: GraphView<N, E, W>, order: Seq<NodeId>, visited: Seq<bool>, stack: Seq<NodeId>)
    requires
        covered(g, order, order.len() as int, visited, stack),
        stack.len() > 0,
        visited.len() == g.nodes.len(),
        stack.last().0 < g.nodes.len(),
    ensures
        covered(g, order, order.len() as int, visited.update(stack.last().0 as int, true), stack.drop_last()),
        visited[stack.last().0 as int] ==> covered(g, order, order.len() as int, visited, stack.drop_last()),
{
    reveal(covered);
    let s2 = stack.drop_last();
    let x = stack.last();
    let vis2 = visited.update(x.0 as int, true);
    assert forall|i: int, v: int| 0 <= i < order.len() && #[trigger] g.arc(order[i].0 as int, v) && 0 <= v < g.nodes.len() implies
        vis2[v] || exists|k: int| 0 <= k < s2.len() && s2[k].0 == v by {
        if !visited[v] {
            let k = choose|k: int| 0 <= k < stack.len() && stack[k].0 == v;
            if k < s2.len() {
                assert(s2[k] == stack[k]);
            }
        }
    }
    if visited[x.0 as int] {
        assert forall|i: int, v: int| 0 <= i < order.len() && #[trigger] g.arc(order[i].0 as int, v) && 0 <= v < g.nodes.len() implies
            visited[v] || exists|k: int| 0 <= k < s2.len() && s2[k].0 == v by {
            if !visited[v] {
                let k = choose|k: int| 0 <= k < stack.len() && stack[k].0 == v;
                if k < s2.len() {
                    assert(s2[k] == stack[k]);
                }
            }
        }
    }
}

pub(super) proof fn lemma_covered_visit<N, E, W>(g: GraphView<N, E, W>, order: Seq<NodeId>, visited: Seq<bool>, stack: Seq<NodeId>, x: NodeId)
    requires
        covered(g, order, order.len() as int, visited.update(x.0 as int, true), stack),
    ensures
        covered(g, order.push(x), order.len() as int, visited.update(x.0 as int, true), stack),
{
    reveal(covered);
    let o2 = order.push(x);
    let vis2 = visited.update(x.0 as int, true);
    assert forall|i: int, v: int| 0 <= i < order.len() && #[trigger] g.arc(o2[i].0 as int, v) && 0 <= v < g.nodes.len() implies
        vis2[v] || exists|k: int| 0 <= k < stack.len() && stack[k].0 == v by {
        assert(o2[i] == order[i]);
        assert(g.arc(order[i].0 as int, v));
    }
}

pub(super) proof fn lemma_covered_grow<N, E, W>(g: GraphView<N, E, W>, order: Seq<NodeId>, upto: int, visited: Seq<bool>, stack: Seq<NodeId>, x: NodeId)
    requires
        covered(g, order, upto, visited, stack),
    ensures
        covered(g, order, upto, visited, stack.push(x)),
{
    reveal(covered);
    let s2 = stack.push(x);
    assert forall|i: int, v: int| 0 <= i < upto && #[trigger] g.arc(order[i].0 as int, v) && 0 <= v < g.nodes.len() implies
        visited[v] || exists|k: int| 0 <= k < s2.len() && s2[k].0 == v by {
        if !visited[v] {
            let k = choose|k: int| 0 <= k < stack.len() && stack[k].0 == v;
            assert(s2[k] == stack[k]);
        }
    }
}

/// Taken undirected, an arc between existing nodes runs both ways.
pub(super) proof fn lemma_undirected_symmetric<N, E, W>(g: GraphView<N, E, W>, u: int, v: int)
    requires
        g.undirected().arc(u, v),
    ensures
        g.undirected().arc(v, u),
{
    let e = choose|e: int| g.undirected().edge_step(e, u, v);
    assert(g.undirected().edge_step(e, v, u));
}

/// Among the first `k` edges, the number that enter `v` from a node not
/// marked in `done`.
pub(super) open spec fn in_count<N, E, W>(g: GraphView<N, E, W>, v: int, done: Seq<bool>, k: int) -> nat
    decreases k,
{
    if k <= 0 {
        0
    } else {
        in_count(g, v, done, k - 1) + if g.edges[k - 1].target == v && !done[g.edges[k - 1].source] { 1nat } else { 0nat }
    }
}

/// Among the first `k` edges, the number that run from `u` to `v`.
pub(super) open spec fn out_count<N, E, W>(g: GraphView<N, E, W>, u: int, v: int, k: int) -> nat
    decreases k,
{
    if k <= 0 {
        0
    } else {
        out_count(g, u, v, k - 1) + if g.edges[k - 1].source == u && g.edges[k - 1].target == v { 1nat } else { 0nat }
    }
}

/// The number of adjacency entries that lead to `v`.
pub(super) open spec fn count_nb(s: Seq<(int, int)>, v: int) -> nat
    decreases s.len(),
{
    if s.len() == 0 {
        0
    } else {
        count_nb(s.drop_last(), v) + if s.last().1 == v { 1nat } else { 0nat }
    }
}

pub(super) proof fn lemma_in_count_bound<N, E, W>(g: GraphView<N, E, W>, v: int, done: Seq<bool>, k: int)
    requires
        0 <= k,
    ensures
        in_count(g, v, done, k) <= k,
    decreases k,
{
    if k > 0 {
        lemma_in_count_bound(g, v, done, k - 1);
    }
}

pub(super) proof fn lemma_in_count_positive<N, E, W>(g: GraphView<N, E, W>, v: int, done: Seq<bool>, k: int)
    requires
        0 <= k,
    ensures
        in_count(g, v, done, k) > 0 <==> exists|e: int| 0 <= e < k && #[trigger] g.edges[e].target == v && !done[g.edges[e].source],
    decreases k,
{
    if k > 0 {
        lemma_in_count_positive(g, v, done, k - 1);
        if exists|e: int| 0 <= e < k && #[trigger] g.edges[e].target == v && !done[g.edges[e].source] {
            let e = choose|e: int| 0 <= e < k && #[trigger] g.edges[e].target == v && !done[g.edges[e].source];
            if e < k - 1 {
                assert(in_count(g, v, done, k - 1) > 0);
            }
        }
    }
}

/// Marking `u` done removes from the count of `v` exactly the edges from `u` to `v`.
pub(super) proof fn lemma_in_count_split<N, E, W>(g: GraphView<N, E, W>, v: int, done: Seq<bool>, u: int, k: int)
    requires
        g.endpoints_valid(),
        done.len() == g.nodes.len(),
        0 <= u < g.nodes.len(),
        !done[u],
        0 <= k <= g.edges.len(),
    ensures
        in_count(g, v, done, k) == in_count(g, v, done.update(u, true), k) + out_count(g, u, v, k),
    decreases k,
{
    if k > 0 {
        lemma_in_count_split(g, v, done, u, k - 1);
        let s = g.edges[k - 1].source;
        assert(0 <= s < g.nodes.len());
    }
}

pub(super) proof fn lemma_count_push(s: Seq<(int, int)>, x: (int, int), v: int)
    ensures
        count_nb(s.push(x), v) == count_nb(s, v) + if x.1 == v { 1nat } else { 0nat },
{
    assert(s.push(x).drop_last() =~= s);
}

/// In a directed graph the adjacency list of `u` holds one entry per edge
/// leaving `u`.
pub(super) proof fn lemma_count_incident<N, E, W>(g: GraphView<N, E, W>, u: int, k: int)
    requires
        g.directed,
        0 <= k <= g.edges.len(),
    ensures
        forall|v: int| #[trigger] count_nb(incident(g, u, k), v) == out_count(g, u, v, k),
    decreases k,
{
    if k > 0 {
        lemma_count_incident(g, u, k - 1);
        let e = g.edges[k - 1];
        let prev = incident(g, u, k - 1);
        assert(incident(g, u, k) == if e.source == u { prev.push((k - 1, e.target)) } else { prev });
        assert forall|v: int| #[trigger] count_nb(incident(g, u, k), v) == out_count(g, u, v, k) by {
            assert(count_nb(prev, v) == out_count(g, u, v, k - 1));
            if e.source == u {
                lemma_count_push(prev, (k - 1, e.target), v);
            }
        }
    }
}

pub(super) proof fn lemma_count_take_step(s: Seq<(int, int)>, t: int, v: int)
    requires
        0 <= t < s.len(),
    ensures
        count_nb(s.take(t + 1), v) == count_nb(s.take(t), v) + if s[t].1 == v { 1nat } else { 0nat },
{
    assert(s.take(t + 1).drop_last() =~= s.take(t));
}

pub(super) proof fn lemma_count_take_bound(s: Seq<(int, int)>, t: int, v: int)
    requires
        0 <= t <= s.len(),
    ensures
        count_nb(s.take(t), v) <= count_nb(s, v),
    decreases s.len(),
{
    if t == s.len() {
        assert(s.take(t) =~= s);
    } else {
        lemma_count_take_bound(s.drop_last(), t, v);
        assert(s.drop_last().take(t) =~= s.take(t));
    }
}

/// Edge `e` enters `order[j]` from a node listed before it.
pub(super) open spec fn source_before<N, E, W>(g: GraphView<N, E, W>, order: Seq<NodeId>, j: int, e: int) -> bool {
    exists|i: int| 0 <= i < j && #[trigger] order[i].0 == g.edges[e].source
}

/// The state of Kahn's algorithm: `order` then `queue` list distinct nodes;
/// `done` marks the listed ones; the queue holds exactly the waiting nodes
/// whose in-degree has dropped to zero; every edge into a listed node comes
/// from a node listed earlier.
#[verifier::opaque]
pub(super) open spec fn kahn_state<N, E, W>(g: GraphView<N, E, W>, order: Seq<NodeId>, queue: Seq<NodeId>, done: Seq<bool>, indeg: Seq<usize>) -> bool {
    &&& forall|i: int, j: int| 0 <= i < j < (order + queue).len() ==> (order + queue)[i].0 != (order + queue)[j].0
    &&& forall|i: int| 0 <= i < (order + queue).len() ==> (#[trigger] (order + queue)[i]).0 < g.nodes.len()
    &&& forall|v: int| 0 <= v < g.nodes.len() ==> (done[v] <==> exists|i: int| 0 <= i < order.len() && order[i].0 == v)
    &&& forall|i: int| 0 <= i < queue.len() ==> indeg[(#[trigger] queue[i]).0 as int] == 0
    &&& forall|v: int| 0 <= v < g.nodes.len() && !done[v] && #[trigger] indeg[v] == 0 ==>
        exists|i: int| 0 <= i < queue.len() && queue[i].0 == v
    &&& forall|j: int, e: int| 0 <= j < order.len() && 0 <= e < g.edges.len() && #[trigger] g.edges[e].target == (#[trigger] order[j]).0 ==>
        source_before(g, order, j, e)
}

pub(super) proof fn lemma_kahn_start<N, E, W>(g: GraphView<N, E, W>, queue: Seq<NodeId>, none: Seq<bool>, indeg: Seq<usize>)
    requires
        none.len() == g.nodes.len(),
        indeg.len() == g.nodes.len(),
        forall|v: int| 0 <= v < g.nodes.len() ==> !none[v],
        forall|i: int| 0 <= i < queue.len() ==> (#[trigger] queue[i]).0 < g.nodes.len(),
        forall|i: int| 0 <= i < queue.len() ==> indeg[(#[trigger] queue[i]).0 as int] == 0,
        forall|i: int, j: int| 0 <= i < j < queue.len() ==> queue[i].0 < queue[j].0,
        forall|v: int| 0 <= v < g.nodes.len() && #[trigger] indeg[v] == 0 ==>
            exists|i: int| 0 <= i < queue.len() && queue[i].0 == v,
    ensures
        kahn_state(g, Seq::empty(), queue, none, indeg),
{
    reveal(kahn_state);
    assert(Seq::<NodeId>::empty() + queue =~= queue);
}

pub(super) proof fn lemma_kahn_take<N, E, W>(g: GraphView<N, E, W>, order: Seq<NodeId>, queue: Seq<NodeId>, done: Seq<bool>, indeg: Seq<usize>)
    requires
        kahn_state(g, order, queue, done, indeg),
        queue.len() > 0,
        g.endpoints_valid(),
        done.len() == g.nodes.len(),
        indeg.len() == g.nodes.len(),
        forall|v: int| 0 <= v < g.nodes.len() ==> #[trigger] indeg[v] == in_count(g, v, done, g.edges.len() as int),
    ensures
        queue[0].0 < g.nodes.len(),
        !done[queue[0].0 as int],
        in_count(g, queue[0].0 as int, done, g.edges.len() as int) == 0,
        kahn_state(g, order.push(queue[0]), queue.drop_first(), done.update(queue[0].0 as int, true), indeg),
{
    reveal(kahn_state);
    let n = g.nodes.len();
    let m = g.edges.len() as int;
    let x = queue[0];
    let o2 = order.push(x);
    let q2 = queue.drop_first();
    let d2 = done.update(x.0 as int, true);
    assert(o2 + q2 =~= order + queue);
    assert((order + queue)[order.len() as int] == x);
    assert(x.0 < n);
    assert(indeg[x.0 as int] == 0);
    if done[x.0 as int] {
        let i = choose|i: int| 0 <= i < order.len() && order[i].0 == x.0;
        assert((order + queue)[i] == order[i]);
    }
    assert forall|v: int| 0 <= v < n implies (d2[v] <==> exists|i: int| 0 <= i < o2.len() && o2[i].0 == v) by {
        if v == x.0 {
            assert(o2[order.len() as int] == x);
        } else {
            if done[v] {
                let i = choose|i: int| 0 <= i < order.len() && order[i].0 == v;
                assert(o2[i] == order[i]);
            }
            if exists|i: int| 0 <= i < o2.len() && o2[i].0 == v {
                let i = choose|i: int| 0 <= i < o2.len() && o2[i].0 == v;
                assert(order[i] == o2[i]);
            }
        }
    }
    assert forall|i: int| 0 <= i < q2.len() implies indeg[(#[trigger] q2[i]).0 as int] == 0 by {
        assert(q2[i] == queue[i + 1]);
    }
    assert forall|v: int| 0 <= v < n && !d2[v] && #[trigger] indeg[v] == 0 implies
        exists|i: int| 0 <= i < q2.len() && q2[i].0 == v by {
        let i = choose|i: int| 0 <= i < queue.len() && queue[i].0 == v;
        assert(i != 0);
        assert(q2[i - 1] == queue[i]);
    }
    lemma_in_count_positive(g, x.0 as int, done, m);
    assert forall|j: int, e: int| 0 <= j < o2.len() && 0 <= e < m && #[trigger] g.edges[e].target == (#[trigger] o2[j]).0 implies
        source_before(g, o2, j, e) by {
        if j < order.len() {
            assert(o2[j] == order[j]);
            assert(source_before(g, order, j, e));
            let i = choose|i: int| 0 <= i < j && #[trigger] order[i].0 == g.edges[e].source;
            assert(o2[i] == order[i]);
        } else {
            let src = g.edges[e].source;
            assert(done[src]);
            let i = choose|i: int| 0 <= i < order.len() && order[i].0 == src;
            assert(o2[i] == order[i]);
        }
    }
}

pub(super) proof fn lemma_kahn_decrement<N, E, W>(g: GraphView<N, E, W>, order: Seq<NodeId>, queue: Seq<NodeId>, done: Seq<bool>, indeg: Seq<usize>, x: NodeId)
    requires
        kahn_state(g, order, queue, done, indeg),
        done.len() == g.nodes.len(),
        indeg.len() == g.nodes.len(),
        x.0 < g.nodes.len(),
        !done[x.0 as int],
        indeg[x.0 as int] >= 1,
    ensures
        indeg[x.0 as int] == 1 ==> kahn_state(g, order, queue.push(x), done, indeg.update(x.0 as int, (indeg[x.0 as int] - 1) as usize)),
        indeg[x.0 as int] > 1 ==> kahn_state(g, order, queue, done, indeg.update(x.0 as int, (indeg[x.0 as int] - 1) as usize)),
{
    reveal(kahn_state);
    let n = g.nodes.len();
    let v = x.0 as int;
    let i2 = indeg.update(v, (indeg[v] - 1) as usize);
    assert forall|i: int| 0 <= i < queue.len() implies (#[trigger] queue[i]).0 != v by {
        assert(indeg[queue[i].0 as int] == 0);
    }
    if indeg[v] == 1 {
        let q2 = queue.push(x);
        let s = order + queue;
        let s2 = order + q2;
        assert(s2 =~= s.push(x));
        assert forall|i: int| 0 <= i < s.len() implies (#[trigger] s[i]).0 != v by {
            if i < order.len() {
                assert(s[i] == order[i]);
                if order[i].0 == v {
                    assert(done[v]);
                }
            } else {
                assert(s[i] == queue[i - order.len()]);
            }
        }
        assert forall|i: int, j: int| 0 <= i < j < s2.len() implies s2[i].0 != s2[j].0 by {
            if j == s.len() {
                assert(s2[i] == s[i]);
            } else {
                assert(s2[i] == s[i] && s2[j] == s[j]);
            }
        }
        assert forall|i: int| 0 <= i < s2.len() implies (#[trigger] s2[i]).0 < n by {
            if i < s.len() {
                assert(s2[i] == s[i]);
            }
        }
        assert forall|i: int| 0 <= i < q2.len() implies i2[(#[trigger] q2[i]).0 as int] == 0 by {
            if i < queue.len() {
                assert(q2[i] == queue[i]);
                assert(s[order.len() + i] == queue[i]);
            }
        }
        assert forall|w: int| 0 <= w < n && !done[w] && #[trigger] i2[w] == 0 implies
            exists|i: int| 0 <= i < q2.len() && q2[i].0 == w by {
            if w == v {
                assert(q2[queue.len() as int] == x);
            } else {
                let i = choose|i: int| 0 <= i < queue.len() && queue[i].0 == w;
                assert(q2[i] == queue[i]);
            }
        }
    } else {
        assert forall|i: int| 0 <= i < queue.len() implies i2[(#[trigger] queue[i]).0 as int] == 0 by {
            assert(indeg[queue[i].0 as int] == 0);
            assert((order + queue)[order.len() + i] == queue[i]);
        }
        assert forall|w: int| 0 <= w < n && !done[w] && #[trigger] i2[w] == 0 implies
            exists|i: int| 0 <= i < queue.len() && queue[i].0 == w by {
            assert(indeg[w] == 0);
        }
    }
}

/// Some element of `s` has id `v`.
pub(super) open spec fn has_id(s: Seq<NodeId>, v: int) -> bool {
    exists|i: int| 0 <= i < s.len() && s[i].0 == v
}

/// Distinct ids below `n` fill `0..n` exactly when there are `n` of them.
pub(super) proof fn lemma_ids_fill(s: Seq<NodeId>, n: int)
    requires
        0 <= n,
        forall|i: int, j: int| 0 <= i < j < s.len() ==> s[i].0 != s[j].0,
        forall|i: int| 0 <= i < s.len() ==> (#[trigger] s[i]).0 < n,
    ensures
        s.len() == n ==> forall|v: int| 0 <= v < n ==> #[trigger] has_id(s, v),
        s.len() != n ==> exists|v: int| 0 <= v < n && !(#[trigger] has_id(s, v)),
{
    lemma_distinct_ids_bound(s, n);
    let ids = node_ids(s);
    assert forall|i: int, j: int| 0 <= i < ids.len() && 0 <= j < ids.len() && i != j implies ids[i] != ids[j] by {
        if i < j {
            assert(s[i].0 != s[j].0);
        } else {
            assert(s[j].0 != s[i].0);
        }
    }
    ids.unique_seq_to_set();
    let range = vstd::set_lib::set_int_range(0, n);
    vstd::set_lib::lemma_int_range(0, n);
    assert forall|x: int| ids.to_set().contains(x) implies range.contains(x) by {
        let i = choose|i: int| 0 <= i < ids.len() && ids[i] == x;
        assert(s[i].0 < n);
    }
    if s.len() == n {
        vstd::set_lib::lemma_subset_equality(ids.to_set(), range);
        assert forall|v: int| 0 <= v < n implies #[trigger] has_id(s, v) by {
            assert(range.contains(v));
            assert(ids.to_set().contains(v));
            let i = choose|i: int| 0 <= i < ids.len() && ids[i] == v;
            assert(s[i].0 == v);
        }
    } else {
        if forall|v: int| 0 <= v < n ==> #[trigger] has_id(s, v) {
            assert forall|x: int| range.contains(x) implies ids.to_set().contains(x) by {
                assert(has_id(s, x));
                let i = choose|i: int| 0 <= i < s.len() && s[i].0 == x;
                assert(ids[i] == x);
            }
            vstd::set_lib::lemma_len_subset(range, ids.to_set());
        }
    }
}

/// A finished run that listed every node yields a topological order.
pub(super) proof fn lemma_kahn_complete<N, E, W>(g: GraphView<N, E, W>, order: Seq<NodeId>, done: Seq<bool>, indeg: Seq<usize>)
    requires
        kahn_state(g, order, Seq::empty(), done, indeg),
        order.len() == g.nodes.len(),
        g.endpoints_valid(),
    ensures
        g.is_topological_order(order),
{
    reveal(kahn_state);
    assert(order + Seq::<NodeId>::empty() =~= order);
    lemma_ids_fill(order, g.nodes.len() as int);
    assert forall|e: int| 0 <= e < g.edges.len() implies #[trigger] g.runs_forward(order, e) by {
        let t = g.edges[e].target;
        assert(g.edges[e].source < g.nodes.len());
        assert(has_id(order, t));
        let j = choose|j: int| 0 <= j < order.len() && order[j].0 == t;
        assert(source_before(g, order, j, e));
        let i = choose|i: int| 0 <= i < j && #[trigger] order[i].0 == g.edges[e].source;
        assert(order[i].0 == g.edges[e].source && order[j].0 == g.edges[e].target);
    }
}

/// Some node waits on an edge from a node that is not done.
pub(super) open spec fn pending<N, E, W>(g: GraphView<N, E, W>, done: Seq<bool>, v: int) -> bool {
    exists|e: int| 0 <= e < g.edges.len() && #[trigger] g.edges[e].target == v && !done[g.edges[e].source]
}

pub(super) proof fn lemma_first_undone(ord: Seq<NodeId>, done: Seq<bool>, k: int) -> (j: int)
    requires
        0 <= k < ord.len(),
        !done[ord[k].0 as int],
    ensures
        0 <= j <= k,
        !done[ord[j].0 as int],
        forall|i: int| 0 <= i < j ==> done[(#[trigger] ord[i]).0 as int],
    decreases k,
{
    if forall|i: int| 0 <= i < k ==> done[(#[trigger] ord[i]).0 as int] {
        k
    } else {
        let i = choose|i: int| 0 <= i < k && !done[(#[trigger] ord[i]).0 as int];
        lemma_first_undone(ord, done, i)
    }
}

/// If some node is not done and every node that is not done waits on an edge
/// from another such node, the graph has no topological order.
pub(super) proof fn lemma_no_topological_order<N, E, W>(g: GraphView<N, E, W>, done: Seq<bool>, v: int)
    requires
        0 <= v < g.nodes.len(),
        !done[v],
        forall|w: int| 0 <= w < g.nodes.len() && !done[w] ==> #[trigger] pending(g, done, w),
    ensures
        !g.has_topological_order(),
{
    if g.has_topological_order() {
        let ord = choose|ord: Seq<NodeId>| #[trigger] g.is_topological_order(ord);
        lemma_ids_fill(ord, g.nodes.len() as int);
        assert(has_id(ord, v));
        let k = choose|i: int| 0 <= i < ord.len() && ord[i].0 == v;
        let j = lemma_first_undone(ord, done, k);
        let x = ord[j].0 as int;
        assert(pending(g, done, x));
        let e = choose|e: int| 0 <= e < g.edges.len() && #[trigger] g.edges[e].target == x && !done[g.edges[e].source];
        assert(g.runs_forward(ord, e));
        let (i1, j1) = choose|i1: int, j1: int| #![trigger ord[i1], ord[j1]]
            0 <= i1 < j1 < ord.len() && ord[i1].0 == g.edges[e].source && ord[j1].0 == g.edges[e].target;
        if j1 != j {
            if j1 < j {
                assert(ord[j1].0 != ord[j].0);
            } else {
                assert(ord[j].0 != ord[j1].0);
            }
        }
        assert(done[ord[i1].0 as int]);
    }
}

/// A run that stopped before listing every node proves a cycle.
pub(super) proof fn lemma_kahn_stuck<N, E, W>(g: GraphView<N, E, W>, order: Seq<NodeId>, done: Seq<bool>, indeg: Seq<usize>)
    requires
        kahn_state(g, order, Seq::empty(), done, indeg),
        order.len() != g.nodes.len(),
        done.len() == g.nodes.len(),
        forall|v: int| 0 <= v < g.nodes.len() ==> #[trigger] indeg[v] == in_count(g, v, done, g.edges.len() as int),
    ensures
        !g.has_topological_order(),
{
    reveal(kahn_state);
    assert(order + Seq::<NodeId>::empty() =~= order);
    lemma_ids_fill(order, g.nodes.len() as int);
    let v = choose|v: int| 0 <= v < g.nodes.len() && !(#[trigger] has_id(order, v));
    assert(!done[v]);
    assert forall|w: int| 0 <= w < g.nodes.len() && !done[w] implies #[trigger] pending(g, done, w) by {
        assert(indeg[w] != 0);
        lemma_in_count_positive(g, w, done, g.edges.len() as int);
    }
    lemma_no_topological_order(g, done, v);
}

} // verus!
