use vstd::prelude::*;
use crate::error::MathError;
use crate::scalar::Scalar;
use crate::text::push_decimal;
use std::collections::VecDeque;
use crate::union_find::UnionFind;

mod forest;
mod kahn;
mod optimal;
mod search;
mod shortest;

pub use forest::{
    MinimumSpanningTree, all_weights, forest_weight_fits, is_connecting_set, is_weight_order, lemma_greedy_forest_acyclic, lemma_greedy_forest_prefix,
    lemma_greedy_forest_spans, lemma_left_out_edge_closes_cycle, lemma_left_out_edge_is_heaviest, lemma_weight_order_unique, lighter,
    weights_of,
};
pub use optimal::lemma_greedy_forest_minimal;
pub use shortest::{distances_fit, reached_within, edge_weight, is_edge_walk, lemma_route_realizes_distance, walk_weight};
use kahn::{
    kahn_listing, lemma_kahn_listing_begin, lemma_kahn_listing_finish, lemma_kahn_listing_order, lemma_kahn_listing_start,
    lemma_kahn_listing_step, lemma_kahn_unlisted,
};
use forest::{lemma_joined_empty, lemma_joined_push, lemma_joined_refl, lemma_joined_sym, lemma_joined_sym_iff, lemma_joined_trans};
use search::{
    count_nb, covered, discovered, in_count, kahn_state, lemma_count_incident, lemma_count_take_bound, lemma_count_take_step, lemma_covered_grow, lemma_covered_pop, lemma_covered_visit, lemma_discovered_closed, lemma_discovered_push, lemma_discovered_start, lemma_distinct_ids_bound, lemma_in_count_bound, lemma_in_count_positive, lemma_in_count_split, lemma_incident_none, lemma_incident_same, lemma_kahn_complete, lemma_kahn_decrement, lemma_kahn_start, lemma_kahn_stuck, lemma_kahn_take, lemma_stack_fed_grow, lemma_stack_fed_pop, lemma_undirected_symmetric, out_count, source_before, stack_fed,
};

verus! {

/// Index of a node in a [`Graph`].
#[derive(Debug, Clone, Copy, PartialEq, Eq, Structural, Hash, PartialOrd, Ord)]
pub struct NodeId(pub usize);

/// Index of an edge in a [`Graph`].
#[derive(Debug, Clone, Copy, PartialEq, Eq, Structural, Hash, PartialOrd, Ord)]
pub struct EdgeId(pub usize);

/// A graph stored as adjacency lists. `N` is the node payload, `E` the edge
/// payload and `W` the edge weight.
#[derive(Debug, Clone)]
pub struct Graph<N, E, W> {
    directed: bool,
    nodes: Vec<N>,
    edges: Vec<Edge<E, W>>,
    adjacency: Vec<Vec<AdjacencyEdge>>,
}

#[derive(Debug, Clone)]
struct Edge<E, W> {
    id: EdgeId,
    source: NodeId,
    target: NodeId,
    weight: W,
    data: E,
}

#[derive(Debug, Clone, Copy)]
struct AdjacencyEdge {
    edge_id: EdgeId,
    neighbor: NodeId,
}

/// The result of a single-source shortest-path search: for each node its
/// distance from `source`, when it was reached, and the node before it on a
/// shortest path.
#[derive(Debug, Clone, PartialEq)]
pub struct ShortestPaths<W> {
    pub source: NodeId,
    pub distances: Vec<Option<W>>,
    pub previous: Vec<Option<NodeId>>,
}

impl<W> ShortestPaths<W> {
    /// The walk from `node` along the `previous` links, stopping at the source
    /// or at a node without predecessor, if it ends within `fuel` nodes and
    /// every node on it has a `previous` entry.
    pub open spec fn back_walk(self, node: NodeId, fuel: nat) -> Option<Seq<NodeId>>
        decreases fuel,
    {
        if fuel == 0 {
            None
        } else if node == self.source {
            Some(seq![node])
        } else if node.0 >= self.previous@.len() {
            None
        } else {
            match self.previous@[node.0 as int] {
                None => Some(seq![node]),
                Some(p) => match self.back_walk(p, (fuel - 1) as nat) {
                    Some(rest) => Some(seq![node] + rest),
                    None => None,
                },
            }
        }
    }

    /// Following the `previous` links from `node` ends.
    pub open spec fn walk_ends(self, node: NodeId) -> bool {
        exists|fuel: nat| #[trigger] self.back_walk(node, fuel) is Some
    }

    /// The walk back from `node` along the `previous` links.
    pub open spec fn route(self, node: NodeId) -> Seq<NodeId> {
        self.back_walk(node, choose|fuel: nat| #[trigger] self.back_walk(node, fuel) is Some).unwrap()
    }

    /// `node` has a recorded distance.
    pub open spec fn is_reached(self, node: NodeId) -> bool {
        node.0 < self.distances@.len() && self.distances@[node.0 as int] is Some
    }

    /// The distance recorded for `node`, if any.
    pub fn distance_to(&self, node: NodeId) -> (r: Option<W>)
        where W: Copy,
        ensures
            r == if node.0 < self.distances@.len() { self.distances@[node.0 as int] } else { None },
    {
        if node.0 < self.distances.len() {
            self.distances[node.0]
        } else {
            None
        }
    }

    /// The path from the source to `node` along the `previous` links, or
    /// `None` when `node` has no recorded distance.
    pub fn path_to(&self, node: NodeId) -> (r: Option<Vec<NodeId>>)
        requires
            self.is_reached(node) ==> self.walk_ends(node),
        ensures
            r is Some <==> self.is_reached(node),
            r matches Some(path) ==> path@ == self.route(node).reverse(),
    {
        if node.0 >= self.distances.len() {
            return None;
        }
        if self.distances[node.0].is_none() {
            return None;
        }
        let ghost fuel = choose|fuel: nat| #[trigger] self.back_walk(node, fuel) is Some;
        let ghost full = self.back_walk(node, fuel).unwrap();
        let mut path: Vec<NodeId> = Vec::new();
        let mut current: Option<NodeId> = Some(node);
        let ghost mut rest: nat = fuel;
        while current.is_some()
            invariant
                current matches Some(c) ==> self.back_walk(c, rest) is Some
                    && path@ + self.back_walk(c, rest).unwrap() == full,
                current is None ==> path@ == full,
            ensures
                path@ == full,
            decreases rest,
        {
            let node_id = current.unwrap();
            let ghost step = self.back_walk(node_id, rest).unwrap();
            path.push(node_id);
            if node_id == self.source {
                proof {
                    assert(path@ =~= full);
                }
                current = None;
                break;
            }
            current = self.previous[node_id.0];
            proof {
                match current {
                    Some(p) => {
                        assert(step == seq![node_id] + self.back_walk(p, (rest - 1) as nat).unwrap());
                        assert(path@ + self.back_walk(p, (rest - 1) as nat).unwrap() =~= full);
                    },
                    None => {
                        assert(path@ =~= full);
                    },
                }
                rest = (rest - 1) as nat;
            }
        }
        let mut reversed: Vec<NodeId> = Vec::new();
        let mut k: usize = path.len();
        while k > 0
            invariant
                k <= path@.len(),
                reversed@ == path@.subrange(k as int, path@.len() as int).reverse(),
            decreases k,
        {
            k = k - 1;
            reversed.push(path[k]);
            proof {
                assert(reversed@ =~= path@.subrange(k as int, path@.len() as int).reverse());
            }
        }
        proof {
            assert(path@.subrange(0, path@.len() as int) =~= path@);
            assert(full == self.route(node));
        }
        Some(reversed)
    }
}

/// An edge as the contracts see it.
pub struct EdgeView<E, W> {
    pub source: int,
    pub target: int,
    pub weight: W,
    pub data: E,
}

/// A graph as the contracts see it: its kind, its nodes and its edges in
/// insertion order (the index of an edge is its [`EdgeId`]).
pub struct GraphView<N, E, W> {
    pub directed: bool,
    pub nodes: Seq<N>,
    pub edges: Seq<EdgeView<E, W>>,
}

impl<N, E, W> GraphView<N, E, W> {
    /// Node `v` can be entered from node `u` along edge `e`: a directed edge
    /// leaves `u` for `v`, and an undirected one joins them either way.
    pub open spec fn edge_step(self, e: int, u: int, v: int) -> bool {
        &&& 0 <= e < self.edges.len()
        &&& {
            ||| (self.edges[e].source == u && self.edges[e].target == v)
            ||| (!self.directed && self.edges[e].target == u && self.edges[e].source == v)
        }
    }

    /// Some edge leads from `u` to `v`.
    pub open spec fn arc(self, u: int, v: int) -> bool {
        exists|e: int| self.edge_step(e, u, v)
    }

    /// `p` is a walk: it visits existing nodes, each reached by an arc from the one before.
    pub open spec fn is_walk(self, p: Seq<int>) -> bool {
        &&& p.len() >= 1
        &&& forall|i: int| 0 <= i < p.len() ==> 0 <= #[trigger] p[i] < self.nodes.len()
        &&& forall|i: int| 0 <= i < p.len() - 1 ==> #[trigger] self.arc(p[i], p[i + 1])
    }

    /// `v` can be reached from `u` by following arcs.
    pub open spec fn reachable(self, u: int, v: int) -> bool {
        exists|p: Seq<int>| #[trigger] self.is_walk(p) && p[0] == u && p.last() == v
    }

    /// `order` lists, without repetition and starting with `start`, exactly the
    /// nodes reachable from `start`, and each node after the first is entered
    /// by an arc from a node listed before it.
    pub open spec fn is_traversal(self, order: Seq<NodeId>, start: int) -> bool {
        &&& order.len() >= 1
        &&& order[0].0 == start
        &&& forall|i: int, j: int| 0 <= i < j < order.len() ==> order[i].0 != order[j].0
        &&& forall|i: int| 0 <= i < order.len() ==> #[trigger] self.reachable(start, order[i].0 as int)
        &&& forall|v: int| 0 <= v < self.nodes.len() && #[trigger] self.reachable(start, v) ==>
            exists|i: int| 0 <= i < order.len() && order[i].0 == v
        &&& forall|i: int| 1 <= i < order.len() ==> #[trigger] self.entered_from_earlier(order, i)
    }

    /// Some node listed before position `i` has an arc to the node at `i`.
    pub open spec fn entered_from_earlier(self, order: Seq<NodeId>, i: int) -> bool {
        exists|j: int| 0 <= j < i && #[trigger] self.arc(order[j].0 as int, order[i].0 as int)
    }

    /// The adjacency list of node `u`: for each edge leaving `u` (and, in an
    /// undirected graph, each edge entering it), in the order the edges were
    /// added, the edge and the node at its other end.
    pub open spec fn adjacency(self, u: int) -> Seq<(int, int)> {
        incident(self, u, self.edges.len() as int)
    }

    /// Some neighbour of `u` is not among the `listed` nodes.
    pub open spec fn has_unlisted_neighbor(self, listed: Seq<NodeId>, u: int) -> bool {
        exists|a: int| 0 <= a < self.adjacency(u).len() && !is_listed(listed, #[trigger] self.adjacency(u)[a].1)
    }

    /// `x` is the first neighbour of `u`, in adjacency order, that is not
    /// among the `listed` nodes.
    pub open spec fn first_unlisted_neighbor(self, listed: Seq<NodeId>, u: int, x: int) -> bool {
        exists|a: int| #![trigger self.adjacency(u)[a]]
            0 <= a < self.adjacency(u).len() && self.adjacency(u)[a].1 == x && !is_listed(listed, x)
            && self.listed_before(listed, u, a)
    }

    /// The first `a` neighbours of `u` are all among the `listed` nodes.
    pub open spec fn listed_before(self, listed: Seq<NodeId>, u: int, a: int) -> bool {
        forall|b: int| 0 <= b < a ==> is_listed(listed, #[trigger] self.adjacency(u)[b].1)
    }

    /// Breadth-first choice: `x` is the first unlisted neighbour of the
    /// earliest listed node that has one.
    pub open spec fn breadth_first_next(self, listed: Seq<NodeId>, x: int) -> bool {
        exists|j: int| 0 <= j < listed.len() && #[trigger] self.first_unlisted_neighbor(listed, listed[j].0 as int, x)
            && self.none_open_before(listed, j)
    }

    /// No listed node before position `j` has an unlisted neighbour.
    pub open spec fn none_open_before(self, listed: Seq<NodeId>, j: int) -> bool {
        forall|i: int| 0 <= i < j ==> !#[trigger] self.has_unlisted_neighbor(listed, listed[i].0 as int)
    }

    /// Depth-first choice: `x` is the first unlisted neighbour of the latest
    /// listed node that has one.
    pub open spec fn depth_first_next(self, listed: Seq<NodeId>, x: int) -> bool {
        exists|j: int| 0 <= j < listed.len() && #[trigger] self.first_unlisted_neighbor(listed, listed[j].0 as int, x)
            && self.none_open_after(listed, j)
    }

    /// No listed node after position `j` has an unlisted neighbour.
    pub open spec fn none_open_after(self, listed: Seq<NodeId>, j: int) -> bool {
        forall|i: int| j < i < listed.len() ==> !#[trigger] self.has_unlisted_neighbor(listed, listed[i].0 as int)
    }

    /// `order` starts at `start`, takes each further node by the
    /// breadth-first choice, and ends when no listed node has an unlisted
    /// neighbour.
    pub open spec fn is_breadth_first(self, order: Seq<NodeId>, start: int) -> bool {
        &&& order.len() >= 1
        &&& order[0].0 == start
        &&& forall|i: int| 1 <= i < order.len() ==> #[trigger] self.breadth_first_next(order.take(i), order[i].0 as int)
        &&& forall|i: int| 0 <= i < order.len() ==> !#[trigger] self.has_unlisted_neighbor(order, order[i].0 as int)
    }

    /// `order` starts at `start`, takes each further node by the depth-first
    /// choice, and ends when no listed node has an unlisted neighbour.
    pub open spec fn is_depth_first(self, order: Seq<NodeId>, start: int) -> bool {
        &&& order.len() >= 1
        &&& order[0].0 == start
        &&& forall|i: int| 1 <= i < order.len() ==> #[trigger] self.depth_first_next(order.take(i), order[i].0 as int)
        &&& forall|i: int| 0 <= i < order.len() ==> !#[trigger] self.has_unlisted_neighbor(order, order[i].0 as int)
    }

    /// The same nodes and edges with every edge taken both ways.
    pub open spec fn undirected(self) -> GraphView<N, E, W> {
        GraphView { directed: false, nodes: self.nodes, edges: self.edges }
    }

    /// `u` and `v` are joined by an edge in some direction.
    pub open spec fn linked(self, u: int, v: int) -> bool {
        self.undirected().arc(u, v)
    }

    /// Some node joined to `u` by an edge is not among the `listed` nodes.
    pub open spec fn has_unlisted_link(self, listed: Seq<NodeId>, u: int) -> bool {
        exists|v: int| 0 <= v < self.nodes.len() && #[trigger] self.linked(u, v) && !is_listed(listed, v)
    }

    /// `x` is the smallest node joined to `u` by an edge that is not among
    /// the `listed` nodes.
    pub open spec fn smallest_unlisted_link(self, listed: Seq<NodeId>, u: int, x: int) -> bool {
        &&& 0 <= x < self.nodes.len()
        &&& self.linked(u, x)
        &&& !is_listed(listed, x)
        &&& forall|v: int| 0 <= v < x && #[trigger] self.linked(u, v) ==> is_listed(listed, v)
    }

    /// No listed node before position `j` is joined to an unlisted node.
    pub open spec fn no_link_open_before(self, listed: Seq<NodeId>, j: int) -> bool {
        forall|i: int| 0 <= i < j ==> !#[trigger] self.has_unlisted_link(listed, listed[i].0 as int)
    }

    /// Breadth-first choice with neighbours taken in increasing order of id:
    /// `x` is the smallest unlisted node joined to the earliest listed node
    /// that has one.
    pub open spec fn component_next(self, listed: Seq<NodeId>, x: int) -> bool {
        exists|j: int| 0 <= j < listed.len() && #[trigger] self.smallest_unlisted_link(listed, listed[j].0 as int, x)
            && self.no_link_open_before(listed, j)
    }

    /// Each node of `comp` after the first is that breadth-first choice
    /// after the nodes before it.
    pub open spec fn is_component_order(self, comp: Seq<NodeId>) -> bool {
        forall|i: int| 1 <= i < comp.len() ==> #[trigger] self.component_next(comp.take(i), comp[i].0 as int)
    }

    /// `comps` are the weakly connected components: each is a traversal of
    /// the graph taken undirected from its first node, which is its smallest,
    /// in breadth-first order with neighbours taken in increasing order of
    /// id; the components are ordered by their smallest node; every node lies
    /// in exactly one of them.
    pub open spec fn is_component_partition(self, comps: Seq<Seq<NodeId>>) -> bool {
        &&& forall|c: int| 0 <= c < comps.len() ==> #[trigger] self.is_component_order(comps[c])
        &&& forall|c: int| 0 <= c < comps.len() ==>
            self.undirected().is_traversal(#[trigger] comps[c], comps[c][0].0 as int)
        &&& forall|c: int, i: int| 0 <= c < comps.len() && 0 <= i < comps[c].len() ==>
            comps[c][0].0 <= (#[trigger] comps[c][i]).0
        &&& forall|c1: int, c2: int| 0 <= c1 < c2 < comps.len() ==> comps[c1][0].0 < comps[c2][0].0
        &&& forall|v: int| 0 <= v < self.nodes.len() ==> #[trigger] self.in_some_component(comps, v)
        &&& forall|c1: int, c2: int, i: int, j: int|
            0 <= c1 < comps.len() && 0 <= c2 < comps.len() && 0 <= i < comps[c1].len() && 0 <= j < comps[c2].len()
            && c1 != c2 ==> (#[trigger] comps[c1][i]).0 != (#[trigger] comps[c2][j]).0
    }

    /// Node `v` is listed in one of `comps`.
    pub open spec fn in_some_component(self, comps: Seq<Seq<NodeId>>, v: int) -> bool {
        exists|c: int, i: int| 0 <= c < comps.len() && 0 <= i < comps[c].len() && (#[trigger] comps[c][i]).0 == v
    }

    /// `order` lists every node exactly once, and every edge runs from an
    /// earlier node of the list to a later one.
    pub open spec fn is_topological_order(self, order: Seq<NodeId>) -> bool {
        &&& order.len() == self.nodes.len()
        &&& forall|i: int, j: int| 0 <= i < j < order.len() ==> order[i].0 != order[j].0
        &&& forall|i: int| 0 <= i < order.len() ==> (#[trigger] order[i]).0 < self.nodes.len()
        &&& forall|e: int| 0 <= e < self.edges.len() ==> #[trigger] self.runs_forward(order, e)
    }

    /// Edge `e` leaves a node listed in `order` before the node it enters.
    pub open spec fn runs_forward(self, order: Seq<NodeId>, e: int) -> bool {
        exists|i: int, j: int| #![trigger order[i], order[j]]
            0 <= i < j < order.len() && order[i].0 == self.edges[e].source && order[j].0 == self.edges[e].target
    }

    /// No edge enters `x`.
    pub open spec fn is_source(self, x: int) -> bool {
        forall|e: int| 0 <= e < self.edges.len() ==> (#[trigger] self.edges[e]).target != x
    }

    /// Edge `f` leaves the node listed at position `j` for `x`, and every
    /// edge into `x` leaves a node listed before position `j` or leaves that
    /// same node no later than `f`: taking the edges of the listed nodes in
    /// turn, `f` is the last one into `x`.
    pub open spec fn releases(self, listed: Seq<NodeId>, j: int, f: int, x: int) -> bool {
        &&& 0 <= j < listed.len()
        &&& 0 <= f < self.edges.len()
        &&& self.edges[f].source == listed[j].0
        &&& self.edges[f].target == x
        &&& forall|e: int| 0 <= e < self.edges.len() && (#[trigger] self.edges[e]).target == x ==>
            is_listed(listed.take(j), self.edges[e].source) || (self.edges[e].source == listed[j].0 && e <= f)
    }

    /// No unlisted node is released before edge `f` of the node listed at
    /// position `j`.
    pub open spec fn released_first(self, listed: Seq<NodeId>, j: int, f: int) -> bool {
        forall|y: int, j2: int, f2: int| #[trigger] self.releases(listed, j2, f2, y) && !is_listed(listed, y) ==>
            j < j2 || (j == j2 && f <= f2)
    }

    /// Kahn's choice: first the sources, in increasing order of id; once all
    /// are listed, the unlisted node released first.
    pub open spec fn kahn_next(self, listed: Seq<NodeId>, x: int) -> bool {
        &&& 0 <= x < self.nodes.len()
        &&& !is_listed(listed, x)
        &&& if self.is_source(x) {
            forall|v: int| 0 <= v < x && #[trigger] self.is_source(v) ==> is_listed(listed, v)
        } else {
            &&& forall|v: int| 0 <= v < self.nodes.len() && #[trigger] self.is_source(v) ==> is_listed(listed, v)
            &&& exists|j: int, f: int| #[trigger] self.releases(listed, j, f, x) && self.released_first(listed, j, f)
        }
    }

    /// Each node of `order` is Kahn's choice after the nodes before it: the
    /// order in which Kahn's algorithm, taking each node's edges in the order
    /// they were added, queues the nodes.
    pub open spec fn is_kahn_order(self, order: Seq<NodeId>) -> bool {
        forall|i: int| 0 <= i < order.len() ==> #[trigger] self.kahn_next(order.take(i), order[i].0 as int)
    }

    /// The nodes can be put in topological order (the graph has no cycle).
    pub open spec fn has_topological_order(self) -> bool {
        exists|order: Seq<NodeId>| #[trigger] self.is_topological_order(order)
    }

    /// Edge `e` exists and joins `u` and `v`, in either direction.
    pub open spec fn edge_joins(self, e: int, u: int, v: int) -> bool {
        &&& 0 <= e < self.edges.len()
        &&& {
            ||| (self.edges[e].source == u && self.edges[e].target == v)
            ||| (self.edges[e].source == v && self.edges[e].target == u)
        }
    }

    /// One of the edges listed in `set` joins `u` and `v`.
    pub open spec fn set_joins(self, set: Seq<EdgeId>, u: int, v: int) -> bool {
        exists|k: int| 0 <= k < set.len() && #[trigger] self.edge_joins(set[k].0 as int, u, v)
    }

    /// `p` is a path whose every step is taken along an edge listed in `set`.
    pub open spec fn is_path_in(self, set: Seq<EdgeId>, p: Seq<int>) -> bool {
        &&& p.len() >= 1
        &&& forall|i: int| 0 <= i < p.len() - 1 ==> #[trigger] self.set_joins(set, p[i], p[i + 1])
    }

    /// The edges listed in `set` connect `x` and `y`.
    pub open spec fn joined(self, set: Seq<EdgeId>, x: int, y: int) -> bool {
        exists|p: Seq<int>| #[trigger] self.is_path_in(set, p) && p[0] == x && p.last() == y
    }

    /// Kruskal's choice over the edges in `order`: an edge is taken exactly
    /// when the edges taken before it do not already connect its endpoints.
    pub open spec fn greedy_forest(self, order: Seq<EdgeId>) -> Seq<EdgeId>
        decreases order.len(),
    {
        if order.len() == 0 {
            Seq::empty()
        } else {
            let prev = self.greedy_forest(order.drop_last());
            let e = order.last().0 as int;
            if self.joined(prev, self.edges[e].source, self.edges[e].target) {
                prev
            } else {
                prev.push(order.last())
            }
        }
    }

    /// Every edge joins two existing nodes.
    pub open spec fn endpoints_valid(self) -> bool {
        forall|e: int| 0 <= e < self.edges.len() ==>
            0 <= #[trigger] self.edges[e].source < self.nodes.len()
            && 0 <= self.edges[e].target < self.nodes.len()
    }
}

/// Node `v` is among `s`.
pub open spec fn is_listed(s: Seq<NodeId>, v: int) -> bool {
    exists|i: int| 0 <= i < s.len() && s[i].0 == v
}

/// The integer ids of a sequence of nodes.
pub open spec fn node_ids(s: Seq<NodeId>) -> Seq<int> {
    s.map_values(|x: NodeId| x.0 as int)
}

/// `"node NodeId(<id>) does not exist"`.
pub open spec fn missing_node_message(id: nat) -> Seq<char> {
    "node NodeId("@ + crate::text::decimal(id) + ") does not exist"@
}

/// `"edge EdgeId(<id>) does not exist"`.
pub open spec fn missing_edge_message(id: nat) -> Seq<char> {
    "edge EdgeId("@ + crate::text::decimal(id) + ") does not exist"@
}

/// The error is `InvalidGraph` with this message.
pub open spec fn is_invalid_graph(e: MathError, message: Seq<char>) -> bool {
    match e {
        MathError::InvalidGraph { message: m } => m@ == message,
        _ => false,
    }
}

impl<N, E, W> View for Graph<N, E, W> {
    type V = GraphView<N, E, W>;

    closed spec fn view(&self) -> GraphView<N, E, W> {
        GraphView {
            directed: self.directed,
            nodes: self.nodes@,
            edges: self.edges@.map_values(
                |e: Edge<E, W>|
                    EdgeView { source: e.source.0 as int, target: e.target.0 as int, weight: e.weight, data: e.data },
            ),
        }
    }
}

/// The adjacency list that node `u` has after the first `k` edges: for every
/// edge leaving `u` (and, undirected, every edge entering it) the pair of the
/// edge's index and the node at its other end, in edge order.
pub open spec fn incident<N, E, W>(g: GraphView<N, E, W>, u: int, k: int) -> Seq<(int, int)>
    decreases k,
{
    if k <= 0 {
        Seq::empty()
    } else {
        let prev = incident(g, u, k - 1);
        let e = g.edges[k - 1];
        let a = if e.source == u { prev.push((k - 1, e.target)) } else { prev };
        if !g.directed && e.target == u { a.push((k - 1, e.source)) } else { a }
    }
}

proof fn lemma_incident_sound<N, E, W>(g: GraphView<N, E, W>, u: int, k: int, i: int)
    requires
        0 <= k <= g.edges.len(),
        0 <= i < incident(g, u, k).len(),
    ensures
        0 <= incident(g, u, k)[i].0 < k,
        g.edge_step(incident(g, u, k)[i].0, u, incident(g, u, k)[i].1),
    decreases k,
{
    let prev = incident(g, u, k - 1);
    if i < prev.len() {
        lemma_incident_sound(g, u, k - 1, i);
    }
}

proof fn lemma_incident_complete<N, E, W>(g: GraphView<N, E, W>, u: int, k: int, e: int, v: int)
    requires
        0 <= e < k <= g.edges.len(),
        g.edge_step(e, u, v),
    ensures
        exists|i: int| 0 <= i < incident(g, u, k).len() && #[trigger] incident(g, u, k)[i] == (e, v),
    decreases k,
{
    let prev = incident(g, u, k - 1);
    let ed = g.edges[k - 1];
    let a = if ed.source == u { prev.push((k - 1, ed.target)) } else { prev };
    if e < k - 1 {
        lemma_incident_complete(g, u, k - 1, e, v);
        let i = choose|i: int| 0 <= i < prev.len() && #[trigger] prev[i] == (e, v);
        assert(a[i] == (e, v));
        assert(incident(g, u, k)[i] == (e, v));
    } else {
        if ed.source == u && ed.target == v {
            assert(a[prev.len() as int] == (e, v));
            assert(incident(g, u, k)[prev.len() as int] == (e, v));
        } else {
            assert(incident(g, u, k)[a.len() as int] == (e, v));
        }
    }
}

impl<N, E, W> Graph<N, E, W> {
    spec fn adj_view(&self, u: int) -> Seq<(int, int)> {
        self.adjacency@[u]@.map_values(|a: AdjacencyEdge| (a.edge_id.0 as int, a.neighbor.0 as int))
    }

    /// The internal representation is consistent: each edge knows its index
    /// and joins existing nodes, and every adjacency list is the one that the
    /// edges determine.
    pub closed spec fn well_formed(&self) -> bool {
        &&& self.adjacency@.len() == self.nodes@.len()
        &&& forall|e: int| 0 <= e < self.edges@.len() ==> (#[trigger] self.edges@[e]).id.0 == e
        &&& self@.endpoints_valid()
        &&& forall|u: int| 0 <= u < self.nodes@.len() ==>
            #[trigger] self.adj_view(u) == incident(self@, u, self.edges@.len() as int)
    }

    /// The well-formedness of a graph gives valid edge endpoints.
    pub proof fn lemma_endpoints_valid(&self)
        requires
            self.well_formed(),
        ensures
            self@.endpoints_valid(),
    {
    }

    proof fn lemma_adj_arc(&self, u: int, v: int)
        requires
            self.well_formed(),
            0 <= u < self@.nodes.len(),
        ensures
            self@.arc(u, v) <==> exists|i: int| 0 <= i < self.adj_view(u).len() && #[trigger] self.adj_view(u)[i].1 == v,
    {
        let k = self.edges@.len() as int;
        if self@.arc(u, v) {
            let e = choose|e: int| self@.edge_step(e, u, v);
            lemma_incident_complete(self@, u, k, e, v);
            let i = choose|i: int| 0 <= i < incident(self@, u, k).len() && #[trigger] incident(self@, u, k)[i] == (e, v);
            assert(self.adj_view(u)[i].1 == v);
        }
        if exists|i: int| 0 <= i < self.adj_view(u).len() && #[trigger] self.adj_view(u)[i].1 == v {
            let i = choose|i: int| 0 <= i < self.adj_view(u).len() && #[trigger] self.adj_view(u)[i].1 == v;
            lemma_incident_sound(self@, u, k, i);
        }
    }

    /// A new, empty directed graph.
    pub fn new_directed() -> (g: Self)
        ensures
            g.well_formed(),
            g@.directed,
            g@.nodes.len() == 0,
            g@.edges.len() == 0,
    {
        Graph { directed: true, nodes: Vec::new(), edges: Vec::new(), adjacency: Vec::new() }
    }

    /// A new, empty undirected graph.
    pub fn new_undirected() -> (g: Self)
        ensures
            g.well_formed(),
            !g@.directed,
            g@.nodes.len() == 0,
            g@.edges.len() == 0,
    {
        Graph { directed: false, nodes: Vec::new(), edges: Vec::new(), adjacency: Vec::new() }
    }

    pub fn is_directed(&self) -> (r: bool)
        ensures
            r == self@.directed,
    {
        self.directed
    }

    pub fn node_count(&self) -> (r: usize)
        ensures
            r == self@.nodes.len(),
    {
        self.nodes.len()
    }

    pub fn edge_count(&self) -> (r: usize)
        ensures
            r == self@.edges.len(),
    {
        self.edges.len()
    }

    /// Adds a node and returns its id, the number of nodes before the call.
    pub fn add_node(&mut self, value: N) -> (id: NodeId)
        requires
            old(self).well_formed(),
        ensures
            final(self).well_formed(),
            id.0 == old(self)@.nodes.len(),
            final(self)@.directed == old(self)@.directed,
            final(self)@.nodes == old(self)@.nodes.push(value),
            final(self)@.edges == old(self)@.edges,
    {
        let id = NodeId(self.nodes.len());
        self.nodes.push(value);
        self.adjacency.push(Vec::new());
        proof {
            let k = self.edges@.len() as int;
            assert forall|u: int| 0 <= u < self.nodes@.len() implies
                #[trigger] self.adj_view(u) == incident(self@, u, k) by {
                if u == id.0 {
                    assert forall|e: int| 0 <= e < k implies (#[trigger] self@.edges[e]).source != u
                        && self@.edges[e].target != u by {
                        assert(self@.edges[e] == old(self)@.edges[e]);
                    }
                    lemma_incident_none(self@, u, k);
                    assert(self.adj_view(u) =~= Seq::<(int, int)>::empty());
                } else {
                    assert(self.adj_view(u) == old(self).adj_view(u));
                    lemma_incident_same(old(self)@, self@, u, k);
                }
            }
            assert(self@.edges =~= old(self)@.edges);
        }
        id
    }

    /// Adds an edge from `source` to `target` and returns its id, the number of
    /// edges before the call. Fails, changing nothing, when an endpoint does
    /// not exist (the source is checked first), and when the weight is
    /// negative.
    pub fn add_edge(&mut self, source: NodeId, target: NodeId, weight: W, data: E) -> (r: Result<EdgeId, MathError>)
        where W: Scalar,
        requires
            old(self).well_formed(),
        ensures
            final(self).well_formed(),
            r is Ok <==> (source.0 < old(self)@.nodes.len() && target.0 < old(self)@.nodes.len() && weight.value() >= 0),
            r matches Ok(id) ==> {
                &&& id.0 == old(self)@.edges.len()
                &&& final(self)@.directed == old(self)@.directed
                &&& final(self)@.nodes == old(self)@.nodes
                &&& final(self)@.edges == old(self)@.edges.push(
                    EdgeView { source: source.0 as int, target: target.0 as int, weight, data },
                )
            },
            r matches Err(e) ==> {
                &&& if source.0 >= old(self)@.nodes.len() || target.0 >= old(self)@.nodes.len() {
                    is_invalid_graph(
                        e,
                        missing_node_message(if source.0 >= old(self)@.nodes.len() { source.0 as nat } else { target.0 as nat }),
                    )
                } else {
                    is_invalid_graph(e, "negative edge weights are not supported"@)
                }
                &&& final(self)@ == old(self)@
            },
    {
        match self.ensure_node(source) {
            Ok(()) => {},
            Err(e) => return Err(e),
        }
        match self.ensure_node(target) {
            Ok(()) => {},
            Err(e) => return Err(e),
        }
        if weight.less_than(W::zero()) {
            return Err(MathError::InvalidGraph { message: String::from_str("negative edge weights are not supported") });
        }
        self.insert_edge(source, target, weight, data)
    }

    /// Adds an edge from `source` to `target` without looking at its weight
    /// and returns its id, the number of edges before the call; for weights
    /// that are not integer scalars, whose sign the caller checks. Fails,
    /// changing nothing, when an endpoint does not exist (the source is
    /// checked first).
    pub fn insert_edge(&mut self, source: NodeId, target: NodeId, weight: W, data: E) -> (r: Result<EdgeId, MathError>)
        requires
            old(self).well_formed(),
        ensures
            final(self).well_formed(),
            r is Ok <==> (source.0 < old(self)@.nodes.len() && target.0 < old(self)@.nodes.len()),
            r matches Ok(id) ==> {
                &&& id.0 == old(self)@.edges.len()
                &&& final(self)@.directed == old(self)@.directed
                &&& final(self)@.nodes == old(self)@.nodes
                &&& final(self)@.edges == old(self)@.edges.push(
                    EdgeView { source: source.0 as int, target: target.0 as int, weight, data },
                )
            },
            r matches Err(e) ==> {
                &&& is_invalid_graph(
                    e,
                    missing_node_message(if source.0 >= old(self)@.nodes.len() { source.0 as nat } else { target.0 as nat }),
                )
                &&& final(self)@ == old(self)@
            },
    {
        match self.ensure_node(source) {
            Ok(()) => {},
            Err(e) => return Err(e),
        }
        match self.ensure_node(target) {
            Ok(()) => {},
            Err(e) => return Err(e),
        }
        let ghost old_view = self@;
        let ghost old_adj = self.adjacency@;
        let id = EdgeId(self.edges.len());
        self.edges.push(Edge { id, source, target, weight, data });
        self.adjacency[source.0].push(AdjacencyEdge { edge_id: id, neighbor: target });
        let ghost mid_adj = self.adjacency@;
        if !self.directed {
            self.adjacency[target.0].push(AdjacencyEdge { edge_id: id, neighbor: source });
        }
        proof {
            let k = id.0 as int;
            assert(self@.edges =~= old_view.edges.push(
                EdgeView { source: source.0 as int, target: target.0 as int, weight, data },
            ));
            assert forall|u: int| 0 <= u < self.nodes@.len() implies
                #[trigger] self.adj_view(u) == incident(self@, u, k + 1) by {
                lemma_incident_same(old_view, self@, u, k);
                assert(old_view.edges.len() == k);
                assert(old(self).adj_view(u) == incident(old_view, u, k));
                let ne = AdjacencyEdge { edge_id: id, neighbor: target };
                let re = AdjacencyEdge { edge_id: id, neighbor: source };
                assert(mid_adj[u]@ == if u == source.0 { old_adj[u]@.push(ne) } else { old_adj[u]@ });
                assert(self.adjacency@[u]@ == if !self.directed && u == target.0 { mid_adj[u]@.push(re) } else { mid_adj[u]@ });
                assert(self@.edges[k].source == source.0 && self@.edges[k].target == target.0);
                assert(self.adj_view(u) =~= incident(self@, u, k + 1));
            }
            assert forall|e: int| 0 <= e < self.edges@.len() implies (#[trigger] self.edges@[e]).id.0 == e by {
                if e < k {
                    assert(self.edges@[e] == old(self).edges@[e]);
                }
            }
            assert forall|e: int| 0 <= e < self@.edges.len() implies
                0 <= #[trigger] self@.edges[e].source < self@.nodes.len()
                && 0 <= self@.edges[e].target < self@.nodes.len() by {
                if e < k {
                    assert(self@.edges[e] == old_view.edges[e]);
                }
            }
        }
        Ok(id)
    }

    /// The payload of node `id`.
    pub fn node(&self, id: NodeId) -> (r: Result<&N, MathError>)
        ensures
            r is Ok <==> id.0 < self@.nodes.len(),
            r matches Ok(v) ==> *v == self@.nodes[id.0 as int],
            r matches Err(e) ==> is_invalid_graph(e, missing_node_message(id.0 as nat)),
    {
        if id.0 < self.nodes.len() {
            Ok(&self.nodes[id.0])
        } else {
            Err(missing_node(id))
        }
    }

    /// The payloads of the endpoints of edge `id`, its weight and its payload.
    pub fn edge(&self, id: EdgeId) -> (r: Result<(&N, &N, W, &E), MathError>)
        where W: Copy,
        requires
            self.well_formed(),
        ensures
            r is Ok <==> id.0 < self@.edges.len(),
            r matches Ok(t) ==> {
                let e = self@.edges[id.0 as int];
                &&& *t.0 == self@.nodes[e.source]
                &&& *t.1 == self@.nodes[e.target]
                &&& t.2 == e.weight
                &&& *t.3 == e.data
            },
            r matches Err(e) ==> is_invalid_graph(e, missing_edge_message(id.0 as nat)),
    {
        if id.0 >= self.edges.len() {
            let mut message = String::from_str("edge EdgeId(");
            push_decimal(&mut message, id.0);
            message.append(") does not exist");
            return Err(MathError::InvalidGraph { message });
        }
        let edge = &self.edges[id.0];
        proof {
            assert(self@.edges[id.0 as int].source == edge.source.0);
        }
        Ok((&self.nodes[edge.source.0], &self.nodes[edge.target.0], edge.weight, &edge.data))
    }

    /// The neighbours of `node` in the order of its adjacency list.
    fn outgoing_neighbors(&self, node: NodeId) -> (r: Vec<NodeId>)
        requires
            self.well_formed(),
            node.0 < self@.nodes.len(),
        ensures
            r@.len() == self.adj_view(node.0 as int).len(),
            forall|i: int| 0 <= i < r@.len() ==> (#[trigger] r@[i]).0 == self.adj_view(node.0 as int)[i].1,
            forall|i: int| 0 <= i < r@.len() ==> (#[trigger] r@[i]).0 < self@.nodes.len(),
    {
        let list = &self.adjacency[node.0];
        let mut out: Vec<NodeId> = Vec::new();
        let mut i: usize = 0;
        while i < list.len()
            invariant
                list@ == self.adjacency@[node.0 as int]@,
                i <= list@.len(),
                out@.len() == i,
                forall|j: int| 0 <= j < i ==> (#[trigger] out@[j]).0 == self.adj_view(node.0 as int)[j].1,
                forall|j: int| 0 <= j < i ==> (#[trigger] out@[j]).0 < self@.nodes.len(),
                self.well_formed(),
                node.0 < self@.nodes.len(),
            decreases list@.len() - i,
        {
            proof {
                assert(self.adj_view(node.0 as int) == incident(self@, node.0 as int, self@.edges.len() as int));
                assert(self.adj_view(node.0 as int).len() == list@.len());
                lemma_incident_sound(self@, node.0 as int, self@.edges.len() as int, i as int);
                assert(self.adj_view(node.0 as int)[i as int].1 == list@[i as int].neighbor.0);
            }
            out.push(list[i].neighbor);
            i = i + 1;
        }
        out
    }

    /// The adjacency list of `node`: for every edge leaving it (and, in an
    /// undirected graph, every edge entering it), in the order the edges were
    /// added, the edge and the node at its other end. Fails when the node does
    /// not exist.
    pub fn adjacent_edges(&self, node: NodeId) -> (r: Result<Vec<(EdgeId, NodeId)>, MathError>)
        requires
            self.well_formed(),
        ensures
            r is Ok <==> node.0 < self@.nodes.len(),
            r matches Ok(list) ==> {
                let expected = incident(self@, node.0 as int, self@.edges.len() as int);
                &&& list@.len() == expected.len()
                &&& forall|i: int| 0 <= i < list@.len() ==> (#[trigger] list@[i]).0.0 == expected[i].0
                    && list@[i].1.0 == expected[i].1
            },
            r matches Err(e) ==> is_invalid_graph(e, missing_node_message(node.0 as nat)),
    {
        match self.ensure_node(node) {
            Ok(()) => {},
            Err(e) => return Err(e),
        }
        let list = &self.adjacency[node.0];
        let ghost expected = self.adj_view(node.0 as int);
        let mut out: Vec<(EdgeId, NodeId)> = Vec::new();
        let mut i: usize = 0;
        while i < list.len()
            invariant
                list@ == self.adjacency@[node.0 as int]@,
                expected == self.adj_view(node.0 as int),
                i <= list@.len(),
                out@.len() == i,
                forall|k: int| 0 <= k < i ==> (#[trigger] out@[k]).0.0 == expected[k].0 && out@[k].1.0 == expected[k].1,
            decreases list@.len() - i,
        {
            out.push((list[i].edge_id, list[i].neighbor));
            i = i + 1;
        }
        Ok(out)
    }

    /// Breadth-first traversal from `start`: the nodes reachable from it, each
    /// listed once, in the order in which they were first discovered.
    pub fn bfs(&self, start: NodeId) -> (r: Result<Vec<NodeId>, MathError>)
        requires
            self.well_formed(),
        ensures
            r is Ok <==> start.0 < self@.nodes.len(),
            r matches Ok(order) ==> self@.is_traversal(order@, start.0 as int),
            r matches Ok(order) ==> self@.is_breadth_first(order@, start.0 as int),
            r matches Err(e) ==> is_invalid_graph(e, missing_node_message(start.0 as nat)),
    {
        match self.ensure_node(start) {
            Ok(()) => {},
            Err(e) => return Err(e),
        }
        let n = self.nodes.len();
        let mut visited: Vec<bool> = vec![false; n];
        let mut queue: VecDeque<NodeId> = VecDeque::new();
        queue.push_back(start);
        let mut order: Vec<NodeId> = Vec::new();
        visited.set(start.0, true);
        let ghost g = self@;
        proof {
            assert((order@ + queue@) =~= seq![start]);
            lemma_discovered_start(g, visited@, start);
            assert(breadth_first_prefix(g, order@ + queue@));
        }
        while queue.len() > 0
            invariant
                self.well_formed(),
                g == self@,
                n == g.nodes.len(),
                visited@.len() == n,
                order@.len() <= n,
                discovered(g, order@ + queue@, visited@, start.0 as int),
                forall|i: int, v: int| 0 <= i < order@.len() && #[trigger] g.arc(order@[i].0 as int, v) && 0 <= v < n ==> visited@[v],
                breadth_first_prefix(g, order@ + queue@),
                g.none_open_before(order@ + queue@, order@.len() as int),
            decreases n - order@.len(),
        {
            let ghost s0 = order@ + queue@;
            let ghost old_len = order@.len();
            let node = queue.pop_front().unwrap();
            order.push(node);
            proof {
                assert(order@ + queue@ =~= s0);
                reveal(discovered);
                assert(s0[old_len as int] == node);
                lemma_distinct_ids_bound(s0, n as int);
            }
            let neighbors = self.outgoing_neighbors(node);
            let ghost pos = old_len as int;
            let mut t: usize = 0;
            proof {
                assert(self.adj_view(node.0 as int) == incident(self@, node.0 as int, self.edges@.len() as int));
                assert(order@ + queue@ == s0);
            }
            while t < neighbors.len()
                invariant
                    self.well_formed(),
                    g == self@,
                    n == g.nodes.len(),
                    visited@.len() == n,
                    order@.len() <= n,
                    0 <= pos == order@.len() - 1,
                    order@[pos] == node,
                    node.0 < n,
                    neighbors@.len() == self.adj_view(node.0 as int).len(),
                    forall|q: int| 0 <= q < neighbors@.len() ==> (#[trigger] neighbors@[q]).0 == self.adj_view(node.0 as int)[q].1,
                    forall|q: int| 0 <= q < neighbors@.len() ==> (#[trigger] neighbors@[q]).0 < n,
                    t <= neighbors@.len(),
                    discovered(g, order@ + queue@, visited@, start.0 as int),
                    forall|i: int, v: int| 0 <= i < pos && #[trigger] g.arc(order@[i].0 as int, v) && 0 <= v < n ==> visited@[v],
                    forall|q: int| 0 <= q < t ==> visited@[(#[trigger] neighbors@[q]).0 as int],
                    breadth_first_prefix(g, order@ + queue@),
                    g.none_open_before(order@ + queue@, pos),
                    g.listed_before(order@ + queue@, node.0 as int, t as int),
                    (order@ + queue@)[pos] == node,
                    self.adj_view(node.0 as int) == g.adjacency(node.0 as int),
                decreases neighbors@.len() - t,
            {
                let neighbor = neighbors[t];
                proof {
                    lemma_incident_sound(g, node.0 as int, g.edges.len() as int, t as int);
                    assert(g.arc(node.0 as int, neighbor.0 as int));
                    assert(neighbor.0 < n);
                }
                if !visited[neighbor.0] {
                    let ghost s1 = order@ + queue@;
                    let ghost vis1 = visited@;
                    proof {
                        lemma_visited_listed(g, s1, vis1, start.0 as int, neighbor.0 as int);
                        lemma_breadth_first_push(g, s1, pos, t as int, neighbor);
                    }
                    visited.set(neighbor.0, true);
                    queue.push_back(neighbor);
                    proof {
                        assert(visited@ == vis1.update(neighbor.0 as int, true));
                        assert forall|q: int| 0 <= q < t implies visited@[(#[trigger] neighbors@[q]).0 as int] by {
                            assert(vis1[neighbors@[q].0 as int]);
                        }
                        assert(order@ + queue@ =~= s1.push(neighbor));
                        assert(s1[pos] == node);
                        lemma_discovered_push(g, s1, vis1, start.0 as int, pos, neighbor);
                    }
                } else {
                    proof {
                        let s1 = order@ + queue@;
                        lemma_visited_listed(g, s1, visited@, start.0 as int, neighbor.0 as int);
                        assert forall|b: int| 0 <= b < t + 1 implies is_listed(s1, #[trigger] g.adjacency(node.0 as int)[b].1) by {
                            if b < t {
                                assert(g.listed_before(s1, node.0 as int, t as int));
                            }
                        }
                    }
                }
                assert(visited@[neighbors@[t as int].0 as int]);
                t = t + 1;
            }
            proof {
                let s1 = order@ + queue@;
                assert(!g.has_unlisted_neighbor(s1, node.0 as int)) by {
                    if g.has_unlisted_neighbor(s1, node.0 as int) {
                        let a = choose|a: int| 0 <= a < g.adjacency(node.0 as int).len()
                            && !is_listed(s1, #[trigger] g.adjacency(node.0 as int)[a].1);
                        assert(g.listed_before(s1, node.0 as int, t as int));
                    }
                }
                assert forall|i: int| 0 <= i < pos + 1 implies !#[trigger] g.has_unlisted_neighbor(s1, s1[i].0 as int) by {
                    if i < pos {
                        assert(g.none_open_before(s1, pos));
                    }
                }
                assert forall|i: int, v: int| 0 <= i < order@.len() && #[trigger] g.arc(order@[i].0 as int, v) && 0 <= v < n implies visited@[v] by {
                    if i == pos {
                        self.lemma_adj_arc(node.0 as int, v);
                        let q = choose|q: int| 0 <= q < self.adj_view(node.0 as int).len() && #[trigger] self.adj_view(node.0 as int)[q].1 == v;
                        assert(neighbors@[q].0 == v);
                    }
                }
            }
        }
        proof {
            assert(order@ + queue@ =~= order@);
            lemma_discovered_closed(g, order@, visited@, start.0 as int);
            reveal(discovered);
            assert(breadth_first_prefix(g, order@));
            assert(g.none_open_before(order@, order@.len() as int));
        }
        Ok(order)
    }

    /// Depth-first traversal from `start`: the nodes reachable from it, each
    /// listed once, in preorder, neighbours taken in adjacency-list order.
    pub fn dfs(&self, start: NodeId) -> (r: Result<Vec<NodeId>, MathError>)
        requires
            self.well_formed(),
        ensures
            r is Ok <==> start.0 < self@.nodes.len(),
            r matches Ok(order) ==> self@.is_traversal(order@, start.0 as int),
            r matches Ok(order) ==> self@.is_depth_first(order@, start.0 as int),
            r matches Err(e) ==> is_invalid_graph(e, missing_node_message(start.0 as nat)),
    {
        match self.ensure_node(start) {
            Ok(()) => {},
            Err(e) => return Err(e),
        }
        let n = self.nodes.len();
        let mut visited: Vec<bool> = vec![false; n];
        let ghost mut owner: Seq<int> = Seq::empty();
        let ghost mut slot: Seq<int> = Seq::empty();
        let mut stack: Vec<NodeId> = Vec::new();
        stack.push(start);
        let mut order: Vec<NodeId> = Vec::new();
        let ghost g = self@;
        assert(covered(g, order@, 0, visited@, stack@)) by {
            reveal(covered);
        }
        while stack.len() > 0
            invariant
                self.well_formed(),
                g == self@,
                n == g.nodes.len(),
                start.0 < n,
                visited@.len() == n,
                order@.len() <= n,
                order@.len() == 0 ==> stack@ == seq![start] && forall|v: int| 0 <= v < n ==> !visited@[v],
                order@.len() > 0 ==> discovered(g, order@, visited@, start.0 as int),
                order@.len() > 0 ==> stack_fed(g, order@, stack@),
                forall|k: int| 0 <= k < stack@.len() ==> (#[trigger] stack@[k]).0 < n,
                covered(g, order@, order@.len() as int, visited@, stack@),
                order@.len() > 0 ==> stack_slots(g, order@, stack@, owner, slot, order@.len() as int, 0),
                order@.len() > 0 ==> depth_first_prefix(g, order@),
            decreases n - order@.len(), stack@.len(),
        {
            let ghost st0 = stack@;
            let node = stack.pop().unwrap();
            proof {
                assert(stack@ =~= st0.drop_last());
                assert(node == st0[st0.len() - 1]);
                lemma_covered_pop(g, order@, visited@, st0);
            }
            if visited[node.0] {
                proof {
                    if order@.len() > 0 {
                        lemma_stack_fed_pop(g, order@, st0);
                        lemma_visited_listed(g, order@, visited@, start.0 as int, node.0 as int);
                        lemma_slots_pop_listed(g, order@, st0, owner, slot);
                    }
                    owner = owner.drop_last();
                    slot = slot.drop_last();
                }
                continue;
            }
            let ghost vis0 = visited@;
            let ghost ord0 = order@;
            visited.set(node.0, true);
            order.push(node);
            proof {
                if ord0.len() == 0 {
                    assert(node == start);
                    assert forall|v: int| 0 <= v < n implies (visited@[v] <==> v == start.0) by {}
                    assert(order@ =~= seq![start]);
                    lemma_discovered_start(g, visited@, start);
                    assert(stack_fed(g, order@, stack@)) by {
                        reveal(stack_fed);
                    }
                    assert(stack@ =~= Seq::<NodeId>::empty());
                    lemma_slots_start(g, order@);
                    owner = Seq::empty();
                    slot = Seq::empty();
                } else {
                    lemma_visited_listed(g, ord0, vis0, start.0 as int, node.0 as int);
                    lemma_slots_pop_unlisted(g, ord0, st0, owner, slot);
                    lemma_depth_first_push(g, ord0, node);
                    owner = owner.drop_last();
                    slot = slot.drop_last();
                    lemma_stack_fed_pop(g, ord0, st0);
                    let j = choose|j: int| 0 <= j < ord0.len() && #[trigger] g.arc(ord0[j].0 as int, node.0 as int);
                    reveal(discovered);
                    assert(!vis0[node.0 as int]);
                    lemma_discovered_push(g, ord0, vis0, start.0 as int, j, node);
                    assert(order@ =~= ord0.push(node));
                    assert(order@.drop_last() =~= ord0);
                    lemma_stack_fed_grow(g, order@, node, stack@);
                    assert(stack_fed(g, order@, stack@));
                }
                assert(stack_fed(g, order@, stack@));
                reveal(discovered);
                lemma_distinct_ids_bound(order@, n as int);
                lemma_covered_visit(g, ord0, vis0, stack@, node);
                assert(order@ =~= ord0.push(node));
            }
            let neighbors = self.outgoing_neighbors(node);
            let ghost pos = ord0.len() as int;
            let mut t: usize = neighbors.len();
            while t > 0
                invariant
                    self.well_formed(),
                    g == self@,
                    n == g.nodes.len(),
                    start.0 < n,
                    visited@.len() == n,
                    order@.len() <= n,
                    0 <= pos == order@.len() - 1,
                    order@[pos] == node,
                    node.0 < n,
                    neighbors@.len() == self.adj_view(node.0 as int).len(),
                    forall|q: int| 0 <= q < neighbors@.len() ==> (#[trigger] neighbors@[q]).0 == self.adj_view(node.0 as int)[q].1,
                    forall|q: int| 0 <= q < neighbors@.len() ==> (#[trigger] neighbors@[q]).0 < n,
                    t <= neighbors@.len(),
                    discovered(g, order@, visited@, start.0 as int),
                    stack_fed(g, order@, stack@),
                    forall|k: int| 0 <= k < stack@.len() ==> (#[trigger] stack@[k]).0 < n,
                    covered(g, order@, pos, visited@, stack@),
                    forall|q: int| t <= q < neighbors@.len() ==> visited@[(#[trigger] neighbors@[q]).0 as int]
                        || exists|k: int| 0 <= k < stack@.len() && stack@[k].0 == neighbors@[q].0,
                    self.adj_view(node.0 as int) == g.adjacency(node.0 as int),
                    stack_slots(g, order@, stack@, owner, slot, pos, t as int),
                    depth_first_prefix(g, order@),
                decreases t,
            {
                t = t - 1;
                let neighbor = neighbors[t];
                proof {
                    lemma_incident_sound(g, node.0 as int, g.edges.len() as int, t as int);
                    assert(g.arc(node.0 as int, neighbor.0 as int));
                }
                if !visited[neighbor.0] {
                    let ghost st1 = stack@;
                    stack.push(neighbor);
                    proof {
                        lemma_slots_push(g, order@, st1, owner, slot, t as int, neighbor);
                        owner = owner.push(pos);
                        slot = slot.push(t as int);
                        lemma_stack_fed_grow(g, order@, neighbor, st1);
                        assert(stack@ =~= st1.push(neighbor));
                        lemma_covered_grow(g, order@, pos, visited@, st1, neighbor);
                        assert forall|q: int| t <= q < neighbors@.len() implies visited@[(#[trigger] neighbors@[q]).0 as int]
                            || exists|k: int| 0 <= k < stack@.len() && stack@[k].0 == neighbors@[q].0 by {
                            if q == t {
                                assert(stack@[st1.len() as int].0 == neighbors@[q].0);
                            } else if !visited@[neighbors@[q].0 as int] {
                                let k = choose|k: int| 0 <= k < st1.len() && st1[k].0 == neighbors@[q].0;
                                assert(stack@[k] == st1[k]);
                            }
                        }
                    }
                } else {
                    proof {
                        lemma_visited_listed(g, order@, visited@, start.0 as int, neighbor.0 as int);
                        lemma_slots_skip(g, order@, stack@, owner, slot, t as int);
                    }
                }
            }
            proof {
                lemma_slots_close(g, order@, stack@, owner, slot);
                assert(covered(g, order@, order@.len() as int, visited@, stack@)) by {
                    reveal(covered);
                    assert forall|i: int, v: int| 0 <= i < order@.len() && #[trigger] g.arc(order@[i].0 as int, v) && 0 <= v < n implies
                        visited@[v] || exists|k: int| 0 <= k < stack@.len() && stack@[k].0 == v by {
                        if i == pos {
                            self.lemma_adj_arc(node.0 as int, v);
                            let q = choose|q: int| 0 <= q < self.adj_view(node.0 as int).len() && #[trigger] self.adj_view(node.0 as int)[q].1 == v;
                            assert(neighbors@[q].0 == v);
                        }
                    }
                }
            }
        }
        proof {
            assert(order@.len() > 0) by {
                if order@.len() == 0 {
                    assert(stack@.len() == 1);
                }
            }
            assert forall|i: int, v: int| 0 <= i < order@.len() && #[trigger] g.arc(order@[i].0 as int, v) && 0 <= v < n implies visited@[v] by {
                reveal(covered);
            }
            lemma_discovered_closed(g, order@, visited@, start.0 as int);
            lemma_slots_empty(g, order@, stack@, owner, slot);
        }
        Ok(order)
    }

    /// The nodes joined to `node` by an edge in either direction, in
    /// increasing order of id, each once.
    fn weak_neighbors(&self, node: NodeId) -> (r: Vec<NodeId>)
        requires
            self.well_formed(),
            node.0 < self@.nodes.len(),
        ensures
            forall|i: int, j: int| 0 <= i < j < r@.len() ==> r@[i].0 < r@[j].0,
            forall|i: int| 0 <= i < r@.len() ==> (#[trigger] r@[i]).0 < self@.nodes.len(),
            forall|i: int| 0 <= i < r@.len() ==> self@.linked(node.0 as int, (#[trigger] r@[i]).0 as int),
            forall|v: int| 0 <= v < self@.nodes.len() && #[trigger] self@.linked(node.0 as int, v) ==>
                exists|i: int| 0 <= i < r@.len() && r@[i].0 == v,
    {
        let n = self.nodes.len();
        let ghost g = self@;
        let ghost u = node.0 as int;
        let mut mark: Vec<bool> = vec![false; n];
        let out = self.outgoing_neighbors(node);
        let mut t: usize = 0;
        while t < out.len()
            invariant
                self.well_formed(),
                g == self@,
                n == g.nodes.len(),
                u == node.0,
                u < n,
                mark@.len() == n,
                out@.len() == self.adj_view(u).len(),
                forall|q: int| 0 <= q < out@.len() ==> (#[trigger] out@[q]).0 == self.adj_view(u)[q].1,
                forall|q: int| 0 <= q < out@.len() ==> (#[trigger] out@[q]).0 < n,
                t <= out@.len(),
                forall|v: int| 0 <= v < n && #[trigger] mark@[v] ==> g.linked(u, v),
                forall|q: int| 0 <= q < t ==> mark@[(#[trigger] out@[q]).0 as int],
            decreases out@.len() - t,
        {
            proof {
                lemma_incident_sound(g, u, g.edges.len() as int, t as int);
                let e = self.adj_view(u)[t as int].0;
                assert(g.undirected().edge_step(e, u, out@[t as int].0 as int));
            }
            mark.set(out[t].0, true);
            t = t + 1;
        }
        if self.directed {
            let mut e: usize = 0;
            while e < self.edges.len()
                invariant
                    self.well_formed(),
                    g == self@,
                    n == g.nodes.len(),
                    u == node.0,
                    u < n,
                    mark@.len() == n,
                    out@.len() == self.adj_view(u).len(),
                    forall|q: int| 0 <= q < out@.len() ==> (#[trigger] out@[q]).0 == self.adj_view(u)[q].1,
                    forall|q: int| 0 <= q < out@.len() ==> (#[trigger] out@[q]).0 < n,
                    e <= g.edges.len(),
                    forall|v: int| 0 <= v < n && #[trigger] mark@[v] ==> g.linked(u, v),
                    forall|q: int| 0 <= q < out@.len() ==> mark@[(#[trigger] out@[q]).0 as int],
                    forall|f: int| 0 <= f < e && g.edges[f].target == u ==> mark@[#[trigger] g.edges[f].source],
                decreases g.edges.len() - e,
            {
                let edge = &self.edges[e];
                proof {
                    assert(g.edges[e as int].source == edge.source.0 && g.edges[e as int].target == edge.target.0);
                }
                if edge.target.0 == node.0 {
                    proof {
                        assert(g.undirected().edge_step(e as int, u, edge.source.0 as int));
                    }
                    mark.set(edge.source.0, true);
                }
                e = e + 1;
            }
        }
        proof {
            assert forall|v: int| 0 <= v < n && #[trigger] g.linked(u, v) implies mark@[v] by {
                let e = choose|e: int| g.undirected().edge_step(e, u, v);
                if g.edges[e].source == u && g.edges[e].target == v {
                    assert(g.edge_step(e, u, v));
                    self.lemma_adj_arc(u, v);
                    let q = choose|q: int| 0 <= q < self.adj_view(u).len() && #[trigger] self.adj_view(u)[q].1 == v;
                    assert(out@[q].0 == v);
                } else if !g.directed {
                    assert(g.edge_step(e, u, v));
                    self.lemma_adj_arc(u, v);
                    let q = choose|q: int| 0 <= q < self.adj_view(u).len() && #[trigger] self.adj_view(u)[q].1 == v;
                    assert(out@[q].0 == v);
                } else {
                    assert(g.edges[e].target == u && g.edges[e].source == v);
                }
            }
        }
        let mut r: Vec<NodeId> = Vec::new();
        let mut v: usize = 0;
        while v < n
            invariant
                n == g.nodes.len(),
                mark@.len() == n,
                v <= n,
                forall|i: int, j: int| 0 <= i < j < r@.len() ==> r@[i].0 < r@[j].0,
                forall|i: int| 0 <= i < r@.len() ==> (#[trigger] r@[i]).0 < v,
                forall|i: int| 0 <= i < r@.len() ==> mark@[(#[trigger] r@[i]).0 as int],
                forall|w: int| 0 <= w < v && #[trigger] mark@[w] ==> exists|i: int| 0 <= i < r@.len() && r@[i].0 == w,
            decreases n - v,
        {
            if mark[v] {
                let ghost r0 = r@;
                r.push(NodeId(v));
                proof {
                    assert forall|w: int| 0 <= w < v + 1 && #[trigger] mark@[w] implies exists|i: int| 0 <= i < r@.len() && r@[i].0 == w by {
                        if w < v {
                            let i = choose|i: int| 0 <= i < r0.len() && r0[i].0 == w;
                            assert(r@[i] == r0[i]);
                        } else {
                            assert(r@[r0.len() as int].0 == w);
                        }
                    }
                }
            }
            v = v + 1;
        }
        r
    }

    /// The weakly connected components, found by a breadth-first search from
    /// each node not yet placed, in increasing order of id.
    pub fn connected_components(&self) -> (r: Vec<Vec<NodeId>>)
        requires
            self.well_formed(),
        ensures
            self@.is_component_partition(r@.map_values(|c: Vec<NodeId>| c@)),
    {
        let n = self.nodes.len();
        let ghost g = self@;
        let ghost gu = g.undirected();
        let mut visited: Vec<bool> = vec![false; n];
        let mut components: Vec<Vec<NodeId>> = Vec::new();
        let ghost mut owner: Seq<int> = Seq::new(n as nat, |v: int| -1int);
        let mut start: usize = 0;
        while start < n
            invariant
                self.well_formed(),
                g == self@,
                gu == g.undirected(),
                n == g.nodes.len(),
                start <= n,
                visited@.len() == n,
                owner.len() == n,
                forall|v: int| 0 <= v < n ==> (visited@[v] <==> owner[v] >= 0),
                forall|v: int| 0 <= v < n ==> owner[v] < components@.len(),
                forall|v: int| 0 <= v < start ==> visited@[v],
                forall|c: int, i: int| 0 <= c < components@.len() && 0 <= i < components@[c]@.len() ==>
                    (#[trigger] components@[c]@[i]).0 < n && owner[components@[c]@[i].0 as int] == c,
                forall|v: int| 0 <= v < n && 0 <= #[trigger] owner[v] ==>
                    exists|i: int| 0 <= i < components@[owner[v]]@.len() && components@[owner[v]]@[i].0 == v,
                forall|c: int| 0 <= c < components@.len() ==>
                    gu.is_traversal(#[trigger] components@[c]@, components@[c]@[0].0 as int),
                forall|c: int| 0 <= c < components@.len() ==> (#[trigger] components@[c]@)[0].0 < start,
                forall|c1: int, c2: int| 0 <= c1 < c2 < components@.len() ==>
                    components@[c1]@[0].0 < components@[c2]@[0].0,
                forall|c: int, i: int| 0 <= c < components@.len() && 0 <= i < components@[c]@.len() ==>
                    components@[c]@[0].0 <= (#[trigger] components@[c]@[i]).0,
                forall|v: int, w: int| 0 <= v < n && 0 <= owner[v] && #[trigger] gu.arc(v, w) && 0 <= w < n ==>
                    owner[w] == owner[v],
                forall|c: int| 0 <= c < components@.len() ==> #[trigger] g.is_component_order(components@[c]@),
            decreases n - start,
        {
            if visited[start] {
                start = start + 1;
                continue;
            }
            let ghost cidx = components@.len() as int;
            let mut queue: VecDeque<NodeId> = VecDeque::new();
            queue.push_back(NodeId(start));
            let mut component: Vec<NodeId> = Vec::new();
            let ghost vis_before = visited@;
            let ghost owner_before = owner;
            visited.set(start, true);
            let ghost mut local: Seq<bool> = Seq::new(n as nat, |v: int| v == start);
            proof {
                owner = owner.update(start as int, cidx);
                assert forall|v: int| 0 <= v < start implies 0 <= #[trigger] owner[v] < cidx by {
                    assert(vis_before[v]);
                    assert(owner_before[v] >= 0);
                    assert(owner[v] == owner_before[v]);
                }
                lemma_discovered_start(gu, local, NodeId(start));
                assert(component@ + queue@ =~= seq![NodeId(start)]);
                assert(g.is_component_order(component@ + queue@));
                assert(g.no_link_open_before(component@ + queue@, 0));
            }
            while queue.len() > 0
                invariant
                    self.well_formed(),
                    g == self@,
                    gu == g.undirected(),
                    n == g.nodes.len(),
                    start < n,
                    cidx == components@.len(),
                    visited@.len() == n,
                    owner.len() == n,
                    local.len() == n,
                    component@.len() <= n,
                    forall|v: int| 0 <= v < n ==> (visited@[v] <==> owner[v] >= 0),
                    forall|v: int| 0 <= v < n ==> owner[v] <= cidx,
                    forall|v: int| 0 <= v < n ==> (owner[v] == cidx <==> local[v]),
                    forall|v: int| 0 <= v < n && local[v] ==> start <= v,
                    forall|v: int| 0 <= v < start ==> 0 <= #[trigger] owner[v] < cidx,
                    forall|c: int, i: int| 0 <= c < components@.len() && 0 <= i < components@[c]@.len() ==>
                        (#[trigger] components@[c]@[i]).0 < n && owner[components@[c]@[i].0 as int] == c,
                    forall|v: int| 0 <= v < n && 0 <= #[trigger] owner[v] < cidx ==>
                        exists|i: int| 0 <= i < components@[owner[v]]@.len() && components@[owner[v]]@[i].0 == v,
                    discovered(gu, component@ + queue@, local, start as int),
                    forall|i: int, v: int| 0 <= i < component@.len() && #[trigger] gu.arc(component@[i].0 as int, v) && 0 <= v < n ==> visited@[v],
                    forall|v: int, w: int| 0 <= v < n && 0 <= owner[v] < cidx && #[trigger] gu.arc(v, w) && 0 <= w < n ==>
                        owner[w] == owner[v],
                    forall|c: int| 0 <= c < components@.len() ==> #[trigger] g.is_component_order(components@[c]@),
                    g.is_component_order(component@ + queue@),
                    g.no_link_open_before(component@ + queue@, component@.len() as int),
                decreases n - component@.len(),
            {
                let ghost s0 = component@ + queue@;
                let ghost old_len = component@.len();
                let node = queue.pop_front().unwrap();
                component.push(node);
                proof {
                    assert(component@ + queue@ =~= s0);
                    reveal(discovered);
                    assert(s0[old_len as int] == node);
                    lemma_distinct_ids_bound(s0, n as int);
                }
                let neighbors = self.weak_neighbors(node);
                let ghost pos = old_len as int;
                let mut t: usize = 0;
                proof {
                    assert((component@ + queue@)[pos] == node);
                    assert(local[node.0 as int]);
                }
                while t < neighbors.len()
                    invariant
                        self.well_formed(),
                        g == self@,
                        gu == g.undirected(),
                        n == g.nodes.len(),
                        start < n,
                        cidx == components@.len(),
                        visited@.len() == n,
                        owner.len() == n,
                        local.len() == n,
                        component@.len() <= n,
                        0 <= pos == component@.len() - 1,
                        component@[pos] == node,
                        node.0 < n,
                        forall|q: int| 0 <= q < neighbors@.len() ==> (#[trigger] neighbors@[q]).0 < n,
                        forall|q: int| 0 <= q < neighbors@.len() ==> g.linked(node.0 as int, (#[trigger] neighbors@[q]).0 as int),
                        forall|v: int| 0 <= v < n && #[trigger] g.linked(node.0 as int, v) ==>
                            exists|q: int| 0 <= q < neighbors@.len() && neighbors@[q].0 == v,
                        t <= neighbors@.len(),
                        forall|v: int| 0 <= v < n ==> (visited@[v] <==> owner[v] >= 0),
                        forall|v: int| 0 <= v < n ==> owner[v] <= cidx,
                        forall|v: int| 0 <= v < n ==> (owner[v] == cidx <==> local[v]),
                        forall|v: int| 0 <= v < n && local[v] ==> start <= v,
                        forall|v: int| 0 <= v < start ==> 0 <= #[trigger] owner[v] < cidx,
                        forall|c: int, i: int| 0 <= c < components@.len() && 0 <= i < components@[c]@.len() ==>
                            (#[trigger] components@[c]@[i]).0 < n && owner[components@[c]@[i].0 as int] == c,
                        forall|v: int| 0 <= v < n && 0 <= #[trigger] owner[v] < cidx ==>
                            exists|i: int| 0 <= i < components@[owner[v]]@.len() && components@[owner[v]]@[i].0 == v,
                        discovered(gu, component@ + queue@, local, start as int),
                        forall|i: int, v: int| 0 <= i < pos && #[trigger] gu.arc(component@[i].0 as int, v) && 0 <= v < n ==> visited@[v],
                        forall|q: int| 0 <= q < t ==> visited@[(#[trigger] neighbors@[q]).0 as int],
                        forall|v: int, w: int| 0 <= v < n && 0 <= owner[v] < cidx && #[trigger] gu.arc(v, w) && 0 <= w < n ==>
                            owner[w] == owner[v],
                        forall|c: int| 0 <= c < components@.len() ==> #[trigger] g.is_component_order(components@[c]@),
                        forall|i: int, j: int| 0 <= i < j < neighbors@.len() ==> neighbors@[i].0 < neighbors@[j].0,
                        local[node.0 as int],
                        (component@ + queue@)[pos] == node,
                        g.is_component_order(component@ + queue@),
                        g.no_link_open_before(component@ + queue@, pos),
                    decreases neighbors@.len() - t,
                {
                    let neighbor = neighbors[t];
                    if !visited[neighbor.0] {
                        let ghost s1 = component@ + queue@;
                        let ghost vis1 = visited@;
                        visited.set(neighbor.0, true);
                        queue.push_back(neighbor);
                        proof {
                            assert(component@ + queue@ =~= s1.push(neighbor));
                            assert(s1[pos] == node);
                            assert(gu.arc(s1[pos].0 as int, neighbor.0 as int));
                            assert(!local[neighbor.0 as int]);
                            lemma_visited_listed(gu, s1, local, start as int, neighbor.0 as int);
                            assert forall|v: int| 0 <= v < neighbor.0 && #[trigger] g.linked(node.0 as int, v) implies is_listed(s1, v) by {
                                let q = choose|q: int| 0 <= q < neighbors@.len() && neighbors@[q].0 == v;
                                if q >= t {
                                    if q > t {
                                        assert(neighbors@[t as int].0 < neighbors@[q].0);
                                    }
                                }
                                assert(vis1[v]);
                                if owner[v] < cidx {
                                    lemma_undirected_symmetric(g, node.0 as int, v);
                                    assert(owner[node.0 as int] == owner[v]);
                                }
                                lemma_visited_listed(gu, s1, local, start as int, v);
                            }
                            assert(g.smallest_unlisted_link(s1, s1[pos].0 as int, neighbor.0 as int));
                            lemma_component_push(g, s1, pos, neighbor);
                            lemma_discovered_push(gu, s1, local, start as int, pos, neighbor);
                            local = local.update(neighbor.0 as int, true);
                            owner = owner.update(neighbor.0 as int, cidx);
                            assert forall|q: int| 0 <= q < t + 1 implies visited@[(#[trigger] neighbors@[q]).0 as int] by {
                                if q < t {
                                    assert(vis1[neighbors@[q].0 as int]);
                                }
                            }
                            assert forall|v: int, w: int| 0 <= v < n && 0 <= owner[v] < cidx && #[trigger] gu.arc(v, w) && 0 <= w < n implies
                                owner[w] == owner[v] by {
                                if w == neighbor.0 {
                                    lemma_undirected_symmetric(g, v, w);
                                }
                            }
                        }
                    }
                    t = t + 1;
                }
                proof {
                    assert forall|i: int, v: int| 0 <= i < component@.len() && #[trigger] gu.arc(component@[i].0 as int, v) && 0 <= v < n implies visited@[v] by {
                        if i == pos {
                            assert(g.linked(node.0 as int, v));
                            let q = choose|q: int| 0 <= q < neighbors@.len() && neighbors@[q].0 == v;
                            assert(visited@[neighbors@[q].0 as int]);
                        }
                    }
                    let s1 = component@ + queue@;
                    assert(!g.has_unlisted_link(s1, node.0 as int)) by {
                        if g.has_unlisted_link(s1, node.0 as int) {
                            let v = choose|v: int| 0 <= v < n && #[trigger] g.linked(node.0 as int, v) && !is_listed(s1, v);
                            let q = choose|q: int| 0 <= q < neighbors@.len() && neighbors@[q].0 == v;
                            assert(visited@[neighbors@[q].0 as int]);
                            if owner[v] < cidx {
                                lemma_undirected_symmetric(g, node.0 as int, v);
                                assert(owner[node.0 as int] == owner[v]);
                            }
                            lemma_visited_listed(gu, s1, local, start as int, v);
                        }
                    }
                    assert forall|i: int| 0 <= i < pos + 1 implies !#[trigger] g.has_unlisted_link(s1, s1[i].0 as int) by {
                        if i < pos {
                            assert(g.no_link_open_before(s1, pos));
                        }
                    }
                }
            }
            proof {
                assert(component@ + queue@ =~= component@);
                reveal(discovered);
                assert forall|i: int, v: int| 0 <= i < component@.len() && #[trigger] gu.arc(component@[i].0 as int, v) && 0 <= v < n implies local[v] by {
                    let x = component@[i].0 as int;
                    assert(local[x]);
                    assert(visited@[v]);
                    if owner[v] < cidx {
                        lemma_undirected_symmetric(g, x, v);
                        assert(owner[x] == owner[v]);
                    }
                }
                lemma_discovered_closed(gu, component@, local, start as int);
            }
            let ghost comps0 = components@;
            components.push(component);
            proof {
                assert(components@ == comps0.push(component));
                assert(components@[cidx]@ == component@);
                reveal(discovered);
                assert forall|c: int, i: int| 0 <= c < components@.len() && 0 <= i < components@[c]@.len() implies
                    (#[trigger] components@[c]@[i]).0 < n && owner[components@[c]@[i].0 as int] == c by {
                    if c < cidx {
                        assert(components@[c] == comps0[c]);
                    } else {
                        assert(local[component@[i].0 as int]);
                    }
                }
                assert forall|v: int| 0 <= v < n && 0 <= #[trigger] owner[v] implies
                    exists|i: int| 0 <= i < components@[owner[v]]@.len() && components@[owner[v]]@[i].0 == v by {
                    if owner[v] < cidx {
                        let i = choose|i: int| 0 <= i < comps0[owner[v]]@.len() && comps0[owner[v]]@[i].0 == v;
                        assert(components@[owner[v]] == comps0[owner[v]]);
                    } else {
                        assert(local[v]);
                    }
                }
                assert forall|c: int| 0 <= c < components@.len() implies
                    gu.is_traversal(#[trigger] components@[c]@, components@[c]@[0].0 as int) by {
                    if c < cidx {
                        assert(components@[c] == comps0[c]);
                    }
                }
                assert forall|c: int| 0 <= c < components@.len() implies #[trigger] g.is_component_order(components@[c]@) by {
                    if c < cidx {
                        assert(components@[c] == comps0[c]);
                    }
                }
                assert forall|c: int| 0 <= c < components@.len() implies (#[trigger] components@[c]@)[0].0 < start + 1 by {
                    if c < cidx {
                        assert(components@[c] == comps0[c]);
                    }
                }
                assert forall|c1: int, c2: int| 0 <= c1 < c2 < components@.len() implies
                    components@[c1]@[0].0 < components@[c2]@[0].0 by {
                    assert(components@[c1] == comps0[c1]);
                    if c2 < cidx {
                        assert(components@[c2] == comps0[c2]);
                    } else {
                        assert(comps0[c1]@[0].0 < start);
                    }
                }
                assert forall|c: int, i: int| 0 <= c < components@.len() && 0 <= i < components@[c]@.len() implies
                    components@[c]@[0].0 <= (#[trigger] components@[c]@[i]).0 by {
                    if c < cidx {
                        assert(components@[c] == comps0[c]);
                    } else {
                        assert(local[component@[i].0 as int]);
                    }
                }
                assert forall|v: int, w: int| 0 <= v < n && 0 <= owner[v] && #[trigger] gu.arc(v, w) && 0 <= w < n implies
                    owner[w] == owner[v] by {
                    if owner[v] == cidx {
                        assert(local[v]);
                        let i = choose|i: int| 0 <= i < component@.len() && component@[i].0 == v;
                        assert(gu.arc(component@[i].0 as int, w));
                    }
                }
            }
            start = start + 1;
        }
        proof {
            let comps = components@.map_values(|c: Vec<NodeId>| c@);
            assert forall|c: int| 0 <= c < comps.len() implies
                gu.is_traversal(#[trigger] comps[c], comps[c][0].0 as int) by {
                assert(comps[c] == components@[c]@);
            }
            assert forall|c: int| 0 <= c < comps.len() implies #[trigger] g.is_component_order(comps[c]) by {
                assert(comps[c] == components@[c]@);
            }
            assert forall|c: int, i: int| 0 <= c < comps.len() && 0 <= i < comps[c].len() implies
                comps[c][0].0 <= (#[trigger] comps[c][i]).0 by {
                assert(comps[c] == components@[c]@);
                assert(components@[c]@[0].0 <= components@[c]@[i].0);
            }
            assert forall|c1: int, c2: int| 0 <= c1 < c2 < comps.len() implies comps[c1][0].0 < comps[c2][0].0 by {
                assert(comps[c1] == components@[c1]@);
                assert(comps[c2] == components@[c2]@);
            }
            assert forall|v: int| 0 <= v < n implies #[trigger] g.in_some_component(comps, v) by {
                assert(visited@[v]);
                let c = owner[v];
                let i = choose|i: int| 0 <= i < components@[c]@.len() && components@[c]@[i].0 == v;
                assert(comps[c] == components@[c]@);
                assert(comps[c][i].0 == v);
            }
            assert forall|c1: int, c2: int, i: int, j: int|
                0 <= c1 < comps.len() && 0 <= c2 < comps.len() && 0 <= i < comps[c1].len() && 0 <= j < comps[c2].len()
                && c1 != c2 implies (#[trigger] comps[c1][i]).0 != (#[trigger] comps[c2][j]).0 by {
                assert(comps[c1] == components@[c1]@);
                assert(comps[c2] == components@[c2]@);
                assert(owner[components@[c1]@[i].0 as int] == c1);
                assert(owner[components@[c2]@[j].0 as int] == c2);
            }
        }
        components
    }

    /// Kahn's algorithm: an order of the nodes in which every edge runs
    /// forward. Fails for an undirected graph and for a graph with a cycle.
    pub fn topological_sort(&self) -> (r: Result<Vec<NodeId>, MathError>)
        requires
            self.well_formed(),
        ensures
            r is Ok <==> self@.directed && self@.has_topological_order(),
            r matches Ok(order) ==> self@.is_topological_order(order@),
            r matches Ok(order) ==> self@.is_kahn_order(order@),
            r matches Err(e) ==> if self@.directed {
                is_invalid_graph(e, "graph contains a cycle"@)
            } else {
                is_invalid_graph(e, "topological sort requires a directed graph"@)
            },
    {
        if !self.directed {
            return Err(MathError::InvalidGraph {
                message: String::from_str("topological sort requires a directed graph"),
            });
        }
        let n = self.nodes.len();
        let ghost g = self@;
        let ghost m = g.edges.len() as int;
        let ghost none = Seq::new(n as nat, |v: int| false);
        let mut indegree: Vec<usize> = vec![0usize; n];
        let mut k: usize = 0;
        while k < self.edges.len()
            invariant
                self.well_formed(),
                g == self@,
                n == g.nodes.len(),
                m == g.edges.len(),
                none.len() == n,
                forall|v: int| 0 <= v < n ==> !none[v],
                k <= m,
                indegree@.len() == n,
                forall|v: int| 0 <= v < n ==> #[trigger] indegree@[v] == in_count(g, v, none, k as int),
            decreases m - k,
        {
            let t = self.edges[k].target.0;
            proof {
                assert(g.edges[k as int].target == t);
                assert(g.edges[k as int].source < n);
                lemma_in_count_bound(g, t as int, none, k as int);
            }
            let d = indegree[t];
            indegree.set(t, d + 1);
            k = k + 1;
        }
        let mut queue: VecDeque<NodeId> = VecDeque::new();
        let mut index: usize = 0;
        while index < n
            invariant
                n == g.nodes.len(),
                index <= n,
                indegree@.len() == n,
                forall|i: int| 0 <= i < queue@.len() ==> (#[trigger] queue@[i]).0 < index,
                forall|i: int| 0 <= i < queue@.len() ==> indegree@[(#[trigger] queue@[i]).0 as int] == 0,
                forall|i: int, j: int| 0 <= i < j < queue@.len() ==> queue@[i].0 < queue@[j].0,
                forall|v: int| 0 <= v < index && #[trigger] indegree@[v] == 0 ==>
                    exists|i: int| 0 <= i < queue@.len() && queue@[i].0 == v,
            decreases n - index,
        {
            if indegree[index] == 0 {
                let ghost q0 = queue@;
                queue.push_back(NodeId(index));
                proof {
                    assert forall|v: int| 0 <= v < index + 1 && #[trigger] indegree@[v] == 0 implies
                        exists|i: int| 0 <= i < queue@.len() && queue@[i].0 == v by {
                        if v < index {
                            let i = choose|i: int| 0 <= i < q0.len() && q0[i].0 == v;
                            assert(queue@[i] == q0[i]);
                        } else {
                            assert(queue@[q0.len() as int].0 == v);
                        }
                    }
                }
            }
            index = index + 1;
        }
        let mut order: Vec<NodeId> = Vec::new();
        let ghost mut done: Seq<bool> = none;
        proof {
            lemma_kahn_start(g, queue@, none, indegree@);
            assert forall|v: int| 0 <= v < n implies (#[trigger] g.is_source(v) <==> indegree@[v] == 0) by {
                lemma_in_count_positive(g, v, none, m);
                if !g.is_source(v) {
                    let e = choose|e: int| 0 <= e < m && (#[trigger] g.edges[e]).target == v;
                    assert(0 <= e < m && g.edges[e].target == v && !none[g.edges[e].source]);
                }
            }
            lemma_kahn_listing_start(g, queue@);
            assert(Seq::<NodeId>::empty() + queue@ =~= queue@);
            assert(order@ =~= Seq::<NodeId>::empty());
        }
        while queue.len() > 0
            invariant
                self.well_formed(),
                g == self@,
                g.directed,
                n == g.nodes.len(),
                m == g.edges.len(),
                indegree@.len() == n,
                done.len() == n,
                order@.len() <= n,
                forall|v: int| 0 <= v < n ==> #[trigger] indegree@[v] == in_count(g, v, done, m),
                kahn_state(g, order@, queue@, done, indegree@),
                kahn_listing(g, order@ + queue@, order@.len() as int, Seq::empty(), 0),
            decreases n - order@.len(),
        {
            let ghost q0 = queue@;
            let ghost order0 = order@;
            let ghost done0 = done;
            let node = queue.pop_front().unwrap();
            order.push(node);
            proof {
                assert forall|v: int| 0 <= v < n implies (done0[v] <==> is_listed(order0, v)) by {
                    reveal(kahn_state);
                }
                lemma_kahn_take(g, order0, q0, done0, indegree@);
                assert(q0[0] == node);
                assert(queue@ == q0.drop_first());
                assert(order@ == order0.push(node));
                done = done0.update(node.0 as int, true);
                reveal(kahn_state);
                assert(order@ + queue@ =~= order0 + q0);
                lemma_distinct_ids_bound(order@ + queue@, n as int);
            }
            let neighbors = self.outgoing_neighbors(node);
            let ghost u = node.0 as int;
            let ghost adj = self.adj_view(u);
            let ghost pos = order0.len() as int;
            proof {
                assert(adj == incident(g, u, m));
                assert(order@ + queue@ =~= order0 + q0);
                lemma_kahn_listing_begin(g, order@ + queue@, pos, adj);
                assert((order@ + queue@)[pos] == node);
                lemma_count_incident(g, u, m);
                assert(adj.take(0) =~= Seq::<(int, int)>::empty());
                assert forall|v: int| 0 <= v < n implies #[trigger] indegree@[v] + count_nb(adj.take(0), v) == in_count(g, v, done0, m) by {}
                assert forall|v: int| 0 <= v < n && done[v] implies in_count(g, v, done0, m) == 0 by {
                    if v != u {
                        assert(done0[v]);
                        reveal(kahn_state);
                        lemma_in_count_positive(g, v, done0, m);
                        if in_count(g, v, done0, m) > 0 {
                            let e = choose|e: int| 0 <= e < m && #[trigger] g.edges[e].target == v && !done0[g.edges[e].source];
                            let j = choose|j: int| 0 <= j < order0.len() && order0[j].0 == v;
                            assert(g.edges[e].target == order0[j].0);
                            assert(source_before(g, order0, j, e));
                            let i = choose|i: int| 0 <= i < j && #[trigger] order0[i].0 == g.edges[e].source;
                            let src = g.edges[e].source;
                            assert(0 <= src < n);
                        }
                    }
                }
            }
            let mut t: usize = 0;
            while t < neighbors.len()
                invariant
                    self.well_formed(),
                    g == self@,
                    g.directed,
                    n == g.nodes.len(),
                    m == g.edges.len(),
                    indegree@.len() == n,
                    done.len() == n,
                    done0.len() == n,
                    done == done0.update(u, true),
                    0 <= u < n,
                    !done0[u],
                    order@.len() <= n,
                    adj == self.adj_view(u),
                    adj == incident(g, u, m),
                    neighbors@.len() == adj.len(),
                    forall|q: int| 0 <= q < neighbors@.len() ==> (#[trigger] neighbors@[q]).0 == adj[q].1,
                    forall|q: int| 0 <= q < neighbors@.len() ==> (#[trigger] neighbors@[q]).0 < n,
                    forall|v: int| count_nb(incident(g, u, m), v) == out_count(g, u, v, m),
                    t <= neighbors@.len(),
                    forall|v: int| 0 <= v < n ==> #[trigger] indegree@[v] + count_nb(adj.take(t as int), v) == in_count(g, v, done0, m),
                    forall|v: int| 0 <= v < n && done[v] ==> in_count(g, v, done0, m) == 0,
                    kahn_state(g, order@, queue@, done, indegree@),
                    order@ == order0.push(node),
                    pos == order0.len(),
                    u == node.0,
                    forall|v: int| 0 <= v < n ==> (done0[v] <==> is_listed(order0, v)),
                    kahn_listing(g, order@ + queue@, pos, adj, t as int),
                decreases neighbors@.len() - t,
            {
                let neighbor = neighbors[t];
                let ghost v = neighbor.0 as int;
                let ghost ind0 = indegree@;
                let ghost s1 = order@ + queue@;
                proof {
                    lemma_count_take_step(adj, t as int, v);
                    lemma_count_take_bound(adj, t as int + 1, v);
                    lemma_in_count_split(g, v, done0, u, m);
                    assert(ind0[v] + count_nb(adj.take(t as int), v) == in_count(g, v, done0, m));
                    assert(ind0[v] >= 1);
                    assert(!done[v]);
                    lemma_kahn_unlisted(g, order@, queue@, done, ind0, v);
                    assert(s1.take(pos) =~= order0);
                    assert(s1[pos] == node);
                    lemma_kahn_listing_step(g, s1, pos, adj, t as int, done0, neighbor, ind0[v] == 1);
                    lemma_kahn_decrement(g, order@, queue@, done, ind0, neighbor);
                }
                let d = indegree[neighbor.0];
                indegree.set(neighbor.0, d - 1);
                proof {
                    assert forall|w: int| 0 <= w < n implies #[trigger] indegree@[w] + count_nb(adj.take(t as int + 1), w) == in_count(g, w, done0, m) by {
                        lemma_count_take_step(adj, t as int, w);
                        assert(ind0[w] + count_nb(adj.take(t as int), w) == in_count(g, w, done0, m));
                    }
                }
                if d - 1 == 0 {
                    queue.push_back(neighbor);
                }
                proof {
                    if d - 1 == 0 {
                        assert(order@ + queue@ =~= s1.push(neighbor));
                    } else {
                        assert(order@ + queue@ =~= s1);
                    }
                }
                t = t + 1;
            }
            proof {
                assert((order@ + queue@)[pos] == node);
                lemma_kahn_listing_finish(g, order@ + queue@, pos, adj);
                assert(adj.take(t as int) =~= adj);
                assert forall|v: int| 0 <= v < n implies #[trigger] indegree@[v] == in_count(g, v, done, m) by {
                    lemma_in_count_split(g, v, done0, u, m);
                    assert(indegree@[v] + count_nb(adj.take(t as int), v) == in_count(g, v, done0, m));
                }
            }
        }
        proof {
            assert(queue@ =~= Seq::<NodeId>::empty());
        }
        if order.len() != n {
            proof {
                assert(queue@ =~= Seq::<NodeId>::empty());
                lemma_kahn_stuck(g, order@, done, indegree@);
            }
            return Err(MathError::InvalidGraph { message: String::from_str("graph contains a cycle") });
        }
        proof {
            lemma_kahn_complete(g, order@, done, indegree@);
            assert(order@ + queue@ =~= order@);
            lemma_kahn_listing_order(g, order@ + queue@, order@.len() as int, Seq::empty(), 0);
        }
        Ok(order)
    }

    /// The edges that Kruskal's algorithm keeps when it considers the edges in
    /// `order` (which the caller sorts by weight): each edge whose endpoints
    /// the kept edges do not yet connect. Fails for a directed graph.
    pub fn spanning_forest(&self, order: &[EdgeId]) -> (r: Result<Vec<EdgeId>, MathError>)
        requires
            self.well_formed(),
            forall|i: int| 0 <= i < order@.len() ==> (#[trigger] order@[i]).0 < self@.edges.len(),
        ensures
            r is Ok <==> !self@.directed,
            r matches Ok(selected) ==> selected@ == self@.greedy_forest(order@),
            r matches Err(e) ==> is_invalid_graph(e, "minimum spanning tree requires an undirected graph"@),
    {
        if self.directed {
            return Err(MathError::InvalidGraph {
                message: String::from_str("minimum spanning tree requires an undirected graph"),
            });
        }
        let n = self.nodes.len();
        let ghost g = self@;
        let mut union_find = UnionFind::new(n);
        let mut selected: Vec<EdgeId> = Vec::new();
        proof {
            assert(order@.take(0) =~= Seq::<EdgeId>::empty());
            assert forall|x: int, y: int| 0 <= x < n && 0 <= y < n implies
                (#[trigger] union_find.same(x, y) <==> g.joined(selected@, x, y)) by {
                lemma_joined_empty(g, selected@, x, y);
                if x == y {
                    lemma_joined_refl(g, selected@, x);
                }
            }
        }
        let mut i: usize = 0;
        while i < order.len()
            invariant
                self.well_formed(),
                g == self@,
                !g.directed,
                n == g.nodes.len(),
                i <= order@.len(),
                forall|j: int| 0 <= j < order@.len() ==> (#[trigger] order@[j]).0 < g.edges.len(),
                union_find.wf(),
                union_find.size() == n,
                selected@ == g.greedy_forest(order@.take(i as int)),
                forall|x: int, y: int| 0 <= x < n && 0 <= y < n ==>
                    (#[trigger] union_find.same(x, y) <==> g.joined(selected@, x, y)),
            decreases order@.len() - i,
        {
            let id = order[i];
            let edge = &self.edges[id.0];
            let ghost a = edge.source.0 as int;
            let ghost b = edge.target.0 as int;
            let ghost sel0 = selected@;
            let ghost uf0 = union_find;
            proof {
                assert(g.edges[id.0 as int].source == a && g.edges[id.0 as int].target == b);
                assert(0 <= a < n && 0 <= b < n);
                assert(order@.take(i as int + 1).drop_last() =~= order@.take(i as int));
                assert(order@.take(i as int + 1).last() == id);
            }
            let merged = union_find.union(edge.source.0, edge.target.0);
            if merged {
                selected.push(id);
            }
            proof {
                assert(uf0.same(a, b) == g.joined(sel0, a, b));
                assert forall|x: int, y: int| 0 <= x < n && 0 <= y < n implies
                    (#[trigger] union_find.same(x, y) <==> g.joined(selected@, x, y)) by {
                    assert(uf0.same(x, y) == g.joined(sel0, x, y));
                    assert(uf0.same(x, a) == g.joined(sel0, x, a));
                    assert(uf0.same(y, b) == g.joined(sel0, y, b));
                    assert(uf0.same(x, b) == g.joined(sel0, x, b));
                    assert(uf0.same(y, a) == g.joined(sel0, y, a));
                    lemma_joined_sym_iff(g, sel0, y, b);
                    lemma_joined_sym_iff(g, sel0, y, a);
                    if merged {
                        lemma_joined_push(g, sel0, id, x, y);
                    } else {
                        if g.joined(sel0, x, a) && g.joined(sel0, b, y) {
                            lemma_joined_trans(g, sel0, x, a, b);
                            lemma_joined_trans(g, sel0, x, b, y);
                        }
                        if g.joined(sel0, x, b) && g.joined(sel0, a, y) {
                            lemma_joined_sym(g, sel0, a, b);
                            lemma_joined_trans(g, sel0, x, b, a);
                            lemma_joined_trans(g, sel0, x, a, y);
                        }
                    }
                }
            }
            i = i + 1;
        }
        proof {
            assert(order@.take(order@.len() as int) =~= order@);
        }
        Ok(selected)
    }

    /// Fails with `InvalidGraph` unless `node` exists.
    fn ensure_node(&self, node: NodeId) -> (r: Result<(), MathError>)
        ensures
            r is Ok <==> node.0 < self@.nodes.len(),
            r matches Err(e) ==> is_invalid_graph(e, missing_node_message(node.0 as nat)),
    {
        if node.0 >= self.nodes.len() {
            return Err(missing_node(node));
        }
        Ok(())
    }
}

/// Each node of `s` after the first is the breadth-first choice after the
/// nodes before it.
spec fn breadth_first_prefix<N, E, W>(g: GraphView<N, E, W>, s: Seq<NodeId>) -> bool {
    forall|i: int| 1 <= i < s.len() ==> #[trigger] g.breadth_first_next(s.take(i), s[i].0 as int)
}

/// Listing one more node keeps every listed node listed and opens no node.
proof fn lemma_listed_push<N, E, W>(g: GraphView<N, E, W>, s: Seq<NodeId>, x: NodeId)
    ensures
        forall|v: int| is_listed(s, v) ==> #[trigger] is_listed(s.push(x), v),
        is_listed(s.push(x), x.0 as int),
        forall|u: int| #[trigger] g.has_unlisted_neighbor(s.push(x), u) ==> g.has_unlisted_neighbor(s, u),
{
    assert forall|v: int| is_listed(s, v) implies #[trigger] is_listed(s.push(x), v) by {
        let i = choose|i: int| 0 <= i < s.len() && s[i].0 == v;
        assert(s.push(x)[i] == s[i]);
    }
    assert(s.push(x)[s.len() as int] == x);
    assert forall|u: int| #[trigger] g.has_unlisted_neighbor(s.push(x), u) implies g.has_unlisted_neighbor(s, u) by {
        let a = choose|a: int| 0 <= a < g.adjacency(u).len() && !is_listed(s.push(x), #[trigger] g.adjacency(u)[a].1);
        assert(!is_listed(s, g.adjacency(u)[a].1));
    }
}

/// A node that the search marks visited is exactly a listed one.
proof fn lemma_visited_listed<N, E, W>(g: GraphView<N, E, W>, s: Seq<NodeId>, visited: Seq<bool>, start: int, v: int)
    requires
        discovered(g, s, visited, start),
        0 <= v < g.nodes.len(),
    ensures
        visited[v] <==> is_listed(s, v),
{
    reveal(discovered);
}

/// Appending the first unlisted neighbour of the earliest open node keeps
/// the list breadth-first.
proof fn lemma_breadth_first_push<N, E, W>(g: GraphView<N, E, W>, s: Seq<NodeId>, pos: int, t: int, x: NodeId)
    requires
        breadth_first_prefix(g, s),
        0 <= pos < s.len(),
        g.none_open_before(s, pos),
        g.listed_before(s, s[pos].0 as int, t),
        0 <= t < g.adjacency(s[pos].0 as int).len(),
        g.adjacency(s[pos].0 as int)[t].1 == x.0,
        !is_listed(s, x.0 as int),
    ensures
        breadth_first_prefix(g, s.push(x)),
        g.none_open_before(s.push(x), pos),
        g.listed_before(s.push(x), s[pos].0 as int, t + 1),
{
    let s2 = s.push(x);
    let u = s[pos].0 as int;
    lemma_listed_push(g, s, x);
    assert(g.first_unlisted_neighbor(s, u, x.0 as int)) by {
        assert(g.adjacency(u)[t].1 == x.0);
    }
    assert(g.breadth_first_next(s, x.0 as int));
    assert forall|i: int| 1 <= i < s2.len() implies #[trigger] g.breadth_first_next(s2.take(i), s2[i].0 as int) by {
        if i < s.len() {
            assert(s2.take(i) =~= s.take(i));
            assert(s2[i] == s[i]);
        } else {
            assert(s2.take(i) =~= s);
        }
    }
    assert forall|i: int| 0 <= i < pos implies !#[trigger] g.has_unlisted_neighbor(s2, s2[i].0 as int) by {
        assert(s2[i] == s[i]);
        assert(!g.has_unlisted_neighbor(s, s[i].0 as int));
    }
    assert forall|b: int| 0 <= b < t + 1 implies is_listed(s2, #[trigger] g.adjacency(u)[b].1) by {
        if b < t {
            assert(is_listed(s, g.adjacency(u)[b].1));
        }
    }
}

/// Appending the smallest unlisted node joined to the earliest open node
/// keeps the component order.
proof fn lemma_component_push<N, E, W>(g: GraphView<N, E, W>, s: Seq<NodeId>, pos: int, x: NodeId)
    requires
        g.is_component_order(s),
        0 <= pos < s.len(),
        g.no_link_open_before(s, pos),
        g.smallest_unlisted_link(s, s[pos].0 as int, x.0 as int),
    ensures
        g.is_component_order(s.push(x)),
        g.no_link_open_before(s.push(x), pos),
{
    let s2 = s.push(x);
    lemma_listed_push(g, s, x);
    assert(g.component_next(s, x.0 as int));
    assert forall|i: int| 1 <= i < s2.len() implies #[trigger] g.component_next(s2.take(i), s2[i].0 as int) by {
        if i < s.len() {
            assert(s2.take(i) =~= s.take(i));
            assert(s2[i] == s[i]);
        } else {
            assert(s2.take(i) =~= s);
        }
    }
    assert forall|i: int| 0 <= i < pos implies !#[trigger] g.has_unlisted_link(s2, s2[i].0 as int) by {
        assert(s2[i] == s[i]);
        assert(!g.has_unlisted_link(s, s[i].0 as int));
        if g.has_unlisted_link(s2, s[i].0 as int) {
            let v = choose|v: int| 0 <= v < g.nodes.len() && #[trigger] g.linked(s[i].0 as int, v) && !is_listed(s2, v);
            if is_listed(s, v) {
                assert(is_listed(s2, v));
            }
        }
    }
}

/// Each node of `s` after the first is the depth-first choice after the
/// nodes before it.
spec fn depth_first_prefix<N, E, W>(g: GraphView<N, E, W>, s: Seq<NodeId>) -> bool {
    forall|i: int| 1 <= i < s.len() ==> #[trigger] g.depth_first_next(s.take(i), s[i].0 as int)
}

/// `x` is neighbour number `a` of the listed node at position `i`.
spec fn slot_holds<N, E, W>(g: GraphView<N, E, W>, order: Seq<NodeId>, i: int, a: int, x: NodeId) -> bool {
    &&& 0 <= i < order.len()
    &&& 0 <= a < g.adjacency(order[i].0 as int).len()
    &&& g.adjacency(order[i].0 as int)[a].1 == x.0
}

/// Some stack entry was pushed as neighbour number `a` of the node at `i`.
spec fn waiting(owner: Seq<int>, slot: Seq<int>, i: int, a: int) -> bool {
    exists|k: int| #![trigger owner[k], slot[k]] 0 <= k < owner.len() && owner[k] == i && slot[k] == a
}

/// The depth-first stack read against the listed nodes: entry `k` is
/// neighbour number `slot[k]` of the node listed at `owner[k]`; owners never
/// decrease up the stack and, under one owner, slots decrease; every unlisted
/// neighbour of a node listed before `upto`, and of the node at `upto` from
/// slot `from` on, waits on the stack under its owner and slot.
#[verifier::opaque]
spec fn stack_slots<N, E, W>(
    g: GraphView<N, E, W>,
    order: Seq<NodeId>,
    stack: Seq<NodeId>,
    owner: Seq<int>,
    slot: Seq<int>,
    upto: int,
    from: int,
) -> bool {
    &&& owner.len() == stack.len()
    &&& slot.len() == stack.len()
    &&& forall|k: int| 0 <= k < stack.len() ==> #[trigger] slot_holds(g, order, owner[k], slot[k], stack[k])
    &&& forall|k: int| 0 <= k < stack.len() ==> #[trigger] owner[k] < upto || (owner[k] == upto && slot[k] >= from)
    &&& forall|k1: int, k2: int| 0 <= k1 < k2 < stack.len() ==> #[trigger] owner[k1] <= #[trigger] owner[k2]
        && (owner[k1] == owner[k2] ==> slot[k1] > slot[k2])
    &&& forall|i: int, a: int| 0 <= i < upto && 0 <= a < g.adjacency(order[i].0 as int).len()
        && !is_listed(order, #[trigger] g.adjacency(order[i].0 as int)[a].1) ==> waiting(owner, slot, i, a)
    &&& upto < order.len() ==> forall|a: int| from <= a < g.adjacency(order[upto].0 as int).len()
        && !is_listed(order, #[trigger] g.adjacency(order[upto].0 as int)[a].1) ==> waiting(owner, slot, upto, a)
}

/// Popping a listed node off the stack keeps the record.
proof fn lemma_slots_pop_listed<N, E, W>(g: GraphView<N, E, W>, order: Seq<NodeId>, stack: Seq<NodeId>, owner: Seq<int>, slot: Seq<int>)
    requires
        stack_slots(g, order, stack, owner, slot, order.len() as int, 0),
        stack.len() > 0,
        is_listed(order, stack.last().0 as int),
    ensures
        stack_slots(g, order, stack.drop_last(), owner.drop_last(), slot.drop_last(), order.len() as int, 0),
{
    reveal(stack_slots);
    let top = stack.len() - 1;
    let (s2, o2, l2) = (stack.drop_last(), owner.drop_last(), slot.drop_last());
    assert forall|k: int| 0 <= k < s2.len() implies #[trigger] slot_holds(g, order, o2[k], l2[k], s2[k]) by {
        assert(slot_holds(g, order, owner[k], slot[k], stack[k]));
    }
    assert forall|k: int| 0 <= k < s2.len() implies #[trigger] o2[k] < order.len() || (o2[k] == order.len() && l2[k] >= 0) by {
        assert(owner[k] < order.len() || (owner[k] == order.len() && slot[k] >= 0));
    }
    assert forall|k1: int, k2: int| 0 <= k1 < k2 < s2.len() implies #[trigger] o2[k1] <= #[trigger] o2[k2]
        && (o2[k1] == o2[k2] ==> l2[k1] > l2[k2]) by {
        assert(owner[k1] <= owner[k2]);
    }
    assert forall|i: int, a: int| 0 <= i < order.len() && 0 <= a < g.adjacency(order[i].0 as int).len()
        && !is_listed(order, #[trigger] g.adjacency(order[i].0 as int)[a].1) implies waiting(o2, l2, i, a) by {
        let k = choose|k: int| #![trigger owner[k], slot[k]] 0 <= k < owner.len() && owner[k] == i && slot[k] == a;
        assert(slot_holds(g, order, owner[k], slot[k], stack[k]));
        if k == top {
            assert(is_listed(order, stack[k].0 as int));
        }
        assert(o2[k] == owner[k] && l2[k] == slot[k]);
    }
}

/// Popping an unlisted node: it is the depth-first choice, and once it is
/// listed the rest of the stack keeps the record for the earlier nodes.
proof fn lemma_slots_pop_unlisted<N, E, W>(g: GraphView<N, E, W>, order: Seq<NodeId>, stack: Seq<NodeId>, owner: Seq<int>, slot: Seq<int>)
    requires
        stack_slots(g, order, stack, owner, slot, order.len() as int, 0),
        stack.len() > 0,
        !is_listed(order, stack.last().0 as int),
    ensures
        g.depth_first_next(order, stack.last().0 as int),
        stack_slots(g, order.push(stack.last()), stack.drop_last(), owner.drop_last(), slot.drop_last(),
            order.len() as int, g.adjacency(stack.last().0 as int).len() as int),
{
    reveal(stack_slots);
    let top = stack.len() - 1;
    let x = stack.last();
    let j = owner[top];
    let a = slot[top];
    assert(slot_holds(g, order, owner[top], slot[top], stack[top]));
    let u = order[j].0 as int;
    assert(owner[top] < order.len());
    assert(g.listed_before(order, u, a)) by {
        assert forall|b: int| 0 <= b < a implies is_listed(order, #[trigger] g.adjacency(u)[b].1) by {
            if !is_listed(order, g.adjacency(u)[b].1) {
                let k = choose|k: int| #![trigger owner[k], slot[k]] 0 <= k < owner.len() && owner[k] == j && slot[k] == b;
                if k < top {
                    assert(owner[k] <= owner[top]);
                }
            }
        }
    }
    assert(g.first_unlisted_neighbor(order, u, x.0 as int)) by {
        assert(g.adjacency(u)[a].1 == x.0);
    }
    assert(g.none_open_after(order, j)) by {
        assert forall|i: int| j < i < order.len() implies !#[trigger] g.has_unlisted_neighbor(order, order[i].0 as int) by {
            if g.has_unlisted_neighbor(order, order[i].0 as int) {
                let b = choose|b: int| 0 <= b < g.adjacency(order[i].0 as int).len()
                    && !is_listed(order, #[trigger] g.adjacency(order[i].0 as int)[b].1);
                let k = choose|k: int| #![trigger owner[k], slot[k]] 0 <= k < owner.len() && owner[k] == i && slot[k] == b;
                if k < top {
                    assert(owner[k] <= owner[top]);
                }
            }
        }
    }
    assert(g.depth_first_next(order, x.0 as int));
    let o1 = order.push(x);
    let (s2, o2, l2) = (stack.drop_last(), owner.drop_last(), slot.drop_last());
    lemma_listed_push(g, order, x);
    assert forall|k: int| 0 <= k < s2.len() implies #[trigger] slot_holds(g, o1, o2[k], l2[k], s2[k]) by {
        assert(slot_holds(g, order, owner[k], slot[k], stack[k]));
        assert(o1[owner[k]] == order[owner[k]]);
    }
    assert forall|k: int| 0 <= k < s2.len() implies #[trigger] o2[k] < order.len()
        || (o2[k] == order.len() && l2[k] >= g.adjacency(x.0 as int).len()) by {
        assert(owner[k] < order.len() || (owner[k] == order.len() && slot[k] >= 0));
        assert(slot_holds(g, order, owner[k], slot[k], stack[k]));
    }
    assert forall|k1: int, k2: int| 0 <= k1 < k2 < s2.len() implies #[trigger] o2[k1] <= #[trigger] o2[k2]
        && (o2[k1] == o2[k2] ==> l2[k1] > l2[k2]) by {
        assert(owner[k1] <= owner[k2]);
    }
    assert forall|i: int, b: int| 0 <= i < order.len() && 0 <= b < g.adjacency(o1[i].0 as int).len()
        && !is_listed(o1, #[trigger] g.adjacency(o1[i].0 as int)[b].1) implies waiting(o2, l2, i, b) by {
        assert(o1[i] == order[i]);
        let y = g.adjacency(order[i].0 as int)[b].1;
        assert(!is_listed(order, y));
        let k = choose|k: int| #![trigger owner[k], slot[k]] 0 <= k < owner.len() && owner[k] == i && slot[k] == b;
        assert(slot_holds(g, order, owner[k], slot[k], stack[k]));
        if k == top {
            assert(is_listed(o1, x.0 as int));
        }
        assert(o2[k] == owner[k] && l2[k] == slot[k]);
    }
}

/// Pushing neighbour number `t` of the last listed node keeps the record,
/// now from slot `t` on.
proof fn lemma_slots_push<N, E, W>(
    g: GraphView<N, E, W>,
    order: Seq<NodeId>,
    stack: Seq<NodeId>,
    owner: Seq<int>,
    slot: Seq<int>,
    t: int,
    y: NodeId,
)
    requires
        order.len() > 0,
        stack_slots(g, order, stack, owner, slot, order.len() - 1, t + 1),
        0 <= t < g.adjacency(order.last().0 as int).len(),
        g.adjacency(order.last().0 as int)[t].1 == y.0,
    ensures
        stack_slots(g, order, stack.push(y), owner.push(order.len() - 1), slot.push(t), order.len() - 1, t),
{
    reveal(stack_slots);
    let pos = order.len() - 1;
    let (s2, o2, l2) = (stack.push(y), owner.push(pos), slot.push(t));
    assert forall|k: int| 0 <= k < s2.len() implies #[trigger] slot_holds(g, order, o2[k], l2[k], s2[k]) by {
        if k < stack.len() {
            assert(slot_holds(g, order, owner[k], slot[k], stack[k]));
        }
    }
    assert forall|k: int| 0 <= k < s2.len() implies #[trigger] o2[k] < pos || (o2[k] == pos && l2[k] >= t) by {
        if k < stack.len() {
            assert(owner[k] < pos || (owner[k] == pos && slot[k] >= t + 1));
        }
    }
    assert forall|k1: int, k2: int| 0 <= k1 < k2 < s2.len() implies #[trigger] o2[k1] <= #[trigger] o2[k2]
        && (o2[k1] == o2[k2] ==> l2[k1] > l2[k2]) by {
        if k2 < stack.len() {
            assert(owner[k1] <= owner[k2]);
        } else {
            assert(owner[k1] < pos || (owner[k1] == pos && slot[k1] >= t + 1));
        }
    }
    assert forall|i: int, a: int| 0 <= i < pos && 0 <= a < g.adjacency(order[i].0 as int).len()
        && !is_listed(order, #[trigger] g.adjacency(order[i].0 as int)[a].1) implies waiting(o2, l2, i, a) by {
        let k = choose|k: int| #![trigger owner[k], slot[k]] 0 <= k < owner.len() && owner[k] == i && slot[k] == a;
        assert(o2[k] == owner[k] && l2[k] == slot[k]);
    }
    assert forall|a: int| t <= a < g.adjacency(order[pos].0 as int).len()
        && !is_listed(order, #[trigger] g.adjacency(order[pos].0 as int)[a].1) implies waiting(o2, l2, pos, a) by {
        if a == t {
            assert(o2[stack.len() as int] == pos && l2[stack.len() as int] == t);
        } else {
            let k = choose|k: int| #![trigger owner[k], slot[k]] 0 <= k < owner.len() && owner[k] == pos && slot[k] == a;
            assert(o2[k] == owner[k] && l2[k] == slot[k]);
        }
    }
}

/// A listed neighbour needs no entry: the record extends to slot `t`.
proof fn lemma_slots_skip<N, E, W>(g: GraphView<N, E, W>, order: Seq<NodeId>, stack: Seq<NodeId>, owner: Seq<int>, slot: Seq<int>, t: int)
    requires
        order.len() > 0,
        stack_slots(g, order, stack, owner, slot, order.len() - 1, t + 1),
        0 <= t < g.adjacency(order.last().0 as int).len(),
        is_listed(order, g.adjacency(order.last().0 as int)[t].1),
    ensures
        stack_slots(g, order, stack, owner, slot, order.len() - 1, t),
{
    reveal(stack_slots);
    let pos = order.len() - 1;
    assert forall|k: int| 0 <= k < stack.len() implies #[trigger] owner[k] < pos || (owner[k] == pos && slot[k] >= t) by {
        assert(owner[k] < pos || (owner[k] == pos && slot[k] >= t + 1));
    }
}

/// Once every neighbour of the last listed node is recorded, the record
/// covers all listed nodes.
proof fn lemma_slots_close<N, E, W>(g: GraphView<N, E, W>, order: Seq<NodeId>, stack: Seq<NodeId>, owner: Seq<int>, slot: Seq<int>)
    requires
        order.len() > 0,
        stack_slots(g, order, stack, owner, slot, order.len() - 1, 0),
    ensures
        stack_slots(g, order, stack, owner, slot, order.len() as int, 0),
{
    reveal(stack_slots);
    let pos = order.len() - 1;
    assert forall|k: int| 0 <= k < stack.len() implies #[trigger] owner[k] < order.len() || (owner[k] == order.len() && slot[k] >= 0) by {
        assert(owner[k] < pos || (owner[k] == pos && slot[k] >= 0));
    }
    assert forall|i: int, a: int| 0 <= i < order.len() && 0 <= a < g.adjacency(order[i].0 as int).len()
        && !is_listed(order, #[trigger] g.adjacency(order[i].0 as int)[a].1) implies waiting(owner, slot, i, a) by {
        if i == pos {
            assert(0 <= a < g.adjacency(order[pos].0 as int).len());
        }
    }
}

/// An empty stack leaves no listed node with an unlisted neighbour.
proof fn lemma_slots_empty<N, E, W>(g: GraphView<N, E, W>, order: Seq<NodeId>, stack: Seq<NodeId>, owner: Seq<int>, slot: Seq<int>)
    requires
        stack_slots(g, order, stack, owner, slot, order.len() as int, 0),
        stack.len() == 0,
    ensures
        forall|i: int| 0 <= i < order.len() ==> !#[trigger] g.has_unlisted_neighbor(order, order[i].0 as int),
{
    reveal(stack_slots);
    assert forall|i: int| 0 <= i < order.len() implies !#[trigger] g.has_unlisted_neighbor(order, order[i].0 as int) by {
        if g.has_unlisted_neighbor(order, order[i].0 as int) {
            let b = choose|b: int| 0 <= b < g.adjacency(order[i].0 as int).len()
                && !is_listed(order, #[trigger] g.adjacency(order[i].0 as int)[b].1);
            assert(waiting(owner, slot, i, b));
        }
    }
}

/// The record before anything is pushed for the first listed node.
proof fn lemma_slots_start<N, E, W>(g: GraphView<N, E, W>, order: Seq<NodeId>)
    requires
        order.len() == 1,
    ensures
        stack_slots(g, order, Seq::empty(), Seq::empty(), Seq::empty(), 0, g.adjacency(order[0].0 as int).len() as int),
{
    reveal(stack_slots);
}

/// Appending the depth-first choice keeps the list depth-first.
proof fn lemma_depth_first_push<N, E, W>(g: GraphView<N, E, W>, s: Seq<NodeId>, x: NodeId)
    requires
        depth_first_prefix(g, s),
        g.depth_first_next(s, x.0 as int),
    ensures
        depth_first_prefix(g, s.push(x)),
{
    let s2 = s.push(x);
    assert forall|i: int| 1 <= i < s2.len() implies #[trigger] g.depth_first_next(s2.take(i), s2[i].0 as int) by {
        if i < s.len() {
            assert(s2.take(i) =~= s.take(i));
            assert(s2[i] == s[i]);
        } else {
            assert(s2.take(i) =~= s);
        }
    }
}

fn missing_node(node: NodeId) -> (e: MathError)
    ensures
        is_invalid_graph(e, missing_node_message(node.0 as nat)),
{
    let mut message = String::from_str("node NodeId(");
    push_decimal(&mut message, node.0);
    message.append(") does not exist");
    MathError::InvalidGraph { message }
}

} // verus!
