use math_lib::graph::{EdgeId, Graph, NodeId};
use math_lib::MathError;

#[test]
fn graph_traversals_and_components_work() {
    let mut graph = Graph::<&str, (), u32>::new_undirected();
    let a = graph.add_node("a");
    let b = graph.add_node("b");
    let c = graph.add_node("c");
    let d = graph.add_node("d");

    graph.add_edge(a, b, 1, ()).unwrap();
    graph.add_edge(b, c, 2, ()).unwrap();

    assert_eq!(graph.bfs(a).unwrap(), vec![a, b, c]);
    assert_eq!(graph.dfs(a).unwrap(), vec![a, b, c]);

    let components = graph.connected_components();
    assert_eq!(components.len(), 2);
    assert!(components.iter().any(|component| component == &vec![NodeId(3)]));

    graph.add_edge(c, d, 3, ()).unwrap();
    let mst = graph.minimum_spanning_tree().unwrap();
    assert_eq!(mst.edges.len(), 3);
    assert_eq!(mst.total_weight, 6);
}

#[test]
fn dijkstra_and_topological_sort_work() {
    let mut graph = Graph::<&str, (), u32>::new_directed();
    let a = graph.add_node("a");
    let b = graph.add_node("b");
    let c = graph.add_node("c");
    let d = graph.add_node("d");

    graph.add_edge(a, b, 1, ()).unwrap();
    graph.add_edge(a, c, 4, ()).unwrap();
    graph.add_edge(b, c, 2, ()).unwrap();
    graph.add_edge(b, d, 6, ()).unwrap();
    graph.add_edge(c, d, 1, ()).unwrap();

    let paths = graph.dijkstra(a).unwrap();
    assert_eq!(paths.distance_to(d).unwrap(), 4);
    assert_eq!(paths.path_to(d).unwrap(), vec![a, b, c, d]);

    let order = graph.topological_sort().unwrap();
    assert_eq!(order.first().copied(), Some(a));
    assert_eq!(order.last().copied(), Some(d));
}

#[test]
fn dijkstra_leaves_unreachable_nodes_without_distance() {
    let mut graph = Graph::<(), (), u64>::new_directed();
    let a = graph.add_node(());
    let b = graph.add_node(());
    let c = graph.add_node(());
    graph.add_edge(b, a, 5, ()).unwrap();
    graph.add_edge(a, a, 0, ()).unwrap();
    let paths = graph.dijkstra(a).unwrap();
    assert_eq!(paths.distance_to(a), Some(0));
    assert_eq!(paths.distance_to(b), None);
    assert_eq!(paths.distance_to(c), None);
    assert_eq!(paths.distance_to(NodeId(9)), None);
    assert_eq!(paths.path_to(a), Some(vec![a]));
    assert_eq!(paths.path_to(b), None);
    assert_eq!(paths.previous, vec![None, None, None]);
    assert_eq!(
        graph.dijkstra(NodeId(3)).unwrap_err(),
        MathError::InvalidGraph { message: "node NodeId(3) does not exist".to_string() }
    );
}

#[test]
fn dijkstra_in_undirected_graph_uses_edges_both_ways() {
    let mut graph = Graph::<(), (), i64>::new_undirected();
    let nodes: Vec<NodeId> = (0..5).map(|_| graph.add_node(())).collect();
    graph.add_edge(nodes[1], nodes[0], 7, ()).unwrap();
    graph.add_edge(nodes[0], nodes[2], 2, ()).unwrap();
    graph.add_edge(nodes[2], nodes[1], 3, ()).unwrap();
    graph.add_edge(nodes[1], nodes[3], 1, ()).unwrap();
    let paths = graph.dijkstra(nodes[0]).unwrap();
    assert_eq!(paths.distances, vec![Some(0), Some(5), Some(2), Some(6), None]);
    assert_eq!(paths.path_to(nodes[3]).unwrap(), vec![nodes[0], nodes[2], nodes[1], nodes[3]]);
}

#[test]
fn topological_sort_rejects_cycles_and_undirected_graphs() {
    let mut graph = Graph::<(), (), u32>::new_directed();
    let a = graph.add_node(());
    let b = graph.add_node(());
    graph.add_edge(a, b, 1, ()).unwrap();
    graph.add_edge(b, a, 1, ()).unwrap();
    assert_eq!(
        graph.topological_sort(),
        Err(MathError::InvalidGraph { message: "graph contains a cycle".to_string() })
    );
    let undirected = Graph::<(), (), u32>::new_undirected();
    assert_eq!(
        undirected.topological_sort(),
        Err(MathError::InvalidGraph { message: "topological sort requires a directed graph".to_string() })
    );
}

#[test]
fn edges_and_nodes_report_missing_ids() {
    let mut graph = Graph::<&str, char, u32>::new_directed();
    let a = graph.add_node("a");
    let b = graph.add_node("b");
    assert_eq!(
        graph.add_edge(a, NodeId(7), 1, 'x'),
        Err(MathError::InvalidGraph { message: "node NodeId(7) does not exist".to_string() })
    );
    let e = graph.add_edge(a, b, 3, 'y').unwrap();
    assert_eq!(e, EdgeId(0));
    assert_eq!(graph.edge(e).unwrap(), (&"a", &"b", 3, &'y'));
    assert_eq!(
        graph.edge(EdgeId(4)),
        Err(MathError::InvalidGraph { message: "edge EdgeId(4) does not exist".to_string() })
    );
    assert_eq!(graph.node(b), Ok(&"b"));
    assert!(graph.node(NodeId(2)).is_err());
    assert_eq!(graph.node_count(), 2);
    assert_eq!(graph.edge_count(), 1);
    assert!(graph.is_directed());
    assert_eq!(graph.adjacent_edges(a).unwrap(), vec![(EdgeId(0), b)]);
    assert_eq!(graph.adjacent_edges(b).unwrap(), vec![]);
    assert!(graph.bfs(NodeId(5)).is_err());
}

#[test]
fn traversal_orders_follow_adjacency() {
    let mut graph = Graph::<(), (), u32>::new_directed();
    let n: Vec<NodeId> = (0..5).map(|_| graph.add_node(())).collect();
    graph.add_edge(n[0], n[1], 1, ()).unwrap();
    graph.add_edge(n[0], n[2], 1, ()).unwrap();
    graph.add_edge(n[1], n[3], 1, ()).unwrap();
    graph.add_edge(n[2], n[4], 1, ()).unwrap();
    assert_eq!(graph.bfs(n[0]).unwrap(), vec![n[0], n[1], n[2], n[3], n[4]]);
    assert_eq!(graph.dfs(n[0]).unwrap(), vec![n[0], n[1], n[3], n[2], n[4]]);
    let components = graph.connected_components();
    assert_eq!(components, vec![vec![n[0], n[1], n[2], n[3], n[4]]]);
}

#[test]
fn components_take_neighbours_in_increasing_id() {
    let mut graph = Graph::<(), (), u32>::new_directed();
    let n: Vec<NodeId> = (0..6).map(|_| graph.add_node(())).collect();
    graph.add_edge(n[0], n[3], 1, ()).unwrap();
    graph.add_edge(n[1], n[0], 1, ()).unwrap();
    graph.add_edge(n[3], n[2], 1, ()).unwrap();
    graph.add_edge(n[5], n[4], 1, ()).unwrap();
    graph.add_edge(n[4], n[5], 1, ()).unwrap();
    assert_eq!(graph.bfs(n[0]).unwrap(), vec![n[0], n[3], n[2]]);
    assert_eq!(
        graph.connected_components(),
        vec![vec![n[0], n[1], n[3], n[2]], vec![n[4], n[5]]]
    );
}

#[test]
fn depth_first_backtracks_to_latest_open_node() {
    let mut graph = Graph::<(), (), u32>::new_undirected();
    let n: Vec<NodeId> = (0..6).map(|_| graph.add_node(())).collect();
    graph.add_edge(n[0], n[1], 1, ()).unwrap();
    graph.add_edge(n[0], n[2], 1, ()).unwrap();
    graph.add_edge(n[1], n[3], 1, ()).unwrap();
    graph.add_edge(n[3], n[4], 1, ()).unwrap();
    graph.add_edge(n[1], n[5], 1, ()).unwrap();
    assert_eq!(graph.dfs(n[0]).unwrap(), vec![n[0], n[1], n[3], n[4], n[5], n[2]]);
    assert_eq!(graph.bfs(n[0]).unwrap(), vec![n[0], n[1], n[2], n[3], n[5], n[4]]);
}

#[test]
fn topological_sort_lists_sources_then_queue_order() {
    let mut graph = Graph::<(), (), u32>::new_directed();
    let n: Vec<NodeId> = (0..4).map(|_| graph.add_node(())).collect();
    graph.add_edge(n[0], n[2], 1, ()).unwrap();
    graph.add_edge(n[0], n[1], 1, ()).unwrap();
    graph.add_edge(n[1], n[3], 1, ()).unwrap();
    graph.add_edge(n[2], n[3], 1, ()).unwrap();
    assert_eq!(graph.topological_sort().unwrap(), vec![n[0], n[2], n[1], n[3]]);

    let mut graph = Graph::<(), (), u32>::new_directed();
    let n: Vec<NodeId> = (0..6).map(|_| graph.add_node(())).collect();
    graph.add_edge(n[3], n[0], 1, ()).unwrap();
    graph.add_edge(n[4], n[0], 1, ()).unwrap();
    graph.add_edge(n[5], n[1], 1, ()).unwrap();
    graph.add_edge(n[0], n[2], 1, ()).unwrap();
    graph.add_edge(n[1], n[2], 1, ()).unwrap();
    assert_eq!(graph.topological_sort().unwrap(), vec![n[3], n[4], n[5], n[0], n[1], n[2]]);
}

#[test]
fn add_edge_refuses_negative_weights() {
    let mut graph = Graph::<(), (), i32>::new_undirected();
    let a = graph.add_node(());
    let b = graph.add_node(());
    assert_eq!(
        graph.add_edge(a, b, -1, ()),
        Err(MathError::InvalidGraph { message: "negative edge weights are not supported".to_string() })
    );
    assert_eq!(graph.edge_count(), 0);
    assert_eq!(
        graph.add_edge(a, NodeId(9), -1, ()),
        Err(MathError::InvalidGraph { message: "node NodeId(9) does not exist".to_string() })
    );
    assert_eq!(graph.add_edge(a, b, 0, ()), Ok(EdgeId(0)));
    assert_eq!(graph.insert_edge(b, a, -4, ()), Ok(EdgeId(1)));
}

#[test]
fn dijkstra_keeps_the_first_settled_of_equal_routes() {
    let mut graph = Graph::<(), (), u32>::new_directed();
    let n: Vec<NodeId> = (0..4).map(|_| graph.add_node(())).collect();
    graph.add_edge(n[0], n[1], 1, ()).unwrap();
    graph.add_edge(n[0], n[2], 2, ()).unwrap();
    graph.add_edge(n[2], n[3], 2, ()).unwrap();
    graph.add_edge(n[1], n[3], 3, ()).unwrap();
    let paths = graph.dijkstra(n[0]).unwrap();
    assert_eq!(paths.distance_to(n[3]), Some(4));
    assert_eq!(paths.path_to(n[3]).unwrap(), vec![n[0], n[1], n[3]]);
}

#[test]
fn large_weights_work_when_the_summed_values_fit() {
    let mut graph = Graph::<(), (), u32>::new_directed();
    let n: Vec<NodeId> = (0..3).map(|_| graph.add_node(())).collect();
    graph.add_edge(n[0], n[1], 4_000_000_000, ()).unwrap();
    graph.add_edge(n[0], n[2], 4_000_000_000, ()).unwrap();
    graph.add_edge(n[1], n[2], 4_000_000_000, ()).unwrap();
    let paths = graph.dijkstra(n[0]).unwrap();
    assert_eq!(paths.distance_to(n[1]), Some(4_000_000_000));
    assert_eq!(paths.distance_to(n[2]), Some(4_000_000_000));
    assert_eq!(paths.path_to(n[2]).unwrap(), vec![n[0], n[2]]);

    let mut graph = Graph::<(), (), u32>::new_undirected();
    let a = graph.add_node(());
    let b = graph.add_node(());
    graph.add_edge(a, b, 4_000_000_000, ()).unwrap();
    graph.add_edge(b, a, 4_000_000_000, ()).unwrap();
    let tree = graph.minimum_spanning_tree().unwrap();
    assert_eq!(tree.edges, vec![EdgeId(0)]);
    assert_eq!(tree.total_weight, 4_000_000_000);
}

#[test]
fn spanning_forest_skips_edges_closing_cycles() {
    let mut graph = Graph::<(), (), u32>::new_undirected();
    let n: Vec<NodeId> = (0..4).map(|_| graph.add_node(())).collect();
    graph.add_edge(n[0], n[1], 4, ()).unwrap();
    graph.add_edge(n[1], n[2], 1, ()).unwrap();
    graph.add_edge(n[0], n[2], 2, ()).unwrap();
    graph.add_edge(n[2], n[3], 2, ()).unwrap();
    let mst = graph.minimum_spanning_tree().unwrap();
    assert_eq!(mst.edges, vec![EdgeId(1), EdgeId(2), EdgeId(3)]);
    assert_eq!(mst.total_weight, 5);
    let forest = graph.spanning_forest(&[EdgeId(0), EdgeId(1), EdgeId(2)]).unwrap();
    assert_eq!(forest, vec![EdgeId(0), EdgeId(1)]);
    let directed = Graph::<(), (), u32>::new_directed();
    assert_eq!(
        directed.minimum_spanning_tree(),
        Err(MathError::InvalidGraph {
            message: "minimum spanning tree requires an undirected graph".to_string()
        })
    );
}

#[test]
fn dijkstra_finds_shortest_path() {
    let mut graph = Graph::<&str, (), u32>::new_directed();
    let a = graph.add_node("a");
    let b = graph.add_node("b");
    let c = graph.add_node("c");
    let d = graph.add_node("d");
    graph.add_edge(a, b, 1, ()).unwrap();
    graph.add_edge(a, c, 5, ()).unwrap();
    graph.add_edge(b, c, 2, ()).unwrap();
    graph.add_edge(c, d, 1, ()).unwrap();
    graph.add_edge(b, d, 5, ()).unwrap();

    let shortest = graph.dijkstra(a).unwrap();
    assert_eq!(shortest.path_to(d).unwrap(), vec![a, b, c, d]);
}

#[test]
fn shortest_path_weight_equals_distance() {
    let mut graph = Graph::<(), (), u64>::new_directed();
    let n: Vec<NodeId> = (0..6).map(|_| graph.add_node(())).collect();
    let edges = [(0, 1, 7u64), (0, 2, 9), (0, 5, 14), (1, 2, 10), (1, 3, 15), (2, 3, 11), (2, 5, 2), (3, 4, 6), (5, 4, 9)];
    for (s, t, w) in edges {
        graph.add_edge(n[s], n[t], w, ()).unwrap();
    }
    let paths = graph.dijkstra(n[0]).unwrap();
    assert_eq!(paths.distances, vec![Some(0), Some(7), Some(9), Some(20), Some(20), Some(11)]);
    for target in 0..6 {
        let path = paths.path_to(n[target]).unwrap();
        assert_eq!(path[0], n[0]);
        assert_eq!(*path.last().unwrap(), n[target]);
        let mut total = 0;
        for pair in path.windows(2) {
            total += edges
                .iter()
                .filter(|(s, t, _)| n[*s] == pair[0] && n[*t] == pair[1])
                .map(|(_, _, w)| *w)
                .min()
                .unwrap();
        }
        assert_eq!(Some(total), paths.distance_to(n[target]));
    }
}

#[test]
fn left_out_edge_is_heaviest_on_its_cycle() {
    let mut graph = Graph::<(), (), u32>::new_undirected();
    let n: Vec<NodeId> = (0..3).map(|_| graph.add_node(())).collect();
    graph.add_edge(n[0], n[1], 5, ()).unwrap();
    graph.add_edge(n[1], n[2], 3, ()).unwrap();
    graph.add_edge(n[2], n[0], 4, ()).unwrap();
    let mst = graph.minimum_spanning_tree().unwrap();
    assert_eq!(mst.edges, vec![EdgeId(1), EdgeId(2)]);
    assert_eq!(mst.total_weight, 7);
}

#[test]
fn minimum_spanning_tree_is_lightest_connecting_set() {
    let mut graph = Graph::<(), (), u32>::new_undirected();
    let n: Vec<NodeId> = (0..5).map(|_| graph.add_node(())).collect();
    let edges = [(0, 1, 4u32), (0, 2, 1), (1, 2, 2), (1, 3, 5), (2, 3, 8), (3, 4, 3), (2, 4, 9), (1, 4, 7)];
    for (s, t, w) in edges {
        graph.add_edge(n[s], n[t], w, ()).unwrap();
    }
    let mst = graph.minimum_spanning_tree().unwrap();
    assert_eq!(mst.total_weight, 11);
    let mut best = u32::MAX;
    for mask in 0u32..(1 << edges.len()) {
        let mut parent: Vec<usize> = (0..5).collect();
        fn find(parent: &mut Vec<usize>, x: usize) -> usize {
            if parent[x] != x {
                let root = find(parent, parent[x]);
                parent[x] = root;
            }
            parent[x]
        }
        let mut weight = 0;
        for (i, (s, t, w)) in edges.iter().enumerate() {
            if mask & (1 << i) != 0 {
                weight += w;
                let a = find(&mut parent, *s);
                let b = find(&mut parent, *t);
                parent[a] = b;
            }
        }
        let root = find(&mut parent, 0);
        if (0..5).all(|v| find(&mut parent, v) == root) {
            best = best.min(weight);
        }
    }
    assert_eq!(best, mst.total_weight);
}
