use rust_recipes::data_structures::graph::{Graph, GraphNode};
use rust_recipes::graph_raw;

fn diamond() -> Graph<&'static str> {
    let mut g = Graph::new();
    let a = g.add_node("a");
    let b = g.add_node("b");
    let c = g.add_node("c");
    let d = g.add_node("d");
    let _lonely = g.add_node("e");
    g.add_edge(a, b);
    g.add_edge(a, c);
    g.add_edge(b, d);
    g.add_edge(c, d);
    g.add_edge(d, a);
    g
}

#[test]
fn graph_dfs_visits_reachable_nodes_once_depth_first() {
    let g = diamond();
    let seen: Vec<&str> = g.dfs(0).into_iter().copied().collect();
    assert_eq!(seen, vec!["a", "b", "d", "c"]);
}

#[test]
fn graph_bfs_visits_reachable_nodes_once_level_by_level() {
    let g = diamond();
    let seen: Vec<&str> = g.bfs(0).into_iter().copied().collect();
    assert_eq!(seen, vec!["a", "b", "c", "d"]);
}

#[test]
fn graph_traversal_from_a_sink_sees_only_itself() {
    let g = diamond();
    assert_eq!(g.dfs(4), vec![&"e"]);
    assert_eq!(g.bfs(4), vec![&"e"]);
}

#[test]
fn graph_node_add_edge_records_target() {
    let mut n = GraphNode::new(1);
    GraphNode::add_edge(&mut n, 7);
    let mut g: Graph<i32> = Graph::new();
    let x = g.add_node(1);
    let y = g.add_node(2);
    g.add_edge(y, x);
    assert_eq!(g.dfs(y), vec![&2, &1]);
    assert_eq!(g.dfs(x), vec![&1]);
}

#[test]
fn graph_raw_dfs_and_bfs() {
    let mut g = graph_raw::Graph::new();
    let a = g.add_node(1);
    let b = g.add_node(2);
    let c = g.add_node(3);
    let d = g.add_node(4);
    g.add_edge(a, b);
    g.add_edge(a, c);
    g.add_edge(b, d);
    g.add_edge(c, d);
    assert_eq!(g.dfs(a), vec![&1, &2, &4, &3]);
    assert_eq!(g.bfs(a), vec![&1, &2, &3, &4]);
}
