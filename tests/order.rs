use context_engine::model::{EngineNode, NodeKind};
use context_engine::order::{sort_nodes_by_id, topo_sort_nodes, Edge};

fn node(id: &str) -> EngineNode {
    EngineNode {
        id: id.to_string(),
        label: format!("L{id}"),
        kind: NodeKind::Text,
        content: String::new(),
    }
}

fn edge(s: &str, t: &str) -> Edge {
    Edge { source: s.to_string(), target: t.to_string() }
}

fn ids(v: &[EngineNode]) -> Vec<&str> {
    v.iter().map(|n| n.id.as_str()).collect()
}

#[test]
fn no_edges_keeps_insertion_order() {
    let nodes = vec![node("c"), node("a"), node("b")];
    let r = topo_sort_nodes(&nodes, &vec![]);
    assert_eq!(ids(&r), vec!["c", "a", "b"]);
}

#[test]
fn edges_are_respected() {
    let nodes = vec![node("a"), node("b"), node("c")];
    let r = topo_sort_nodes(&nodes, &vec![edge("c", "a"), edge("b", "c")]);
    assert_eq!(ids(&r), vec!["b", "c", "a"]);
}

#[test]
fn ties_break_by_smallest_id() {
    let nodes = vec![node("d"), node("c"), node("b"), node("a")];
    let r = topo_sort_nodes(&nodes, &vec![edge("d", "a")]);
    assert_eq!(ids(&r), vec!["b", "c", "d", "a"]);
}

#[test]
fn unknown_endpoints_are_ignored() {
    let nodes = vec![node("b"), node("a")];
    let r = topo_sort_nodes(&nodes, &vec![edge("x", "a"), edge("b", "y")]);
    assert_eq!(ids(&r), vec!["a", "b"]);
}

#[test]
fn cycle_falls_back_to_id_order() {
    let nodes = vec![node("c"), node("b"), node("a"), node("d")];
    let r = topo_sort_nodes(&nodes, &vec![edge("b", "c"), edge("c", "b"), edge("d", "a")]);
    assert_eq!(ids(&r), vec!["a", "b", "c", "d"]);
}

#[test]
fn self_loop_is_a_cycle() {
    let nodes = vec![node("b"), node("a")];
    let r = topo_sort_nodes(&nodes, &vec![edge("a", "a")]);
    assert_eq!(ids(&r), vec!["a", "b"]);
}

#[test]
fn duplicate_ids_fall_back_to_stable_id_order() {
    let mut first = node("b");
    first.label = "first".to_string();
    let mut second = node("b");
    second.label = "second".to_string();
    let nodes = vec![first, node("a"), second];
    let r = topo_sort_nodes(&nodes, &vec![edge("a", "b")]);
    assert_eq!(ids(&r), vec!["a", "b", "b"]);
    assert_eq!(r[1].label, "first");
    assert_eq!(r[2].label, "second");
}

#[test]
fn sort_by_id_is_stable() {
    let mut x = node("m");
    x.label = "x".to_string();
    let mut y = node("m");
    y.label = "y".to_string();
    let r = sort_nodes_by_id(&vec![x, node("z"), y, node("a")]);
    assert_eq!(ids(&r), vec!["a", "m", "m", "z"]);
    assert_eq!(r[1].label, "x");
    assert_eq!(r[2].label, "y");
}
