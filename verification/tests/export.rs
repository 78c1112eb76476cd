//! Tests of the render projection: the reachable-set trace and the
//! deduplicated petgraph export.

use micrograd::fixed::MyF64;
use micrograd::graph::{GraphError, ValueGraph, draw_dot, trace};

fn leaf(g: &mut ValueGraph, label: &str, units: i64) -> usize {
    g.create_leaf(label.to_string(), MyF64(units))
}

#[test]
fn trace_collects_reachable_nodes_and_edges() {
    let mut g = ValueGraph::new();
    let a = leaf(&mut g, "a", 20_000);
    let b = leaf(&mut g, "b", 30_000);
    let unrelated = leaf(&mut g, "u", 1);
    let c = g.add(a, b).unwrap();
    let mut nodes: Vec<usize> = Vec::new();
    let mut edges: Vec<(usize, usize)> = Vec::new();
    assert!(trace(&g, c, &mut nodes, &mut edges).is_ok());
    assert_eq!(nodes.len(), 3);
    assert!(nodes.contains(&a) && nodes.contains(&b) && nodes.contains(&c));
    assert!(!nodes.contains(&unrelated));
    assert_eq!(edges.len(), 2);
    assert!(edges.contains(&(a, c)) && edges.contains(&(b, c)));
}

#[test]
fn trace_of_shared_operand_counts_each_edge_once() {
    let mut g = ValueGraph::new();
    let a = leaf(&mut g, "a", 20_000);
    let b = g.mul(a, a).unwrap();
    let c = g.add(b, a).unwrap();
    let mut nodes: Vec<usize> = Vec::new();
    let mut edges: Vec<(usize, usize)> = Vec::new();
    assert!(trace(&g, c, &mut nodes, &mut edges).is_ok());
    assert_eq!(nodes.len(), 3);
    assert_eq!(edges.len(), 3);
    assert!(edges.contains(&(a, b)) && edges.contains(&(b, c)) && edges.contains(&(a, c)));
}

#[test]
fn trace_rejects_unknown_root() {
    let g = ValueGraph::new();
    let mut nodes: Vec<usize> = Vec::new();
    let mut edges: Vec<(usize, usize)> = Vec::new();
    assert_eq!(trace(&g, 0, &mut nodes, &mut edges), Err(GraphError::UnknownNode(0)));
    assert!(nodes.is_empty() && edges.is_empty());
}

#[test]
fn export_has_one_node_per_label_and_one_edge_per_pair() {
    let mut g = ValueGraph::new();
    let a = leaf(&mut g, "a", 20_000);
    let b = g.mul(a, a).unwrap();
    let c = g.add(b, a).unwrap();
    let _ = leaf(&mut g, "unrelated", 1);
    let d = draw_dot(&g, c).unwrap();
    // Three distinct labels. The square receives the shared leaf twice
    // along one label pair, so three distinct pairs remain: leaf to
    // square, leaf to sum, square to sum.
    assert_eq!(d.node_count(), 3);
    assert_eq!(d.edge_count(), 3);
}

#[test]
fn export_annotations_carry_data_and_grad() {
    let mut g = ValueGraph::new();
    let a = leaf(&mut g, "a", 20_000);
    let b = leaf(&mut g, "b", 30_000);
    let c = g.add(a, b).unwrap();
    g.backward(c).unwrap();
    let d = draw_dot(&g, c).unwrap();
    let weights: Vec<&String> = d.node_weights().collect();
    assert_eq!(weights.len(), 3);
    assert_eq!(weights[0], "  + | (a + b) | data 5.0000 | grad 1.0000  ");
    assert_eq!(weights[1], "  b | data 3.0000 | grad 1.0000  ");
    assert_eq!(weights[2], "  a | data 2.0000 | grad 1.0000  ");
}

#[test]
fn export_annotates_tanh_with_its_symbol() {
    let mut g = ValueGraph::new();
    let a = leaf(&mut g, "a", 0);
    let t = g.tanh(a).unwrap();
    let d = draw_dot(&g, t).unwrap();
    let weights: Vec<&String> = d.node_weights().collect();
    assert_eq!(weights[0], "  tanh | tanh(a) | data 0.0000 | grad 0.0000  ");
}

#[test]
fn export_merges_nodes_sharing_a_label() {
    let mut g = ValueGraph::new();
    let a = leaf(&mut g, "x", 20_000);
    let b = leaf(&mut g, "x", 30_000);
    let c = g.add(a, b).unwrap();
    let d = draw_dot(&g, c).unwrap();
    // Both leaves carry the label "x": one node stands for it, and the
    // two parallel edges collapse into one.
    assert_eq!(d.node_count(), 2);
    assert_eq!(d.edge_count(), 1);
}

#[test]
fn export_rejects_unknown_root() {
    let g = ValueGraph::new();
    assert!(draw_dot(&g, 3).is_err());
}
