//! A scalar automatic-differentiation engine over an arena-indexed
//! computation graph.
//!
//! Scalars are fixed-point numbers with four decimal digits of fraction,
//! held in [`fixed::MyF64`]. A [`graph::ValueGraph`] owns every node of the
//! graph; nodes refer to their operands only by arena index, so the graph
//! is acyclic by construction. The backward pass computes the gradient of
//! a chosen root with respect to every reachable node, [`graph::trace`]
//! and [`graph::draw_dot`] project the graph for rendering with the node
//! annotations of [`render`], and [`laws`] states and proves the
//! engine's guarantees.

pub mod dot;
pub mod fixed;
pub mod graph;
pub mod laws;
pub mod render;
