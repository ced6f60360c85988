//! Structure of a scalar reverse-mode differentiation engine.
//!
//! Nodes live in an arena ([`graph::Graph`]) and refer to their operands by
//! index; an operand always has a smaller index than the node that consumes
//! it, so the operand relation is acyclic by construction. The numeric side
//! (node values, gradients, the local derivative rules) is kept by the caller
//! in arrays indexed the same way; this crate decides which nodes exist, in
//! which order they are visited, and which gradient contributions flow where.

pub mod graph;
pub mod order;
pub mod network;
