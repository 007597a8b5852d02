//! A scalar reverse-mode automatic-differentiation engine.
//!
//! Operators build a directed acyclic graph of scalar operations as they
//! run; a backward pass from any node then computes the gradient of that
//! node with respect to every node it depends on, by the chain rule, in one
//! sweep over the graph in reverse topological order. Neurons, layers and
//! multi-layer perceptrons are built on top, with their parameters in the
//! same graph.
//!
//! The graph is an arena: a node is named by its index, a [`Value`] is a
//! handle that holds the index, and every operation takes the [`Graph`] it
//! works on. A node's operands are always older than the node, which is
//! what keeps the graph acyclic.
//!
//! Every scalar is held as the bit pattern of an IEEE-754 binary64 number.
//! The engine decides which arithmetic is done, on what and in which order;
//! the rounding arithmetic itself it asks of an arithmetic unit, a function
//! from a [`Prim`] and two bit patterns to a bit pattern that the caller
//! supplies when the graph is made. What the engine promises of a computed
//! value or gradient is therefore stated in terms of what the unit gives.

pub mod scalar;
pub mod graph;
pub mod label;
pub mod engine;
pub mod topo;
pub mod backward;
pub mod nn;

pub use crate::engine::Value;
pub use crate::graph::{Graph, Op};
pub use crate::nn::{Layer, Module, Neuron, MLP};
pub use crate::scalar::Prim;
