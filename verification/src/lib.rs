//! A road-network graph engine: stable entity identifiers, a spatial chunk
//! index over a bounded world, a mergeable priority queue with decrease-key
//! (a Fibonacci heap), and an A*-based shortest-path search built on them.
//!
//! The world is modelled over integer coordinates: a position is a pair of
//! `i64` components, bounded by the world configuration, and all distances
//! and traversal costs are integers (squared distances where exactness
//! matters, floor square roots where a length is needed).

pub mod a_star;
pub mod chunk;
pub mod fibonacci_heap;
pub mod graph;
pub mod ids;
pub mod input;
pub mod math;
pub mod traffic;
