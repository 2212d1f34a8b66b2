//! Gossip-style block propagation simulator.
//!
//! A scenario is a named directed graph of nodes; the engine delivers a
//! block from an entry node to every node reachable along edges whose
//! sources have not yet recorded the block, in breadth-first order.

pub mod block;
pub mod engine;
pub mod errors;
pub mod laws;
pub mod node;
pub mod runner;
pub mod scenario;
pub mod topology;
