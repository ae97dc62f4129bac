//! A dependency-aware parallel transaction scheduler for a decentralized
//! security-network node.
//!
//! The crate maintains a live graph of transactions and their dependency
//! edges, computes which transactions are safe to run concurrently,
//! dispatches bounded batches, and propagates completion to unlock
//! dependents.  The scheduling core is verified: every public operation
//! carries a contract over a mathematical view of the graph and the ready
//! queue, and the liveness and safety laws of the scheduler are proved in
//! [`laws`].

pub mod config;
pub mod dag;
pub mod decimal;
pub mod graph;
pub mod laws;
pub mod model;
pub mod node;
pub mod trusted;
