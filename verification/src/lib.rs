//! Analysis of Boolean regulatory networks: structural algorithms on the
//! signed directed graph of regulations (reachability, strongly connected
//! components, shortest cycles, greedy feedback vertex and independent
//! cycle sets) and a symbolic
//! compiler that turns the declared monotonicity and observability
//! constraints of every regulation into a single BDD predicate over the
//! network's parameter space.

pub mod async_graph;
pub mod bdd;
pub mod constraints;
pub mod encoder;
pub mod fvs;
pub mod network;
pub mod cycles;
pub mod queries;
pub mod reach;
pub mod scc;
pub mod sd_graph;
pub mod vset;
