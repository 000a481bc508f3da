//! Local complementation search on graph states.
//!
//! The library keeps an undirected graph as adjacency sets, converts it to and from the
//! bit-packed adjacency matrix used by Cabaliser, and provides the steps of a
//! Metropolis-Hastings walk over the local complementations of the graph.

pub mod graph;
pub mod cabaliser;
pub mod search;
