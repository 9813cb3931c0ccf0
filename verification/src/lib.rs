//! Core of a hashgraph consensus engine: a store of signed events forming a
//! directed acyclic graph, the round / witness / fame computations over it,
//! and the generator of sync jobs for a lagging peer.

pub mod ancestry;
pub mod codec;
pub mod digest;
pub mod event;
pub mod fame;
pub mod graph;
pub mod hash;
pub mod ingest;
pub mod laws;
pub mod query;
pub mod rounds;
pub mod simple;
pub mod sync;
