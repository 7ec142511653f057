//! The graph payload: configuration, shaping raw rows into display values, the payload types
//! and their indices, the synthetic benchmark graph, and assembling a fetched graph.

pub mod assemble;
pub mod csr;
pub mod fixture;
pub mod model;
pub mod options;
pub mod query;
pub mod shape;
