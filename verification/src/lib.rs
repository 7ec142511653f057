//! Verified core of a Neo4j graph viewer: shaping raw rows into a `{nodes, links}` payload,
//! the payload's indices, the synthetic benchmark graph, the non-numeric half of search, and
//! the decisions the HTTP service makes about configuration and caching.

pub mod api;
pub mod config;
pub mod embed;
pub mod graph;
pub mod number;
pub mod search;
pub mod sorted_map;
pub mod state;
pub mod text;
pub mod util;
