//! Choosing where the graph comes from, from its settings.

use vstd::prelude::*;

use crate::number::{parse_u64, parse_u64_spec};

verus! {

/// The synthetic benchmark graph, and its size and seed.
pub struct FixtureSource {
    pub nodes: usize,
    pub edges_per_node: usize,
    pub seed: u64,
}

/// Which source setting was not a non-negative integer, and its text.
pub enum SourceSettingError {
    FixtureNodes(String),
    FixtureEdges(String),
    FixtureSeed(String),
}

/// Choose the graph source. A positive node count selects the synthetic graph, whose other
/// settings are then read; zero selects the database (`Ok(None)`), and the synthetic graph's
/// other settings are not read at all.
pub fn choose_source(nodes: &str, edges_per_node: &str, seed: &str) -> (r: Result<
    Option<FixtureSource>,
    SourceSettingError,
>)
    ensures
        match r {
            Ok(None) => parse_u64_spec(nodes@) matches Some(n) && n as usize == 0,
            Ok(Some(f)) => {
                &&& parse_u64_spec(nodes@) matches Some(n) && f.nodes == n as usize && f.nodes > 0
                &&& parse_u64_spec(edges_per_node@) matches Some(e) && f.edges_per_node == e as usize
                &&& parse_u64_spec(seed@) == Some(f.seed)
            },
            Err(SourceSettingError::FixtureNodes(raw)) => raw@ == nodes@ && parse_u64_spec(nodes@) is None,
            Err(SourceSettingError::FixtureEdges(raw)) => {
                &&& raw@ == edges_per_node@
                &&& parse_u64_spec(nodes@) matches Some(n) && n as usize > 0
                &&& parse_u64_spec(edges_per_node@) is None
            },
            Err(SourceSettingError::FixtureSeed(raw)) => {
                &&& raw@ == seed@
                &&& parse_u64_spec(nodes@) matches Some(n) && n as usize > 0
                &&& parse_u64_spec(edges_per_node@) is Some
                &&& parse_u64_spec(seed@) is None
            },
        },
{
    let n = match parse_u64(nodes) {
        Some(v) => v as usize,
        None => {
            return Err(SourceSettingError::FixtureNodes(nodes.to_owned()));
        },
    };
    if n == 0 {
        return Ok(None);
    }
    let e = match parse_u64(edges_per_node) {
        Some(v) => v as usize,
        None => {
            return Err(SourceSettingError::FixtureEdges(edges_per_node.to_owned()));
        },
    };
    let s = match parse_u64(seed) {
        Some(v) => v,
        None => {
            return Err(SourceSettingError::FixtureSeed(seed.to_owned()));
        },
    };
    Ok(Some(FixtureSource { nodes: n, edges_per_node: e, seed: s }))
}

} // verus!
