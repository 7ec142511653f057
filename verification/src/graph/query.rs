//! The Cypher text of the two fetch queries. Label and type allow-lists are passed as query
//! parameters rather than spliced into the text, so the text is one of two fixed strings per
//! query and stays plan-cacheable.

use vstd::prelude::*;

use crate::graph::options::FetchOptions;

verus! {

/// The node query: every node, or only those carrying one of the `$labels`, up to `$limit`.
pub open spec fn node_query_text(every_label: bool) -> Seq<char> {
    if every_label {
        "MATCH (n) RETURN elementId(n) AS id, labels(n) AS labels, properties(n) AS props LIMIT $limit"@
    } else {
        "MATCH (n) WHERE any(l IN labels(n) WHERE l IN $labels) RETURN elementId(n) AS id, labels(n) AS labels, properties(n) AS props LIMIT $limit"@
    }
}

/// The relationship query: every relationship, or only those of one of the `$types`, up to
/// `$limit`.
pub open spec fn rel_query_text(every_type: bool) -> Seq<char> {
    if every_type {
        "MATCH (a)-[r]->(b) RETURN elementId(a) AS s, elementId(b) AS t, type(r) AS rel LIMIT $limit"@
    } else {
        "MATCH (a)-[r]->(b) WHERE type(r) IN $types RETURN elementId(a) AS s, elementId(b) AS t, type(r) AS rel LIMIT $limit"@
    }
}

/// The node query for `opts`: filtered by label only when a label allow-list is configured.
pub fn node_query(opts: &FetchOptions) -> (q: String)
    ensures
        q@ == node_query_text(opts.node_labels@.len() == 0),
{
    if opts.node_labels.len() == 0 {
        "MATCH (n) RETURN elementId(n) AS id, labels(n) AS labels, properties(n) AS props LIMIT $limit".to_owned()
    } else {
        "MATCH (n) WHERE any(l IN labels(n) WHERE l IN $labels) RETURN elementId(n) AS id, labels(n) AS labels, properties(n) AS props LIMIT $limit".to_owned()
    }
}

/// The relationship query for `opts`: filtered by type only when a type allow-list is
/// configured.
pub fn rel_query(opts: &FetchOptions) -> (q: String)
    ensures
        q@ == rel_query_text(opts.rel_types@.len() == 0),
{
    if opts.rel_types.len() == 0 {
        "MATCH (a)-[r]->(b) RETURN elementId(a) AS s, elementId(b) AS t, type(r) AS rel LIMIT $limit".to_owned()
    } else {
        "MATCH (a)-[r]->(b) WHERE type(r) IN $types RETURN elementId(a) AS s, elementId(b) AS t, type(r) AS rel LIMIT $limit".to_owned()
    }
}

/// The relationship query matches each relationship `r` from its start node `a` to its end
/// node `b` and returns `a` as `s` and `b` as `t`, filtered or not: the type allow-list only
/// inserts its `WHERE` clause between that pattern and the `RETURN`.
pub proof fn rel_query_reads_start_to_end()
    ensures
        rel_query_text(true) == "MATCH (a)-[r]->(b) "@
            + "RETURN elementId(a) AS s, elementId(b) AS t, type(r) AS rel LIMIT $limit"@,
        rel_query_text(false) == "MATCH (a)-[r]->(b) "@ + "WHERE type(r) IN $types "@
            + "RETURN elementId(a) AS s, elementId(b) AS t, type(r) AS rel LIMIT $limit"@,
{
    reveal_strlit("MATCH (a)-[r]->(b) ");
    reveal_strlit("WHERE type(r) IN $types ");
    reveal_strlit("RETURN elementId(a) AS s, elementId(b) AS t, type(r) AS rel LIMIT $limit");
    reveal_strlit(
        "MATCH (a)-[r]->(b) RETURN elementId(a) AS s, elementId(b) AS t, type(r) AS rel LIMIT $limit",
    );
    reveal_strlit(
        "MATCH (a)-[r]->(b) WHERE type(r) IN $types RETURN elementId(a) AS s, elementId(b) AS t, type(r) AS rel LIMIT $limit",
    );
    assert(rel_query_text(true) =~= "MATCH (a)-[r]->(b) "@
        + "RETURN elementId(a) AS s, elementId(b) AS t, type(r) AS rel LIMIT $limit"@);
    assert(rel_query_text(false) =~= "MATCH (a)-[r]->(b) "@ + "WHERE type(r) IN $types "@
        + "RETURN elementId(a) AS s, elementId(b) AS t, type(r) AS rel LIMIT $limit"@);
}

/// The node query returns each node's id, labels and properties, filtered or not: the label
/// allow-list only inserts its `WHERE` clause between the pattern and the `RETURN`.
pub proof fn node_query_filters_only_by_label()
    ensures
        node_query_text(true) == "MATCH (n) "@
            + "RETURN elementId(n) AS id, labels(n) AS labels, properties(n) AS props LIMIT $limit"@,
        node_query_text(false) == "MATCH (n) "@ + "WHERE any(l IN labels(n) WHERE l IN $labels) "@
            + "RETURN elementId(n) AS id, labels(n) AS labels, properties(n) AS props LIMIT $limit"@,
{
    reveal_strlit("MATCH (n) ");
    reveal_strlit("WHERE any(l IN labels(n) WHERE l IN $labels) ");
    reveal_strlit("RETURN elementId(n) AS id, labels(n) AS labels, properties(n) AS props LIMIT $limit");
    reveal_strlit(
        "MATCH (n) RETURN elementId(n) AS id, labels(n) AS labels, properties(n) AS props LIMIT $limit",
    );
    reveal_strlit(
        "MATCH (n) WHERE any(l IN labels(n) WHERE l IN $labels) RETURN elementId(n) AS id, labels(n) AS labels, properties(n) AS props LIMIT $limit",
    );
    assert(node_query_text(true) =~= "MATCH (n) "@
        + "RETURN elementId(n) AS id, labels(n) AS labels, properties(n) AS props LIMIT $limit"@);
    assert(node_query_text(false) =~= "MATCH (n) "@ + "WHERE any(l IN labels(n) WHERE l IN $labels) "@
        + "RETURN elementId(n) AS id, labels(n) AS labels, properties(n) AS props LIMIT $limit"@);
}

} // verus!
