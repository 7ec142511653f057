use neo4j_graph_viz::api::{dimensions_param, refresh_param, StringHashMap};
use neo4j_graph_viz::config::{choose_source, SourceSettingError};
use neo4j_graph_viz::embed::{EmbedOptions, EmbedSettingError};
use neo4j_graph_viz::graph::options::{csv, FetchOptions, FetchSettingError};
use neo4j_graph_viz::graph::query::{node_query, rel_query};
use neo4j_graph_viz::number::{decimal_string, parse_i64, parse_u64, parse_usize};
use neo4j_graph_viz::sorted_map::SortedMap;
use neo4j_graph_viz::state::{plan_lookup, CacheAction, RefreshSlots};

fn params(pairs: &[(&str, &str)]) -> StringHashMap<String> {
    let mut m = StringHashMap::new();
    for (k, v) in pairs {
        m.insert(k.to_string(), v.to_string());
    }
    m
}

#[test]
fn numbers_parse_as_str_parse_does() {
    assert_eq!(parse_u64("0"), Some(0));
    assert_eq!(parse_u64("+17"), Some(17));
    assert_eq!(parse_u64("18446744073709551615"), Some(u64::MAX));
    assert_eq!(parse_u64("18446744073709551616"), None);
    assert_eq!(parse_u64(""), None);
    assert_eq!(parse_u64(" 1"), None);
    assert_eq!(parse_u64("-1"), None);
    assert_eq!(parse_u64("+"), None);
    assert_eq!(parse_u64("1_000"), None);
    assert_eq!(parse_usize("00042"), Some(42));
    assert_eq!(parse_i64("-9223372036854775808"), Some(i64::MIN));
    assert_eq!(parse_i64("9223372036854775807"), Some(i64::MAX));
    assert_eq!(parse_i64("9223372036854775808"), None);
    assert_eq!(parse_i64("-9223372036854775809"), None);
    assert_eq!(parse_i64("-"), None);
    assert_eq!(parse_i64("+-3"), None);
    assert_eq!(parse_i64("-0"), Some(0));
    for s in ["7", "+7", "x", "", "-", "99999999999999999999", "-12", "3 "] {
        assert_eq!(parse_u64(s), s.parse::<u64>().ok(), "{s:?}");
        assert_eq!(parse_i64(s), s.parse::<i64>().ok(), "{s:?}");
    }
}

#[test]
fn decimal_round_trips_through_parse() {
    for n in [0u64, 1, 9, 10, 42, 1000, 123456789, u64::MAX] {
        let s = decimal_string(n);
        assert_eq!(s, n.to_string());
        assert_eq!(parse_u64(&s), Some(n));
    }
}

#[test]
fn sorted_map_reads_back_what_was_inserted() {
    let mut m: SortedMap<u32> = SortedMap::new();
    m.insert("b".to_string(), 2);
    m.insert("a".to_string(), 1);
    m.insert("é".to_string(), 5);
    m.insert("b".to_string(), 20);
    assert_eq!(m.len(), 3);
    assert_eq!(m.get("b"), Some(&20));
    assert_eq!(m.get("a"), Some(&1));
    assert_eq!(m.get("c"), None);
    let keys: Vec<&str> = m.as_slice().iter().map(|(k, _)| k.as_str()).collect();
    assert_eq!(keys, vec!["a", "b", "é"]);
    let mut n: SortedMap<u32> = SortedMap::new();
    n.push_last("a".to_string(), 1);
    n.push_last("z".to_string(), 26);
    assert_eq!(n.get("z"), Some(&26));
}

#[test]
fn fetch_options_default_and_from_settings() {
    let d = FetchOptions::default();
    assert_eq!(d.skip_props, vec!["embedding", "vector"]);
    assert_eq!(
        d.name_keys,
        vec!["name", "title", "displayName", "id", "hostname", "canonical"]
    );
    assert!(d.wrapper_labels.is_empty());
    assert_eq!((d.max_nodes, d.max_rels, d.max_prop_chars), (10000, 20000, 600));

    let o = FetchOptions::from_settings(" Base ,Legacy", "secret", "email, name", "", "A,B", "10", "+3", "42")
        .ok()
        .unwrap();
    assert_eq!(o.wrapper_labels, vec!["Base", "Legacy"]);
    assert_eq!(o.skip_props, vec!["secret"]);
    assert_eq!(o.name_keys, vec!["email", "name"]);
    assert!(o.node_labels.is_empty());
    assert_eq!(o.rel_types, vec!["A", "B"]);
    assert_eq!((o.max_nodes, o.max_rels, o.max_prop_chars), (10, 3, 42));

    match FetchOptions::from_settings("", "", "", "", "", "ten", "x", "y") {
        Err(FetchSettingError::MaxNodes(raw)) => assert_eq!(raw, "ten"),
        _ => panic!("expected a max-nodes error"),
    }
    match FetchOptions::from_settings("", "", "", "", "", "1", "x", "y") {
        Err(FetchSettingError::MaxRels(raw)) => assert_eq!(raw, "x"),
        _ => panic!("expected a max-rels error"),
    }
    match FetchOptions::from_settings("", "", "", "", "", "1", "2", "y") {
        Err(FetchSettingError::MaxPropChars(raw)) => assert_eq!(raw, "y"),
        _ => panic!("expected a max-prop-chars error"),
    }
    // Limits must be positive: zero and negative values are refused like non-numbers.
    match FetchOptions::from_settings("", "", "", "", "", "0", "2", "3") {
        Err(FetchSettingError::MaxNodes(raw)) => assert_eq!(raw, "0"),
        _ => panic!("expected a max-nodes error for zero"),
    }
    match FetchOptions::from_settings("", "", "", "", "", "1", "-5", "3") {
        Err(FetchSettingError::MaxRels(raw)) => assert_eq!(raw, "-5"),
        _ => panic!("expected a max-rels error for a negative value"),
    }
    match FetchOptions::from_settings("", "", "", "", "", "1", "2", "-1") {
        Err(FetchSettingError::MaxPropChars(raw)) => assert_eq!(raw, "-1"),
        _ => panic!("expected a max-prop-chars error for a negative value"),
    }
}

#[test]
fn embed_options_from_settings() {
    let o = EmbedOptions::from_settings("  http://host:11434// ", "m", "0", "5000", "120").ok().unwrap();
    assert_eq!(o.url.as_deref(), Some("http://host:11434"));
    assert!(o.enabled());
    assert_eq!(o.model, "m");
    assert_eq!(o.batch, 1);
    assert_eq!(o.max_nodes, 5000);
    assert_eq!(o.timeout_secs, 120);
    let off = EmbedOptions::from_settings("   ", "m", "64", "1", "1").ok().unwrap();
    assert!(off.url.is_none());
    assert!(!off.enabled());
    assert_eq!(off.batch, 64);
    match EmbedOptions::from_settings("", "m", "-1", "x", "y") {
        Err(EmbedSettingError::Batch(raw)) => assert_eq!(raw, "-1"),
        _ => panic!("expected a batch error"),
    }
    match EmbedOptions::from_settings("", "m", "1", "x", "y") {
        Err(EmbedSettingError::MaxNodes(raw)) => assert_eq!(raw, "x"),
        _ => panic!("expected a max-nodes error"),
    }
    match EmbedOptions::from_settings("", "m", "1", "2", "y") {
        Err(EmbedSettingError::TimeoutSecs(raw)) => assert_eq!(raw, "y"),
        _ => panic!("expected a timeout error"),
    }
}

#[test]
fn source_choice_follows_the_fixture_node_count() {
    assert!(matches!(choose_source("0", "junk", "junk"), Ok(None)));
    match choose_source("500", "3", "42") {
        Ok(Some(f)) => assert_eq!((f.nodes, f.edges_per_node, f.seed), (500, 3, 42)),
        _ => panic!("expected a fixture source"),
    }
    match choose_source("abc", "3", "42") {
        Err(SourceSettingError::FixtureNodes(raw)) => assert_eq!(raw, "abc"),
        _ => panic!("expected a node-count error"),
    }
    match choose_source("5", "three", "42") {
        Err(SourceSettingError::FixtureEdges(raw)) => assert_eq!(raw, "three"),
        _ => panic!("expected an edges error"),
    }
    match choose_source("5", "3", "-1") {
        Err(SourceSettingError::FixtureSeed(raw)) => assert_eq!(raw, "-1"),
        _ => panic!("expected a seed error"),
    }
}

#[test]
fn query_parameters_pick_dimensions_and_refresh() {
    assert_eq!(dimensions_param(&params(&[("dims", "3")])), 3);
    assert_eq!(dimensions_param(&params(&[("dims", "2")])), 2);
    assert_eq!(dimensions_param(&params(&[("dims", " 3")])), 2);
    assert_eq!(dimensions_param(&params(&[])), 2);
    assert!(refresh_param(&params(&[("refresh", "1")])));
    assert!(refresh_param(&params(&[("refresh", "true")])));
    // The same spellings as GRAPH_COMPRESSION.
    assert!(refresh_param(&params(&[("refresh", "TRUE")])));
    assert!(refresh_param(&params(&[("refresh", "yes")])));
    assert!(refresh_param(&params(&[("refresh", " on ")])));
    assert!(!refresh_param(&params(&[("refresh", "0")])));
    assert!(!refresh_param(&params(&[("refresh", "off")])));
    assert!(!refresh_param(&params(&[("refresh", "")])));
    assert!(!refresh_param(&params(&[("dims", "3")])));
}

#[test]
fn cache_lookup_plans() {
    assert!(matches!(plan_lookup(true, Some(0), 10), CacheAction::Build));
    assert!(matches!(plan_lookup(false, None, 10), CacheAction::Build));
    assert!(matches!(plan_lookup(false, Some(9), 10), CacheAction::Serve));
    assert!(matches!(plan_lookup(false, Some(10), 10), CacheAction::ServeAndRefresh));
    // A time-to-live of zero disables caching: every request builds.
    assert!(matches!(plan_lookup(false, Some(0), 0), CacheAction::Build));
}

#[test]
fn one_rebuild_per_dimensionality() {
    let mut slots = RefreshSlots::new();
    assert!(slots.try_claim(2));
    assert!(!slots.try_claim(2), "a second claim while in flight must fail");
    assert!(slots.try_claim(3), "2D and 3D rebuild independently");
    slots.release(2);
    assert!(slots.try_claim(2), "a released claim can be taken again");
    slots.release(7);
    assert!(!slots.try_claim(3));
}

#[test]
fn csv_round_trips_through_join() {
    for raw in [" a , b ,, c ", "", " , ,", "x", "one,two , three,,"] {
        let items = csv(raw);
        assert_eq!(csv(&items.join(",")), items, "{raw:?}");
        for item in &items {
            assert!(!item.is_empty() && !item.contains(',') && item.trim() == item);
        }
    }
}

#[test]
fn fetch_queries_filter_only_when_configured() {
    let mut o = FetchOptions::default();
    assert_eq!(
        node_query(&o),
        "MATCH (n) RETURN elementId(n) AS id, labels(n) AS labels, properties(n) AS props LIMIT $limit"
    );
    assert_eq!(
        rel_query(&o),
        "MATCH (a)-[r]->(b) RETURN elementId(a) AS s, elementId(b) AS t, type(r) AS rel LIMIT $limit"
    );
    o.node_labels = vec!["Host".to_string()];
    o.rel_types = vec!["USES".to_string()];
    assert!(node_query(&o).contains("WHERE any(l IN labels(n) WHERE l IN $labels) "));
    assert!(rel_query(&o).contains("WHERE type(r) IN $types "));
}
