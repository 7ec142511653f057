use neo4j_graph_viz::graph::options::{csv, FetchOptions};
use neo4j_graph_viz::graph::shape::{clean_props, pick_label, pick_name};
use neo4j_graph_viz::graph::shape::{PropValue, RawProps};
use neo4j_graph_viz::graph::shape::stringify_value;
use neo4j_graph_viz::sorted_map::SortedMap;

fn labels(v: &[&str]) -> Vec<String> {
    v.iter().map(|s| s.to_string()).collect()
}

/// A property bag holding text values, as a JSON object of strings reads.
fn obj(pairs: &[(&str, &str)]) -> RawProps {
    let mut m = SortedMap::new();
    for (k, v) in pairs {
        m.insert(k.to_string(), PropValue::Text(v.to_string()));
    }
    Some(m)
}

/// A JSON value as the property bag holds it.
fn json(v: &serde_json::Value) -> PropValue {
    match v {
        serde_json::Value::String(s) => PropValue::Text(s.clone()),
        serde_json::Value::Null => PropValue::Null,
        other => PropValue::Json(other.to_string()),
    }
}

fn check_pick_label() {
    let wrappers = labels(&["Base", "Legacy"]);
    assert_eq!(
        pick_label(&labels(&["Base", "Service"]), &wrappers),
        ("Service".to_string(), "Base".to_string())
    );
    assert_eq!(
        pick_label(&labels(&["Host", "Legacy"]), &wrappers),
        ("Host".to_string(), "Legacy".to_string())
    );
    assert_eq!(
        pick_label(&labels(&["Host"]), &wrappers),
        ("Host".to_string(), String::new())
    );
    assert_eq!(
        pick_label(&labels(&["Host"]), &[]),
        ("Host".to_string(), String::new())
    );
    assert_eq!(
        pick_label(&labels(&["Base"]), &wrappers),
        ("Base".to_string(), "Base".to_string())
    );
    assert_eq!(
        pick_label(&[], &wrappers),
        ("Node".to_string(), String::new())
    );
}

#[test]
fn graph_pick_label_drops_configured_wrappers_and_groups() {
    check_pick_label();
}

#[test]
fn shape_pick_label_drops_configured_wrappers_and_groups() {
    check_pick_label();
}

#[test]
fn graph_csv_parses_and_tolerates_whitespace_and_blanks() {
    assert_eq!(csv(""), Vec::<String>::new());
    assert_eq!(csv(" a , b ,, c "), vec!["a", "b", "c"]);
}

#[test]
fn options_csv_parses_and_tolerates_whitespace_and_blanks() {
    assert_eq!(csv(""), Vec::<String>::new());
    assert_eq!(csv(" a , b ,, c "), vec!["a", "b", "c"]);
}

#[test]
fn csv_keeps_inner_spaces_and_a_trailing_item() {
    assert_eq!(csv("one item,two words ,"), vec!["one item", "two words"]);
    assert_eq!(csv(",,,"), Vec::<String>::new());
    assert_eq!(csv("solo"), vec!["solo"]);
}

#[test]
fn graph_pick_name_prefers_priority_keys_then_falls_back() {
    // The fixed priority list of the older fetch.
    let keys = csv("name,title,id,hostname,canonical");
    assert_eq!(pick_name(&obj(&[("hostname", "nas"), ("name", "NAS")]), &keys), "NAS");
    assert_eq!(pick_name(&obj(&[("hostname", "nas")]), &keys), "nas");
    assert_eq!(pick_name(&obj(&[("foo", "bar")]), &keys), "bar");
    assert_eq!(pick_name(&obj(&[("zeta", "z"), ("alpha", "a")]), &keys), "a");
    assert_eq!(pick_name(&obj(&[("name", "  "), ("title", "Real")]), &keys), "Real");
    assert_eq!(pick_name(&obj(&[]), &keys), "?");
}

#[test]
fn shape_pick_name_prefers_priority_keys_then_falls_back() {
    let keys = FetchOptions::default().name_keys;
    assert_eq!(pick_name(&obj(&[("hostname", "n"), ("name", "N")]), &keys), "N");
    assert_eq!(pick_name(&obj(&[("hostname", "n")]), &keys), "n");
    assert_eq!(pick_name(&obj(&[("foo", "bar")]), &keys), "bar");
    assert_eq!(pick_name(&obj(&[("zeta", "z"), ("alpha", "a")]), &keys), "a");
    assert_eq!(pick_name(&obj(&[("name", "  "), ("title", "R")]), &keys), "R");
    assert_eq!(pick_name(&obj(&[]), &keys), "?");
    let custom = csv("email,name");
    assert_eq!(pick_name(&obj(&[("name", "N"), ("email", "e@x")]), &custom), "e@x");
}

#[test]
fn pick_name_of_a_non_object_is_unknown_and_skips_non_text() {
    let keys = FetchOptions::default().name_keys;
    assert_eq!(pick_name(&None, &keys), "?");
    let mut m = SortedMap::new();
    m.insert("name".to_string(), PropValue::Json("42".to_string()));
    m.insert("zz".to_string(), PropValue::Text("fallback".to_string()));
    assert_eq!(pick_name(&Some(m), &keys), "fallback");
}

fn check_clean_props() {
    let opts = FetchOptions {
        skip_props: vec!["embedding".into(), "secret".into()],
        ..FetchOptions::default()
    };
    let mut m = SortedMap::new();
    m.insert("name".to_string(), json(&serde_json::Value::String("x".into())));
    m.insert(
        "embedding".to_string(),
        json(&serde_json::Value::Array(vec![
            serde_json::Value::from(0.1),
            serde_json::Value::from(0.2),
        ])),
    );
    m.insert("secret".to_string(), json(&serde_json::Value::String("hunter2".into())));
    m.insert("count".to_string(), json(&serde_json::Value::from(3)));
    m.insert(
        "tags".to_string(),
        json(&serde_json::Value::Array(vec![
            serde_json::Value::String("a".into()),
            serde_json::Value::String("b".into()),
        ])),
    );
    let out = clean_props(&Some(m), &opts);
    assert!(out.get("embedding").is_none());
    assert!(out.get("secret").is_none());
    assert_eq!(out.get("count").map(String::as_str), Some("3"));
    assert_eq!(out.get("tags").map(String::as_str), Some("[\"a\",\"b\"]"));
}

#[test]
fn graph_clean_props_skips_configured_keys_and_stringifies() {
    check_clean_props();
}

#[test]
fn shape_clean_props_skips_configured_keys_and_stringifies() {
    check_clean_props();
}

#[test]
fn clean_props_keeps_key_order_and_truncates() {
    let opts = FetchOptions { max_prop_chars: 3, ..FetchOptions::default() };
    let mut m = SortedMap::new();
    m.insert("b".to_string(), PropValue::Text("abcdef".to_string()));
    m.insert("a".to_string(), PropValue::Null);
    let out = clean_props(&Some(m), &opts);
    let entries: Vec<(&str, &str)> =
        out.as_slice().iter().map(|(k, v)| (k.as_str(), v.as_str())).collect();
    assert_eq!(entries, vec![("a", ""), ("b", "abc\u{2026}")]);
    assert_eq!(clean_props(&None, &opts).len(), 0);
}

fn check_stringify() {
    let max = 600;
    let long = "é".repeat(max + 50);
    let out = stringify_value(&PropValue::Text(long), max);
    assert_eq!(out.chars().count(), max + 1);
    assert!(out.ends_with('…'));
}

#[test]
fn graph_stringify_truncates_on_char_boundary() {
    check_stringify();
}

#[test]
fn shape_stringify_truncates_on_char_boundary() {
    check_stringify();
}

#[test]
fn stringify_leaves_short_values_alone() {
    assert_eq!(stringify_value(&PropValue::Text("hello".into()), 5), "hello");
    assert_eq!(stringify_value(&PropValue::Null, 5), "");
    assert_eq!(stringify_value(&PropValue::Json("true".into()), 5), "true");
    assert_eq!(stringify_value(&PropValue::Text("hello!".into()), 5), "hello\u{2026}");
}
