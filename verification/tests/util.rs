use neo4j_graph_viz::util::truthy;

#[test]
fn truthy_accepts_the_spellings_an_operator_would_actually_type() {
    for on in ["1", "true", "TRUE", "yes", "on", "anything-else"] {
        assert!(truthy(on), "{on:?} should be truthy");
    }
    for off in ["0", "false", "FALSE", "off", "no", "", "  "] {
        assert!(!truthy(off), "{off:?} should be falsey");
    }
}

#[test]
fn truthy_ignores_surrounding_white_space_and_case() {
    assert!(!truthy("  Off\t"));
    assert!(!truthy("\u{3000}NO\n"));
    assert!(truthy(" yes "));
    assert!(truthy("nope"));
}
