use neo4j_graph_viz::graph::fixture::{fixture, XorShift};
use neo4j_graph_viz::graph::model::GraphData;
use neo4j_graph_viz::graph::options::FetchOptions;

fn targets(g: &GraphData) -> Vec<String> {
    g.links().iter().map(|l| l.target.clone()).collect()
}

#[test]
fn fixture_is_deterministic_and_hub_heavy() {
    let opts = FetchOptions::default();
    let a = fixture(500, 3, 42, &opts);
    let b = fixture(500, 3, 42, &opts);
    assert_eq!(a.nodes().len(), 500);
    assert_eq!(targets(&a), targets(&b), "same seed must produce the same graph");
    let c = fixture(500, 3, 99, &opts);
    assert_ne!(targets(&a), targets(&c));

    let max_deg = a.nodes().iter().map(|n| n.deg).max().unwrap_or(0);
    let mean_deg = a.nodes().iter().map(|n| n.deg as f64).sum::<f64>() / a.nodes().len() as f64;
    assert!(
        f64::from(max_deg) > mean_deg * 5.0,
        "expected hubs: max degree {max_deg} vs mean {mean_deg:.1}"
    );

    let total_deg: u32 = a.nodes().iter().map(|n| n.deg).sum();
    assert_eq!(total_deg as usize, a.links().len() * 2);
}

#[test]
fn fixture_tolerates_degenerate_sizes() {
    let opts = FetchOptions::default();
    let z = fixture(50, 2, 0, &opts);
    assert!(z.links().iter().any(|l| l.source != z.links()[0].source));
    assert_eq!(fixture(1, 5, 1, &opts).nodes().len(), 1);
    assert!(fixture(1, 5, 1, &opts).links().is_empty());
    assert_eq!(fixture(0, 3, 1, &opts).nodes().len(), 1);
}

#[test]
fn fixture_nodes_carry_their_names_labels_and_props() {
    let opts = FetchOptions::default();
    let g = fixture(10, 2, 7, &opts);
    let n9 = &g.nodes()[9];
    assert_eq!(n9.id, "fixture:9");
    assert_eq!(n9.name, "Container-9");
    assert_eq!(n9.label, "Container");
    assert_eq!(n9.group, "");
    let keys: Vec<&str> = n9.props.as_slice().iter().map(|(k, _)| k.as_str()).collect();
    assert_eq!(keys, vec!["description", "index", "name"]);
    assert_eq!(n9.props.get("index").map(String::as_str), Some("9"));
    assert_eq!(n9.props.get("name").map(String::as_str), Some("Container-9"));
    assert_eq!(
        n9.props.get("description").map(String::as_str),
        Some(
            "Synthetic Container #9 generated for benchmarking. \
             This padding approximates a realistic property payload."
        )
    );
    assert_eq!(g.nodes()[0].label, "Service");
    assert_eq!(g.nodes()[7].label, "DomainName");
    assert_eq!(g.nodes()[8].label, "Service");
}

#[test]
fn fixture_links_point_backwards_without_repeats() {
    let opts = FetchOptions::default();
    let g = fixture(300, 4, 5, &opts);
    assert!(g.links().len() <= 299 * 4);
    let mut last_source = 0usize;
    let mut seen: Vec<(usize, usize)> = Vec::new();
    for l in g.links() {
        let s = g.index_of(&l.source).unwrap();
        let t = g.index_of(&l.target).unwrap();
        assert!(t < s, "a link must run from a node to an earlier one");
        assert!(s >= last_source, "links are grouped by ascending source");
        assert!(!seen.contains(&(s, t)), "a node links the same target twice");
        assert_eq!(l.rel, "LINKS_TO");
        seen.push((s, t));
        last_source = s;
    }
    for (i, n) in g.nodes().iter().enumerate() {
        assert_eq!(n.deg as usize, g.neighbours(i).len());
    }
}

#[test]
fn fixture_cuts_long_descriptions() {
    let mut opts = FetchOptions::default();
    opts.max_prop_chars = 10;
    let g = fixture(3, 1, 1, &opts);
    assert_eq!(
        g.nodes()[2].props.get("description").map(String::as_str),
        Some("Synthetic \u{2026}")
    );
}

#[test]
fn fixture_determinism_holds_for_other_seeds_and_sizes() {
    let opts = FetchOptions::default();
    for (n, m, seed) in [(1usize, 1usize, 0u64), (2, 9, 3), (64, 1, 11), (120, 5, u64::MAX)] {
        let a = fixture(n, m, seed, &opts);
        let b = fixture(n, m, seed, &opts);
        assert_eq!(targets(&a), targets(&b));
        let degs_a: Vec<u32> = a.nodes().iter().map(|x| x.deg).collect();
        let degs_b: Vec<u32> = b.nodes().iter().map(|x| x.deg).collect();
        assert_eq!(degs_a, degs_b);
    }
}

#[test]
fn xorshift_matches_the_xorshift64_star_sequence() {
    let mut r = XorShift::from_seed(1);
    assert_eq!(r.next(), 5180492295206395165);
    assert_eq!(r.next(), 12380297144915551517);
    assert_eq!(r.next(), 13389498078930870103);
    // A zero seed starts from a fixed non-zero state rather than locking at zero.
    let mut z = XorShift::from_seed(0);
    assert_eq!(z.next(), 973819730272012410);
    // Every bit of the seed counts: 42 and 43 start apart.
    let mut s = XorShift::from_seed(42);
    assert_eq!(s.below(10), 0);
    let mut t = XorShift::from_seed(43);
    assert_eq!(t.below(10), 5);
}

#[test]
fn seeds_differing_in_the_low_bit_give_different_graphs() {
    let opts = FetchOptions::default();
    let a = fixture(500, 3, 42, &opts);
    let b = fixture(500, 3, 43, &opts);
    assert_ne!(targets(&a), targets(&b), "a different seed must actually diverge");
}

#[test]
fn fixture_links_stay_within_the_documented_budget() {
    let opts = FetchOptions::default();
    for (n, m) in [(1usize, 5usize), (2, 1), (10, 3), (200, 4)] {
        let g = fixture(n, m, 3, &opts);
        assert!(g.links().len() <= n * m);
        assert!(g.links().len() <= (n.max(1) - 1) * m.min(n.max(1)));
    }
    // Node i links to min(m, i) earlier nodes at most: two nodes with one edge each give one link.
    assert_eq!(fixture(2, 1, 3, &opts).links().len(), 1);
}

#[test]
fn fixture_ignores_the_fetch_caps() {
    let mut capped = FetchOptions::default();
    capped.max_nodes = 10;
    capped.max_rels = 10;
    let a = fixture(300, 3, 8, &capped);
    let b = fixture(300, 3, 8, &FetchOptions::default());
    assert_eq!(a.nodes().len(), 300);
    assert_eq!(targets(&a), targets(&b));
}
