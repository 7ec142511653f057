use neo4j_graph_viz::embed::{embedding_batches, embedding_order, node_text};
use neo4j_graph_viz::graph::fixture::fixture;
use neo4j_graph_viz::graph::model::{GraphData, GraphLink, GraphNode};
use neo4j_graph_viz::graph::options::FetchOptions;
use neo4j_graph_viz::search::{lexical_evidence, local_edges, FuzzyMatcher};
use neo4j_graph_viz::sorted_map::SortedMap;

fn node(id: &str, name: &str, deg: u32) -> GraphNode {
    GraphNode {
        id: id.to_string(),
        name: name.to_string(),
        label: "Host".to_string(),
        group: String::new(),
        deg,
        props: SortedMap::new(),
    }
}

fn link(s: &str, t: &str) -> GraphLink {
    GraphLink { source: s.to_string(), target: t.to_string(), rel: "R".to_string() }
}

#[test]
fn exact_names_are_recognised_ignoring_case() {
    let g = fixture(200, 2, 7, &FetchOptions::default());
    let ev = lexical_evidence(&g, "Host-42");
    assert_eq!(ev.len(), 200);
    assert!(ev[42].exact_name);
    assert!(ev[42].name_score > 0);
    assert_eq!(ev[42].name_extra, 0);
    assert!(!ev[43].exact_name);
    assert!(ev.iter().filter(|e| e.exact_name).count() == 1);
    // The comparison lower-cases both sides, so a differently-cased query is still exact.
    let lower = lexical_evidence(&g, "host-42");
    assert!(lower[42].exact_name);
    let upper = lexical_evidence(&g, "HOST-42");
    assert!(upper[42].exact_name);
}

#[test]
fn shorter_names_report_less_extra_length() {
    let g = fixture(600, 2, 7, &FetchOptions::default());
    let ev = lexical_evidence(&g, "Host-4");
    assert_eq!(g.nodes()[42].name, "Host-42");
    assert_eq!(g.nodes()[426].name, "Host-426");
    assert_eq!(ev[42].name_extra, 1);
    assert_eq!(ev[426].name_extra, 2);
    assert!(ev[42].name_score > 0 && ev[426].name_score > 0);
}

#[test]
fn matcher_tolerates_a_typo_and_missing_separator() {
    let mut m = FuzzyMatcher::new();
    assert!(m.score("Certifcate-4", "Certificate-4") > 0);
    assert!(m.score("Certificate4", "Certificate-4") > 0);
    assert_eq!(m.score("zzzzzz-no-such-name", "Certificate-4"), 0);
}

#[test]
fn property_values_are_matched_too() {
    let g = fixture(20, 2, 7, &FetchOptions::default());
    let ev = lexical_evidence(&g, "Synthetic Volume");
    // Node 6 is a Volume; its description mentions "Synthetic Volume".
    assert!(ev[6].props_score > 0);
    let by_label = lexical_evidence(&g, "Volume");
    assert_eq!(g.nodes()[14].label, "Volume");
    assert!(by_label[14].label_score > 0);
    assert_eq!(by_label[15].label_score, 0);
}

#[test]
fn local_edges_renumber_the_visible_subgraph() {
    let g = GraphData::new(
        vec![node("a", "A", 2), node("b", "B", 2), node("c", "C", 2)],
        vec![link("a", "b"), link("b", "c"), link("c", "a"), link("a", "nowhere")],
    );
    let visible = vec!["c".to_string(), "a".to_string(), "ghost".to_string()];
    assert_eq!(local_edges(&g, &visible), vec![(0, 1)]);
    let all = vec!["a".to_string(), "b".to_string(), "c".to_string()];
    assert_eq!(local_edges(&g, &all), vec![(0, 1), (1, 2), (2, 0)]);
    assert!(local_edges(&g, &[]).is_empty());
}

#[test]
fn node_text_names_the_node_then_its_properties() {
    let mut n = node("x", "Web", 0);
    n.props.insert("name".to_string(), "Web".to_string());
    n.props.insert("port".to_string(), "80".to_string());
    n.props.insert("env".to_string(), "prod".to_string());
    assert_eq!(node_text(&n), "Web (Host); env: prod; port: 80");
    let mut long = node("y", "Big", 0);
    long.props.insert("a".to_string(), "x".repeat(950));
    long.props.insert("b".to_string(), "never".to_string());
    let t = node_text(&long);
    assert!(t.starts_with("Big (Host); a: xxx"));
    assert!(!t.contains("never"), "text stops once it is over 900 bytes");
}

#[test]
fn embedding_order_puts_hubs_first() {
    let g = GraphData::new(
        vec![node("a", "A", 1), node("b", "B", 5), node("c", "C", 5), node("d", "D", 0)],
        Vec::new(),
    );
    assert_eq!(embedding_order(&g, 10), vec![1, 2, 0, 3]);
    assert_eq!(embedding_order(&g, 2), vec![1, 2]);
    assert!(embedding_order(&g, 0).is_empty());
}

#[test]
fn embedding_batches_cut_the_order() {
    let order = vec![4usize, 1, 3, 0, 2];
    assert_eq!(embedding_batches(&order, 2), vec![vec![4, 1], vec![3, 0], vec![2]]);
    assert_eq!(embedding_batches(&order, 5), vec![vec![4, 1, 3, 0, 2]]);
    assert!(embedding_batches(&[], 3).is_empty());
}
