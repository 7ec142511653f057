use neo4j_graph_viz::graph::assemble::GraphBuilder;
use neo4j_graph_viz::graph::csr::Csr;
use neo4j_graph_viz::graph::fixture::fixture;
use neo4j_graph_viz::graph::model::{GraphData, GraphLink, GraphNode};
use neo4j_graph_viz::graph::options::FetchOptions;
use neo4j_graph_viz::graph::shape::{PropValue, RawProps};
use neo4j_graph_viz::sorted_map::SortedMap;

fn node(id: &str) -> GraphNode {
    GraphNode {
        id: id.to_string(),
        name: id.to_uppercase(),
        label: "Thing".to_string(),
        group: String::new(),
        deg: 0,
        props: SortedMap::new(),
    }
}

fn link(s: &str, t: &str) -> GraphLink {
    GraphLink { source: s.to_string(), target: t.to_string(), rel: "R".to_string() }
}

fn sorted(v: &[u32]) -> Vec<u32> {
    let mut v = v.to_vec();
    v.sort();
    v
}

#[test]
fn props_are_withheld_from_the_graph_payload_but_served_by_detail() {
    let data = fixture(8, 2, 7, &FetchOptions::default());
    let id = data.nodes()[0].id.clone();
    let detail = data.detail(&id).expect("node is in the graph");
    assert_eq!(detail.id, id);
    assert_eq!(detail.name, data.nodes()[0].name);
    assert_eq!(detail.label, "Service");
    assert_eq!(detail.group, "");
    assert_eq!(detail.deg, data.nodes()[0].deg);
    assert!(detail.props.get("description").is_some(), "detail must carry props");
    assert!(data.detail("fixture:nope").is_none());
}

#[test]
fn index_and_adjacency_skip_dangling_links_and_self_loops() {
    let nodes = vec![node("a"), node("b"), node("c"), node("d")];
    let links = vec![
        link("a", "b"),
        link("b", "c"),
        link("c", "c"),
        link("a", "zz"),
        link("d", "a"),
        link("a", "b"),
    ];
    let g = GraphData::new(nodes, links);
    assert_eq!(g.index_of("c"), Some(2));
    assert_eq!(g.index_of("zz"), None);
    assert_eq!(g.links().len(), 6);
    assert_eq!(sorted(g.neighbours(0)), vec![1, 1, 3]);
    assert_eq!(sorted(g.neighbours(1)), vec![0, 0, 2]);
    assert_eq!(sorted(g.neighbours(2)), vec![1]);
    assert_eq!(sorted(g.neighbours(3)), vec![0]);
    // The self-loop is kept as a pair (a layout ignores it); the dangling link is not.
    assert_eq!(g.edge_pairs(), vec![(0, 1), (1, 2), (2, 2), (3, 0), (0, 1)]);
}

#[test]
fn neighbours_are_symmetric_on_a_fixture() {
    let g = fixture(120, 3, 9, &FetchOptions::default());
    for u in 0..g.nodes().len() {
        for &v in g.neighbours(u) {
            assert!(g.neighbours(v as usize).contains(&(u as u32)));
            assert_ne!(v as usize, u);
        }
    }
}

#[test]
fn duplicate_ids_index_the_last_node() {
    let g = GraphData::new(vec![node("a"), node("b"), node("a")], vec![link("a", "b")]);
    assert_eq!(g.index_of("a"), Some(2));
    assert_eq!(sorted(g.neighbours(2)), vec![1]);
    assert!(g.neighbours(0).is_empty());
}

#[test]
fn csr_build_ignores_out_of_range_pairs_and_self_loops() {
    let c = Csr::build(3, &[(0, 1), (1, 1), (2, 7), (2, 0), (1, 0)]);
    assert_eq!(sorted(c.of(0)), vec![1, 1, 2]);
    assert_eq!(sorted(c.of(1)), vec![0, 0]);
    assert_eq!(sorted(c.of(2)), vec![0]);
    let empty = Csr::build(0, &[(0, 1)]);
    let _ = empty;
}

fn props(pairs: &[(&str, &str)]) -> RawProps {
    let mut m = SortedMap::new();
    for (k, v) in pairs {
        m.insert(k.to_string(), PropValue::Text(v.to_string()));
    }
    Some(m)
}

fn labels(v: &[&str]) -> Vec<String> {
    v.iter().map(|s| s.to_string()).collect()
}

#[test]
fn builder_counts_degrees_of_kept_links_only() {
    let opts = FetchOptions::default();
    let mut b = GraphBuilder::new();
    b.add_node_row("n2".to_string(), &labels(&["Host"]), &props(&[("name", "beta")]), &opts);
    b.add_node_row("n1".to_string(), &labels(&["Service"]), &props(&[("title", "alpha")]), &opts);
    assert_eq!(b.node_count(), 2);
    assert!(b.add_link_row("n1".to_string(), "n2".to_string(), "USES".to_string()));
    assert!(!b.add_link_row("n1".to_string(), "ghost".to_string(), "USES".to_string()));
    assert!(b.add_link_row("n2".to_string(), "n2".to_string(), "SELF".to_string()));
    let g = b.finish();
    // Nodes come out in ascending id order.
    assert_eq!(g.nodes()[0].id, "n1");
    assert_eq!(g.nodes()[1].id, "n2");
    assert_eq!(g.nodes()[0].name, "alpha");
    assert_eq!(g.nodes()[1].name, "beta");
    assert_eq!(g.nodes()[0].label, "Service");
    assert_eq!(g.nodes()[0].deg, 1);
    assert_eq!(g.nodes()[1].deg, 3);
    assert_eq!(g.links().len(), 2);
    assert_eq!(g.links()[1].rel, "SELF");
}

#[test]
fn builder_replaces_a_repeated_node_row() {
    let opts = FetchOptions::default();
    let mut b = GraphBuilder::new();
    b.add_node_row("x".to_string(), &labels(&["Old"]), &props(&[]), &opts);
    b.add_node_row("x".to_string(), &labels(&["New"]), &props(&[]), &opts);
    assert_eq!(b.node_count(), 1);
    let g = b.finish();
    assert_eq!(g.nodes().len(), 1);
    assert_eq!(g.nodes()[0].label, "New");
    // With no string property at all, the display name is the placeholder.
    assert_eq!(g.nodes()[0].name, "?");
}

#[test]
fn neighbour_lists_count_each_link_twice() {
    let g = GraphData::new(
        vec![node("a"), node("b"), node("c")],
        vec![link("a", "b"), link("b", "a"), link("a", "b"), link("c", "c"), link("b", "c")],
    );
    let count = |u: usize, v: u32| g.neighbours(u).iter().filter(|&&x| x == v).count();
    assert_eq!(count(0, 1), 3);
    assert_eq!(count(1, 0), 3);
    assert_eq!(count(1, 2), count(2, 1));
    for u in 0..3 {
        assert_eq!(count(u, u as u32), 0);
    }
    let total: usize = (0..3).map(|u| g.neighbours(u).len()).sum();
    assert_eq!(total, 2 * 4);
}
