use cargo_graph::config::{Config, Matches};
use cargo_graph::dep::ResolvedDep;
use cargo_graph::graph::{DepGraph, Edge};

fn plain_matches() -> Matches {
    Matches {
        all_deps: false,
        build_deps: false,
        dev_deps: false,
        optional_deps: false,
        no_regular_deps: false,
        include_orphans: false,
        include_versions: false,
        dot_file: None,
        manifest_path: None,
        filter: None,
        subgraph: None,
        subgraph_name: None,
    }
}

fn empty_graph() -> DepGraph {
    DepGraph::new(Config::from_matches(&plain_matches()).unwrap())
}

#[test]
fn new_graph_is_empty() {
    let dg = empty_graph();
    assert!(dg.nodes.is_empty());
    assert!(dg.edges.is_empty());
    assert_eq!(dg.cfg.manifest_path, "Cargo.toml");
}

#[test]
fn find_or_add_appends_then_finds() {
    let mut dg = empty_graph();
    assert_eq!(dg.find("a", "1.0"), None);
    assert_eq!(dg.find_or_add("a", "1.0"), 0);
    assert_eq!(dg.find_or_add("b", "1.0"), 1);
    assert_eq!(dg.find_or_add("a", "2.0"), 2);
    assert_eq!(dg.find("a", "1.0"), Some(0));
    assert_eq!(dg.find("a", "2.0"), Some(2));
    assert_eq!(dg.find("b", "2.0"), None);
    assert_eq!(dg.nodes[2], ResolvedDep::new("a".to_owned(), "2.0".to_owned()));
}

#[test]
fn find_or_add_twice_gives_one_node() {
    let mut dg = empty_graph();
    dg.find_or_add("x", "0.1");
    let first = dg.find_or_add("lib", "2.0");
    let count = dg.nodes.len();
    let second = dg.find_or_add("lib", "2.0");
    assert_eq!(first, second);
    assert_eq!(dg.nodes.len(), count);
}

#[test]
fn a_new_node_has_no_flag() {
    let dep = ResolvedDep::new("a".to_owned(), "1".to_owned());
    assert_eq!(dep.name, "a");
    assert_eq!(dep.ver, "1");
    assert!(!dep.force_write_ver);
    assert!(!dep.is_regular && !dep.is_build && !dep.is_dev && !dep.is_optional);
}

#[test]
fn add_child_records_the_edge() {
    let mut dg = empty_graph();
    let root = dg.find_or_add("app", "1.0");
    let lib = dg.add_child(root, "lib", "2.0");
    let again = dg.add_child(root, "lib", "2.0");
    assert_eq!(lib, 1);
    assert_eq!(again, 1);
    assert_eq!(dg.nodes.len(), 2);
    assert_eq!(dg.edges, vec![Edge(0, 1), Edge(0, 1)]);
}

#[test]
fn add_child_keeps_a_dangling_parent() {
    let mut dg = empty_graph();
    let id = dg.add_child(7, "lib", "2.0");
    assert_eq!(id, 0);
    assert_eq!(dg.edges, vec![Edge(7, 0)]);
}

#[test]
fn get_stops_at_the_end() {
    let mut dg = empty_graph();
    dg.find_or_add("a", "1");
    assert_eq!(dg.get(0).map(|d| d.name.as_str()), Some("a"));
    assert!(dg.get(1).is_none());
}

#[test]
fn set_root_fails_without_a_match() {
    let mut dg = empty_graph();
    dg.find_or_add("a", "1");
    dg.add_child(0, "b", "1");
    assert!(!dg.set_root("b", "2"));
    assert!(!dg.set_root("c", "1"));
    assert_eq!(dg.nodes[0].name, "a");
    assert_eq!(dg.edges, vec![Edge(0, 1)]);
}

#[test]
fn set_root_leaves_a_root_at_zero() {
    let mut dg = empty_graph();
    dg.find_or_add("a", "1");
    dg.add_child(0, "b", "1");
    assert!(dg.set_root("a", "1"));
    assert_eq!(dg.nodes[0].name, "a");
    assert_eq!(dg.nodes[1].name, "b");
    assert_eq!(dg.edges, vec![Edge(0, 1)]);
}

#[test]
fn set_root_swaps_nodes_and_edge_ends() {
    let mut dg = empty_graph();
    dg.find_or_add("a", "1");
    dg.add_child(0, "b", "1");
    dg.add_child(1, "app", "0.3");
    dg.add_child(2, "a", "1");
    dg.add_child(2, "d", "1");
    dg.add_child(3, "d", "1");
    assert!(dg.set_root("app", "0.3"));
    assert_eq!((dg.nodes[0].name.as_str(), dg.nodes[0].ver.as_str()), ("app", "0.3"));
    assert_eq!(dg.nodes[1].name, "b");
    assert_eq!(dg.nodes[2].name, "a");
    assert_eq!(dg.nodes[3].name, "d");
    assert_eq!(
        dg.edges,
        vec![Edge(2, 1), Edge(1, 0), Edge(0, 2), Edge(0, 3), Edge(3, 3)]
    );
}

#[test]
fn edge_names_its_ends() {
    assert_eq!(Edge(0, 1).to_string(), "n0 -> n1");
    assert_eq!(Edge(10, 9).to_string(), "n10 -> n9");
    assert_eq!(Edge(1234567890, 100).to_string(), "n1234567890 -> n100");
}

#[test]
fn edges_order_by_source_then_target() {
    let mut edges = vec![Edge(2, 0), Edge(0, 5), Edge(1, 1), Edge(0, 5), Edge(0, 2)];
    cargo_graph::edges::sort_dedup(&mut edges);
    assert_eq!(edges, vec![Edge(0, 2), Edge(0, 5), Edge(1, 1), Edge(2, 0)]);
    assert!(cargo_graph::edges::edge_less(Edge(0, 9), Edge(1, 0)));
    assert!(cargo_graph::edges::edge_less(Edge(1, 0), Edge(1, 1)));
    assert!(!cargo_graph::edges::edge_less(Edge(1, 1), Edge(1, 1)));
    assert!(!cargo_graph::edges::edge_less(Edge(2, 0), Edge(1, 9)));
}

#[test]
fn sorting_nothing_gives_nothing() {
    let mut edges: Vec<Edge> = Vec::new();
    cargo_graph::edges::sort_dedup(&mut edges);
    assert!(edges.is_empty());
}
