use cargo_graph::config::{Config, Matches};
use cargo_graph::dep::ResolvedDep;
use cargo_graph::graph::{DepGraph, Edge};

fn graph_of(names: &[&str], edges: &[(usize, usize)]) -> DepGraph {
    let m = Matches {
        all_deps: false,
        build_deps: false,
        dev_deps: false,
        optional_deps: false,
        no_regular_deps: false,
        include_orphans: false,
        include_versions: false,
        dot_file: None,
        manifest_path: None,
        filter: None,
        subgraph: None,
        subgraph_name: None,
    };
    let mut dg = DepGraph::new(Config::from_matches(&m).unwrap());
    for name in names {
        dg.nodes.push(ResolvedDep::new((*name).to_owned(), "1.0".to_owned()));
    }
    for (a, b) in edges {
        dg.edges.push(Edge(*a, *b));
    }
    dg
}

fn names(dg: &DepGraph) -> Vec<&str> {
    dg.nodes.iter().map(|d| d.name.as_str()).collect()
}

fn every_node_but_the_root_is_a_target(dg: &DepGraph) -> bool {
    (1..dg.nodes.len()).all(|i| dg.edges.iter().any(|e| e.1 == i))
}

#[test]
fn an_orphan_goes_and_the_rest_moves_up() {
    let mut dg = graph_of(&["app", "x", "a", "b"], &[(0, 2), (2, 3), (1, 3)]);
    dg.remove_orphans();
    assert_eq!(names(&dg), vec!["app", "a", "b"]);
    assert_eq!(dg.edges, vec![Edge(0, 1), Edge(1, 2)]);
    assert!(every_node_but_the_root_is_a_target(&dg));
}

#[test]
fn what_only_orphans_depend_on_goes_too() {
    let mut dg = graph_of(
        &["app", "o1", "o2", "o3", "keep"],
        &[(1, 2), (2, 3), (3, 4), (0, 4), (3, 0)],
    );
    dg.remove_orphans();
    assert_eq!(names(&dg), vec!["app", "keep"]);
    assert_eq!(dg.edges, vec![Edge(0, 1)]);
}

#[test]
fn the_root_stays_though_nothing_points_at_it() {
    let mut dg = graph_of(&["app", "a"], &[]);
    dg.remove_orphans();
    assert_eq!(names(&dg), vec!["app"]);
    assert!(dg.edges.is_empty());
}

#[test]
fn a_cycle_apart_from_the_root_supports_itself() {
    let mut dg = graph_of(&["app", "a", "b", "c", "d"], &[(1, 2), (2, 1), (3, 3), (4, 1)]);
    dg.remove_orphans();
    assert_eq!(names(&dg), vec!["app", "a", "b", "c"]);
    assert_eq!(dg.edges, vec![Edge(1, 2), Edge(2, 1), Edge(3, 3)]);
    assert!(every_node_but_the_root_is_a_target(&dg));
}

#[test]
fn dangling_edges_go_before_the_orphans() {
    let mut dg = graph_of(&["app", "a", "b"], &[(0, 1), (7, 2), (1, 9), (0, 1)]);
    dg.remove_orphans();
    assert_eq!(names(&dg), vec!["app", "a"]);
    assert_eq!(dg.edges, vec![Edge(0, 1), Edge(0, 1)]);
}

#[test]
fn pruning_an_empty_graph_drops_its_edges() {
    let mut dg = graph_of(&[], &[(0, 0), (1, 2)]);
    dg.remove_orphans();
    assert!(dg.nodes.is_empty());
    assert!(dg.edges.is_empty());
}

#[test]
fn pruning_twice_changes_nothing_more() {
    let mut dg = graph_of(&["app", "x", "a", "b", "y"], &[(0, 3), (3, 2), (1, 4), (4, 1), (2, 2)]);
    dg.remove_orphans();
    let once_names: Vec<String> = dg.nodes.iter().map(|d| d.name.clone()).collect();
    let once_edges = dg.edges.clone();
    dg.remove_orphans();
    let twice_names: Vec<String> = dg.nodes.iter().map(|d| d.name.clone()).collect();
    assert_eq!(once_names, twice_names);
    assert_eq!(once_edges, dg.edges);
}

#[test]
fn self_loops_go_and_the_rest_keeps_its_order() {
    let mut dg = graph_of(&["app", "a"], &[(1, 1), (0, 1), (0, 0), (1, 0), (1, 1)]);
    dg.remove_self_pointing();
    assert_eq!(dg.edges, vec![Edge(0, 1), Edge(1, 0)]);
    assert!(dg.edges.iter().all(|e| e.0 != e.1));
    assert_eq!(dg.nodes.len(), 2);
}

#[test]
fn without_self_loops_nothing_goes() {
    let mut dg = graph_of(&["app", "a"], &[(0, 1), (1, 0)]);
    dg.remove_self_pointing();
    assert_eq!(dg.edges, vec![Edge(0, 1), Edge(1, 0)]);
}

#[test]
fn edges_that_leave_the_graph_go() {
    let mut dg = graph_of(&["app", "a"], &[(0, 1), (0, 2), (2, 0), (1, 1), (5, 5)]);
    dg.remove_dangling();
    assert_eq!(dg.edges, vec![Edge(0, 1), Edge(1, 1)]);
    assert_eq!(dg.nodes.len(), 2);
}
