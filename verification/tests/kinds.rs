use cargo_graph::config::{Config, Matches};
use cargo_graph::declared::DeclaredDepsMap;
use cargo_graph::dep::{DeclaredDep, DepKind, ResolvedDep};
use cargo_graph::graph::{DepGraph, Edge};

fn graph_of(names: &[&str], edges: &[(usize, usize)]) -> DepGraph {
    let m = Matches {
        all_deps: true,
        build_deps: false,
        dev_deps: false,
        optional_deps: false,
        no_regular_deps: false,
        include_orphans: false,
        include_versions: false,
        dot_file: None,
        manifest_path: None,
        filter: None,
        subgraph: None,
        subgraph_name: None,
    };
    let mut dg = DepGraph::new(Config::from_matches(&m).unwrap());
    for name in names {
        dg.nodes.push(ResolvedDep::new((*name).to_owned(), "1.0".to_owned()));
    }
    for (a, b) in edges {
        dg.edges.push(Edge(*a, *b));
    }
    dg
}

fn declared(deps: &[(&str, DepKind)]) -> DeclaredDepsMap {
    let mut map = DeclaredDepsMap::new();
    for (name, kind) in deps {
        map.add((*name).to_owned(), *kind);
    }
    map
}

fn flags(dep: &ResolvedDep) -> (bool, bool, bool, bool) {
    (dep.is_regular, dep.is_build, dep.is_dev, dep.is_optional)
}

#[test]
fn the_root_is_regular() {
    let mut dg = graph_of(&["app"], &[]);
    dg.set_resolved_kind(&declared(&[]));
    assert_eq!(flags(&dg.nodes[0]), (true, false, false, false));
    assert_eq!(dg.nodes[0].kind(), DepKind::Regular);
}

#[test]
fn an_empty_graph_stays_empty() {
    let mut dg = graph_of(&[], &[(0, 1), (0, 1)]);
    dg.set_resolved_kind(&declared(&[("a", DepKind::Build)]));
    assert!(dg.nodes.is_empty());
    assert_eq!(dg.edges, vec![Edge(0, 1)]);
}

#[test]
fn root_edges_give_the_declared_kinds() {
    let mut dg = graph_of(&["app", "a", "b", "c", "d"], &[(0, 1), (0, 2), (0, 3), (0, 4)]);
    let map = declared(&[
        ("a", DepKind::Build),
        ("b", DepKind::Dev),
        ("b", DepKind::Optional),
        ("c", DepKind::Regular),
        ("e", DepKind::Regular),
    ]);
    dg.set_resolved_kind(&map);
    assert_eq!(flags(&dg.nodes[1]), (false, true, false, false));
    assert_eq!(flags(&dg.nodes[2]), (false, false, true, true));
    assert_eq!(flags(&dg.nodes[3]), (true, false, false, false));
    assert_eq!(flags(&dg.nodes[4]), (false, false, false, false));
    assert_eq!(dg.nodes[1].kind(), DepKind::Build);
    assert_eq!(dg.nodes[2].kind(), DepKind::Dev);
    assert_eq!(dg.nodes[4].kind(), DepKind::Unknown);
}

#[test]
fn the_root_hands_on_nothing_of_its_own() {
    let mut dg = graph_of(&["app", "a"], &[(0, 1)]);
    dg.set_resolved_kind(&declared(&[]));
    assert_eq!(flags(&dg.nodes[0]), (true, false, false, false));
    assert_eq!(flags(&dg.nodes[1]), (false, false, false, false));
}

#[test]
fn kinds_spread_along_edges() {
    let mut dg = graph_of(&["app", "a", "b", "c"], &[(2, 3), (1, 2), (0, 1), (0, 3)]);
    let map = declared(&[("a", DepKind::Build), ("c", DepKind::Dev)]);
    dg.set_resolved_kind(&map);
    assert_eq!(flags(&dg.nodes[1]), (false, true, false, false));
    assert_eq!(flags(&dg.nodes[2]), (false, true, false, false));
    assert_eq!(flags(&dg.nodes[3]), (false, true, true, false));
    assert_eq!(dg.nodes[3].kind(), DepKind::Build);
    assert_eq!(dg.edges, vec![Edge(0, 1), Edge(0, 3), Edge(1, 2), Edge(2, 3)]);
}

#[test]
fn kinds_reach_the_end_of_a_long_chain() {
    let names: Vec<String> = (0..40).map(|i| format!("pkg{}", i)).collect();
    let refs: Vec<&str> = names.iter().map(|s| s.as_str()).collect();
    let mut edges: Vec<(usize, usize)> = Vec::new();
    for i in (1..40).rev() {
        edges.push((i - 1, i));
    }
    let mut dg = graph_of(&refs, &edges);
    dg.set_resolved_kind(&declared(&[("pkg1", DepKind::Optional)]));
    for i in 1..40 {
        assert_eq!(flags(&dg.nodes[i]), (false, false, false, true));
    }
}

#[test]
fn kinds_run_round_a_cycle_back_to_the_root() {
    let mut dg = graph_of(&["app", "a", "b"], &[(0, 1), (1, 2), (2, 1), (2, 0)]);
    dg.set_resolved_kind(&declared(&[("a", DepKind::Dev)]));
    assert_eq!(flags(&dg.nodes[0]), (true, false, true, false));
    assert_eq!(flags(&dg.nodes[1]), (false, false, true, false));
    assert_eq!(flags(&dg.nodes[2]), (false, false, true, false));
}

#[test]
fn flags_set_before_are_kept_and_handed_on() {
    let mut dg = graph_of(&["app", "a", "b"], &[(1, 2)]);
    dg.nodes[1].is_optional = true;
    dg.nodes[2].is_build = true;
    dg.nodes[2].force_write_ver = true;
    dg.set_resolved_kind(&declared(&[]));
    assert_eq!(flags(&dg.nodes[1]), (false, false, false, true));
    assert_eq!(flags(&dg.nodes[2]), (false, true, false, true));
    assert!(dg.nodes[2].force_write_ver);
    let before: Vec<(bool, bool, bool, bool)> = dg.nodes.iter().map(flags).collect();
    dg.set_resolved_kind(&declared(&[]));
    let after: Vec<(bool, bool, bool, bool)> = dg.nodes.iter().map(flags).collect();
    assert_eq!(before, after);
}

#[test]
fn dangling_edges_hand_nothing_on() {
    let mut dg = graph_of(&["app", "a"], &[(0, 5), (5, 1), (1, 9), (0, 1)]);
    dg.set_resolved_kind(&declared(&[("a", DepKind::Regular)]));
    assert_eq!(flags(&dg.nodes[1]), (true, false, false, false));
    assert_eq!(dg.nodes.len(), 2);
    assert_eq!(dg.edges, vec![Edge(0, 1), Edge(0, 5), Edge(1, 9), Edge(5, 1)]);
}

#[test]
fn an_unknown_declaration_sets_no_flag() {
    let mut dg = graph_of(&["app", "a"], &[(0, 1)]);
    dg.set_resolved_kind(&declared(&[("a", DepKind::Unknown)]));
    assert_eq!(flags(&dg.nodes[1]), (false, false, false, false));
}

#[test]
fn the_map_gathers_kinds_by_name() {
    let deps = vec![
        DeclaredDep::with_kind("a".to_owned(), DepKind::Regular),
        DeclaredDep::with_kind("b".to_owned(), DepKind::Build),
        DeclaredDep::with_kind("a".to_owned(), DepKind::Dev),
    ];
    let map = DeclaredDepsMap::from_deps(&deps);
    assert_eq!(map.get("a"), Some(&vec![DepKind::Regular, DepKind::Dev]));
    assert_eq!(map.get("b"), Some(&vec![DepKind::Build]));
    assert_eq!(map.get("c"), None);
    assert_eq!(DeclaredDepsMap::new().get("a"), None);
}

#[test]
fn kind_goes_by_priority() {
    let mut dep = ResolvedDep::new("a".to_owned(), "1".to_owned());
    assert_eq!(dep.kind(), DepKind::Unknown);
    dep.is_optional = true;
    assert_eq!(dep.kind(), DepKind::Optional);
    dep.is_dev = true;
    assert_eq!(dep.kind(), DepKind::Dev);
    dep.is_build = true;
    assert_eq!(dep.kind(), DepKind::Build);
    dep.is_regular = true;
    assert_eq!(dep.kind(), DepKind::Regular);
}

#[test]
fn shared_names_show_their_versions() {
    let mut dg = graph_of(&["app", "foo", "bar", "foo", "baz", "foo"], &[]);
    dg.nodes[3].ver = "2.0".to_owned();
    dg.nodes[5].ver = "3.0".to_owned();
    dg.nodes[4].force_write_ver = true;
    dg.show_version_on_duplicates();
    let shown: Vec<bool> = dg.nodes.iter().map(|d| d.force_write_ver).collect();
    assert_eq!(shown, vec![false, true, false, true, true, true]);
}

#[test]
fn unique_names_show_nothing() {
    let mut dg = graph_of(&["app", "a", "b"], &[(0, 1)]);
    dg.show_version_on_duplicates();
    assert!(dg.nodes.iter().all(|d| !d.force_write_ver));
    let mut none = graph_of(&[], &[]);
    none.show_version_on_duplicates();
    assert!(none.nodes.is_empty());
}

#[test]
fn names_order_by_their_bytes() {
    use_order("a", "b", true);
    use_order("b", "a", false);
    use_order("a", "a", true);
    use_order("", "a", true);
    use_order("a", "", false);
    use_order("", "", true);
    use_order("ab", "abc", true);
    use_order("abc", "ab", false);
    use_order("Z", "a", true);
    use_order("a-b", "a_b", true);
    use_order("z", "é", true);
    use_order("é", "z", false);
    use_order("serde", "serde_json", true);
}

fn use_order(a: &str, b: &str, expected: bool) {
    assert_eq!(cargo_graph::names::name_before_or_equal(a, b), expected);
    assert_eq!(a <= b, expected);
}

#[test]
fn ids_come_in_the_order_of_names() {
    let dg = graph_of(&["m", "b", "z", "b", "a", "ab", ""], &[]);
    assert_eq!(dg.ids_by_name(), vec![6, 4, 5, 1, 3, 0, 2]);
    assert!(graph_of(&[], &[]).ids_by_name().is_empty());
    assert_eq!(graph_of(&["x"], &[]).ids_by_name(), vec![0]);
}

#[test]
fn namesakes_are_found_wherever_they_stand() {
    let mut dg = graph_of(&["q", "dup", "a", "z", "dup", "m", "dup", "a"], &[]);
    dg.show_version_on_duplicates();
    let shown: Vec<bool> = dg.nodes.iter().map(|d| d.force_write_ver).collect();
    assert_eq!(shown, vec![false, true, true, false, true, false, true, true]);
}
