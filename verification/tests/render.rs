use cargo_graph::config::{Config, Matches};
use cargo_graph::declared::DeclaredDepsMap;
use cargo_graph::dep::{DepKind, ResolvedDep};
use cargo_graph::graph::{DepGraph, Edge};

fn matches() -> Matches {
    Matches {
        all_deps: true,
        build_deps: false,
        dev_deps: false,
        optional_deps: false,
        no_regular_deps: false,
        include_orphans: false,
        include_versions: false,
        dot_file: None,
        manifest_path: None,
        filter: None,
        subgraph: None,
        subgraph_name: None,
    }
}

fn graph_with(m: &Matches, names: &[(&str, &str)], edges: &[(usize, usize)]) -> DepGraph {
    let mut dg = DepGraph::new(Config::from_matches(m).unwrap());
    for (name, ver) in names {
        dg.nodes.push(ResolvedDep::new((*name).to_owned(), (*ver).to_owned()));
    }
    for (a, b) in edges {
        dg.edges.push(Edge(*a, *b));
    }
    dg
}

fn declared(deps: &[(&str, DepKind)]) -> DeclaredDepsMap {
    let mut map = DeclaredDepsMap::new();
    for (name, kind) in deps {
        map.add((*name).to_owned(), *kind);
    }
    map
}

fn render(dg: DepGraph, map: &DeclaredDepsMap) -> String {
    let mut out = String::new();
    dg.render_to(&mut out, map).unwrap();
    out
}

fn node_label(dep: &ResolvedDep, cfg: &Config, i: usize) -> String {
    let mut out = String::new();
    dep.label(&mut out, cfg, i);
    out
}

fn edge_label(e: Edge, dg: &DepGraph, map: &DeclaredDepsMap) -> String {
    let mut out = String::new();
    e.label(&mut out, dg, map);
    out
}

#[test]
fn a_chain_of_regular_dependencies() {
    let mut dg = graph_with(
        &matches(),
        &[("app", "1.0"), ("lib", "2.0"), ("sys", "0.1")],
        &[(0, 1), (1, 2)],
    );
    let map = declared(&[("lib", DepKind::Regular)]);
    dg.set_resolved_kind(&map);
    assert_eq!(dg.nodes.len(), 3);
    assert_eq!(dg.edges, vec![Edge(0, 1), Edge(1, 2)]);
    assert!(dg.nodes[1].is_regular);
    assert!(dg.nodes[2].is_regular);
    let out = render(dg, &map);
    assert_eq!(
        out,
        "digraph dependencies {\n\
         \tn0 [label=\"app\", shape=box, style=filled, fillcolor=lightgrey];\n\
         \tn1 [label=\"lib\", style=filled, fillcolor=white];\n\
         \tn2 [label=\"sys\", style=filled, fillcolor=white];\n\
         \n\
         \tn0 -> n1;\n\
         \tn1 -> n2;\n\
         }\n"
    );
    assert_eq!(out.matches("fillcolor=lightgrey").count(), 1);
    assert_eq!(out.matches("fillcolor=white").count(), 2);
    assert!(!out.contains("dashed"));
}

#[test]
fn the_edge_from_the_root_goes_by_the_declaration() {
    let mut dg = graph_with(
        &matches(),
        &[("app", "1.0"), ("a", "1.0"), ("b", "1.0")],
        &[(0, 1), (0, 2), (2, 1)],
    );
    let map = declared(&[("a", DepKind::Build), ("b", DepKind::Regular)]);
    dg.set_resolved_kind(&map);
    assert!(dg.nodes[1].is_regular && dg.nodes[1].is_build);
    assert_eq!(dg.nodes[1].kind(), DepKind::Regular);
    let out = render(dg, &map);
    assert_eq!(
        out,
        "digraph dependencies {\n\
         \tn0 [label=\"app\", shape=box, style=filled, fillcolor=lightgrey];\n\
         \tn1 [label=\"a\", style=filled, fillcolor=white];\n\
         \tn2 [label=\"b\", style=filled, fillcolor=white];\n\
         \n\
         \tn0 -> n1 [color=purple, style=dashed];\n\
         \tn0 -> n2;\n\
         \tn2 -> n1;\n\
         }\n"
    );
}

#[test]
fn two_versions_of_one_name_show_their_versions() {
    let mut dg = graph_with(
        &matches(),
        &[("app", "0.1"), ("foo", "1.0"), ("foo", "2.0"), ("bar", "3.0")],
        &[(0, 1), (0, 3), (3, 2)],
    );
    let map = declared(&[("foo", DepKind::Regular), ("bar", DepKind::Regular)]);
    dg.set_resolved_kind(&map);
    dg.show_version_on_duplicates();
    assert!(!dg.cfg.include_vers);
    let out = render(dg, &map);
    assert_eq!(
        out,
        "digraph dependencies {\n\
         \tn0 [label=\"app\", shape=box, style=filled, fillcolor=lightgrey];\n\
         \tn1 [label=\"foo v1.0\", style=filled, fillcolor=white];\n\
         \tn2 [label=\"foo v2.0\", style=filled, fillcolor=white];\n\
         \tn3 [label=\"bar\", style=filled, fillcolor=white];\n\
         \n\
         \tn0 -> n1;\n\
         \tn0 -> n3;\n\
         \tn3 -> n2;\n\
         }\n"
    );
}

#[test]
fn rendering_puts_the_graph_in_order_first() {
    let dg = graph_with(
        &matches(),
        &[("app", "1"), ("orphan", "1"), ("a", "1"), ("b", "1")],
        &[(2, 3), (0, 2), (2, 2), (0, 2), (9, 1), (1, 3), (0, 0)],
    );
    let out = render(dg, &declared(&[]));
    assert_eq!(
        out,
        "digraph dependencies {\n\
         \tn0 [label=\"app\", shape=box, style=filled, fillcolor=lightgrey];\n\
         \tn1 [label=\"a\", style=filled, fillcolor=orange];\n\
         \tn2 [label=\"b\", style=filled, fillcolor=orange];\n\
         \n\
         \tn0 -> n1 [color=orange, style=dashed];\n\
         \tn1 -> n2 [color=orange, style=dashed];\n\
         }\n"
    );
}

#[test]
fn orphans_stay_when_asked_for() {
    let mut m = matches();
    m.include_orphans = true;
    m.include_versions = true;
    let dg = graph_with(&m, &[("app", "1"), ("orphan", "2"), ("a", "3")], &[(0, 2), (1, 7), (2, 2)]);
    let out = render(dg, &declared(&[("a", DepKind::Dev)]));
    assert_eq!(
        out,
        "digraph dependencies {\n\
         \tn0 [label=\"app v1\", shape=box, style=filled, fillcolor=lightgrey];\n\
         \tn1 [label=\"orphan v2\", style=filled, fillcolor=orange];\n\
         \tn2 [label=\"a v3\", style=filled, fillcolor=orange];\n\
         \n\
         \tn0 -> n2 [color=blue, style=dashed];\n\
         }\n"
    );
}

#[test]
fn an_empty_graph_is_an_empty_drawing() {
    let dg = graph_with(&matches(), &[], &[(0, 0)]);
    assert_eq!(render(dg, &declared(&[])), "digraph dependencies {\n\n}\n");
}

#[test]
fn rendering_appends_to_what_is_there() {
    let dg = graph_with(&matches(), &[], &[]);
    let mut out = "// drawn\n".to_owned();
    dg.render_to(&mut out, &declared(&[])).unwrap();
    assert_eq!(out, "// drawn\ndigraph dependencies {\n\n}\n");
}

#[test]
fn the_subgraph_frames_its_nodes() {
    let mut m = matches();
    m.subgraph = Some(vec!["a".to_owned(), "c".to_owned(), "zzz".to_owned()]);
    m.subgraph_name = Some("Inner".to_owned());
    let mut dg = graph_with(
        &m,
        &[("app", "1"), ("a", "1"), ("b", "1"), ("c", "1")],
        &[(0, 1), (0, 2), (2, 3)],
    );
    let map = declared(&[("a", DepKind::Regular), ("b", DepKind::Optional)]);
    dg.set_resolved_kind(&map);
    let out = render(dg, &map);
    assert_eq!(
        out,
        "digraph dependencies {\n\
         \tn0 [label=\"app\", shape=box, style=filled, fillcolor=lightgrey];\n\
         \tn2 [label=\"b\", style=filled, fillcolor=lightpink];\n\
         \n\
         \tsubgraph cluster_subgraph {\n\
         \t\tlabel=\"Inner\";\n\
         \t\tcolor=brown;\n\
         \t\tstyle=dashed;\n\
         \n\
         \t\tn1 [label=\"a\", style=filled, fillcolor=white];\n\
         \t\tn3 [label=\"c\", style=filled, fillcolor=lightpink];\n\
         \t}\n\
         \n\
         \tn0 -> n1;\n\
         \tn0 -> n2 [color=red, style=dashed];\n\
         \tn2 -> n3 [color=red, style=dashed];\n\
         }\n"
    );
}

#[test]
fn a_subgraph_without_a_name_has_no_label() {
    let mut m = matches();
    m.subgraph = Some(vec!["app".to_owned()]);
    let dg = graph_with(&m, &[("app", "1")], &[]);
    let out = render(dg, &declared(&[]));
    assert_eq!(
        out,
        "digraph dependencies {\n\
         \n\
         \tsubgraph cluster_subgraph {\n\
         \t\tcolor=brown;\n\
         \t\tstyle=dashed;\n\
         \n\
         \t\tn0 [label=\"app\", shape=box, style=filled, fillcolor=lightgrey];\n\
         \t}\n\
         \n\
         }\n"
    );
}

#[test]
fn rendering_equal_graphs_gives_equal_text() {
    let build = || {
        graph_with(
            &matches(),
            &[("app", "1"), ("a", "1"), ("b", "2")],
            &[(0, 1), (1, 2)],
        )
    };
    let map = declared(&[("a", DepKind::Dev)]);
    let mut first = build();
    first.set_resolved_kind(&map);
    let mut second = build();
    second.set_resolved_kind(&map);
    assert_eq!(render(first, &map), render(second, &map));
}

#[test]
fn node_labels_by_kind() {
    let cfg = Config::from_matches(&matches()).unwrap();
    let mut dep = ResolvedDep::new("n".to_owned(), "0.1".to_owned());
    assert_eq!(node_label(&dep, &cfg, 3), " [label=\"n\", style=filled, fillcolor=orange];\n");
    dep.is_optional = true;
    assert_eq!(node_label(&dep, &cfg, 3), " [label=\"n\", style=filled, fillcolor=lightpink];\n");
    dep.is_dev = true;
    assert_eq!(node_label(&dep, &cfg, 3), " [label=\"n\", style=filled, fillcolor=lightblue];\n");
    dep.is_build = true;
    assert_eq!(node_label(&dep, &cfg, 3), " [label=\"n\", style=filled, fillcolor=plum];\n");
    dep.is_regular = true;
    assert_eq!(node_label(&dep, &cfg, 3), " [label=\"n\", style=filled, fillcolor=white];\n");
    assert_eq!(
        node_label(&dep, &cfg, 0),
        " [label=\"n\", shape=box, style=filled, fillcolor=lightgrey];\n"
    );
    dep.force_write_ver = true;
    assert_eq!(
        node_label(&dep, &cfg, 1),
        " [label=\"n v0.1\", style=filled, fillcolor=white];\n"
    );
}

#[test]
fn names_pass_into_labels_as_they_are() {
    let cfg = Config::from_matches(&matches()).unwrap();
    let dep = ResolvedDep::new("we\"ird\\n".to_owned(), "1".to_owned());
    assert_eq!(
        node_label(&dep, &cfg, 2),
        " [label=\"we\"ird\\n\", style=filled, fillcolor=orange];\n"
    );
}

fn kinded(kind: DepKind, name: &str) -> ResolvedDep {
    let mut dep = ResolvedDep::new(name.to_owned(), "1".to_owned());
    match kind {
        DepKind::Regular => dep.is_regular = true,
        DepKind::Build => dep.is_build = true,
        DepKind::Dev => dep.is_dev = true,
        DepKind::Optional => dep.is_optional = true,
        DepKind::Unknown => {}
    }
    dep
}

#[test]
fn edge_labels_by_the_kinds_of_both_ends() {
    let kinds = [
        DepKind::Regular,
        DepKind::Build,
        DepKind::Dev,
        DepKind::Optional,
        DepKind::Unknown,
    ];
    let plain = ";\n";
    let purple = " [color=purple, style=dashed];\n";
    let blue = " [color=blue, style=dashed];\n";
    let red = " [color=red, style=dashed];\n";
    let orange = " [color=orange, style=dashed];\n";
    let table = [
        [plain, purple, blue, red, orange],
        [purple, purple, purple, purple, purple],
        [blue, purple, blue, blue, blue],
        [red, purple, blue, red, red],
        [orange, purple, blue, red, orange],
    ];
    for (p, parent) in kinds.iter().enumerate() {
        for (c, child) in kinds.iter().enumerate() {
            let mut dg = graph_with(&matches(), &[("app", "1")], &[]);
            dg.nodes.push(kinded(*parent, "parent"));
            dg.nodes.push(kinded(*child, "child"));
            let got = edge_label(Edge(1, 2), &dg, &declared(&[("child", DepKind::Build)]));
            assert_eq!(got, table[p][c]);
        }
    }
}

#[test]
fn root_edges_take_the_first_declared_kind() {
    let mut dg = graph_with(&matches(), &[], &[]);
    dg.nodes.push(kinded(DepKind::Regular, "app"));
    dg.nodes.push(kinded(DepKind::Regular, "a"));
    let label = |deps: &[(&str, DepKind)]| edge_label(Edge(0, 1), &dg, &declared(deps));
    assert_eq!(label(&[("a", DepKind::Optional), ("a", DepKind::Dev)]), " [color=blue, style=dashed];\n");
    assert_eq!(label(&[("a", DepKind::Build), ("a", DepKind::Regular)]), ";\n");
    assert_eq!(label(&[("a", DepKind::Optional)]), " [color=red, style=dashed];\n");
    assert_eq!(label(&[("a", DepKind::Unknown)]), " [color=orange, style=dashed];\n");
    assert_eq!(label(&[("b", DepKind::Regular)]), " [color=orange, style=dashed];\n");
}
