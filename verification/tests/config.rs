use cargo_graph::config::{Config, Matches};

fn bare() -> Matches {
    Matches {
        all_deps: false,
        build_deps: false,
        dev_deps: false,
        optional_deps: false,
        no_regular_deps: false,
        include_orphans: false,
        include_versions: false,
        dot_file: None,
        manifest_path: None,
        filter: None,
        subgraph: None,
        subgraph_name: None,
    }
}

#[test]
fn defaults_of_a_bare_command_line() {
    let cfg = Config::from_matches(&bare()).unwrap();
    assert_eq!(cfg.manifest_path, "Cargo.toml");
    assert_eq!(cfg.dot_file, None);
    assert_eq!(cfg.filter, None);
    assert_eq!(cfg.subgraph, None);
    assert_eq!(cfg.subgraph_name, None);
    assert!(cfg.regular_deps);
    assert!(!cfg.build_deps && !cfg.dev_deps && !cfg.optional_deps);
    assert!(!cfg.include_orphans && !cfg.include_vers);
}

#[test]
fn all_deps_switches_every_section_on() {
    let mut m = bare();
    m.all_deps = true;
    let cfg = Config::from_matches(&m).unwrap();
    assert!(cfg.regular_deps && cfg.build_deps && cfg.dev_deps && cfg.optional_deps);
}

#[test]
fn each_section_has_its_own_switch() {
    let mut m = bare();
    m.dev_deps = true;
    m.no_regular_deps = true;
    let cfg = Config::from_matches(&m).unwrap();
    assert!(!cfg.regular_deps && !cfg.build_deps && cfg.dev_deps && !cfg.optional_deps);
    let mut m = bare();
    m.build_deps = true;
    m.optional_deps = true;
    let cfg = Config::from_matches(&m).unwrap();
    assert!(cfg.regular_deps && cfg.build_deps && !cfg.dev_deps && cfg.optional_deps);
}

#[test]
fn values_are_carried_over() {
    let mut m = bare();
    m.dot_file = Some("out.dot".to_owned());
    m.manifest_path = Some("sub/Cargo.toml".to_owned());
    m.filter = Some(vec!["a".to_owned(), "b".to_owned()]);
    m.subgraph = Some(vec!["c".to_owned()]);
    m.subgraph_name = Some("Mine".to_owned());
    m.include_orphans = true;
    m.include_versions = true;
    let cfg = Config::from_matches(&m).unwrap();
    assert_eq!(cfg.dot_file.as_deref(), Some("out.dot"));
    assert_eq!(cfg.manifest_path, "sub/Cargo.toml");
    assert_eq!(cfg.filter, Some(vec!["a".to_owned(), "b".to_owned()]));
    assert_eq!(cfg.subgraph, Some(vec!["c".to_owned()]));
    assert_eq!(cfg.subgraph_name.as_deref(), Some("Mine"));
    assert!(cfg.include_orphans && cfg.include_vers);
}

#[test]
fn a_copy_of_the_settings_is_equal() {
    let mut m = bare();
    m.filter = Some(vec!["a".to_owned()]);
    m.subgraph_name = Some("S".to_owned());
    m.all_deps = true;
    let cfg = Config::from_matches(&m).unwrap();
    let copy = cfg.clone();
    assert_eq!(copy.filter, cfg.filter);
    assert_eq!(copy.subgraph_name, cfg.subgraph_name);
    assert_eq!(copy.manifest_path, cfg.manifest_path);
    assert_eq!(copy.build_deps, cfg.build_deps);
}
