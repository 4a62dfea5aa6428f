use crate::config::{clone_opt_strings, opt_texts, Config, ConfigView};
use crate::declared::{declared_map, dep_views, DeclaredDepsMap};
use crate::dep::{DeclaredDep, DepKind};
use crate::document::{lemma_array_view, lemma_table_view, toml_document, toml_from_str, DocValue, Entry, Tree};
use crate::duplicates::with_versions_shown;
use crate::edges::sorted_edges;
use crate::nesting::{nesting, MAX_NESTING};
use crate::error::{CliError, CliResult};
use crate::graph::{DepGraph, GraphView, Node};
use crate::kinds::propagated;
use crate::text::{after_space, contains_name, has_space, names_contain, split_at_space, until_space};
use vstd::prelude::*;

verus! {

/// The name and the version of the root package, as the manifest's `package`
/// table gives them; else the reason why it gives none.
pub open spec fn root_identity(manifest: Tree) -> Result<(Seq<char>, Seq<char>), Seq<char>> {
    match manifest.lookup("package"@) {
        None => Err("No 'package' table found"@),
        Some(package) => if package is Table {
            match (package.lookup("name"@), package.lookup("version"@)) {
                (Some(Tree::String(name)), Some(Tree::String(version))) => Ok((name, version)),
                _ => Err("No name for 'package'"@),
            }
        } else {
            Err("Could not parse 'package' as a table"@)
        },
    }
}

/// The entries of a section of the manifest: none where the manifest lacks
/// the section or holds something else than a table under its name.
pub open spec fn section(manifest: Tree, name: Seq<char>) -> Seq<(Seq<char>, Tree)> {
    match manifest.lookup(name) {
        Some(table) => table.entries(),
        None => Seq::empty(),
    }
}

/// Whether the declaration says `optional = true`.
pub open spec fn is_optional(dep: Tree) -> bool {
    dep.lookup("optional"@) == Some(Tree::Boolean(true))
}

/// What the first `upto` entries of the `dependencies` section declare: an
/// optional one an optional dependency, any other a regular one, each only
/// where the settings ask for its kind.
pub open spec fn regular_section(entries: Seq<(Seq<char>, Tree)>, cfg: ConfigView, upto: int) -> Seq<
    (Seq<char>, DepKind),
>
    decreases upto,
{
    if upto <= 0 {
        Seq::empty()
    } else {
        let before = regular_section(entries, cfg, upto - 1);
        let (name, dep) = entries[upto - 1];
        if is_optional(dep) {
            if cfg.optional_deps {
                before.push((name, DepKind::Optional))
            } else {
                before
            }
        } else if cfg.regular_deps {
            before.push((name, DepKind::Regular))
        } else {
            before
        }
    }
}

/// What the first `upto` entries of a section declare in which every entry
/// is of one kind.
pub open spec fn plain_section(entries: Seq<(Seq<char>, Tree)>, kind: DepKind, upto: int) -> Seq<
    (Seq<char>, DepKind),
>
    decreases upto,
{
    if upto <= 0 {
        Seq::empty()
    } else {
        plain_section(entries, kind, upto - 1).push((entries[upto - 1].0, kind))
    }
}

/// All of a section in which every entry is of one kind, if the settings ask
/// for it.
pub open spec fn whole_section(manifest: Tree, name: Seq<char>, kind: DepKind, wanted: bool) -> Seq<
    (Seq<char>, DepKind),
> {
    if wanted {
        plain_section(section(manifest, name), kind, section(manifest, name).len() as int)
    } else {
        Seq::empty()
    }
}

/// The dependencies that the manifest declares, section by section.
pub open spec fn declared_deps(manifest: Tree, cfg: ConfigView) -> Seq<(Seq<char>, DepKind)> {
    regular_section(
        section(manifest, "dependencies"@),
        cfg,
        section(manifest, "dependencies"@).len() as int,
    ) + whole_section(manifest, "build-dependencies"@, DepKind::Build, cfg.build_deps)
        + whole_section(manifest, "dev-dependencies"@, DepKind::Dev, cfg.dev_deps)
}

/// Whether one of the declarations is of this name.
pub open spec fn names_declared(deps: Seq<(Seq<char>, DepKind)>, name: Seq<char>) -> bool {
    exists|i: int| 0 <= i < deps.len() && (#[trigger] deps[i]).0 == name
}

/// The text of a dependency reference: nothing where the item is no string.
pub open spec fn reference_text(item: Tree) -> Seq<char> {
    match item {
        Tree::String(s) => s,
        _ => Seq::empty(),
    }
}

/// The name in a reference `name version ...`.
pub open spec fn reference_name(s: Seq<char>) -> Seq<char> {
    until_space(s)
}

/// The version in a reference `name version ...`.
pub open spec fn reference_version(s: Seq<char>) -> Seq<char> {
    until_space(after_space(s))
}

/// Whether the record says what package it is of: its name and its version
/// are strings.
pub open spec fn has_identity(pkg: Tree) -> bool {
    &&& pkg.lookup("name"@) matches Some(Tree::String(_))
    &&& pkg.lookup("version"@) matches Some(Tree::String(_))
}

/// The name that a package record gives.
pub open spec fn package_name(pkg: Tree) -> Seq<char> {
    reference_text(pkg.lookup("name"@)->0)
}

/// The version that a package record gives.
pub open spec fn package_version(pkg: Tree) -> Seq<char> {
    reference_text(pkg.lookup("version"@)->0)
}

/// Whether the filter lets a package of this name into the graph: there is
/// no filter, or it names the package, or the package has the root's name.
pub open spec fn let_in(name: Seq<char>, filter: Option<Seq<Seq<char>>>, root_name: Seq<char>) -> bool {
    !(filter matches Some(names) && name != root_name && !names_contain(names, name))
}

/// Whether each dependency that the record lists is a string with a space
/// between a name and a version.
pub open spec fn well_formed_references(pkg: Tree) -> bool {
    forall|i: int|
        0 <= i < package_references(pkg).len() ==> (#[trigger] package_references(pkg)[i]) is String
            && has_space(reference_text(package_references(pkg)[i]))
}

/// Whether the record is one that can be read as far as it is read: it says
/// what package it is of, and, if the filter lets that package in, its
/// dependencies are well formed. Of a package that the filter leaves out the
/// dependencies are not looked at.
pub open spec fn well_formed_package(
    pkg: Tree,
    filter: Option<Seq<Seq<char>>>,
    root_name: Seq<char>,
) -> bool {
    &&& has_identity(pkg)
    &&& let_in(package_name(pkg), filter, root_name) ==> well_formed_references(pkg)
}

/// The dependency references of a package record.
pub open spec fn package_references(pkg: Tree) -> Seq<Tree> {
    match pkg.lookup("dependencies"@) {
        Some(list) => list.items(),
        None => Seq::empty(),
    }
}

/// What is known of the root when the lock file is read.
pub struct RootView {
    pub name: Seq<char>,
    pub version: Seq<char>,
    pub deps: Seq<(Seq<char>, DepKind)>,
    pub filter: Option<Seq<Seq<char>>>,
}

/// The root as the lock file's reader knows it.
pub open spec fn root_view(
    name: Seq<char>,
    version: Seq<char>,
    deps: Seq<(Seq<char>, DepKind)>,
    filter: Option<Seq<Seq<char>>>,
) -> RootView {
    RootView { name, version, deps, filter }
}

/// Whether a reference to `dep_name` is passed over: the filter does not
/// name it, or the root refers to it and the manifest does not declare it.
pub open spec fn passes_over(root: RootView, from_root: bool, dep_name: Seq<char>) -> bool {
    ||| (root.filter matches Some(names) && !names_contain(names, dep_name))
    ||| (from_root && !names_declared(root.deps, dep_name))
}

/// The graph after package `id` was given the first `upto` of its
/// dependencies, but for those that are passed over.
pub open spec fn with_dependencies(
    g: GraphView,
    id: Node,
    references: Seq<Tree>,
    upto: int,
    root: RootView,
    from_root: bool,
) -> GraphView
    decreases upto,
{
    if upto <= 0 {
        g
    } else {
        let before = with_dependencies(g, id, references, upto - 1, root, from_root);
        let text = reference_text(references[upto - 1]);
        if passes_over(root, from_root, reference_name(text)) {
            before
        } else {
            before.add_child(id, reference_name(text), reference_version(text)).0
        }
    }
}

/// The graph after one package record was read: the graph itself where the
/// filter leaves the package out; else the graph with the package as a node
/// and with its dependencies.
pub open spec fn with_package(g: GraphView, pkg: Tree, root: RootView) -> GraphView {
    let name = package_name(pkg);
    let version = package_version(pkg);
    if !let_in(name, root.filter, root.name) {
        g
    } else {
        let (added, id) = g.find_or_add(name, version);
        with_dependencies(
            added,
            id as usize,
            package_references(pkg),
            package_references(pkg).len() as int,
            root,
            name == root.name && version == root.version,
        )
    }
}

/// The package records of a lock file: the `root` record, if there is one,
/// then the records of the `package` array.
pub open spec fn lock_packages(lock: Tree) -> Seq<Tree> {
    (match lock.lookup("root"@) {
        Some(root) => seq![root],
        None => Seq::empty(),
    }) + (match lock.lookup("package"@) {
        Some(list) => list.items(),
        None => Seq::empty(),
    })
}

/// Whether every package record of the lock file can be read as far as it
/// is read.
pub open spec fn well_formed_lock(
    lock: Tree,
    filter: Option<Seq<Seq<char>>>,
    root_name: Seq<char>,
) -> bool {
    forall|i: int|
        0 <= i < lock_packages(lock).len() ==> well_formed_package(
            #[trigger] lock_packages(lock)[i],
            filter,
            root_name,
        )
}

/// The graph after the first `upto` package records were read.
pub open spec fn with_packages(g: GraphView, packages: Seq<Tree>, upto: int, root: RootView) -> GraphView
    decreases upto,
{
    if upto <= 0 {
        g
    } else {
        with_package(with_packages(g, packages, upto - 1, root), packages[upto - 1], root)
    }
}

/// The graph that a lock file describes.
pub open spec fn lock_graph(lock: Tree, root: RootView) -> GraphView {
    with_packages(
        GraphView { nodes: Seq::empty(), edges: Seq::empty() },
        lock_packages(lock),
        lock_packages(lock).len() as int,
        root,
    )
}

/// The graph of a lock file, finished: the root at id 0, every node with the
/// kinds that arrive at it, and, unless versions are shown anyway, every node
/// of a shared name made to show its own. With it the map of what the
/// manifest declares. Else the reason why there is no such graph.
pub open spec fn assembled(cfg: ConfigView, lock: Tree, root: RootView) -> Result<
    (GraphView, Map<Seq<char>, Seq<DepKind>>),
    Seq<char>,
> {
    if !well_formed_lock(lock, root.filter, root.name) {
        Err("Malformed package record in the lock file"@)
    } else {
        match lock_graph(lock, root).set_root(root.name, root.version) {
            None => Err("Missing name or version"@),
            Some(rooted) => {
                let declared = declared_map(root.deps);
                let nodes = propagated(rooted, declared);
                Ok(
                    (
                        GraphView {
                            nodes: if cfg.include_vers {
                                nodes
                            } else {
                                with_versions_shown(nodes)
                            },
                            edges: sorted_edges(rooted.edges),
                        },
                        declared,
                    ),
                )
            },
        }
    }
}

/// The finished graph of a manifest and a lock file, with the map of what
/// the manifest declares; else the reason why there is none.
pub open spec fn finished_graph(cfg: ConfigView, manifest: Tree, lock: Tree) -> Result<
    (GraphView, Map<Seq<char>, Seq<DepKind>>),
    Seq<char>,
> {
    match root_identity(manifest) {
        Err(reason) => Err(reason),
        Ok((name, version)) => assembled(
            cfg,
            lock,
            root_view(name, version, declared_deps(manifest, cfg), cfg.filter),
        ),
    }
}

/// What reading the two texts gives: the finished graph of the two
/// documents; an error where a text is nested too deeply or is no document,
/// the lock file being read only when the manifest has given the root.
pub open spec fn is_graph_of_texts(
    r: CliResult<(DepGraph, DeclaredDepsMap)>,
    cfg: ConfigView,
    manifest: Seq<char>,
    lock: Seq<char>,
) -> bool {
    if nesting(manifest) > MAX_NESTING {
        r matches Err(CliError::Nesting)
    } else {
        match toml_document(manifest) {
            None => r matches Err(CliError::Parse(_)),
            Some(m) => match root_identity(m) {
                Err(reason) => r matches Err(CliError::Toml(msg)) && msg@ == reason,
                Ok(_) => if nesting(lock) > MAX_NESTING {
                    r matches Err(CliError::Nesting)
                } else {
                    match toml_document(lock) {
                        None => r matches Err(CliError::Parse(_)),
                        Some(l) => is_finished(r, cfg, finished_graph(cfg, m, l)),
                    }
                },
            },
        }
    }
}

/// Whether `r` is the graph of the lock file under these settings, or, where
/// a package record of the lock file cannot be read, the error that says so.
pub open spec fn is_lock_graph(r: CliResult<DepGraph>, cfg: ConfigView, lock: Tree, root: RootView) -> bool {
    if well_formed_lock(lock, root.filter, root.name) {
        r matches Ok(dg) && dg.cfg@ == cfg && dg@ == lock_graph(lock, root)
    } else {
        r matches Err(CliError::Toml(m)) && m@ == "Malformed package record in the lock file"@
    }
}

/// Whether `r` is what `expected` says, the graph and the map taken as plain values.
pub open spec fn is_finished(
    r: CliResult<(DepGraph, DeclaredDepsMap)>,
    cfg: ConfigView,
    expected: Result<(GraphView, Map<Seq<char>, Seq<DepKind>>), Seq<char>>,
) -> bool {
    match expected {
        Ok((g, declared)) => r matches Ok(got) && got.0@ == g && got.0.cfg@ == cfg && got.1@
            == declared,
        Err(reason) => r matches Err(CliError::Toml(m)) && m@ == reason,
    }
}

/// Whether `r` is the declarations and the root identity that the manifest gives.
pub open spec fn is_root_deps(
    r: CliResult<(Vec<DeclaredDep>, String, String)>,
    manifest: Tree,
    cfg: ConfigView,
) -> bool {
    match root_identity(manifest) {
        Ok((name, version)) => r matches Ok(got) && dep_views(got.0@) == declared_deps(
            manifest,
            cfg,
        ) && got.1@ == name && got.2@ == version,
        Err(reason) => r matches Err(CliError::Toml(m)) && m@ == reason,
    }
}

/// Reads manifests and lock files under one set of settings.
#[derive(Debug)]
pub struct Project {
    cfg: Config,
}

impl View for Project {
    type V = ConfigView;

    closed spec fn view(&self) -> ConfigView {
        self.cfg@
    }
}

fn toml_error<T>(reason: &str) -> (r: CliResult<T>)
    ensures
        r matches Err(CliError::Toml(m)) && m@ == reason@,
{
    Err(CliError::Toml(reason.to_owned()))
}

/// Tells whether one of the declarations is of this name.
pub fn declares_name(deps: &[DeclaredDep], name: &String) -> (found: bool)
    ensures
        found == names_declared(dep_views(deps@), name@),
{
    let mut i: usize = 0;
    while i < deps.len()
        invariant
            i <= deps.len(),
            forall|j: int| 0 <= j < i ==> (#[trigger] dep_views(deps@)[j]).0 != name@,
        decreases deps.len() - i,
    {
        if deps[i].name == *name {
            assert(dep_views(deps@)[i as int].0 == name@);
            return true;
        }
        i += 1;
    }
    false
}

/// Appends what the entries of the `dependencies` section declare.
fn push_regular(declared: &mut Vec<DeclaredDep>, entries: &Vec<Entry>, cfg: &Config)
    ensures
        dep_views(final(declared)@) == dep_views(old(declared)@) + regular_section(
            DocValue::Table(*entries)@.entries(),
            cfg@,
            entries@.len() as int,
        ),
{
    proof {
        lemma_table_view(*entries);
    }
    let ghost seen = DocValue::Table(*entries)@.entries();
    let ghost base = dep_views(declared@);
    let mut i: usize = 0;
    assert(dep_views(declared@) =~= base + regular_section(seen, cfg@, 0));
    while i < entries.len()
        invariant
            i <= entries.len(),
            seen.len() == entries@.len(),
            forall|k: int|
                0 <= k < entries@.len() ==> (#[trigger] seen[k]) == (
                    entries@[k].key@,
                    entries@[k].value@,
                ),
            dep_views(declared@) == base + regular_section(seen, cfg@, i as int),
        decreases entries.len() - i,
    {
        let entry = &entries[i];
        let optional = match entry.value.get("optional") {
            Some(v) => v.is_true(),
            None => false,
        };
        assert(optional == is_optional(seen[i as int].1));
        let ghost before = dep_views(declared@);
        if optional {
            if cfg.optional_deps {
                declared.push(DeclaredDep::with_kind(entry.key.clone(), DepKind::Optional));
                assert(dep_views(declared@) =~= before.push((seen[i as int].0, DepKind::Optional)));
            }
        } else if cfg.regular_deps {
            declared.push(DeclaredDep::with_kind(entry.key.clone(), DepKind::Regular));
            assert(dep_views(declared@) =~= before.push((seen[i as int].0, DepKind::Regular)));
        }
        assert(dep_views(declared@) =~= base + regular_section(seen, cfg@, i + 1));
        i += 1;
    }
}

/// Appends one declaration of `kind` for every entry.
fn push_plain(declared: &mut Vec<DeclaredDep>, entries: &Vec<Entry>, kind: DepKind)
    ensures
        dep_views(final(declared)@) == dep_views(old(declared)@) + plain_section(
            DocValue::Table(*entries)@.entries(),
            kind,
            entries@.len() as int,
        ),
{
    proof {
        lemma_table_view(*entries);
    }
    let ghost seen = DocValue::Table(*entries)@.entries();
    let ghost base = dep_views(declared@);
    let mut i: usize = 0;
    assert(dep_views(declared@) =~= base + plain_section(seen, kind, 0));
    while i < entries.len()
        invariant
            i <= entries.len(),
            seen.len() == entries@.len(),
            forall|k: int|
                0 <= k < entries@.len() ==> (#[trigger] seen[k]) == (
                    entries@[k].key@,
                    entries@[k].value@,
                ),
            dep_views(declared@) == base + plain_section(seen, kind, i as int),
        decreases entries.len() - i,
    {
        let ghost before = dep_views(declared@);
        declared.push(DeclaredDep::with_kind(entries[i].key.clone(), kind));
        assert(dep_views(declared@) =~= before.push((seen[i as int].0, kind)));
        assert(dep_views(declared@) =~= base + plain_section(seen, kind, i + 1));
        i += 1;
    }
}

/// Appends a whole section in which every entry is of one kind, if it is wanted.
fn push_section(
    declared: &mut Vec<DeclaredDep>,
    manifest: &DocValue,
    name: &str,
    kind: DepKind,
    wanted: bool,
)
    ensures
        dep_views(final(declared)@) == dep_views(old(declared)@) + whole_section(
            manifest@,
            name@,
            kind,
            wanted,
        ),
{
    if wanted {
        if let Some(table) = manifest.get(name) {
            if let Some(entries) = table.as_table() {
                push_plain(declared, entries, kind);
                return ;
            }
        }
    }
    assert(dep_views(declared@) =~= dep_views(old(declared)@) + whole_section(
        manifest@,
        name@,
        kind,
        wanted,
    ));
}

impl Project {
    /// A reader under the given settings.
    pub fn with_config(cfg: Config) -> (r: CliResult<Self>)
        ensures
            r matches Ok(project) && project@ == cfg@,
    {
        Ok(Project { cfg })
    }

    /// The dependencies that the manifest declares, with the name and the
    /// version of the root package.
    pub fn parse_root_deps(&self, manifest: &DocValue) -> (r: CliResult<
        (Vec<DeclaredDep>, String, String),
    >)
        ensures
            is_root_deps(r, manifest@, self@),
    {
        let (root_name, root_version) = match manifest.get("package") {
            Some(package) => {
                if package.as_table().is_some() {
                    let name = match package.get("name") {
                        Some(v) => v.as_str(),
                        None => None,
                    };
                    let version = match package.get("version") {
                        Some(v) => v.as_str(),
                        None => None,
                    };
                    match (name, version) {
                        (Some(name), Some(version)) => (name.to_owned(), version.to_owned()),
                        _ => {
                            return toml_error("No name for 'package'");
                        },
                    }
                } else {
                    return toml_error("Could not parse 'package' as a table");
                }
            },
            None => {
                return toml_error("No 'package' table found");
            },
        };
        let mut declared: Vec<DeclaredDep> = Vec::new();
        if let Some(table) = manifest.get("dependencies") {
            if let Some(entries) = table.as_table() {
                push_regular(&mut declared, entries, &self.cfg);
            }
        }
        let ghost regular = regular_section(
            section(manifest@, "dependencies"@),
            self@,
            section(manifest@, "dependencies"@).len() as int,
        );
        assert(dep_views(declared@) =~= regular);
        push_section(
            &mut declared,
            manifest,
            "build-dependencies",
            DepKind::Build,
            self.cfg.build_deps,
        );
        push_section(&mut declared, manifest, "dev-dependencies", DepKind::Dev, self.cfg.dev_deps);
        assert(dep_views(declared@) =~= declared_deps(manifest@, self@));
        Ok((declared, root_name, root_version))
    }

    /// The graph that the lock file describes, as far as the filter lets it
    /// in; an error where a package record of the lock file cannot be read.
    pub fn parse_lock_file(
        &self,
        lock: &DocValue,
        root_deps: &[DeclaredDep],
        name: &str,
        ver: &str,
    ) -> (r: CliResult<DepGraph>)
        ensures
            is_lock_graph(
                r,
                self@,
                lock@,
                root_view(name@, ver@, dep_views(root_deps@), self@.filter),
            ),
    {
        let ghost root = root_view(name@, ver@, dep_views(root_deps@), self@.filter);
        let ghost packages = lock_packages(lock@);
        let ghost empty = GraphView { nodes: Seq::empty(), edges: Seq::empty() };
        let mut dg = DepGraph::new(self.cfg.clone());
        assert(dg@.nodes =~= empty.nodes && dg@.edges =~= empty.edges);
        assert(dg@ == with_packages(empty, packages, 0, root));
        let mut read: usize = 0;
        if let Some(root_pkg) = lock.get("root") {
            assert(packages[0] == root_pkg@);
            if !package_is_well_formed(root_pkg, &self.cfg.filter, name) {
                return toml_error("Malformed package record in the lock file");
            }
            parse_package(&mut dg, root_pkg, root_deps, name, ver);
            read = 1;
            assert(dg@ == with_packages(empty, packages, 1, root)) by {
                reveal_with_fuel(with_packages, 2);
            }
        }
        assert(dg@ == with_packages(empty, packages, read as int, root));
        if let Some(list) = lock.get("package") {
            if let Some(items) = list.as_array() {
                proof {
                    lemma_array_view(*items);
                }
                assert(packages.len() == read + items@.len());
                let mut i: usize = 0;
                while i < items.len()
                    invariant
                        i <= items.len(),
                        read <= 1,
                        packages == lock_packages(lock@),
                        packages.len() == read + items@.len(),
                        forall|k: int|
                            0 <= k < items@.len() ==> (#[trigger] packages[read + k]) == items@[k]@,
                        forall|k: int|
                            0 <= k < read + i ==> well_formed_package(
                                #[trigger] packages[k],
                                self@.filter,
                                name@,
                            ),
                        dg.cfg@ == self@,
                        root == root_view(name@, ver@, dep_views(root_deps@), self@.filter),
                        dg@ == with_packages(empty, packages, read + i, root),
                    decreases items.len() - i,
                {
                    assert(packages[read + i] == items@[i as int]@);
                    if !package_is_well_formed(&items[i], &self.cfg.filter, name) {
                        return toml_error("Malformed package record in the lock file");
                    }
                    parse_package(&mut dg, &items[i], root_deps, name, ver);
                    i += 1;
                }
            }
        }
        Ok(dg)
    }

    /// Builds the finished graph from what the manifest gave and the lock file.
    fn assemble(
        self,
        lock: &DocValue,
        root_deps: Vec<DeclaredDep>,
        root_name: String,
        root_version: String,
    ) -> (r: CliResult<(DepGraph, DeclaredDepsMap)>)
        ensures
            is_finished(
                r,
                self@,
                assembled(
                    self@,
                    lock@,
                    root_view(root_name@, root_version@, dep_views(root_deps@), self@.filter),
                ),
            ),
    {
        let mut dg = match self.parse_lock_file(
            lock,
            root_deps.as_slice(),
            root_name.as_str(),
            root_version.as_str(),
        ) {
            Ok(dg) => dg,
            Err(e) => {
                return Err(e);
            },
        };
        if !dg.set_root(root_name.as_str(), root_version.as_str()) {
            return toml_error("Missing name or version");
        }
        let root_deps_map = DeclaredDepsMap::from_deps(&root_deps);
        dg.set_resolved_kind(&root_deps_map);
        if !self.cfg.include_vers {
            dg.show_version_on_duplicates();
        }
        Ok((dg, root_deps_map))
    }

    /// The finished graph of a manifest and a lock file that have been read
    /// as documents, with the map of what the manifest declares.
    pub fn graph_from(self, manifest: &DocValue, lock: &DocValue) -> (r: CliResult<
        (DepGraph, DeclaredDepsMap),
    >)
        ensures
            is_finished(r, self@, finished_graph(self@, manifest@, lock@)),
    {
        match self.parse_root_deps(manifest) {
            Ok((root_deps, root_name, root_version)) => self.assemble(
                lock,
                root_deps,
                root_name,
                root_version,
            ),
            Err(e) => Err(e),
        }
    }

    /// The finished graph of a manifest and a lock file, given as texts, with
    /// the map of what the manifest declares.
    pub fn graph(self, manifest: &str, lock: &str) -> (r: CliResult<(DepGraph, DeclaredDepsMap)>)
        ensures
            is_graph_of_texts(r, self@, manifest@, lock@),
    {
        let manifest_doc = match toml_from_str(manifest) {
            Ok(doc) => doc,
            Err(e) => {
                return Err(e);
            },
        };
        let (root_deps, root_name, root_version) = match self.parse_root_deps(&manifest_doc) {
            Ok(found) => found,
            Err(e) => {
                return Err(e);
            },
        };
        let lock_doc = match toml_from_str(lock) {
            Ok(doc) => doc,
            Err(e) => {
                return Err(e);
            },
        };
        self.assemble(&lock_doc, root_deps, root_name, root_version)
    }
}

/// Tells whether each dependency that the record lists is well formed.
fn references_are_well_formed(pkg: &DocValue) -> (ok: bool)
    ensures
        ok == well_formed_references(pkg@),
{
    if let Some(list) = pkg.get("dependencies") {
        if let Some(items) = list.as_array() {
            proof {
                lemma_array_view(*items);
            }
            let ghost references = package_references(pkg@);
            let mut i: usize = 0;
            while i < items.len()
                invariant
                    i <= items.len(),
                    references == package_references(pkg@),
                    references.len() == items@.len(),
                    forall|k: int| 0 <= k < items@.len() ==> (#[trigger] references[k]) == items@[k]@,
                    forall|k: int|
                        0 <= k < i ==> (#[trigger] references[k]) is String && has_space(
                            reference_text(references[k]),
                        ),
                decreases items.len() - i,
            {
                let spaced = match items[i].as_str() {
                    Some(text) => split_at_space(text).is_some(),
                    None => false,
                };
                if !spaced {
                    assert(!(references[i as int] is String && has_space(
                        reference_text(references[i as int]),
                    )));
                    return false;
                }
                i += 1;
            }
        }
    }
    true
}

/// Tells whether a package record can be read as far as it is read under
/// this filter: whether it gives a name and a version and, unless the filter
/// leaves the package out, lists well-formed dependencies.
pub fn package_is_well_formed(pkg: &DocValue, filter: &Option<Vec<String>>, root_name: &str) -> (ok:
    bool)
    ensures
        ok == well_formed_package(pkg@, opt_texts(*filter), root_name@),
{
    let name = match pkg.get("name") {
        Some(v) => v.as_str(),
        None => None,
    };
    let version = match pkg.get("version") {
        Some(v) => v.as_str(),
        None => None,
    };
    match (name, version) {
        (Some(name), Some(_)) => {
            let name_owned = name.to_owned();
            let root_name_owned = root_name.to_owned();
            let left_out = match filter {
                Some(names) => !(name_owned == root_name_owned) && !contains_name(
                    names,
                    &name_owned,
                ),
                None => false,
            };
            assert(left_out == !let_in(package_name(pkg@), opt_texts(*filter), root_name@));
            left_out || references_are_well_formed(pkg)
        },
        _ => false,
    }
}

/// Reads one package record into the graph: the package becomes a node,
/// unless the filter leaves it out, and each of its dependencies a child of
/// it, unless the filter leaves that out or the package is the root and the
/// manifest does not declare the dependency. Of a package that the filter
/// leaves out nothing but the name is read.
pub fn parse_package(
    dg: &mut DepGraph,
    pkg: &DocValue,
    root_deps: &[DeclaredDep],
    root_name: &str,
    root_version: &str,
)
    requires
        well_formed_package(pkg@, old(dg).cfg@.filter, root_name@),
    ensures
        final(dg)@ == with_package(
            old(dg)@,
            pkg@,
            root_view(root_name@, root_version@, dep_views(root_deps@), old(dg).cfg@.filter),
        ),
        final(dg).cfg == old(dg).cfg,
{
    let ghost root = root_view(root_name@, root_version@, dep_views(root_deps@), dg.cfg@.filter);
    let name = pkg.get("name").unwrap().as_str().unwrap().to_owned();
    let ver = pkg.get("version").unwrap().as_str().unwrap().to_owned();
    let root_name_owned = root_name.to_owned();
    let root_version_owned = root_version.to_owned();
    let filter = clone_opt_strings(&dg.cfg.filter);
    assert(opt_texts(filter) == root.filter);
    if let Some(filter_deps) = &filter {
        if !(name == root_name_owned) && !contains_name(filter_deps, &name) {
            return ;
        }
    }
    let from_root = name == root_name_owned && ver == root_version_owned;
    let id = dg.find_or_add(name.as_str(), ver.as_str());
    let ghost added = dg@;
    if let Some(list) = pkg.get("dependencies") {
        if let Some(deps) = list.as_array() {
            proof {
                lemma_array_view(*deps);
            }
            let ghost references = package_references(pkg@);
            let mut i: usize = 0;
            while i < deps.len()
                invariant
                    i <= deps.len(),
                    references == package_references(pkg@),
                    references.len() == deps@.len(),
                    forall|k: int| 0 <= k < deps@.len() ==> (#[trigger] references[k]) == deps@[k]@,
                    well_formed_references(pkg@),
                    opt_texts(filter) == root.filter,
                    root.deps == dep_views(root_deps@),
                    dg.cfg == old(dg).cfg,
                    dg@ == with_dependencies(added, id, references, i as int, root, from_root),
                decreases deps.len() - i,
            {
                assert(references[i as int] is String && has_space(
                    reference_text(references[i as int]),
                ));
                let text = deps[i].as_str().unwrap();
                let (dep_name, rest) = split_at_space(text).unwrap();
                let dep_ver = match split_at_space(rest) {
                    Some((version, _)) => version,
                    None => rest,
                };
                let dep_name_owned = dep_name.to_owned();
                let filtered_out = match &filter {
                    Some(filter_deps) => !contains_name(filter_deps, &dep_name_owned),
                    None => false,
                };
                let undeclared = from_root && !declares_name(root_deps, &dep_name_owned);
                if !filtered_out && !undeclared {
                    dg.add_child(id, dep_name, dep_ver);
                }
                i += 1;
            }
        }
    }
}

} // verus!
