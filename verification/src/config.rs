use crate::error::CliResult;
use crate::text::texts;
use vstd::prelude::*;

verus! {

/// What the command line gave, before any default is applied: for each flag
/// whether it is present, for each option its value or values.
#[derive(Debug)]
pub struct Matches {
    pub all_deps: bool,
    pub build_deps: bool,
    pub dev_deps: bool,
    pub optional_deps: bool,
    pub no_regular_deps: bool,
    pub include_orphans: bool,
    pub include_versions: bool,
    pub dot_file: Option<String>,
    pub manifest_path: Option<String>,
    pub filter: Option<Vec<String>>,
    pub subgraph: Option<Vec<String>>,
    pub subgraph_name: Option<String>,
}

/// The settings of one run.
#[derive(Debug)]
pub struct Config {
    pub dot_file: Option<String>,
    pub filter: Option<Vec<String>>,
    pub include_orphans: bool,
    pub include_vers: bool,
    pub manifest_path: String,
    pub subgraph: Option<Vec<String>>,
    pub subgraph_name: Option<String>,
    pub regular_deps: bool,
    pub build_deps: bool,
    pub dev_deps: bool,
    pub optional_deps: bool,
}

/// A `Config` as plain values.
pub struct ConfigView {
    pub dot_file: Option<Seq<char>>,
    pub filter: Option<Seq<Seq<char>>>,
    pub include_orphans: bool,
    pub include_vers: bool,
    pub manifest_path: Seq<char>,
    pub subgraph: Option<Seq<Seq<char>>>,
    pub subgraph_name: Option<Seq<char>>,
    pub regular_deps: bool,
    pub build_deps: bool,
    pub dev_deps: bool,
    pub optional_deps: bool,
}

/// The text of an optional string.
pub open spec fn opt_text(s: Option<String>) -> Option<Seq<char>> {
    match s {
        Some(s) => Some(s@),
        None => None,
    }
}

/// The texts of an optional list of strings.
pub open spec fn opt_texts(names: Option<Vec<String>>) -> Option<Seq<Seq<char>>> {
    match names {
        Some(names) => Some(texts(names@)),
        None => None,
    }
}

impl View for Config {
    type V = ConfigView;

    open spec fn view(&self) -> ConfigView {
        ConfigView {
            dot_file: opt_text(self.dot_file),
            filter: opt_texts(self.filter),
            include_orphans: self.include_orphans,
            include_vers: self.include_vers,
            manifest_path: self.manifest_path@,
            subgraph: opt_texts(self.subgraph),
            subgraph_name: opt_text(self.subgraph_name),
            regular_deps: self.regular_deps,
            build_deps: self.build_deps,
            dev_deps: self.dev_deps,
            optional_deps: self.optional_deps,
        }
    }
}

impl Matches {
    /// The settings that these matches ask for. The manifest is `Cargo.toml`
    /// unless a path was given; regular dependencies are read unless switched
    /// off; each other section is read if named or if all were asked for.
    pub open spec fn config(self) -> ConfigView {
        ConfigView {
            dot_file: opt_text(self.dot_file),
            filter: opt_texts(self.filter),
            include_orphans: self.include_orphans,
            include_vers: self.include_versions,
            manifest_path: match self.manifest_path {
                Some(p) => p@,
                None => "Cargo.toml"@,
            },
            subgraph: opt_texts(self.subgraph),
            subgraph_name: opt_text(self.subgraph_name),
            regular_deps: !self.no_regular_deps,
            build_deps: self.all_deps || self.build_deps,
            dev_deps: self.all_deps || self.dev_deps,
            optional_deps: self.all_deps || self.optional_deps,
        }
    }
}

fn clone_opt_string(s: &Option<String>) -> (r: Option<String>)
    ensures
        opt_text(r) == opt_text(*s),
{
    match s {
        Some(s) => Some(s.clone()),
        None => None,
    }
}

pub(crate) fn clone_opt_strings(names: &Option<Vec<String>>) -> (r: Option<Vec<String>>)
    ensures
        opt_texts(r) == opt_texts(*names),
{
    match names {
        Some(names) => {
            let copy = names.clone();
            assert(texts(copy@) =~= texts(names@));
            Some(copy)
        },
        None => None,
    }
}

impl Config {
    /// The settings that the command line asks for.
    pub fn from_matches(m: &Matches) -> (r: CliResult<Self>)
        ensures
            r matches Ok(cfg) && cfg@ == m.config(),
    {
        let manifest_path = match &m.manifest_path {
            Some(p) => p.clone(),
            None => "Cargo.toml".to_owned(),
        };
        Ok(
            Config {
                dot_file: clone_opt_string(&m.dot_file),
                filter: clone_opt_strings(&m.filter),
                include_orphans: m.include_orphans,
                include_vers: m.include_versions,
                manifest_path,
                subgraph: clone_opt_strings(&m.subgraph),
                subgraph_name: clone_opt_string(&m.subgraph_name),
                regular_deps: !m.no_regular_deps,
                build_deps: m.all_deps || m.build_deps,
                dev_deps: m.all_deps || m.dev_deps,
                optional_deps: m.all_deps || m.optional_deps,
            },
        )
    }
}

impl Clone for Config {
    fn clone(&self) -> (copy: Self)
        ensures
            copy@ == self@,
    {
        Config {
            dot_file: clone_opt_string(&self.dot_file),
            filter: clone_opt_strings(&self.filter),
            include_orphans: self.include_orphans,
            include_vers: self.include_vers,
            manifest_path: self.manifest_path.clone(),
            subgraph: clone_opt_strings(&self.subgraph),
            subgraph_name: clone_opt_string(&self.subgraph_name),
            regular_deps: self.regular_deps,
            build_deps: self.build_deps,
            dev_deps: self.dev_deps,
            optional_deps: self.optional_deps,
        }
    }
}

} // verus!
