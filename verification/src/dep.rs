use crate::config::Config;
use vstd::prelude::*;

verus! {

/// The category under which a dependency is declared or reached.
#[derive(Debug, Clone, Copy, PartialEq, Eq, Structural)]
pub enum DepKind {
    Regular,
    Build,
    Dev,
    Optional,
    Unknown,
}

/// A dependency as the manifest declares it: a name and the section it stands in.
#[derive(Debug, PartialEq, Eq)]
pub struct DeclaredDep {
    pub name: String,
    pub kind: DepKind,
}

impl DeclaredDep {
    /// The declaration of `name` under `kind`.
    pub fn with_kind(name: String, kind: DepKind) -> (dep: Self)
        ensures
            dep.name == name,
            dep.kind == kind,
    {
        DeclaredDep { name, kind }
    }
}

/// What a node of the graph is, as plain values.
pub struct NodeView {
    pub name: Seq<char>,
    pub ver: Seq<char>,
    pub force_write_ver: bool,
    pub is_regular: bool,
    pub is_build: bool,
    pub is_dev: bool,
    pub is_optional: bool,
}

impl NodeView {
    /// A node as it is created: no flag set.
    pub open spec fn fresh(name: Seq<char>, ver: Seq<char>) -> NodeView {
        NodeView {
            name,
            ver,
            force_write_ver: false,
            is_regular: false,
            is_build: false,
            is_dev: false,
            is_optional: false,
        }
    }

    /// Whether the flag of `kind` is set. No node carries a flag for `Unknown`.
    pub open spec fn has(self, kind: DepKind) -> bool {
        match kind {
            DepKind::Regular => self.is_regular,
            DepKind::Build => self.is_build,
            DepKind::Dev => self.is_dev,
            DepKind::Optional => self.is_optional,
            DepKind::Unknown => false,
        }
    }

    /// The one kind a node is drawn with: the first flag set, in the order
    /// regular, build, dev, optional; `Unknown` if none is.
    pub open spec fn kind(self) -> DepKind {
        if self.is_regular {
            DepKind::Regular
        } else if self.is_build {
            DepKind::Build
        } else if self.is_dev {
            DepKind::Dev
        } else if self.is_optional {
            DepKind::Optional
        } else {
            DepKind::Unknown
        }
    }
}

/// The colour that a node of this kind is filled with.
pub open spec fn fill_color(kind: DepKind) -> Seq<char> {
    match kind {
        DepKind::Regular => "white"@,
        DepKind::Build => "plum"@,
        DepKind::Dev => "lightblue"@,
        DepKind::Optional => "lightpink"@,
        DepKind::Unknown => "orange"@,
    }
}

/// What a node is called in the drawing: its name, and its version too where
/// versions are shown everywhere or this node must show its own.
pub open spec fn node_caption(node: NodeView, include_vers: bool) -> Seq<char> {
    if include_vers || node.force_write_ver {
        node.name + " v"@ + node.ver
    } else {
        node.name
    }
}

/// The attributes of node `id` and the end of its line. The root, node 0, is
/// a box filled with a colour of its own; every other node is filled with the
/// colour of its kind. The name goes between the quotes as it is.
pub open spec fn node_label(node: NodeView, include_vers: bool, id: int) -> Seq<char> {
    " [label=\""@ + node_caption(node, include_vers) + "\""@ + if id == 0 {
        ", shape=box, style=filled, fillcolor=lightgrey"@
    } else {
        ", style=filled, fillcolor="@ + fill_color(node.kind())
    } + "];\n"@
}

/// A resolved package: one node of the graph.
#[derive(Debug, PartialEq, Eq)]
pub struct ResolvedDep {
    pub name: String,
    pub ver: String,
    pub force_write_ver: bool,
    pub is_regular: bool,
    pub is_build: bool,
    pub is_dev: bool,
    pub is_optional: bool,
}

impl View for ResolvedDep {
    type V = NodeView;

    open spec fn view(&self) -> NodeView {
        NodeView {
            name: self.name@,
            ver: self.ver@,
            force_write_ver: self.force_write_ver,
            is_regular: self.is_regular,
            is_build: self.is_build,
            is_dev: self.is_dev,
            is_optional: self.is_optional,
        }
    }
}

impl ResolvedDep {
    /// A node for the package of this name and version, with no flag set.
    pub fn new(name: String, ver: String) -> (dep: Self)
        ensures
            dep@ == NodeView::fresh(name@, ver@),
    {
        ResolvedDep {
            name,
            ver,
            force_write_ver: false,
            is_regular: false,
            is_build: false,
            is_dev: false,
            is_optional: false,
        }
    }

    /// The one kind that the node is drawn with: regular before build before
    /// dev before optional, `Unknown` where no flag is set.
    pub fn kind(&self) -> (kind: DepKind)
        ensures
            kind == self@.kind(),
    {
        if self.is_regular {
            DepKind::Regular
        } else if self.is_build {
            DepKind::Build
        } else if self.is_dev {
            DepKind::Dev
        } else if self.is_optional {
            DepKind::Optional
        } else {
            DepKind::Unknown
        }
    }

    /// Appends to `w` the attributes of this node, which has the id `i`, and
    /// the end of its line.
    pub fn label(&self, w: &mut String, cfg: &Config, i: usize)
        ensures
            final(w)@ == old(w)@ + node_label(self@, cfg@.include_vers, i as int),
    {
        w.append(" [label=\"");
        w.append(self.name.as_str());
        if cfg.include_vers || self.force_write_ver {
            w.append(" v");
            w.append(self.ver.as_str());
        }
        w.append("\"");
        if i == 0 {
            w.append(", shape=box, style=filled, fillcolor=lightgrey");
        } else {
            w.append(", style=filled, fillcolor=");
            w.append(
                match self.kind() {
                    DepKind::Regular => "white",
                    DepKind::Build => "plum",
                    DepKind::Dev => "lightblue",
                    DepKind::Optional => "lightpink",
                    DepKind::Unknown => "orange",
                },
            );
        }
        w.append("];\n");
        assert(w@ =~= old(w)@ + node_label(self@, cfg@.include_vers, i as int));
    }
}

} // verus!
