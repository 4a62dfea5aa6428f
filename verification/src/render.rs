use crate::config::{Config, ConfigView};
use crate::declared::{declared_kind, DeclaredDepsMap};
use crate::dep::{node_label, DepKind, NodeView, ResolvedDep};
use crate::edges::{
    lemma_filter_sorted, lemma_sorted_edges, lemma_sorted_edges_is, sort_dedup, sorted_edges,
    strictly_sorted,
};
use crate::error::CliResult;
use crate::graph::{edge_in_range, DepGraph, Edge, GraphView};
use crate::prune::{
    in_range_edges, lemma_no_self_loops, lemma_pruned_fixed, lemma_pruned_orphan_free,
    lemma_pruned_sorted, orphan_free, pruned, without_self_loops,
};
use crate::text::{contains_name, decimal, names_contain, push_decimal};
use vstd::prelude::*;

verus! {

/// The kind that an edge is drawn with, between a node of kind `parent` and
/// one of kind `child`: regular where both are; else the first of build, dev,
/// optional, unknown that either of them is.
pub open spec fn edge_kind(parent: DepKind, child: DepKind) -> DepKind {
    if parent == DepKind::Build || child == DepKind::Build {
        DepKind::Build
    } else if parent == DepKind::Dev || child == DepKind::Dev {
        DepKind::Dev
    } else if parent == DepKind::Optional || child == DepKind::Optional {
        DepKind::Optional
    } else if parent == DepKind::Unknown || child == DepKind::Unknown {
        DepKind::Unknown
    } else {
        DepKind::Regular
    }
}

/// The attributes of an edge of this kind and the end of its line: nothing
/// for a regular edge, a colour and a dashed line for any other.
pub open spec fn edge_style(kind: DepKind) -> Seq<char> {
    match kind {
        DepKind::Regular => ";\n"@,
        DepKind::Build => " [color=purple, style=dashed];\n"@,
        DepKind::Dev => " [color=blue, style=dashed];\n"@,
        DepKind::Optional => " [color=red, style=dashed];\n"@,
        DepKind::Unknown => " [color=orange, style=dashed];\n"@,
    }
}

/// The kind that the edge's target counts as on this edge. On an edge from
/// the root it is what the manifest declares of the target's name, whatever
/// else has arrived at the target; on every other edge it is the target's
/// own kind.
pub open spec fn child_kind(
    g: GraphView,
    declared: Map<Seq<char>, Seq<DepKind>>,
    e: Edge,
) -> DepKind {
    if e.0 == 0 {
        declared_kind(declared, g.nodes[e.1 as int].name)
    } else {
        g.nodes[e.1 as int].kind()
    }
}

/// The attributes of the edge and the end of its line.
pub open spec fn edge_label(
    g: GraphView,
    declared: Map<Seq<char>, Seq<DepKind>>,
    e: Edge,
) -> Seq<char> {
    edge_style(edge_kind(g.nodes[e.0 as int].kind(), child_kind(g, declared, e)))
}

/// The edge as the drawing names it.
pub open spec fn edge_text(e: Edge) -> Seq<char> {
    "n"@ + decimal(e.0 as nat) + " -> n"@ + decimal(e.1 as nat)
}

/// Whether the node is drawn inside the subgraph.
pub open spec fn in_subgraph(cfg: ConfigView, node: NodeView) -> bool {
    cfg.subgraph matches Some(names) && names_contain(names, node.name)
}

/// The line that declares node `id`, indented once outside the subgraph and
/// twice inside it.
pub open spec fn node_line(node: NodeView, cfg: ConfigView, id: int, inside: bool) -> Seq<char> {
    (if inside {
        "\t\tn"@
    } else {
        "\tn"@
    }) + decimal(id as nat) + node_label(node, cfg.include_vers, id)
}

/// The lines of those of the first `upto` nodes that are drawn inside the
/// subgraph, or of those that are drawn outside it.
pub open spec fn node_lines(nodes: Seq<NodeView>, cfg: ConfigView, upto: int, inside: bool) -> Seq<
    char,
>
    decreases upto,
{
    if upto <= 0 {
        Seq::empty()
    } else if in_subgraph(cfg, nodes[upto - 1]) == inside {
        node_lines(nodes, cfg, upto - 1, inside) + node_line(nodes[upto - 1], cfg, upto - 1, inside)
    } else {
        node_lines(nodes, cfg, upto - 1, inside)
    }
}

/// The block of the subgraph, if one is asked for: a dashed brown frame, with
/// its label if it has one, around the nodes that belong in it.
pub open spec fn subgraph_block(nodes: Seq<NodeView>, cfg: ConfigView) -> Seq<char> {
    if cfg.subgraph is Some {
        "\tsubgraph cluster_subgraph {\n"@ + (match cfg.subgraph_name {
            Some(name) => "\t\tlabel=\""@ + name + "\";\n"@,
            None => Seq::empty(),
        }) + "\t\tcolor=brown;\n"@ + "\t\tstyle=dashed;\n"@ + "\n"@ + node_lines(
            nodes,
            cfg,
            nodes.len() as int,
            true,
        ) + "\t}\n\n"@
    } else {
        Seq::empty()
    }
}

/// The line of one edge.
pub open spec fn edge_line(
    g: GraphView,
    declared: Map<Seq<char>, Seq<DepKind>>,
    e: Edge,
) -> Seq<char> {
    "\t"@ + edge_text(e) + edge_label(g, declared, e)
}

/// The lines of the first `upto` edges.
pub open spec fn edge_lines(
    g: GraphView,
    declared: Map<Seq<char>, Seq<DepKind>>,
    upto: int,
) -> Seq<char>
    decreases upto,
{
    if upto <= 0 {
        Seq::empty()
    } else {
        edge_lines(g, declared, upto - 1) + edge_line(g, declared, g.edges[upto - 1])
    }
}

/// The drawing of a graph as it stands: the nodes outside the subgraph, the
/// subgraph, then the edges.
pub open spec fn drawing(
    g: GraphView,
    cfg: ConfigView,
    declared: Map<Seq<char>, Seq<DepKind>>,
) -> Seq<char> {
    "digraph dependencies {\n"@ + node_lines(g.nodes, cfg, g.nodes.len() as int, false) + "\n"@
        + subgraph_block(g.nodes, cfg) + edge_lines(g, declared, g.edges.len() as int) + "}\n"@
}

/// The graph as it is drawn: the edges in order and each once, without those
/// that leave the graph; without the orphans unless they are to be shown; and
/// then without the edges from a node to itself.
pub open spec fn normalized(g: GraphView, include_orphans: bool) -> GraphView {
    let tidy = GraphView {
        nodes: g.nodes,
        edges: in_range_edges(sorted_edges(g.edges), g.nodes.len()),
    };
    let kept = if include_orphans {
        tidy
    } else {
        pruned(tidy)
    };
    GraphView { nodes: kept.nodes, edges: without_self_loops(kept.edges) }
}

/// Whether every edge joins two nodes of the graph.
pub open spec fn edges_in_range(g: GraphView) -> bool {
    forall|j: int| 0 <= j < g.edges.len() ==> edge_in_range(#[trigger] g.edges[j], g.nodes.len())
}

/// Whether the graph is in the order in which it is drawn: its edges ascend,
/// each joins two different nodes of the graph, and, unless orphans are
/// shown, it has none.
pub open spec fn is_normalized(g: GraphView, include_orphans: bool) -> bool {
    &&& strictly_sorted(g.edges)
    &&& edges_in_range(g)
    &&& forall|j: int| 0 <= j < g.edges.len() ==> (#[trigger] g.edges[j]).0 != g.edges[j].1
    &&& !include_orphans ==> orphan_free(g)
}

proof fn lemma_filter_keeps_all(edges: Seq<Edge>, keep: spec_fn(Edge) -> bool)
    requires
        forall|j: int| 0 <= j < edges.len() ==> keep(#[trigger] edges[j]),
    ensures
        edges.filter(keep) == edges,
    decreases edges.len(),
{
    reveal(Seq::filter);
    if edges.len() > 0 {
        lemma_filter_keeps_all(edges.drop_last(), keep);
        assert(edges.drop_last().push(edges.last()) =~= edges);
    }
}

/// Putting a graph in order that is in order already changes nothing.
pub proof fn lemma_normalized_fixed(g: GraphView, include_orphans: bool)
    requires
        is_normalized(g, include_orphans),
    ensures
        normalized(g, include_orphans) == g,
{
    lemma_sorted_edges_is(g.edges, g.edges);
    lemma_filter_keeps_all(g.edges, |e: Edge| edge_in_range(e, g.nodes.len()));
    if !include_orphans {
        lemma_pruned_fixed(g);
    }
    lemma_filter_keeps_all(g.edges, |e: Edge| e.0 != e.1);
}

/// Whatever the graph, what is drawn of it is in order: the edges ascend, each
/// once, and each joins two different nodes of what is drawn.
pub proof fn lemma_normalized_in_order(g: GraphView, include_orphans: bool)
    ensures
        strictly_sorted(normalized(g, include_orphans).edges),
        edges_in_range(normalized(g, include_orphans)),
        forall|j: int|
            0 <= j < normalized(g, include_orphans).edges.len() ==> (#[trigger] normalized(
                g,
                include_orphans,
            ).edges[j]).0 != normalized(g, include_orphans).edges[j].1,
{
    let n = g.nodes.len();
    let in_range = |e: Edge| edge_in_range(e, n);
    let sorted = sorted_edges(g.edges);
    lemma_sorted_edges(g.edges);
    lemma_filter_sorted(sorted, in_range);
    let tidy = GraphView { nodes: g.nodes, edges: in_range_edges(sorted, n) };
    assert forall|j: int| 0 <= j < tidy.edges.len() implies edge_in_range(
        #[trigger] tidy.edges[j],
        tidy.nodes.len(),
    ) by {
        sorted.lemma_filter_pred(in_range, j);
    }
    let kept = if include_orphans {
        tidy
    } else {
        pruned(tidy)
    };
    if !include_orphans {
        lemma_pruned_sorted(tidy);
        lemma_pruned_orphan_free(tidy);
    }
    let last = normalized(g, include_orphans);
    lemma_filter_sorted(kept.edges, |e: Edge| e.0 != e.1);
    lemma_no_self_loops(kept.edges);
    assert forall|j: int| 0 <= j < last.edges.len() implies edge_in_range(
        #[trigger] last.edges[j],
        last.nodes.len(),
    ) by {
        assert(kept.edges.contains(last.edges[j]));
        let k = choose|k: int| 0 <= k < kept.edges.len() && kept.edges[k] == last.edges[j];
        assert(edge_in_range(kept.edges[k], kept.nodes.len()));
    }
}

/// A graph that is in order is drawn as it stands, so that drawing it again,
/// unchanged, gives the same text again.
pub proof fn lemma_drawing_repeats(
    g: GraphView,
    cfg: ConfigView,
    declared: Map<Seq<char>, Seq<DepKind>>,
)
    requires
        is_normalized(g, cfg.include_orphans),
    ensures
        drawing(normalized(g, cfg.include_orphans), cfg, declared) == drawing(g, cfg, declared),
        normalized(normalized(g, cfg.include_orphans), cfg.include_orphans) == normalized(
            g,
            cfg.include_orphans,
        ),
{
    lemma_normalized_fixed(g, cfg.include_orphans);
}

impl Edge {
    /// The edge as the drawing names it: `n`, the source's id, an arrow, `n`
    /// and the target's id.
    pub fn to_string(&self) -> (s: String)
        ensures
            s@ == edge_text(*self),
    {
        let mut s = String::new();
        s.append("n");
        push_decimal(&mut s, self.0);
        s.append(" -> n");
        push_decimal(&mut s, self.1);
        assert(s@ =~= edge_text(*self));
        s
    }

    /// Appends to `w` the attributes of this edge of `dg` and the end of its line.
    pub fn label(&self, w: &mut String, dg: &DepGraph, root_deps_map: &DeclaredDepsMap)
        requires
            edge_in_range(*self, dg@.nodes.len()),
        ensures
            final(w)@ == old(w)@ + edge_label(dg@, root_deps_map@, *self),
    {
        let parent = dg.nodes[self.0].kind();
        let child_dep = &dg.nodes[self.1];
        let child = if self.0 == 0 {
            match root_deps_map.get(child_dep.name.as_str()) {
                Some(kinds) => first_kind(kinds),
                None => DepKind::Unknown,
            }
        } else {
            child_dep.kind()
        };
        assert(child == child_kind(dg@, root_deps_map@, *self));
        let build = is_kind(parent, DepKind::Build) || is_kind(child, DepKind::Build);
        let dev = is_kind(parent, DepKind::Dev) || is_kind(child, DepKind::Dev);
        let optional = is_kind(parent, DepKind::Optional) || is_kind(child, DepKind::Optional);
        let unknown = is_kind(parent, DepKind::Unknown) || is_kind(child, DepKind::Unknown);
        if build {
            w.append(" [color=purple, style=dashed];\n");
        } else if dev {
            w.append(" [color=blue, style=dashed];\n");
        } else if optional {
            w.append(" [color=red, style=dashed];\n");
        } else if unknown {
            w.append(" [color=orange, style=dashed];\n");
        } else {
            w.append(";\n");
        }
    }
}

fn is_kind(a: DepKind, b: DepKind) -> (same: bool)
    ensures
        same == (a == b),
{
    a == b
}

/// The first of regular, build, dev, optional that the list holds.
fn first_kind(kinds: &Vec<DepKind>) -> (kind: DepKind)
    ensures
        kind == if kinds@.contains(DepKind::Regular) {
            DepKind::Regular
        } else if kinds@.contains(DepKind::Build) {
            DepKind::Build
        } else if kinds@.contains(DepKind::Dev) {
            DepKind::Dev
        } else if kinds@.contains(DepKind::Optional) {
            DepKind::Optional
        } else {
            DepKind::Unknown
        },
{
    let (regular, build, dev, optional) = crate::kinds::flags_of(kinds);
    if regular {
        DepKind::Regular
    } else if build {
        DepKind::Build
    } else if dev {
        DepKind::Dev
    } else if optional {
        DepKind::Optional
    } else {
        DepKind::Unknown
    }
}

/// Tells whether the node is drawn inside the subgraph.
fn node_in_subgraph(cfg: &Config, dep: &ResolvedDep) -> (inside: bool)
    ensures
        inside == in_subgraph(cfg@, dep@),
{
    match &cfg.subgraph {
        Some(names) => contains_name(names, &dep.name),
        None => false,
    }
}

impl DepGraph {
    /// Appends the lines of the nodes inside the subgraph, or of those outside it.
    fn write_nodes(&self, output: &mut String, inside: bool)
        ensures
            final(output)@ == old(output)@ + node_lines(
                self@.nodes,
                self.cfg@,
                self@.nodes.len() as int,
                inside,
            ),
    {
        let ghost base = output@;
        let mut i: usize = 0;
        assert(output@ =~= base + node_lines(self@.nodes, self.cfg@, 0, inside));
        while i < self.nodes.len()
            invariant
                i <= self.nodes.len(),
                output@ == base + node_lines(self@.nodes, self.cfg@, i as int, inside),
            decreases self.nodes.len() - i,
        {
            let dep = &self.nodes[i];
            let ghost before = output@;
            if node_in_subgraph(&self.cfg, dep) == inside {
                if inside {
                    output.append("\t\tn");
                } else {
                    output.append("\tn");
                }
                push_decimal(output, i);
                dep.label(output, &self.cfg, i);
                assert(output@ =~= before + node_line(self@.nodes[i as int], self.cfg@, i as int, inside));
                assert(output@ =~= base + node_lines(self@.nodes, self.cfg@, i + 1, inside));
            }
            i += 1;
        }
    }

    /// Appends the block of the subgraph, if one is asked for.
    fn write_subgraph(&self, output: &mut String)
        ensures
            final(output)@ == old(output)@ + subgraph_block(self@.nodes, self.cfg@),
    {
        if self.cfg.subgraph.is_some() {
            let ghost base = output@;
            output.append("\tsubgraph cluster_subgraph {\n");
            let ghost opened = output@;
            match &self.cfg.subgraph_name {
                Some(name) => {
                    output.append("\t\tlabel=\"");
                    output.append(name.as_str());
                    output.append("\";\n");
                    assert(output@ =~= opened + ("\t\tlabel=\""@ + name@ + "\";\n"@));
                },
                None => {
                    assert(output@ =~= opened + Seq::<char>::empty());
                },
            }
            output.append("\t\tcolor=brown;\n");
            output.append("\t\tstyle=dashed;\n");
            output.append("\n");
            self.write_nodes(output, true);
            output.append("\t}\n\n");
            assert(output@ =~= base + subgraph_block(self@.nodes, self.cfg@));
        } else {
            assert(output@ =~= old(output)@ + subgraph_block(self@.nodes, self.cfg@));
        }
    }

    /// Appends the lines of the edges.
    fn write_edges(&self, output: &mut String, root_deps_map: &DeclaredDepsMap)
        requires
            edges_in_range(self@),
        ensures
            final(output)@ == old(output)@ + edge_lines(
                self@,
                root_deps_map@,
                self@.edges.len() as int,
            ),
    {
        let ghost base = output@;
        let mut i: usize = 0;
        assert(output@ =~= base + edge_lines(self@, root_deps_map@, 0));
        while i < self.edges.len()
            invariant
                i <= self.edges.len(),
                edges_in_range(self@),
                output@ == base + edge_lines(self@, root_deps_map@, i as int),
            decreases self.edges.len() - i,
        {
            let ed = self.edges[i];
            assert(edge_in_range(self@.edges[i as int], self@.nodes.len()));
            let ghost before = output@;
            output.append("\t");
            let text = ed.to_string();
            output.append(text.as_str());
            ed.label(output, self, root_deps_map);
            assert(output@ =~= before + edge_line(self@, root_deps_map@, ed));
            assert(output@ =~= base + edge_lines(self@, root_deps_map@, i + 1));
            i += 1;
        }
    }

    /// Appends the drawing of the graph to `output`. The graph is first put in
    /// order: the edges are sorted, each kept once, and those that leave the
    /// graph are dropped; the orphans go, unless the settings keep them; and
    /// last the edges from a node to itself.
    pub fn render_to(self, output: &mut String, root_deps_map: &DeclaredDepsMap) -> (r: CliResult<
        (),
    >)
        ensures
            r is Ok,
            final(output)@ == old(output)@ + drawing(
                normalized(self@, self.cfg.include_orphans),
                self.cfg@,
                root_deps_map@,
            ),
    {
        let mut graph = self;
        sort_dedup(&mut graph.edges);
        graph.remove_dangling();
        if !graph.cfg.include_orphans {
            graph.remove_orphans();
        }
        graph.remove_self_pointing();
        assert(graph@ == normalized(self@, self.cfg.include_orphans));
        assert(edges_in_range(graph@)) by {
            assert forall|j: int| 0 <= j < graph@.edges.len() implies edge_in_range(
                #[trigger] graph@.edges[j],
                graph@.nodes.len(),
            ) by {
                let e = graph@.edges[j];
            }
        }
        let ghost base = output@;
        output.append("digraph dependencies {\n");
        graph.write_nodes(output, false);
        output.append("\n");
        graph.write_subgraph(output);
        graph.write_edges(output, root_deps_map);
        output.append("}\n");
        assert(output@ =~= base + drawing(graph@, graph.cfg@, root_deps_map@));
        Ok(())
    }
}

} // verus!
