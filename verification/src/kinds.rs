use crate::declared::{declares, DeclaredDepsMap};
use crate::dep::{DepKind, NodeView};
use crate::edges::{same_edges, sort_dedup, sorted_edges};
use crate::graph::{edge_in_range, has_edge, DepGraph, Edge, GraphView};
use vstd::prelude::*;

verus! {

/// Whether node `t` has `kind` before anything is handed on from one
/// dependency to the next: it carries the flag already, or it is the root and
/// the kind is regular, or the root has an edge to it and the manifest
/// declares its name under `kind`.
pub open spec fn seeded(
    g: GraphView,
    declared: Map<Seq<char>, Seq<DepKind>>,
    kind: DepKind,
    t: int,
) -> bool {
    &&& 0 <= t < g.nodes.len()
    &&& kind != DepKind::Unknown
    &&& (g.nodes[t].has(kind) || (t == 0 && kind == DepKind::Regular) || (has_edge(g, 0, t)
        && declares(declared, g.nodes[t].name, kind)))
}

/// Whether `kind` arrives at node `t` over at most `steps` edges, none of
/// which starts at the root.
pub open spec fn reaches_within(
    g: GraphView,
    declared: Map<Seq<char>, Seq<DepKind>>,
    kind: DepKind,
    t: int,
    steps: nat,
) -> bool
    decreases steps,
{
    if steps == 0 {
        seeded(g, declared, kind, t)
    } else {
        reaches_within(g, declared, kind, t, (steps - 1) as nat) || exists|u: int|
            u != 0 && #[trigger] has_edge(g, u, t) && reaches_within(
                g,
                declared,
                kind,
                u,
                (steps - 1) as nat,
            )
    }
}

/// Whether `kind` arrives at node `t` at all.
pub open spec fn reaches(
    g: GraphView,
    declared: Map<Seq<char>, Seq<DepKind>>,
    kind: DepKind,
    t: int,
) -> bool {
    exists|steps: nat| reaches_within(g, declared, kind, t, steps)
}

/// Node `t` with every kind that arrives at it.
pub open spec fn propagated_node(
    g: GraphView,
    declared: Map<Seq<char>, Seq<DepKind>>,
    t: int,
) -> NodeView {
    NodeView {
        name: g.nodes[t].name,
        ver: g.nodes[t].ver,
        force_write_ver: g.nodes[t].force_write_ver,
        is_regular: reaches(g, declared, DepKind::Regular, t),
        is_build: reaches(g, declared, DepKind::Build, t),
        is_dev: reaches(g, declared, DepKind::Dev, t),
        is_optional: reaches(g, declared, DepKind::Optional, t),
    }
}

/// The nodes of the graph, each with every kind that arrives at it.
pub open spec fn propagated(g: GraphView, declared: Map<Seq<char>, Seq<DepKind>>) -> Seq<
    NodeView,
> {
    Seq::new(g.nodes.len(), |t: int| propagated_node(g, declared, t))
}

/// A kind that has arrived within some number of steps has arrived within any
/// greater number: more relaxation never takes a flag away.
pub proof fn lemma_reaches_monotone(
    g: GraphView,
    declared: Map<Seq<char>, Seq<DepKind>>,
    kind: DepKind,
    t: int,
    few: nat,
    many: nat,
)
    requires
        few <= many,
        reaches_within(g, declared, kind, t, few),
    ensures
        reaches_within(g, declared, kind, t, many),
    decreases many,
{
    if few < many {
        lemma_reaches_monotone(g, declared, kind, t, few, (many - 1) as nat);
    }
}

/// A flag that a node carries before propagation is one that arrives at it.
pub proof fn lemma_flags_kept(
    g: GraphView,
    declared: Map<Seq<char>, Seq<DepKind>>,
    kind: DepKind,
    t: int,
)
    requires
        0 <= t < g.nodes.len(),
        g.nodes[t].has(kind),
    ensures
        propagated(g, declared)[t].has(kind),
{
    assert(reaches_within(g, declared, kind, t, 0));
}

/// How many of the four flags the node lacks.
pub open spec fn unset_flags(node: NodeView) -> nat {
    (if node.is_regular {
        0nat
    } else {
        1nat
    }) + (if node.is_build {
        0nat
    } else {
        1nat
    }) + (if node.is_dev {
        0nat
    } else {
        1nat
    }) + (if node.is_optional {
        0nat
    } else {
        1nat
    })
}

/// How many flags the nodes lack, all together.
pub open spec fn unset_total(nodes: Seq<NodeView>) -> nat
    decreases nodes.len(),
{
    if nodes.len() == 0 {
        0
    } else {
        unset_total(nodes.drop_last()) + unset_flags(nodes.last())
    }
}

proof fn lemma_unset_update(nodes: Seq<NodeView>, i: int, node: NodeView)
    requires
        0 <= i < nodes.len(),
    ensures
        unset_total(nodes.update(i, node)) + unset_flags(nodes[i]) == unset_total(nodes)
            + unset_flags(node),
    decreases nodes.len(),
{
    let updated = nodes.update(i, node);
    if i == nodes.len() - 1 {
        assert(updated.drop_last() =~= nodes.drop_last());
    } else {
        assert(updated.drop_last() =~= nodes.drop_last().update(i, node));
        lemma_unset_update(nodes.drop_last(), i, node);
    }
}

/// The node with the given flags set besides its own.
pub open spec fn raised(
    node: NodeView,
    regular: bool,
    build: bool,
    dev: bool,
    optional: bool,
) -> NodeView {
    NodeView {
        name: node.name,
        ver: node.ver,
        force_write_ver: node.force_write_ver,
        is_regular: node.is_regular || regular,
        is_build: node.is_build || build,
        is_dev: node.is_dev || dev,
        is_optional: node.is_optional || optional,
    }
}

/// Whether the edge hands `kind` to its target: an edge from the root by what
/// the manifest declares of the target's name, any other by what its source
/// carries.
pub open spec fn incoming(
    cur: Seq<NodeView>,
    declared: Map<Seq<char>, Seq<DepKind>>,
    e: Edge,
    kind: DepKind,
) -> bool {
    kind != DepKind::Unknown && if e.0 == 0 {
        declares(declared, cur[e.1 as int].name, kind)
    } else {
        cur[e.0 as int].has(kind)
    }
}

/// Whether the edge's target has all that the edge hands to it.
pub open spec fn edge_settled(
    cur: Seq<NodeView>,
    declared: Map<Seq<char>, Seq<DepKind>>,
    e: Edge,
) -> bool {
    edge_in_range(e, cur.len()) ==> forall|kind: DepKind| #[trigger]
        incoming(cur, declared, e, kind) ==> cur[e.1 as int].has(kind)
}

/// Whether no edge has anything left to hand on.
#[verifier::opaque]
pub open spec fn settled(
    cur: Seq<NodeView>,
    edges: Seq<Edge>,
    declared: Map<Seq<char>, Seq<DepKind>>,
) -> bool {
    forall|j: int| 0 <= j < edges.len() ==> edge_settled(cur, declared, #[trigger] edges[j])
}

/// Whether `cur` are the nodes of `g` with no flag lost and nothing else changed.
#[verifier::opaque]
pub open spec fn steady(cur: Seq<NodeView>, g: GraphView) -> bool {
    &&& cur.len() == g.nodes.len()
    &&& forall|t: int|
        0 <= t < cur.len() ==> (#[trigger] cur[t]).name == g.nodes[t].name && cur[t].ver
            == g.nodes[t].ver && cur[t].force_write_ver == g.nodes[t].force_write_ver
    &&& forall|t: int, kind: DepKind|
        0 <= t < cur.len() && g.nodes[t].has(kind) ==> #[trigger] cur[t].has(kind)
}

/// Whether every flag in `cur` is one that arrives at its node in `g`.
#[verifier::opaque]
pub open spec fn sound(
    cur: Seq<NodeView>,
    g: GraphView,
    declared: Map<Seq<char>, Seq<DepKind>>,
) -> bool {
    forall|t: int, kind: DepKind|
        0 <= t < cur.len() && #[trigger] cur[t].has(kind) ==> reaches(g, declared, kind, t)
}

proof fn lemma_step(
    g: GraphView,
    declared: Map<Seq<char>, Seq<DepKind>>,
    kind: DepKind,
    u: int,
    t: int,
)
    requires
        u != 0,
        has_edge(g, u, t),
        reaches(g, declared, kind, u),
    ensures
        reaches(g, declared, kind, t),
{
    let steps = choose|steps: nat| reaches_within(g, declared, kind, u, steps);
    assert(reaches_within(g, declared, kind, t, steps + 1));
}

proof fn lemma_settled_complete(
    cur: Seq<NodeView>,
    g: GraphView,
    declared: Map<Seq<char>, Seq<DepKind>>,
    edges: Seq<Edge>,
    kind: DepKind,
    t: int,
    steps: nat,
)
    requires
        steady(cur, g),
        same_edges(edges, g.edges),
        settled(cur, edges, declared),
        cur.len() > 0 ==> cur[0].is_regular,
        reaches_within(g, declared, kind, t, steps),
    ensures
        0 <= t < cur.len(),
        cur[t].has(kind),
    decreases steps,
{
    reveal(steady);
    reveal(settled);
    if steps == 0 {
        if g.nodes[t].has(kind) {
        } else if t == 0 && kind == DepKind::Regular {
        } else {
            let i = choose|i: int|
                0 <= i < g.edges.len() && (#[trigger] g.edges[i]).0 == 0 && g.edges[i].1 == t;
            let e = g.edges[i];
            assert(g.edges.contains(e));
            assert(edges.contains(e));
            let j = choose|j: int| 0 <= j < edges.len() && edges[j] == e;
            assert(edge_settled(cur, declared, edges[j]));
            assert(incoming(cur, declared, e, kind));
        }
    } else if reaches_within(g, declared, kind, t, (steps - 1) as nat) {
        lemma_settled_complete(cur, g, declared, edges, kind, t, (steps - 1) as nat);
    } else {
        let u = choose|u: int|
            u != 0 && #[trigger] has_edge(g, u, t) && reaches_within(
                g,
                declared,
                kind,
                u,
                (steps - 1) as nat,
            );
        lemma_settled_complete(cur, g, declared, edges, kind, u, (steps - 1) as nat);
        let i = choose|i: int|
            0 <= i < g.edges.len() && (#[trigger] g.edges[i]).0 == u && g.edges[i].1 == t;
        let e = g.edges[i];
        assert(g.edges.contains(e));
        assert(edges.contains(e));
        let j = choose|j: int| 0 <= j < edges.len() && edges[j] == e;
        assert(edge_settled(cur, declared, edges[j]));
        assert(incoming(cur, declared, e, kind));
    }
}

/// What holds of the nodes once an edge of the graph has handed on what it had.
proof fn lemma_raise_keeps(
    cur: Seq<NodeView>,
    g: GraphView,
    declared: Map<Seq<char>, Seq<DepKind>>,
    e: Edge,
    regular: bool,
    build: bool,
    dev: bool,
    optional: bool,
)
    requires
        steady(cur, g),
        sound(cur, g, declared),
        edge_in_range(e, cur.len()),
        g.edges.contains(e),
        regular == incoming(cur, declared, e, DepKind::Regular),
        build == incoming(cur, declared, e, DepKind::Build),
        dev == incoming(cur, declared, e, DepKind::Dev),
        optional == incoming(cur, declared, e, DepKind::Optional),
    ensures
        ({
            let node = raised(cur[e.1 as int], regular, build, dev, optional);
            let next = cur.update(e.1 as int, node);
            &&& steady(next, g)
            &&& sound(next, g, declared)
            &&& unset_total(next) <= unset_total(cur)
            &&& node != cur[e.1 as int] ==> unset_total(next) < unset_total(cur)
            &&& node == cur[e.1 as int] ==> edge_settled(cur, declared, e)
            &&& cur[0].is_regular ==> next[0].is_regular
        }),
{
    reveal(steady);
    reveal(sound);
    let v = e.1 as int;
    let u = e.0 as int;
    let node = raised(cur[v], regular, build, dev, optional);
    let next = cur.update(v, node);
    lemma_unset_update(cur, v, node);
    let i = choose|i: int| 0 <= i < g.edges.len() && g.edges[i] == e;
    assert(g.edges[i].0 == u && g.edges[i].1 == v);
    assert(has_edge(g, u, v));
    assert forall|t: int, kind: DepKind| 0 <= t < next.len() && #[trigger] next[t].has(
        kind,
    ) implies reaches(g, declared, kind, t) by {
        if t == v && !cur[t].has(kind) {
            assert(incoming(cur, declared, e, kind));
            if u == 0 {
                assert(seeded(g, declared, kind, t));
                assert(reaches_within(g, declared, kind, t, 0));
            } else {
                assert(cur[u].has(kind));
                lemma_step(g, declared, kind, u, t);
            }
        } else {
            assert(cur[t].has(kind));
        }
    }
    assert forall|t: int, kind: DepKind| 0 <= t < next.len() && g.nodes[t].has(
        kind,
    ) implies #[trigger] next[t].has(kind) by {
        assert(cur[t].has(kind));
    }
    if node == cur[v] {
        assert forall|kind: DepKind| #[trigger] incoming(cur, declared, e, kind) implies cur[v].has(
            kind,
        ) by {}
    }
}

/// Which of the four kinds a list of kinds holds.
pub(crate) fn flags_of(kinds: &Vec<DepKind>) -> (r: (bool, bool, bool, bool))
    ensures
        r.0 == kinds@.contains(DepKind::Regular),
        r.1 == kinds@.contains(DepKind::Build),
        r.2 == kinds@.contains(DepKind::Dev),
        r.3 == kinds@.contains(DepKind::Optional),
{
    let mut regular = false;
    let mut build = false;
    let mut dev = false;
    let mut optional = false;
    let mut i: usize = 0;
    while i < kinds.len()
        invariant
            i <= kinds.len(),
            regular == kinds@.take(i as int).contains(DepKind::Regular),
            build == kinds@.take(i as int).contains(DepKind::Build),
            dev == kinds@.take(i as int).contains(DepKind::Dev),
            optional == kinds@.take(i as int).contains(DepKind::Optional),
        decreases kinds.len() - i,
    {
        let ghost prev = kinds@.take(i as int);
        let ghost next = kinds@.take(i + 1);
        assert(next =~= prev.push(kinds@[i as int]));
        assert forall|k: DepKind| next.contains(k) <==> (prev.contains(k) || k == kinds@[i as int]) by {
            if prev.contains(k) {
                let j = choose|j: int| 0 <= j < prev.len() && prev[j] == k;
                assert(next[j] == k);
            }
            if k == kinds@[i as int] {
                assert(next[i as int] == k);
            }
        }
        match kinds[i] {
            DepKind::Regular => {
                regular = true;
            },
            DepKind::Build => {
                build = true;
            },
            DepKind::Dev => {
                dev = true;
            },
            DepKind::Optional => {
                optional = true;
            },
            DepKind::Unknown => {},
        }
        i += 1;
    }
    assert(kinds@.take(i as int) =~= kinds@);
    (regular, build, dev, optional)
}

impl DepGraph {
    /// Sets the given flags on node `v`.
    fn raise(&mut self, v: usize, regular: bool, build: bool, dev: bool, optional: bool) -> (grows:
        bool)
        requires
            v < old(self)@.nodes.len(),
        ensures
            final(self)@.nodes == old(self)@.nodes.update(
                v as int,
                raised(old(self)@.nodes[v as int], regular, build, dev, optional),
            ),
            grows == (raised(old(self)@.nodes[v as int], regular, build, dev, optional) != old(
                self,
            )@.nodes[v as int]),
            final(self).edges == old(self).edges,
            final(self).cfg == old(self).cfg,
    {
        let target = &self.nodes[v];
        let grows = (regular && !target.is_regular) || (build && !target.is_build) || (dev
            && !target.is_dev) || (optional && !target.is_optional);
        if regular {
            self.nodes[v].is_regular = true;
        }
        if build {
            self.nodes[v].is_build = true;
        }
        if dev {
            self.nodes[v].is_dev = true;
        }
        if optional {
            self.nodes[v].is_optional = true;
        }
        assert(self@.nodes =~= old(self)@.nodes.update(
            v as int,
            raised(old(self)@.nodes[v as int], regular, build, dev, optional),
        ));
        grows
    }

    /// One walk over the edges, each handing on what it has to hand on.
    fn relax(
        &mut self,
        declared_deps_map: &DeclaredDepsMap,
        Ghost(g): Ghost<GraphView>,
    ) -> (changed: bool)
        requires
            steady(old(self)@.nodes, g),
            sound(old(self)@.nodes, g, declared_deps_map@),
            same_edges(old(self)@.edges, g.edges),
            old(self)@.nodes.len() > 0,
            old(self)@.nodes[0].is_regular,
        ensures
            steady(final(self)@.nodes, g),
            sound(final(self)@.nodes, g, declared_deps_map@),
            final(self)@.nodes.len() > 0,
            final(self)@.nodes[0].is_regular,
            final(self)@.edges == old(self)@.edges,
            final(self).cfg == old(self).cfg,
            changed ==> unset_total(final(self)@.nodes) < unset_total(old(self)@.nodes),
            !changed ==> final(self)@.nodes == old(self)@.nodes && settled(
                final(self)@.nodes,
                final(self)@.edges,
                declared_deps_map@,
            ),
    {
        let ghost d = declared_deps_map@;
        let ghost start = self@.nodes;
        let n = self.nodes.len();
        let mut changed = false;
        let mut i: usize = 0;
        while i < self.edges.len()
            invariant
                i <= self.edges.len(),
                n == self.nodes.len(),
                n > 0,
                d == declared_deps_map@,
                self.edges == old(self).edges,
                self.cfg == old(self).cfg,
                same_edges(self@.edges, g.edges),
                steady(self@.nodes, g),
                sound(self@.nodes, g, d),
                self@.nodes[0].is_regular,
                unset_total(self@.nodes) <= unset_total(start),
                changed ==> unset_total(self@.nodes) < unset_total(start),
                !changed ==> self@.nodes == start,
                !changed ==> forall|j: int|
                    0 <= j < i ==> edge_settled(self@.nodes, d, #[trigger] self.edges@[j]),
            decreases self.edges.len() - i,
        {
            let Edge(u, v) = self.edges[i];
            if u < n && v < n {
                let ghost cur = self@.nodes;
                let ghost e = self.edges@[i as int];
                let (regular, build, dev, optional) = if u == 0 {
                    match declared_deps_map.get(self.nodes[v].name.as_str()) {
                        Some(kinds) => flags_of(kinds),
                        None => (false, false, false, false),
                    }
                } else {
                    (
                        self.nodes[u].is_regular,
                        self.nodes[u].is_build,
                        self.nodes[u].is_dev,
                        self.nodes[u].is_optional,
                    )
                };
                proof {
                    assert(self@.edges.contains(e));
                    assert(g.edges.contains(e));
                    lemma_raise_keeps(cur, g, d, e, regular, build, dev, optional);
                }
                let grows = self.raise(v, regular, build, dev, optional);
                if grows {
                    changed = true;
                } else {
                    assert(self@.nodes =~= cur);
                }
            } else {
                assert(edge_settled(self@.nodes, d, self.edges@[i as int]));
            }
            i += 1;
        }
        proof {
            if !changed {
                reveal(settled);
            }
        }
        changed
    }

    /// Gives every node every kind that arrives at it: the root is regular;
    /// what the root depends on has the kinds under which the manifest
    /// declares it; and what any other node has, it hands on to all that it
    /// depends on. The edges are put in order on the way, each once.
    ///
    /// The walk over the edges is repeated until nothing changes, however long
    /// the longest chain of dependencies is. Edges that point outside the
    /// graph hand nothing on.
    pub fn set_resolved_kind(&mut self, declared_deps_map: &DeclaredDepsMap)
        ensures
            final(self)@.nodes == propagated(old(self)@, declared_deps_map@),
            final(self)@.edges == sorted_edges(old(self)@.edges),
            final(self).cfg == old(self).cfg,
            forall|t: int, kind: DepKind|
                0 <= t < old(self)@.nodes.len() && old(self)@.nodes[t].has(kind)
                    ==> #[trigger] final(self)@.nodes[t].has(kind),
    {
        let ghost g = old(self)@;
        let ghost d = declared_deps_map@;
        sort_dedup(&mut self.edges);
        if self.nodes.len() == 0 {
            assert(self@.nodes =~= propagated(g, d));
            return ;
        }
        self.nodes[0].is_regular = true;
        proof {
            reveal(steady);
            reveal(sound);
            assert(steady(self@.nodes, g));
            assert forall|t: int, kind: DepKind|
                0 <= t < self@.nodes.len() && #[trigger] self@.nodes[t].has(kind) implies reaches(
                g,
                d,
                kind,
                t,
            ) by {
                assert(seeded(g, d, kind, t));
                assert(reaches_within(g, d, kind, t, 0));
            }
        }
        let mut changed = true;
        while changed
            invariant
                d == declared_deps_map@,
                self.cfg == old(self).cfg,
                self@.edges == sorted_edges(g.edges),
                same_edges(self@.edges, g.edges),
                self@.nodes.len() > 0,
                self@.nodes[0].is_regular,
                steady(self@.nodes, g),
                sound(self@.nodes, g, d),
                !changed ==> settled(self@.nodes, self@.edges, d),
            decreases
                    unset_total(self@.nodes) + (if changed {
                        1nat
                    } else {
                        0nat
                    }),
        {
            changed = self.relax(declared_deps_map, Ghost(g));
        }
        proof {
            reveal(steady);
            reveal(sound);
            let cur = self@.nodes;
            assert forall|t: int| 0 <= t < cur.len() implies cur[t] == propagated_node(g, d, t) by {
                assert forall|kind: DepKind| kind != DepKind::Unknown implies cur[t].has(kind)
                    == reaches(g, d, kind, t) by {
                    if reaches(g, d, kind, t) {
                        let steps = choose|steps: nat| reaches_within(g, d, kind, t, steps);
                        lemma_settled_complete(cur, g, d, self@.edges, kind, t, steps);
                    }
                }
                assert(cur[t].has(DepKind::Regular) == reaches(g, d, DepKind::Regular, t));
                assert(cur[t].has(DepKind::Build) == reaches(g, d, DepKind::Build, t));
                assert(cur[t].has(DepKind::Dev) == reaches(g, d, DepKind::Dev, t));
                assert(cur[t].has(DepKind::Optional) == reaches(g, d, DepKind::Optional, t));
            }
            assert(cur =~= propagated(g, d));
        }
    }
}

} // verus!
