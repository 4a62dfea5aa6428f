use crate::config::Config;
use crate::dep::{NodeView, ResolvedDep};
use vstd::prelude::*;

verus! {

/// A node's id: its position in the graph's node list.
pub type Node = usize;

/// "The first depends on the second."
#[derive(Debug, PartialEq, Eq, PartialOrd, Ord, Copy, Clone, Structural)]
pub struct Edge(pub Node, pub Node);

/// The nodes and edges of a graph, with the settings it was made under.
#[derive(Debug)]
pub struct DepGraph {
    pub nodes: Vec<ResolvedDep>,
    pub edges: Vec<Edge>,
    pub cfg: Config,
}

/// What a graph is: its nodes in id order and its edges in list order.
pub struct GraphView {
    pub nodes: Seq<NodeView>,
    pub edges: Seq<Edge>,
}

/// The nodes of a list as plain values.
pub open spec fn node_views(nodes: Seq<ResolvedDep>) -> Seq<NodeView> {
    Seq::new(nodes.len(), |i: int| nodes[i]@)
}

/// The id that takes the place of `id` when node `root` changes places with node 0.
pub open spec fn swap_id(id: Node, root: Node) -> Node {
    if id == 0 {
        root
    } else if id == root {
        0
    } else {
        id
    }
}

/// Whether both ends of the edge are nodes of a graph of `n` nodes.
pub open spec fn edge_in_range(e: Edge, n: nat) -> bool {
    e.0 < n && e.1 < n
}

/// Whether the graph has an edge from node `u` to node `t`.
pub open spec fn has_edge(g: GraphView, u: int, t: int) -> bool {
    &&& 0 <= u < g.nodes.len()
    &&& 0 <= t < g.nodes.len()
    &&& exists|j: int| 0 <= j < g.edges.len() && (#[trigger] g.edges[j]).0 == u && g.edges[j].1 == t
}

/// Whether `i` is the first node with this name and version.
pub open spec fn finds(nodes: Seq<NodeView>, name: Seq<char>, ver: Seq<char>, i: int) -> bool {
    &&& 0 <= i < nodes.len()
    &&& nodes[i].name == name
    &&& nodes[i].ver == ver
    &&& forall|j: int| 0 <= j < i ==> !((#[trigger] nodes[j]).name == name && nodes[j].ver == ver)
}

impl GraphView {
    /// The id of the first node with this name and version, if there is one.
    pub open spec fn find(self, name: Seq<char>, ver: Seq<char>) -> Option<int> {
        if exists|i: int| finds(self.nodes, name, ver, i) {
            Some(choose|i: int| finds(self.nodes, name, ver, i))
        } else {
            None
        }
    }

    /// The graph with a node of this name and version, and that node's id: the
    /// graph itself where it has one, else the graph with a fresh node appended.
    pub open spec fn find_or_add(self, name: Seq<char>, ver: Seq<char>) -> (GraphView, int) {
        match self.find(name, ver) {
            Some(i) => (self, i),
            None => (
                GraphView { nodes: self.nodes.push(NodeView::fresh(name, ver)), edges: self.edges },
                self.nodes.len() as int,
            ),
        }
    }

    /// The graph after `parent` was given the child of this name and version,
    /// and the child's id.
    pub open spec fn add_child(self, parent: Node, name: Seq<char>, ver: Seq<char>) -> (
        GraphView,
        int,
    ) {
        let (g, id) = self.find_or_add(name, ver);
        (GraphView { nodes: g.nodes, edges: g.edges.push(Edge(parent, id as usize)) }, id)
    }

    /// The graph in which node `root` and node 0 have changed places, every
    /// edge following its nodes.
    pub open spec fn swap_root(self, root: Node) -> GraphView {
        GraphView {
            nodes: self.nodes.update(0, self.nodes[root as int]).update(
                root as int,
                self.nodes[0],
            ),
            edges: Seq::new(
                self.edges.len(),
                |j: int| Edge(swap_id(self.edges[j].0, root), swap_id(self.edges[j].1, root)),
            ),
        }
    }

    /// The graph after the node of this name and version was made the root, if
    /// there is such a node.
    pub open spec fn set_root(self, name: Seq<char>, ver: Seq<char>) -> Option<GraphView> {
        match self.find(name, ver) {
            Some(i) => Some(
                if i == 0 {
                    self
                } else {
                    self.swap_root(i as usize)
                },
            ),
            None => None,
        }
    }
}

/// Once a node has been made the root, node 0 has the name and the version
/// that were asked for, and the graph has as many nodes and edges as before.
pub proof fn lemma_root_is_first(g: GraphView, name: Seq<char>, ver: Seq<char>)
    requires
        g.nodes.len() <= usize::MAX,
        g.set_root(name, ver) is Some,
    ensures
        g.set_root(name, ver)->0.nodes.len() == g.nodes.len(),
        g.set_root(name, ver)->0.edges.len() == g.edges.len(),
        g.set_root(name, ver)->0.nodes[0].name == name,
        g.set_root(name, ver)->0.nodes[0].ver == ver,
{
    let i = g.find(name, ver)->0;
    assert(finds(g.nodes, name, ver, i));
}

/// Asking twice for the node of one name and version gives the same id both
/// times, and the second time the graph does not grow.
pub proof fn lemma_find_or_add_idempotent(g: GraphView, name: Seq<char>, ver: Seq<char>)
    ensures
        g.find_or_add(name, ver).0.find_or_add(name, ver) == g.find_or_add(name, ver),
        g.find_or_add(name, ver).0.nodes.len() <= g.nodes.len() + 1,
{
    let (first, id) = g.find_or_add(name, ver);
    if g.find(name, ver) is None {
        assert forall|j: int| 0 <= j < id implies !((#[trigger] first.nodes[j]).name == name
            && first.nodes[j].ver == ver) by {
            if g.nodes[j].name == name && g.nodes[j].ver == ver {
                lemma_some_match_is_found(g.nodes, name, ver, j);
            }
        }
        assert(finds(first.nodes, name, ver, id));
        let again = choose|i: int| finds(first.nodes, name, ver, i);
        assert(finds(first.nodes, name, ver, again));
        assert(again == id) by {
            if again < id {
                assert(!(first.nodes[again].name == name && first.nodes[again].ver == ver));
            }
            if id < again {
                assert(!(first.nodes[id].name == name && first.nodes[id].ver == ver));
            }
        }
    }
}

/// Where some node has the name and version, some node is the first to have them.
pub proof fn lemma_some_match_is_found(nodes: Seq<NodeView>, name: Seq<char>, ver: Seq<char>, i: int)
    requires
        0 <= i < nodes.len(),
        nodes[i].name == name,
        nodes[i].ver == ver,
    ensures
        exists|k: int| finds(nodes, name, ver, k),
    decreases i,
{
    if forall|j: int| 0 <= j < i ==> !((#[trigger] nodes[j]).name == name && nodes[j].ver == ver) {
        assert(finds(nodes, name, ver, i));
    } else {
        let j = choose|j: int|
            0 <= j < i && (#[trigger] nodes[j]).name == name && nodes[j].ver == ver;
        lemma_some_match_is_found(nodes, name, ver, j);
    }
}

impl View for DepGraph {
    type V = GraphView;

    open spec fn view(&self) -> GraphView {
        GraphView { nodes: node_views(self.nodes@), edges: self.edges@ }
    }
}

impl DepGraph {
    /// A graph without nodes or edges, under the given settings.
    pub fn new(cfg: Config) -> (g: Self)
        ensures
            g@.nodes.len() == 0,
            g@.edges.len() == 0,
            g.cfg == cfg,
    {
        DepGraph { nodes: Vec::new(), edges: Vec::new(), cfg }
    }

    /// The node of this id, if there is one.
    pub fn get(&self, id: usize) -> (r: Option<&ResolvedDep>)
        ensures
            match r {
                Some(dep) => id < self.nodes@.len() && *dep == self.nodes@[id as int],
                None => id >= self.nodes@.len(),
            },
    {
        if id < self.nodes.len() {
            return Some(&self.nodes[id]);
        }
        None
    }

    /// The id of the first node of this name and version, if there is one.
    pub fn find(&self, name: &str, ver: &str) -> (r: Option<usize>)
        ensures
            match r {
                Some(i) => self@.find(name@, ver@) == Some(i as int),
                None => self@.find(name@, ver@) is None,
            },
    {
        let name_owned = name.to_owned();
        let ver_owned = ver.to_owned();
        let mut i: usize = 0;
        while i < self.nodes.len()
            invariant
                i <= self.nodes.len(),
                name_owned@ == name@,
                ver_owned@ == ver@,
                forall|j: int|
                    0 <= j < i ==> !((#[trigger] self@.nodes[j]).name == name@ && self@.nodes[j].ver
                        == ver@),
            decreases self.nodes.len() - i,
        {
            if self.nodes[i].name == name_owned && self.nodes[i].ver == ver_owned {
                assert(finds(self@.nodes, name@, ver@, i as int));
                return Some(i);
            }
            assert(!(self@.nodes[i as int].name == name@ && self@.nodes[i as int].ver == ver@));
            i += 1;
        }
        assert forall|k: int| !finds(self@.nodes, name@, ver@, k) by {
            if 0 <= k < self@.nodes.len() {
                assert(!(self@.nodes[k].name == name@ && self@.nodes[k].ver == ver@));
            }
        }
        None
    }

    /// The id of the node of this name and version, which is appended to the
    /// nodes if it is not among them yet. No node that is there is changed.
    pub fn find_or_add(&mut self, name: &str, ver: &str) -> (id: usize)
        ensures
            (final(self)@, id as int) == old(self)@.find_or_add(name@, ver@),
            final(self).cfg == old(self).cfg,
            id < final(self)@.nodes.len(),
            final(self)@.nodes[id as int].name == name@,
            final(self)@.nodes[id as int].ver == ver@,
    {
        if let Some(i) = self.find(name, ver) {
            return i;
        }
        self.nodes.push(ResolvedDep::new(name.to_owned(), ver.to_owned()));
        assert(self@.nodes =~= old(self)@.nodes.push(NodeView::fresh(name@, ver@)));
        self.nodes.len() - 1
    }

    /// Gives `parent` the node of this name and version as a child: finds or
    /// appends the node, appends the edge, and returns the child's id. Whether
    /// `parent` is the id of a node is not asked.
    pub fn add_child(&mut self, parent: usize, dep_name: &str, dep_ver: &str) -> (id: usize)
        ensures
            (final(self)@, id as int) == old(self)@.add_child(parent, dep_name@, dep_ver@),
            final(self).cfg == old(self).cfg,
            id < final(self)@.nodes.len(),
            final(self)@.nodes[id as int].name == dep_name@,
            final(self)@.nodes[id as int].ver == dep_ver@,
    {
        let idr = self.find_or_add(dep_name, dep_ver);
        self.edges.push(Edge(parent, idr));
        idr
    }

    /// Makes the node of this name and version the root: unless it is node 0
    /// already, it changes places with node 0, and every edge end that named
    /// one of the two names the other. Tells whether there is such a node;
    /// where there is none, nothing is changed.
    pub fn set_root(&mut self, name: &str, ver: &str) -> (found: bool)
        ensures
            found == old(self)@.set_root(name@, ver@) is Some,
            found ==> final(self)@ == old(self)@.set_root(name@, ver@)->0,
            found ==> final(self)@.nodes.len() > 0 && final(self)@.nodes[0].name == name@
                && final(self)@.nodes[0].ver == ver@,
            !found ==> final(self)@ == old(self)@,
            final(self).cfg == old(self).cfg,
    {
        let root_id = if let Some(i) = self.find(name, ver) {
            i
        } else {
            return false;
        };
        if root_id == 0 {
            return true;
        }
        let target = self.nodes.remove(root_id);
        let first = self.nodes.remove(0);
        self.nodes.insert(0, target);
        self.nodes.insert(root_id, first);
        assert(self@.nodes =~= old(self)@.swap_root(root_id).nodes);

        let mut j: usize = 0;
        while j < self.edges.len()
            invariant
                j <= self.edges.len(),
                self.edges@.len() == old(self).edges@.len(),
                self.cfg == old(self).cfg,
                self@.nodes == old(self)@.swap_root(root_id).nodes,
                forall|k: int|
                    0 <= k < j ==> #[trigger] self.edges@[k] == Edge(
                        swap_id(old(self).edges@[k].0, root_id),
                        swap_id(old(self).edges@[k].1, root_id),
                    ),
                forall|k: int|
                    j <= k < self.edges@.len() ==> #[trigger] self.edges@[k] == old(self).edges@[k],
            decreases self.edges.len() - j,
        {
            let Edge(source, target_id) = self.edges[j];
            let new_source = if source == 0 {
                root_id
            } else if source == root_id {
                0
            } else {
                source
            };
            let new_target = if target_id == 0 {
                root_id
            } else if target_id == root_id {
                0
            } else {
                target_id
            };
            self.edges.set(j, Edge(new_source, new_target));
            j += 1;
        }
        assert(self@.edges =~= old(self)@.swap_root(root_id).edges);
        true
    }
}

} // verus!
