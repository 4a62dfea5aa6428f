use crate::dep::NodeView;
use crate::graph::DepGraph;
use crate::names::{lemma_name_le_antisym, lists_all, name_le, ordered_by_name};
use vstd::prelude::*;

verus! {

/// Whether some other node carries the name of node `i`.
pub open spec fn shares_name(nodes: Seq<NodeView>, i: int) -> bool {
    exists|j: int| 0 <= j < nodes.len() && j != i && (#[trigger] nodes[j]).name == nodes[i].name
}

/// The node, made to show its version.
pub open spec fn shown(node: NodeView, show: bool) -> NodeView {
    NodeView {
        name: node.name,
        ver: node.ver,
        force_write_ver: node.force_write_ver || show,
        is_regular: node.is_regular,
        is_build: node.is_build,
        is_dev: node.is_dev,
        is_optional: node.is_optional,
    }
}

/// The nodes, each made to show its version if another has its name.
pub open spec fn with_versions_shown(nodes: Seq<NodeView>) -> Seq<NodeView> {
    Seq::new(nodes.len(), |i: int| shown(nodes[i], shares_name(nodes, i)))
}

/// Whether any two nodes of one name both show their version.
pub open spec fn versions_tell_apart(nodes: Seq<NodeView>) -> bool {
    forall|a: int, b: int|
        0 <= a < nodes.len() && 0 <= b < nodes.len() && a != b && (#[trigger] nodes[a]).name == (
        #[trigger] nodes[b]).name ==> nodes[a].force_write_ver && nodes[b].force_write_ver
}

/// Where versions are shown on shared names, any two nodes of one name, and
/// so any two that differ in their version alone, both show their version;
/// and a node whose name no other node has shows it only if it did before.
pub proof fn lemma_versions_shown(nodes: Seq<NodeView>)
    ensures
        versions_tell_apart(with_versions_shown(nodes)),
        forall|a: int|
            0 <= a < nodes.len() && !shares_name(nodes, a) ==> with_versions_shown(
                nodes,
            )[a].force_write_ver == (#[trigger] nodes[a]).force_write_ver,
{
    let shown = with_versions_shown(nodes);
    assert forall|a: int, b: int|
        0 <= a < shown.len() && 0 <= b < shown.len() && a != b && (#[trigger] shown[a]).name == (
        #[trigger] shown[b]).name implies shown[a].force_write_ver && shown[b].force_write_ver by {
        assert(nodes[a].name == nodes[b].name);
        assert(shares_name(nodes, a));
        assert(shares_name(nodes, b));
    }
}

/// Whether the node at place `p` of `ids` has the name of the node before it
/// or of the node behind it.
pub open spec fn beside_namesake(nodes: Seq<NodeView>, ids: Seq<usize>, p: int) -> bool {
    ||| (p > 0 && nodes[ids[p - 1] as int].name == nodes[ids[p] as int].name)
    ||| (p + 1 < ids.len() && nodes[ids[p + 1] as int].name == nodes[ids[p] as int].name)
}

/// Among nodes that stand in the order of their names, those of one name
/// stand together: a node shares its name exactly if a neighbour has it.
pub proof fn lemma_namesakes_are_neighbours(nodes: Seq<NodeView>, ids: Seq<usize>, p: int)
    requires
        nodes.len() <= usize::MAX,
        lists_all(ids, nodes.len()),
        ordered_by_name(nodes, ids),
        0 <= p < ids.len(),
    ensures
        shares_name(nodes, ids[p] as int) == beside_namesake(nodes, ids, p),
{
    let x = ids[p] as int;
    if beside_namesake(nodes, ids, p) {
        if p > 0 && nodes[ids[p - 1] as int].name == nodes[x].name {
            assert(ids[p - 1] != ids[p]);
            assert(nodes[ids[p - 1] as int].name == nodes[x].name);
        } else {
            assert(ids[p] != ids[p + 1]);
            assert(nodes[ids[p + 1] as int].name == nodes[x].name);
        }
    }
    if shares_name(nodes, x) {
        let j = choose|j: int| 0 <= j < nodes.len() && j != x && (#[trigger] nodes[j]).name == nodes[x].name;
        assert(ids.contains(j as usize));
        let q = choose|q: int| 0 <= q < ids.len() && ids[q] == j as usize;
        assert(ids[q] as int == j);
        assert(nodes[ids[q] as int].name == nodes[x].name);
        if q < p {
            if q < p - 1 {
                assert(name_le(nodes[ids[q] as int].name, nodes[ids[p - 1] as int].name));
                assert(name_le(nodes[ids[p - 1] as int].name, nodes[ids[p] as int].name));
                lemma_name_le_antisym(nodes[ids[p - 1] as int].name, nodes[x].name);
            }
            assert(nodes[ids[p - 1] as int].name == nodes[x].name);
        } else {
            if q > p + 1 {
                assert(name_le(nodes[ids[p] as int].name, nodes[ids[p + 1] as int].name));
                assert(name_le(nodes[ids[p + 1] as int].name, nodes[ids[q] as int].name));
                lemma_name_le_antisym(nodes[ids[p + 1] as int].name, nodes[x].name);
            }
            assert(nodes[ids[p + 1] as int].name == nodes[x].name);
        }
    }
}

impl DepGraph {
    /// Makes every node show its version whose name another node has too, so
    /// that the two can be told apart. A node whose name is its own alone is
    /// left as it is.
    ///
    /// The nodes are put in the order of their names, in which those of one
    /// name stand together; one walk along that order then finds them.
    pub fn show_version_on_duplicates(&mut self)
        ensures
            final(self)@.nodes == with_versions_shown(old(self)@.nodes),
            final(self)@.edges == old(self)@.edges,
            final(self).cfg == old(self).cfg,
            versions_tell_apart(final(self)@.nodes),
            forall|a: int|
                0 <= a < old(self)@.nodes.len() && !shares_name(old(self)@.nodes, a)
                    ==> final(self)@.nodes[a].force_write_ver == (
                #[trigger] old(self)@.nodes[a]).force_write_ver,
    {
        let ghost before = self@.nodes;
        let ids = self.ids_by_name();
        let n = ids.len();
        let mut p: usize = 0;
        while p < n
            invariant
                p <= n,
                n == self.nodes.len(),
                before == old(self)@.nodes,
                before.len() == n,
                lists_all(ids@, n as nat),
                ordered_by_name(before, ids@),
                self.edges == old(self).edges,
                self.cfg == old(self).cfg,
                forall|k: int| 0 <= k < n ==> (#[trigger] self@.nodes[k]).name == before[k].name,
                forall|q: int|
                    0 <= q < p ==> self@.nodes[#[trigger] ids@[q] as int] == shown(
                        before[ids@[q] as int],
                        shares_name(before, ids@[q] as int),
                    ),
                forall|q: int|
                    p <= q < n ==> self@.nodes[#[trigger] ids@[q] as int] == before[ids@[q] as int],
            decreases n - p,
        {
            let x = ids[p];
            let same_before = p > 0 && self.nodes[ids[p - 1]].name == self.nodes[x].name;
            let same_behind = p + 1 < n && self.nodes[ids[p + 1]].name == self.nodes[x].name;
            let shared = same_before || same_behind;
            proof {
                lemma_namesakes_are_neighbours(before, ids@, p as int);
                assert(shared == shares_name(before, x as int));
            }
            let ghost cur = self@.nodes;
            if shared {
                self.nodes[x].force_write_ver = true;
            }
            proof {
                assert(self@.nodes =~= cur.update(x as int, shown(cur[x as int], shared)));
                assert forall|q: int| 0 <= q < n && q != p implies ids@[q] != x by {
                    if q < p {
                        assert(ids@[q] != ids@[p as int]);
                    } else {
                        assert(ids@[p as int] != ids@[q]);
                    }
                }
            }
            p += 1;
        }
        proof {
            assert forall|a: int| 0 <= a < n implies self@.nodes[a] == shown(
                before[a],
                shares_name(before, a),
            ) by {
                assert(ids@.contains(a as usize));
                let q = choose|q: int| 0 <= q < ids@.len() && ids@[q] == a as usize;
                assert(self@.nodes[ids@[q] as int] == shown(
                    before[ids@[q] as int],
                    shares_name(before, ids@[q] as int),
                ));
            }
            assert(self@.nodes =~= with_versions_shown(before));
            lemma_versions_shown(before);
        }
    }
}

} // verus!
