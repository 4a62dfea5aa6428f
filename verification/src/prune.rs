use crate::dep::{NodeView, ResolvedDep};
use crate::edges::{edge_lt, strictly_sorted};
use crate::graph::{edge_in_range, has_edge, node_views, DepGraph, Edge, GraphView};
use vstd::prelude::*;

verus! {

/// Whether every node of `keep` is a node of the graph and, unless it is the
/// root, the target of an edge that starts in `keep`.
pub open spec fn self_supporting(g: GraphView, keep: Set<int>) -> bool {
    forall|x: int| #[trigger]
        keep.contains(x) ==> 0 <= x < g.nodes.len() && (x == 0 || exists|u: int|
            keep.contains(u) && #[trigger] has_edge(g, u, x))
}

/// Whether node `x` outlasts the pruning of orphans: it belongs to a set of
/// nodes that support one another. An orphan does not, nor does a node that
/// only orphans, or what is left when they are gone, depend on.
pub open spec fn survives(g: GraphView, x: int) -> bool {
    exists|keep: Set<int>| self_supporting(g, keep) && #[trigger] keep.contains(x)
}

/// How many nodes below `x` survive: the id that `x` has when the others are gone.
pub open spec fn rank(g: GraphView, x: int) -> nat
    decreases x,
{
    if x <= 0 {
        0
    } else {
        rank(g, x - 1) + if survives(g, x - 1) {
            1nat
        } else {
            0nat
        }
    }
}

/// The survivors among the first `upto` nodes, in order.
pub open spec fn surviving_nodes(g: GraphView, upto: int) -> Seq<NodeView>
    decreases upto,
{
    if upto <= 0 {
        Seq::empty()
    } else if survives(g, upto - 1) {
        surviving_nodes(g, upto - 1).push(g.nodes[upto - 1])
    } else {
        surviving_nodes(g, upto - 1)
    }
}

/// Those of the first `upto` edges that join survivors, in order, under the
/// survivors' new ids.
pub open spec fn surviving_edges(g: GraphView, upto: int) -> Seq<Edge>
    decreases upto,
{
    if upto <= 0 {
        Seq::empty()
    } else {
        let e = g.edges[upto - 1];
        if survives(g, e.0 as int) && survives(g, e.1 as int) {
            surviving_edges(g, upto - 1).push(
                Edge(rank(g, e.0 as int) as usize, rank(g, e.1 as int) as usize),
            )
        } else {
            surviving_edges(g, upto - 1)
        }
    }
}

/// The graph without its orphans.
pub open spec fn pruned(g: GraphView) -> GraphView {
    GraphView {
        nodes: surviving_nodes(g, g.nodes.len() as int),
        edges: surviving_edges(g, g.edges.len() as int),
    }
}

/// Whether some edge of the graph has node `x` as its target.
pub open spec fn is_target(g: GraphView, x: int) -> bool {
    exists|j: int| 0 <= j < g.edges.len() && (#[trigger] g.edges[j]).1 == x
}

/// Whether the graph has no orphan and no edge that leaves it: every edge
/// joins two of its nodes, and every node but the root is some edge's target.
pub open spec fn orphan_free(g: GraphView) -> bool {
    &&& forall|j: int| 0 <= j < g.edges.len() ==> edge_in_range(#[trigger] g.edges[j], g.nodes.len())
    &&& forall|x: int| 0 < x < g.nodes.len() ==> #[trigger] is_target(g, x)
}

/// The edges without those from a node to itself.
pub open spec fn without_self_loops(edges: Seq<Edge>) -> Seq<Edge> {
    edges.filter(|e: Edge| e.0 != e.1)
}

/// Once the edges from a node to itself are gone, no edge has one node at
/// both its ends.
pub proof fn lemma_no_self_loops(edges: Seq<Edge>)
    ensures
        forall|j: int|
            0 <= j < without_self_loops(edges).len() ==> (#[trigger] without_self_loops(
                edges,
            )[j]).0 != without_self_loops(edges)[j].1,
{
    assert forall|j: int| 0 <= j < without_self_loops(edges).len() implies (
    #[trigger] without_self_loops(edges)[j]).0 != without_self_loops(edges)[j].1 by {
        edges.lemma_filter_pred(|e: Edge| e.0 != e.1, j);
    }
}

/// The edges that join two nodes of a graph of `n` nodes.
pub open spec fn in_range_edges(edges: Seq<Edge>, n: nat) -> Seq<Edge> {
    edges.filter(|e: Edge| edge_in_range(e, n))
}

/// A rank is at most the id it belongs to; ranks grow with the ids, and
/// strictly so from a survivor on; and as many nodes survive below an id as
/// its rank says.
pub proof fn lemma_rank_bounds(g: GraphView, x: int, y: int)
    requires
        0 <= x <= y,
    ensures
        rank(g, x) <= x,
        rank(g, x) <= rank(g, y),
        x < y && survives(g, x) ==> rank(g, x) < rank(g, y),
        surviving_nodes(g, x).len() == rank(g, x),
    decreases y,
{
    if x > 0 {
        lemma_rank_bounds(g, x - 1, x - 1);
    }
    if x < y {
        lemma_rank_bounds(g, x, y - 1);
    }
}

/// A survivor stands at its rank among the survivors.
pub proof fn lemma_survivor_placed(g: GraphView, x: int, upto: int)
    requires
        0 <= x < upto,
        survives(g, x),
    ensures
        rank(g, x) < surviving_nodes(g, upto).len(),
        surviving_nodes(g, upto)[rank(g, x) as int] == g.nodes[x],
    decreases upto,
{
    lemma_rank_bounds(g, x, upto - 1);
    lemma_rank_bounds(g, upto - 1, upto - 1);
    if x < upto - 1 {
        lemma_survivor_placed(g, x, upto - 1);
    }
}

/// Every place among the survivors is some survivor's rank.
pub proof fn lemma_place_filled(g: GraphView, i: int, upto: int) -> (x: int)
    requires
        0 <= i < rank(g, upto),
    ensures
        0 <= x < upto,
        survives(g, x),
        rank(g, x) == i,
    decreases upto,
{
    if upto <= 0 {
        0
    } else if i < rank(g, upto - 1) {
        lemma_place_filled(g, i, upto - 1)
    } else {
        upto - 1
    }
}

/// An edge between survivors is found again among the surviving edges, and
/// every surviving edge joins two of the surviving nodes.
pub proof fn lemma_surviving_edges(g: GraphView, upto: int)
    requires
        0 <= upto <= g.edges.len(),
    ensures
        forall|j: int|
            0 <= j < upto && survives(g, (#[trigger] g.edges[j]).0 as int) && survives(
                g,
                g.edges[j].1 as int,
            ) ==> surviving_edges(g, upto).contains(
                Edge(rank(g, g.edges[j].0 as int) as usize, rank(g, g.edges[j].1 as int) as usize),
            ),
        forall|k: int|
            0 <= k < surviving_edges(g, upto).len() ==> edge_in_range(
                #[trigger] surviving_edges(g, upto)[k],
                rank(g, g.nodes.len() as int),
            ),
    decreases upto,
{
    if upto > 0 {
        lemma_surviving_edges(g, upto - 1);
        let prev = surviving_edges(g, upto - 1);
        let cur = surviving_edges(g, upto);
        let e = g.edges[upto - 1];
        let kept = survives(g, e.0 as int) && survives(g, e.1 as int);
        if kept {
            let k0 = choose|k: Set<int>| self_supporting(g, k) && #[trigger] k.contains(e.0 as int);
            let k1 = choose|k: Set<int>| self_supporting(g, k) && #[trigger] k.contains(e.1 as int);
            lemma_rank_bounds(g, e.0 as int, g.nodes.len() as int);
            lemma_rank_bounds(g, e.1 as int, g.nodes.len() as int);
            assert(cur[cur.len() - 1] == Edge(
                rank(g, e.0 as int) as usize,
                rank(g, e.1 as int) as usize,
            ));
        }
        assert forall|j: int|
            0 <= j < upto && survives(g, (#[trigger] g.edges[j]).0 as int) && survives(
                g,
                g.edges[j].1 as int,
            ) implies cur.contains(
            Edge(rank(g, g.edges[j].0 as int) as usize, rank(g, g.edges[j].1 as int) as usize),
        ) by {
            let m = Edge(
                rank(g, g.edges[j].0 as int) as usize,
                rank(g, g.edges[j].1 as int) as usize,
            );
            if j < upto - 1 {
                assert(prev.contains(m));
                let k = choose|k: int| 0 <= k < prev.len() && prev[k] == m;
                assert(cur[k] == m);
            } else {
                assert(cur[cur.len() - 1] == m);
            }
        }
        assert forall|k: int| 0 <= k < cur.len() implies edge_in_range(
            #[trigger] cur[k],
            rank(g, g.nodes.len() as int),
        ) by {
            if k < prev.len() {
                assert(cur[k] == prev[k]);
            }
        }
    }
}

/// Whether `m` is what edge `j` of the graph has become among the surviving edges.
pub open spec fn survivor_of(g: GraphView, m: Edge, j: int) -> bool {
    &&& 0 <= j < g.edges.len()
    &&& survives(g, g.edges[j].0 as int)
    &&& survives(g, g.edges[j].1 as int)
    &&& m == Edge(rank(g, g.edges[j].0 as int) as usize, rank(g, g.edges[j].1 as int) as usize)
}

/// Whether `m` is what one of the first `upto` edges has become.
pub open spec fn stems_from(g: GraphView, m: Edge, upto: int) -> bool {
    exists|j: int| j < upto && survivor_of(g, m, j)
}

proof fn lemma_surviving_sorted(g: GraphView, upto: int)
    requires
        strictly_sorted(g.edges),
        0 <= upto <= g.edges.len(),
    ensures
        strictly_sorted(surviving_edges(g, upto)),
        forall|k: int|
            0 <= k < surviving_edges(g, upto).len() ==> stems_from(
                g,
                #[trigger] surviving_edges(g, upto)[k],
                upto,
            ),
    decreases upto,
{
    if upto > 0 {
        lemma_surviving_sorted(g, upto - 1);
        let prev = surviving_edges(g, upto - 1);
        let cur = surviving_edges(g, upto);
        let e = g.edges[upto - 1];
        assert forall|k: int| 0 <= k < cur.len() implies stems_from(g, #[trigger] cur[k], upto) by {
            if k < prev.len() {
                assert(stems_from(g, prev[k], upto - 1));
                let j = choose|j: int| j < upto - 1 && survivor_of(g, prev[k], j);
                assert(survivor_of(g, cur[k], j));
            } else {
                assert(survivor_of(g, cur[k], upto - 1));
            }
        }
        assert forall|a: int, b: int| 0 <= a < b < cur.len() implies edge_lt(
            #[trigger] cur[a],
            #[trigger] cur[b],
        ) by {
            if b < prev.len() {
                assert(edge_lt(prev[a], prev[b]));
            } else {
                assert(stems_from(g, prev[a], upto - 1));
                let j = choose|j: int| j < upto - 1 && survivor_of(g, prev[a], j);
                let f = g.edges[j];
                assert(edge_lt(g.edges[j], g.edges[upto - 1]));
                lemma_survivors_in_range(g, f.0 as int);
                lemma_survivors_in_range(g, f.1 as int);
                lemma_survivors_in_range(g, e.0 as int);
                lemma_survivors_in_range(g, e.1 as int);
                lemma_rank_bounds(g, f.0 as int, e.0 as int);
                lemma_rank_bounds(g, e.0 as int, e.0 as int);
                lemma_rank_bounds(g, e.1 as int, e.1 as int);
                if f.0 == e.0 {
                    lemma_rank_bounds(g, f.1 as int, e.1 as int);
                }
            }
        }
    }
}

/// The edges of a graph that ascend still ascend when the orphans are gone.
pub proof fn lemma_pruned_sorted(g: GraphView)
    requires
        strictly_sorted(g.edges),
    ensures
        strictly_sorted(pruned(g).edges),
{
    lemma_surviving_sorted(g, g.edges.len() as int);
}

/// Once the orphans are gone, none is left: every edge joins two of the nodes
/// that remain, and every node that remains, the root apart, is the target of
/// an edge.
pub proof fn lemma_pruned_orphan_free(g: GraphView)
    ensures
        orphan_free(pruned(g)),
        pruned(g).nodes.len() <= g.nodes.len(),
        g.nodes.len() > 0 ==> pruned(g).nodes.len() > 0 && pruned(g).nodes[0] == g.nodes[0],
{
    let n = g.nodes.len() as int;
    let p = pruned(g);
    lemma_rank_bounds(g, n, n);
    lemma_surviving_edges(g, g.edges.len() as int);
    assert forall|i: int| 0 < i < p.nodes.len() implies #[trigger] is_target(p, i) by {
        let x = lemma_place_filled(g, i, n);
        let keep = choose|keep: Set<int>| self_supporting(g, keep) && #[trigger] keep.contains(x);
        assert(x != 0);
        let u = choose|u: int| keep.contains(u) && #[trigger] has_edge(g, u, x);
        assert(survives(g, u));
        let j0 = choose|j: int|
            0 <= j < g.edges.len() && (#[trigger] g.edges[j]).0 == u && g.edges[j].1 == x;
        let m = Edge(rank(g, u) as usize, rank(g, x) as usize);
        lemma_rank_bounds(g, u, n);
        lemma_rank_bounds(g, x, n);
        assert(p.edges.contains(m));
        let j = choose|j: int| 0 <= j < p.edges.len() && p.edges[j] == m;
        assert(p.edges[j].1 == i);
    }
    if n > 0 {
        assert(survives(g, 0)) by {
            let root = set![0int];
            assert(self_supporting(g, root));
            assert(root.contains(0));
        }
        lemma_survivor_placed(g, 0, n);
    }
}

/// Where nothing is an orphan, every node survives.
pub proof fn lemma_all_survive(g: GraphView, x: int)
    requires
        orphan_free(g),
        0 <= x < g.nodes.len(),
    ensures
        survives(g, x),
{
    let all = Set::new(|y: int| 0 <= y < g.nodes.len());
    assert forall|y: int| #[trigger] all.contains(y) implies 0 <= y < g.nodes.len() && (y == 0
        || exists|u: int| all.contains(u) && #[trigger] has_edge(g, u, y)) by {
        if y != 0 {
            assert(is_target(g, y));
            let j = choose|j: int| 0 <= j < g.edges.len() && (#[trigger] g.edges[j]).1 == y;
            let u = g.edges[j].0 as int;
            assert(edge_in_range(g.edges[j], g.nodes.len()));
            assert(has_edge(g, u, y));
            assert(all.contains(u));
        }
    }
    assert(all.contains(x));
}

/// Pruning leaves a graph alone that has no orphan and no edge leaving it.
pub proof fn lemma_pruned_fixed(g: GraphView)
    requires
        orphan_free(g),
    ensures
        pruned(g) == g,
{
    lemma_fixed_nodes(g, g.nodes.len() as int);
    lemma_fixed_edges(g, g.edges.len() as int);
    assert(g.nodes.take(g.nodes.len() as int) =~= g.nodes);
    assert(g.edges.take(g.edges.len() as int) =~= g.edges);
}

proof fn lemma_fixed_nodes(g: GraphView, x: int)
    requires
        orphan_free(g),
        0 <= x <= g.nodes.len(),
    ensures
        rank(g, x) == x,
        surviving_nodes(g, x) == g.nodes.take(x),
    decreases x,
{
    if x > 0 {
        lemma_fixed_nodes(g, x - 1);
        lemma_all_survive(g, x - 1);
        assert(g.nodes.take(x) =~= g.nodes.take(x - 1).push(g.nodes[x - 1]));
    } else {
        assert(g.nodes.take(0) =~= Seq::<NodeView>::empty());
    }
}

proof fn lemma_fixed_edges(g: GraphView, j: int)
    requires
        orphan_free(g),
        0 <= j <= g.edges.len(),
    ensures
        surviving_edges(g, j) == g.edges.take(j),
    decreases j,
{
    if j > 0 {
        lemma_fixed_edges(g, j - 1);
        let e = g.edges[j - 1];
        assert(edge_in_range(e, g.nodes.len()));
        lemma_all_survive(g, e.0 as int);
        lemma_all_survive(g, e.1 as int);
        lemma_fixed_nodes(g, e.0 as int);
        lemma_fixed_nodes(g, e.1 as int);
        assert(g.edges.take(j) =~= g.edges.take(j - 1).push(e));
    } else {
        assert(g.edges.take(0) =~= Seq::<Edge>::empty());
    }
}

/// Whether `alive` tells of each node of the graph whether it survives.
pub open spec fn marks_survivors(g: GraphView, alive: Seq<bool>) -> bool {
    &&& alive.len() == g.nodes.len()
    &&& forall|x: int| 0 <= x < alive.len() ==> #[trigger] alive[x] == survives(g, x)
}

/// Whether some edge leads to node `x` from a node that `alive` marks.
pub open spec fn supported(edges: Seq<Edge>, alive: Seq<bool>, x: int) -> bool {
    exists|j: int|
        0 <= j < edges.len() && (#[trigger] edges[j]).1 == x && edges[j].0 < alive.len()
            && alive[edges[j].0 as int]
}

/// How many entries are `true`.
pub open spec fn count_true(marks: Seq<bool>) -> nat
    decreases marks.len(),
{
    if marks.len() == 0 {
        0
    } else {
        count_true(marks.drop_last()) + if marks.last() {
            1nat
        } else {
            0nat
        }
    }
}

proof fn lemma_count_cleared(marks: Seq<bool>, i: int)
    requires
        0 <= i < marks.len(),
        marks[i],
    ensures
        count_true(marks.update(i, false)) + 1 == count_true(marks),
    decreases marks.len(),
{
    let cleared = marks.update(i, false);
    if i == marks.len() - 1 {
        assert(cleared.drop_last() =~= marks.drop_last());
    } else {
        assert(cleared.drop_last() =~= marks.drop_last().update(i, false));
        lemma_count_cleared(marks.drop_last(), i);
    }
}

/// A node that no edge from a marked node leads to does not survive, as long
/// as every survivor is still marked.
proof fn lemma_unused_dies(g: GraphView, alive: Seq<bool>, used: Seq<bool>, x: int)
    requires
        alive.len() == g.nodes.len(),
        used.len() == g.nodes.len(),
        forall|y: int| 0 <= y < alive.len() && survives(g, y) ==> #[trigger] alive[y],
        forall|j: int|
            0 <= j < g.edges.len() && edge_in_range(#[trigger] g.edges[j], g.nodes.len())
                && alive[g.edges[j].0 as int] ==> used[g.edges[j].1 as int],
        0 < x < g.nodes.len(),
        !used[x],
    ensures
        !survives(g, x),
{
    if survives(g, x) {
        let keep = choose|keep: Set<int>| self_supporting(g, keep) && #[trigger] keep.contains(x);
        let u = choose|u: int| keep.contains(u) && #[trigger] has_edge(g, u, x);
        assert(survives(g, u));
        assert(alive[u]);
        let j = choose|j: int|
            0 <= j < g.edges.len() && (#[trigger] g.edges[j]).0 == u && g.edges[j].1 == x;
        assert(edge_in_range(g.edges[j], g.nodes.len()));
        assert(false);
    }
}

/// Where every marked node but the root has an edge from a marked node, every
/// marked node survives.
proof fn lemma_marked_survive(g: GraphView, alive: Seq<bool>)
    requires
        alive.len() == g.nodes.len(),
        forall|x: int| 0 < x < alive.len() && #[trigger] alive[x] ==> supported(g.edges, alive, x),
    ensures
        forall|x: int| 0 <= x < alive.len() && #[trigger] alive[x] ==> survives(g, x),
{
    let keep = Set::new(|y: int| 0 <= y < alive.len() && alive[y]);
    assert forall|y: int| #[trigger] keep.contains(y) implies 0 <= y < g.nodes.len() && (y == 0
        || exists|u: int| keep.contains(u) && #[trigger] has_edge(g, u, y)) by {
        if y != 0 {
            assert(supported(g.edges, alive, y));
            let j = choose|j: int|
                0 <= j < g.edges.len() && (#[trigger] g.edges[j]).1 == y && g.edges[j].0
                    < alive.len() && alive[g.edges[j].0 as int];
            let u = g.edges[j].0 as int;
            assert(has_edge(g, u, y));
            assert(keep.contains(u));
        }
    }
    assert forall|x: int| 0 <= x < alive.len() && #[trigger] alive[x] implies survives(g, x) by {
        assert(keep.contains(x));
    }
}

/// A list of `n` times `value`.
fn filled(n: usize, value: bool) -> (marks: Vec<bool>)
    ensures
        marks@.len() == n,
        forall|i: int| 0 <= i < n ==> #[trigger] marks@[i] == value,
{
    let mut marks: Vec<bool> = Vec::new();
    let mut i: usize = 0;
    while i < n
        invariant
            i <= n,
            marks@.len() == i,
            forall|k: int| 0 <= k < i ==> #[trigger] marks@[k] == value,
        decreases n - i,
    {
        marks.push(value);
        i += 1;
    }
    marks
}

/// Marks the root and every node that an edge from a marked node leads to.
fn mark_used(edges: &Vec<Edge>, alive: &Vec<bool>) -> (used: Vec<bool>)
    requires
        alive@.len() > 0,
    ensures
        used@.len() == alive@.len(),
        forall|j: int|
            0 <= j < edges@.len() && edge_in_range(#[trigger] edges@[j], alive@.len())
                && alive@[edges@[j].0 as int] ==> used@[edges@[j].1 as int],
        forall|x: int|
            0 < x < used@.len() && #[trigger] used@[x] ==> supported(edges@, alive@, x),
{
    let n = alive.len();
    let mut used = filled(n, false);
    used.set(0, true);
    let mut i: usize = 0;
    while i < edges.len()
        invariant
            i <= edges.len(),
            n == alive@.len(),
            used@.len() == n,
            forall|j: int|
                0 <= j < i && edge_in_range(#[trigger] edges@[j], n as nat)
                    && alive@[edges@[j].0 as int] ==> used@[edges@[j].1 as int],
            forall|x: int| 0 < x < n && #[trigger] used@[x] ==> supported(edges@, alive@, x),
        decreases edges.len() - i,
    {
        let Edge(u, v) = edges[i];
        if u < n && v < n && alive[u] {
            used.set(v, true);
            assert(supported(edges@, alive@, v as int)) by {
                assert(edges@[i as int].1 == v);
            }
        }
        i += 1;
    }
    used
}

/// Tells of each node whether it survives the pruning of orphans.
fn find_survivors(n: usize, edges: &Vec<Edge>, Ghost(g): Ghost<GraphView>) -> (alive: Vec<bool>)
    requires
        g.nodes.len() == n,
        g.edges == edges@,
    ensures
        marks_survivors(g, alive@),
{
    let mut alive = filled(n, true);
    if n == 0 {
        return alive;
    }
    assert(survives(g, 0)) by {
        let root = set![0int];
        assert(self_supporting(g, root));
        assert(root.contains(0));
    }
    let mut changed = true;
    while changed
        invariant
            n > 0,
            g.nodes.len() == n,
            g.edges == edges@,
            alive@.len() == n,
            alive@[0],
            survives(g, 0),
            forall|y: int| 0 <= y < n && survives(g, y) ==> #[trigger] alive@[y],
            !changed ==> forall|y: int| 0 <= y < n && #[trigger] alive@[y] ==> survives(g, y),
        decreases
                count_true(alive@) + (if changed {
                    1nat
                } else {
                    0nat
                }),
    {
        let used = mark_used(edges, &alive);
        let ghost before = alive@;
        changed = false;
        let mut x: usize = 1;
        while x < n
            invariant
                1 <= x <= n,
                g.nodes.len() == n,
                g.edges == edges@,
                alive@.len() == n,
                used@.len() == n,
                before.len() == n,
                alive@[0],
                forall|y: int| 0 <= y < n && survives(g, y) ==> #[trigger] before[y],
                forall|y: int| 0 <= y < n && survives(g, y) ==> #[trigger] alive@[y],
                forall|j: int|
                    0 <= j < g.edges.len() && edge_in_range(#[trigger] g.edges[j], n as nat)
                        && before[g.edges[j].0 as int] ==> used@[g.edges[j].1 as int],
                forall|y: int| 0 < y < x && #[trigger] alive@[y] ==> used@[y],
                count_true(alive@) <= count_true(before),
                changed ==> count_true(alive@) < count_true(before),
                !changed ==> alive@ == before,
            decreases n - x,
        {
            if alive[x] && !used[x] {
                proof {
                    lemma_unused_dies(g, before, used@, x as int);
                    lemma_count_cleared(alive@, x as int);
                }
                alive.set(x, false);
                changed = true;
            }
            x += 1;
        }
        proof {
            if !changed {
                assert forall|y: int| 0 < y < n && #[trigger] alive@[y] implies supported(
                    g.edges,
                    alive@,
                    y,
                ) by {
                    assert(used@[y]);
                }
                lemma_marked_survive(g, alive@);
            }
        }
    }
    alive
}

/// For each node the id that it has once the orphans are gone.
fn new_ids(alive: &Vec<bool>, Ghost(g): Ghost<GraphView>) -> (ids: Vec<usize>)
    requires
        marks_survivors(g, alive@),
    ensures
        ids@.len() == alive@.len(),
        forall|x: int| 0 <= x < ids@.len() ==> #[trigger] ids@[x] == rank(g, x),
{
    let mut ids: Vec<usize> = Vec::new();
    let mut next: usize = 0;
    let mut x: usize = 0;
    while x < alive.len()
        invariant
            x <= alive.len(),
            marks_survivors(g, alive@),
            ids@.len() == x,
            next == rank(g, x as int),
            next <= x,
            forall|y: int| 0 <= y < x ==> #[trigger] ids@[y] == rank(g, y),
        decreases alive.len() - x,
    {
        ids.push(next);
        if alive[x] {
            next += 1;
        }
        x += 1;
    }
    ids
}

/// The surviving nodes, in order.
fn keep_nodes(nodes: Vec<ResolvedDep>, alive: &Vec<bool>, Ghost(g): Ghost<GraphView>) -> (kept:
    Vec<ResolvedDep>)
    requires
        node_views(nodes@) == g.nodes,
        marks_survivors(g, alive@),
    ensures
        node_views(kept@) == surviving_nodes(g, g.nodes.len() as int),
{
    let mut kept: Vec<ResolvedDep> = Vec::new();
    let n = nodes.len();
    let mut x: usize = 0;
    assert(node_views(kept@) =~= surviving_nodes(g, 0));
    for node in it: nodes
        invariant
            x == it.index(),
            it.seq() == nodes@,
            nodes@.len() == n,
            node_views(nodes@) == g.nodes,
            marks_survivors(g, alive@),
            node_views(kept@) == surviving_nodes(g, x as int),
    {
        assert(node == nodes@[x as int]);
        assert(node@ == g.nodes[x as int]);
        let ghost before = kept@;
        if alive[x] {
            kept.push(node);
            assert(node_views(kept@) =~= node_views(before).push(g.nodes[x as int]));
        }
        x += 1;
    }
    kept
}

/// The edges between survivors, in order, under the survivors' new ids.
fn keep_edges(edges: &Vec<Edge>, alive: &Vec<bool>, ids: &Vec<usize>, Ghost(g): Ghost<GraphView>) -> (kept:
    Vec<Edge>)
    requires
        g.edges == edges@,
        marks_survivors(g, alive@),
        ids@.len() == alive@.len(),
        forall|x: int| 0 <= x < ids@.len() ==> #[trigger] ids@[x] == rank(g, x),
    ensures
        kept@ == surviving_edges(g, g.edges.len() as int),
{
    let n = alive.len();
    let mut kept: Vec<Edge> = Vec::new();
    let mut i: usize = 0;
    while i < edges.len()
        invariant
            i <= edges.len(),
            n == alive@.len(),
            g.edges == edges@,
            marks_survivors(g, alive@),
            ids@.len() == n,
            forall|x: int| 0 <= x < ids@.len() ==> #[trigger] ids@[x] == rank(g, x),
            kept@ == surviving_edges(g, i as int),
        decreases edges.len() - i,
    {
        let Edge(u, v) = edges[i];
        proof {
            lemma_survivors_in_range(g, u as int);
            lemma_survivors_in_range(g, v as int);
        }
        if u < n && v < n && alive[u] && alive[v] {
            kept.push(Edge(ids[u], ids[v]));
        }
        i += 1;
    }
    kept
}

/// Only nodes of the graph survive.
pub proof fn lemma_survivors_in_range(g: GraphView, x: int)
    ensures
        survives(g, x) ==> 0 <= x < g.nodes.len(),
{
    if survives(g, x) {
        let keep = choose|keep: Set<int>| self_supporting(g, keep) && #[trigger] keep.contains(x);
        assert(keep.contains(x));
    }
}

impl DepGraph {
    /// Removes the orphans: every node but the root that no edge leads to, then
    /// every node that is left without such an edge once those are gone, and
    /// so on until none is left. An edge goes with either of its nodes; edges
    /// that point outside the graph go first. The nodes that stay keep their
    /// order and move up to close the gaps, and the edges follow them.
    pub fn remove_orphans(&mut self)
        ensures
            final(self)@ == pruned(old(self)@),
            orphan_free(final(self)@),
            final(self).cfg == old(self).cfg,
    {
        let ghost g = self@;
        let alive = find_survivors(self.nodes.len(), &self.edges, Ghost(g));
        let ids = new_ids(&alive, Ghost(g));
        let edges = keep_edges(&self.edges, &alive, &ids, Ghost(g));
        let mut nodes: Vec<ResolvedDep> = Vec::new();
        core::mem::swap(&mut self.nodes, &mut nodes);
        self.nodes = keep_nodes(nodes, &alive, Ghost(g));
        self.edges = edges;
        proof {
            lemma_pruned_orphan_free(g);
        }
    }

    /// Drops every edge that leads from a node to that node.
    pub fn remove_self_pointing(&mut self)
        ensures
            final(self)@.edges == without_self_loops(old(self)@.edges),
            final(self).nodes == old(self).nodes,
            final(self).cfg == old(self).cfg,
            forall|j: int|
                0 <= j < final(self)@.edges.len() ==> (#[trigger] final(self)@.edges[j]).0
                    != final(self)@.edges[j].1,
            forall|j: int|
                0 <= j < final(self)@.edges.len() ==> old(self)@.edges.contains(
                    #[trigger] final(self)@.edges[j],
                ),
    {
        let mut kept: Vec<Edge> = Vec::new();
        let mut i: usize = 0;
        while i < self.edges.len()
            invariant
                i <= self.edges.len(),
                self.edges == old(self).edges,
                self.nodes == old(self).nodes,
                self.cfg == old(self).cfg,
                kept@ == without_self_loops(self.edges@.take(i as int)),
                forall|j: int| 0 <= j < kept@.len() ==> (#[trigger] kept@[j]).0 != kept@[j].1,
                forall|j: int| 0 <= j < kept@.len() ==> self.edges@.contains(#[trigger] kept@[j]),
            decreases self.edges.len() - i,
        {
            let e = self.edges[i];
            assert(self.edges@.contains(e));
            proof {
                reveal(Seq::filter);
                assert(self.edges@.take(i + 1).drop_last() =~= self.edges@.take(i as int));
            }
            if e.0 != e.1 {
                kept.push(e);
            }
            i += 1;
        }
        assert(self.edges@.take(i as int) =~= self.edges@);
        self.edges = kept;
    }

    /// Drops every edge that does not join two nodes of the graph.
    pub fn remove_dangling(&mut self)
        ensures
            final(self)@.edges == in_range_edges(old(self)@.edges, old(self)@.nodes.len()),
            final(self).nodes == old(self).nodes,
            final(self).cfg == old(self).cfg,
            forall|j: int|
                0 <= j < final(self)@.edges.len() ==> edge_in_range(
                    #[trigger] final(self)@.edges[j],
                    final(self)@.nodes.len(),
                ),
    {
        let n = self.nodes.len();
        let mut kept: Vec<Edge> = Vec::new();
        let mut i: usize = 0;
        while i < self.edges.len()
            invariant
                i <= self.edges.len(),
                n == self.nodes@.len(),
                self.edges == old(self).edges,
                self.nodes == old(self).nodes,
                self.cfg == old(self).cfg,
                kept@ == in_range_edges(self.edges@.take(i as int), n as nat),
                forall|j: int| 0 <= j < kept@.len() ==> edge_in_range(#[trigger] kept@[j], n as nat),
            decreases self.edges.len() - i,
        {
            let e = self.edges[i];
            proof {
                reveal(Seq::filter);
                assert(self.edges@.take(i + 1).drop_last() =~= self.edges@.take(i as int));
            }
            if e.0 < n && e.1 < n {
                kept.push(e);
            }
            i += 1;
        }
        assert(self.edges@.take(i as int) =~= self.edges@);
        self.edges = kept;
    }
}

} // verus!
