use crate::graph::Edge;
use vstd::prelude::*;

verus! {

/// The order of edges: by source id, then by target id.
pub open spec fn edge_lt(a: Edge, b: Edge) -> bool {
    a.0 < b.0 || (a.0 == b.0 && a.1 < b.1)
}

/// Whether the edges ascend strictly, so that none occurs twice.
pub open spec fn strictly_sorted(edges: Seq<Edge>) -> bool {
    forall|i: int, j: int| 0 <= i < j < edges.len() ==> edge_lt(#[trigger] edges[i], #[trigger] edges[j])
}

/// Whether the two lists hold the same edges, however often and in whatever order.
pub open spec fn same_edges(a: Seq<Edge>, b: Seq<Edge>) -> bool {
    forall|e: Edge| a.contains(e) <==> b.contains(e)
}

/// The edges of a list in ascending order, each once.
pub open spec fn sorted_edges(edges: Seq<Edge>) -> Seq<Edge> {
    choose|s: Seq<Edge>| strictly_sorted(s) && same_edges(s, edges)
}

/// Two strictly ascending lists of the same edges are one list.
pub proof fn lemma_sorted_unique(a: Seq<Edge>, b: Seq<Edge>)
    requires
        strictly_sorted(a),
        strictly_sorted(b),
        same_edges(a, b),
    ensures
        a == b,
    decreases a.len(),
{
    if a.len() == 0 {
        if b.len() > 0 {
            assert(b.contains(b[0]));
            assert(a.contains(b[0]));
        }
        assert(a =~= b);
    } else {
        let la = a.last();
        assert(a.contains(la));
        assert(b.contains(la));
        let ib = choose|i: int| 0 <= i < b.len() && b[i] == la;
        let lb = b.last();
        assert(b.contains(lb));
        assert(a.contains(lb));
        let ia = choose|i: int| 0 <= i < a.len() && a[i] == lb;
        assert(la == lb) by {
            if ia < a.len() - 1 {
                assert(edge_lt(a[ia], a[a.len() - 1]));
            }
            if ib < b.len() - 1 {
                assert(edge_lt(b[ib], b[b.len() - 1]));
            }
        }
        let a0 = a.drop_last();
        let b0 = b.drop_last();
        assert forall|e: Edge| a0.contains(e) <==> b0.contains(e) by {
            if a0.contains(e) {
                let i = choose|i: int| 0 <= i < a0.len() && a0[i] == e;
                assert(a[i] == e);
                assert(edge_lt(a[i], a[a.len() - 1]));
                assert(a.contains(e));
                assert(b.contains(e));
                let j = choose|j: int| 0 <= j < b.len() && b[j] == e;
                assert(b0[j] == e);
            }
            if b0.contains(e) {
                let j = choose|j: int| 0 <= j < b0.len() && b0[j] == e;
                assert(b[j] == e);
                assert(edge_lt(b[j], b[b.len() - 1]));
                assert(b.contains(e));
                assert(a.contains(e));
                let i = choose|i: int| 0 <= i < a.len() && a[i] == e;
                assert(a0[i] == e);
            }
        }
        assert(strictly_sorted(a0)) by {
            assert forall|i: int, j: int| 0 <= i < j < a0.len() implies edge_lt(
                #[trigger] a0[i],
                #[trigger] a0[j],
            ) by {
                assert(edge_lt(a[i], a[j]));
            }
        }
        assert(strictly_sorted(b0)) by {
            assert forall|i: int, j: int| 0 <= i < j < b0.len() implies edge_lt(
                #[trigger] b0[i],
                #[trigger] b0[j],
            ) by {
                assert(edge_lt(b[i], b[j]));
            }
        }
        lemma_sorted_unique(a0, b0);
        assert(a =~= a0.push(la));
        assert(b =~= b0.push(lb));
    }
}

/// A strictly ascending list of the edges of `edges` is `sorted_edges(edges)`.
pub proof fn lemma_sorted_edges_is(edges: Seq<Edge>, s: Seq<Edge>)
    requires
        strictly_sorted(s),
        same_edges(s, edges),
    ensures
        sorted_edges(edges) == s,
{
    let c = sorted_edges(edges);
    assert(strictly_sorted(c) && same_edges(c, edges));
    lemma_sorted_unique(c, s);
}

/// An ascending list with one more edge in it, unless it was there already.
proof fn lemma_insert(sorted: Seq<Edge>, e: Edge) -> (r: Seq<Edge>)
    requires
        strictly_sorted(sorted),
    ensures
        strictly_sorted(r),
        forall|x: Edge| r.contains(x) <==> (sorted.contains(x) || x == e),
    decreases sorted.len(),
{
    if sorted.len() == 0 {
        let r = seq![e];
        assert(r[0] == e);
        r
    } else if edge_lt(sorted.last(), e) {
        let r = sorted.push(e);
        assert forall|i: int, j: int| 0 <= i < j < r.len() implies edge_lt(
            #[trigger] r[i],
            #[trigger] r[j],
        ) by {
            if j < sorted.len() {
                assert(edge_lt(sorted[i], sorted[j]));
            } else if i < sorted.len() - 1 {
                assert(edge_lt(sorted[i], sorted[sorted.len() - 1]));
            }
        }
        assert forall|x: Edge| r.contains(x) <==> (sorted.contains(x) || x == e) by {
            if sorted.contains(x) {
                let k = choose|k: int| 0 <= k < sorted.len() && sorted[k] == x;
                assert(r[k] == x);
            }
            if x == e {
                assert(r[r.len() - 1] == x);
            }
            if r.contains(x) {
                let k = choose|k: int| 0 <= k < r.len() && r[k] == x;
                if k < sorted.len() {
                    assert(sorted[k] == x);
                }
            }
        }
        r
    } else if sorted.last() == e {
        assert(sorted.contains(e)) by {
            assert(sorted[sorted.len() - 1] == e);
        }
        sorted
    } else {
        let last = sorted.last();
        let rest = sorted.drop_last();
        assert(strictly_sorted(rest)) by {
            assert forall|i: int, j: int| 0 <= i < j < rest.len() implies edge_lt(
                #[trigger] rest[i],
                #[trigger] rest[j],
            ) by {
                assert(edge_lt(sorted[i], sorted[j]));
            }
        }
        let r0 = lemma_insert(rest, e);
        let r = r0.push(last);
        assert forall|i: int, j: int| 0 <= i < j < r.len() implies edge_lt(
            #[trigger] r[i],
            #[trigger] r[j],
        ) by {
            if j < r0.len() {
                assert(edge_lt(r0[i], r0[j]));
            } else {
                assert(r0.contains(r0[i]));
                if rest.contains(r0[i]) {
                    let k = choose|k: int| 0 <= k < rest.len() && rest[k] == r0[i];
                    assert(edge_lt(sorted[k], sorted[sorted.len() - 1]));
                }
            }
        }
        assert forall|x: Edge| r.contains(x) <==> (sorted.contains(x) || x == e) by {
            if r.contains(x) {
                let k = choose|k: int| 0 <= k < r.len() && r[k] == x;
                if k < r0.len() {
                    assert(r0.contains(r0[k]));
                    if rest.contains(x) {
                        let m = choose|m: int| 0 <= m < rest.len() && rest[m] == x;
                        assert(sorted[m] == x);
                    }
                } else {
                    assert(sorted[sorted.len() - 1] == x);
                }
            }
            if sorted.contains(x) {
                let k = choose|k: int| 0 <= k < sorted.len() && sorted[k] == x;
                if k < rest.len() {
                    assert(rest[k] == x);
                    assert(rest.contains(x));
                    assert(r0.contains(x));
                    let m = choose|m: int| 0 <= m < r0.len() && r0[m] == x;
                    assert(r[m] == x);
                } else {
                    assert(r[r.len() - 1] == x);
                }
            }
            if x == e {
                assert(r0.contains(x));
                let m = choose|m: int| 0 <= m < r0.len() && r0[m] == x;
                assert(r[m] == x);
            }
        }
        r
    }
}

/// Every list of edges can be put in order: `sorted_edges` ascends strictly
/// and holds the edges of the list, no more and no fewer.
pub proof fn lemma_sorted_edges(edges: Seq<Edge>)
    ensures
        strictly_sorted(sorted_edges(edges)),
        same_edges(sorted_edges(edges), edges),
    decreases edges.len(),
{
    if edges.len() == 0 {
        let none = Seq::<Edge>::empty();
        assert(strictly_sorted(none) && same_edges(none, edges));
    } else {
        let rest = edges.drop_last();
        lemma_sorted_edges(rest);
        let r = lemma_insert(sorted_edges(rest), edges.last());
        assert forall|x: Edge| r.contains(x) <==> edges.contains(x) by {
            if rest.contains(x) {
                let k = choose|k: int| 0 <= k < rest.len() && rest[k] == x;
                assert(edges[k] == x);
            }
            if x == edges.last() {
                assert(edges[edges.len() - 1] == x);
            }
            if edges.contains(x) {
                let k = choose|k: int| 0 <= k < edges.len() && edges[k] == x;
                if k < rest.len() {
                    assert(rest[k] == x);
                }
            }
        }
        assert(strictly_sorted(r) && same_edges(r, edges));
    }
}

/// Leaving edges out of an ascending list leaves an ascending list, and
/// brings in no edge that was not there.
pub proof fn lemma_filter_sorted(edges: Seq<Edge>, keep: spec_fn(Edge) -> bool)
    requires
        strictly_sorted(edges),
    ensures
        strictly_sorted(edges.filter(keep)),
        forall|j: int| 0 <= j < edges.filter(keep).len() ==> edges.contains(#[trigger] edges.filter(keep)[j]),
    decreases edges.len(),
{
    reveal(Seq::filter);
    if edges.len() > 0 {
        let rest = edges.drop_last();
        let last = edges.last();
        assert(strictly_sorted(rest)) by {
            assert forall|i: int, j: int| 0 <= i < j < rest.len() implies edge_lt(
                #[trigger] rest[i],
                #[trigger] rest[j],
            ) by {
                assert(edge_lt(edges[i], edges[j]));
            }
        }
        lemma_filter_sorted(rest, keep);
        let f0 = rest.filter(keep);
        let f = edges.filter(keep);
        assert forall|j: int| 0 <= j < f.len() implies edges.contains(#[trigger] f[j]) by {
            if j < f0.len() {
                assert(rest.contains(f0[j]));
                let k = choose|k: int| 0 <= k < rest.len() && rest[k] == f0[j];
                assert(edges[k] == f[j]);
            } else {
                assert(edges[edges.len() - 1] == f[j]);
            }
        }
        assert forall|i: int, j: int| 0 <= i < j < f.len() implies edge_lt(
            #[trigger] f[i],
            #[trigger] f[j],
        ) by {
            if j < f0.len() {
                assert(edge_lt(f0[i], f0[j]));
            } else {
                assert(rest.contains(f0[i]));
                let k = choose|k: int| 0 <= k < rest.len() && rest[k] == f0[i];
                assert(edge_lt(edges[k], edges[edges.len() - 1]));
            }
        }
    }
}

/// Tells whether `a` comes before `b`.
pub fn edge_less(a: Edge, b: Edge) -> (less: bool)
    ensures
        less == edge_lt(a, b),
{
    a.0 < b.0 || (a.0 == b.0 && a.1 < b.1)
}

/// Puts `e` into an ascending list, unless it is there already.
fn insert_edge(sorted: &mut Vec<Edge>, e: Edge)
    requires
        strictly_sorted(old(sorted)@),
    ensures
        strictly_sorted(final(sorted)@),
        forall|x: Edge| final(sorted)@.contains(x) <==> (old(sorted)@.contains(x) || x == e),
{
    let mut pos: usize = sorted.len();
    while pos > 0 && edge_less(e, sorted[pos - 1])
        invariant
            pos <= sorted.len(),
            sorted@ == old(sorted)@,
            forall|k: int| pos <= k < sorted@.len() ==> edge_lt(e, #[trigger] sorted@[k]),
        decreases pos,
    {
        pos -= 1;
    }
    if pos > 0 && sorted[pos - 1] == e {
        assert(old(sorted)@.contains(e));
        return ;
    }
    let ghost s = sorted@;
    sorted.insert(pos, e);
    let ghost t = sorted@;
    assert(t == s.insert(pos as int, e));
    assert forall|i: int, j: int| 0 <= i < j < t.len() implies edge_lt(
        #[trigger] t[i],
        #[trigger] t[j],
    ) by {
        if pos > 0 {
            assert(!edge_lt(e, s[pos - 1]));
        }
        if i < pos && j == pos {
            if i < pos - 1 {
                assert(edge_lt(s[i], s[pos - 1]));
            }
        } else if i < pos && j > pos {
            assert(t[i] == s[i] && t[j] == s[j - 1]);
            if i < j - 1 {
                assert(edge_lt(s[i], s[j - 1]));
            }
        } else if i == pos {
            assert(t[j] == s[j - 1]);
        } else if i > pos {
            assert(t[i] == s[i - 1] && t[j] == s[j - 1]);
            assert(edge_lt(s[i - 1], s[j - 1]));
        } else {
            assert(t[i] == s[i] && t[j] == s[j]);
            assert(edge_lt(s[i], s[j]));
        }
    }
    assert forall|x: Edge| t.contains(x) <==> (s.contains(x) || x == e) by {
        if t.contains(x) {
            let k = choose|k: int| 0 <= k < t.len() && t[k] == x;
            if k < pos {
                assert(s[k] == x);
            } else if k > pos {
                assert(s[k - 1] == x);
            }
        }
        if s.contains(x) {
            let k = choose|k: int| 0 <= k < s.len() && s[k] == x;
            if k < pos {
                assert(t[k] == x);
            } else {
                assert(t[k + 1] == x);
            }
        }
        if x == e {
            assert(t[pos as int] == x);
        }
    }
}

/// Puts the edges in ascending order and drops every repeat.
pub fn sort_dedup(edges: &mut Vec<Edge>)
    ensures
        final(edges)@ == sorted_edges(old(edges)@),
        strictly_sorted(final(edges)@),
        same_edges(final(edges)@, old(edges)@),
{
    let mut out: Vec<Edge> = Vec::new();
    let mut i: usize = 0;
    while i < edges.len()
        invariant
            i <= edges.len(),
            edges@ == old(edges)@,
            strictly_sorted(out@),
            forall|x: Edge| out@.contains(x) <==> edges@.take(i as int).contains(x),
        decreases edges.len() - i,
    {
        let ghost before = out@;
        let e = edges[i];
        insert_edge(&mut out, e);
        assert forall|x: Edge| out@.contains(x) <==> edges@.take(i + 1).contains(x) by {
            let prev = edges@.take(i as int);
            let next = edges@.take(i + 1);
            if prev.contains(x) {
                let k = choose|k: int| 0 <= k < prev.len() && prev[k] == x;
                assert(next[k] == x);
            }
            if x == e {
                assert(next[i as int] == x);
            }
            if next.contains(x) {
                let k = choose|k: int| 0 <= k < next.len() && next[k] == x;
                if k < i {
                    assert(prev[k] == x);
                }
            }
        }
        i += 1;
    }
    assert(edges@.take(i as int) =~= edges@);
    proof {
        lemma_sorted_edges_is(edges@, out@);
    }
    *edges = out;
}

} // verus!
