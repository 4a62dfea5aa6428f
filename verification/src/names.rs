use crate::dep::NodeView;
use crate::graph::DepGraph;
use vstd::prelude::*;
use vstd::utf8::{encode_utf8, encode_utf8_decode_utf8};

verus! {

/// Whether `a` comes before `b` or equals it, both read from place `i` on:
/// the first byte in which they differ decides, and where one ends before
/// they differ, the shorter comes first.
pub open spec fn bytes_le_from(a: Seq<u8>, b: Seq<u8>, i: int) -> bool
    decreases a.len() - i,
{
    if i >= a.len() {
        true
    } else if i >= b.len() {
        false
    } else if a[i] != b[i] {
        a[i] < b[i]
    } else {
        bytes_le_from(a, b, i + 1)
    }
}

/// The order in which names are sorted: that of their UTF-8 bytes.
pub open spec fn name_le(a: Seq<char>, b: Seq<char>) -> bool {
    bytes_le_from(encode_utf8(a), encode_utf8(b), 0)
}

proof fn lemma_bytes_total(a: Seq<u8>, b: Seq<u8>, i: int)
    requires
        0 <= i,
    ensures
        bytes_le_from(a, b, i) || bytes_le_from(b, a, i),
    decreases a.len() - i,
{
    if i < a.len() && i < b.len() && a[i] == b[i] {
        lemma_bytes_total(a, b, i + 1);
    }
}

proof fn lemma_bytes_trans(a: Seq<u8>, b: Seq<u8>, c: Seq<u8>, i: int)
    requires
        0 <= i,
        bytes_le_from(a, b, i),
        bytes_le_from(b, c, i),
    ensures
        bytes_le_from(a, c, i),
    decreases a.len() - i,
{
    if i < a.len() && a[i] == b[i] && b[i] == c[i] {
        lemma_bytes_trans(a, b, c, i + 1);
    }
}

proof fn lemma_bytes_antisym(a: Seq<u8>, b: Seq<u8>, i: int)
    requires
        0 <= i <= a.len(),
        i <= b.len(),
        forall|k: int| 0 <= k < i ==> a[k] == b[k],
        bytes_le_from(a, b, i),
        bytes_le_from(b, a, i),
    ensures
        a == b,
    decreases a.len() - i,
{
    if i < a.len() {
        lemma_bytes_antisym(a, b, i + 1);
    } else {
        assert(a =~= b);
    }
}

/// Of two names one comes before the other, or they are equal.
pub proof fn lemma_name_le_total(a: Seq<char>, b: Seq<char>)
    ensures
        name_le(a, b) || name_le(b, a),
{
    lemma_bytes_total(encode_utf8(a), encode_utf8(b), 0);
}

/// What comes before a name comes before all that the name comes before.
pub proof fn lemma_name_le_trans(a: Seq<char>, b: Seq<char>, c: Seq<char>)
    requires
        name_le(a, b),
        name_le(b, c),
    ensures
        name_le(a, c),
{
    lemma_bytes_trans(encode_utf8(a), encode_utf8(b), encode_utf8(c), 0);
}

/// Two names that come before one another are one name.
pub proof fn lemma_name_le_antisym(a: Seq<char>, b: Seq<char>)
    requires
        name_le(a, b),
        name_le(b, a),
    ensures
        a == b,
{
    lemma_bytes_antisym(encode_utf8(a), encode_utf8(b), 0);
    encode_utf8_decode_utf8(a);
    encode_utf8_decode_utf8(b);
}

/// Tells whether `a` comes before `b` in the order of names, or equals it.
pub fn name_before_or_equal(a: &str, b: &str) -> (r: bool)
    ensures
        r == name_le(a@, b@),
{
    let x = a.as_bytes();
    let y = b.as_bytes();
    let mut i: usize = 0;
    while i < x.len() && i < y.len()
        invariant
            i <= x@.len(),
            i <= y@.len(),
            x@ == encode_utf8(a@),
            y@ == encode_utf8(b@),
            bytes_le_from(x@, y@, 0) == bytes_le_from(x@, y@, i as int),
        decreases x.len() - i,
    {
        if x[i] != y[i] {
            return x[i] < y[i];
        }
        i += 1;
    }
    i >= x.len()
}

/// Whether `ids` lists every id below `n` once.
pub open spec fn lists_all(ids: Seq<usize>, n: nat) -> bool {
    &&& ids.len() == n
    &&& forall|p: int| 0 <= p < ids.len() ==> #[trigger] ids[p] < n
    &&& forall|p: int, q: int| 0 <= p < q < ids.len() ==> #[trigger] ids[p] != #[trigger] ids[q]
    &&& forall|x: usize| x < n ==> #[trigger] ids.contains(x)
}

/// Whether the ids stand in the order of their nodes' names.
pub open spec fn ordered_by_name(nodes: Seq<NodeView>, ids: Seq<usize>) -> bool {
    forall|p: int, q: int|
        0 <= p < q < ids.len() ==> name_le(
            nodes[#[trigger] ids[p] as int].name,
            nodes[#[trigger] ids[q] as int].name,
        )
}

impl DepGraph {
    /// Where among `ids`, which stand in the order of their names, node `x`
    /// belongs: behind every node whose name comes before its own or equals
    /// it, and before every other.
    fn place_for(&self, ids: &Vec<usize>, x: usize) -> (pos: usize)
        requires
            x < self@.nodes.len(),
            forall|p: int| 0 <= p < ids@.len() ==> #[trigger] ids@[p] < self@.nodes.len(),
            ordered_by_name(self@.nodes, ids@),
        ensures
            pos <= ids@.len(),
            forall|k: int|
                0 <= k < pos ==> name_le(
                    self@.nodes[#[trigger] ids@[k] as int].name,
                    self@.nodes[x as int].name,
                ),
            forall|k: int|
                pos <= k < ids@.len() ==> name_le(
                    self@.nodes[x as int].name,
                    self@.nodes[#[trigger] ids@[k] as int].name,
                ),
    {
        let ghost nodes = self@.nodes;
        let ghost name = nodes[x as int].name;
        let mut lo: usize = 0;
        let mut hi: usize = ids.len();
        while lo < hi
            invariant
                lo <= hi <= ids@.len(),
                x < self@.nodes.len(),
                nodes == self@.nodes,
                name == nodes[x as int].name,
                forall|p: int| 0 <= p < ids@.len() ==> #[trigger] ids@[p] < nodes.len(),
                ordered_by_name(nodes, ids@),
                forall|k: int| 0 <= k < lo ==> name_le(nodes[#[trigger] ids@[k] as int].name, name),
                forall|k: int|
                    hi <= k < ids@.len() ==> !name_le(nodes[#[trigger] ids@[k] as int].name, name),
            decreases hi - lo,
        {
            let mid = lo + (hi - lo) / 2;
            let at_mid = ids[mid];
            let ghost mid_name = nodes[at_mid as int].name;
            if name_before_or_equal(self.nodes[at_mid].name.as_str(), self.nodes[x].name.as_str()) {
                assert forall|k: int| 0 <= k < mid + 1 implies name_le(
                    nodes[#[trigger] ids@[k] as int].name,
                    name,
                ) by {
                    if k < mid {
                        assert(name_le(nodes[ids@[k] as int].name, nodes[ids@[mid as int] as int].name));
                        lemma_name_le_trans(nodes[ids@[k] as int].name, mid_name, name);
                    }
                }
                lo = mid + 1;
            } else {
                assert forall|k: int| mid <= k < ids@.len() implies !name_le(
                    nodes[#[trigger] ids@[k] as int].name,
                    name,
                ) by {
                    if k > mid && name_le(nodes[ids@[k] as int].name, name) {
                        assert(name_le(nodes[ids@[mid as int] as int].name, nodes[ids@[k] as int].name));
                        lemma_name_le_trans(mid_name, nodes[ids@[k] as int].name, name);
                    }
                }
                hi = mid;
            }
        }
        assert forall|k: int| lo <= k < ids@.len() implies name_le(
            name,
            nodes[#[trigger] ids@[k] as int].name,
        ) by {
            lemma_name_le_total(name, nodes[ids@[k] as int].name);
        }
        lo
    }

    /// The ids of the nodes in the order of the nodes' names.
    pub fn ids_by_name(&self) -> (ids: Vec<usize>)
        ensures
            lists_all(ids@, self@.nodes.len()),
            ordered_by_name(self@.nodes, ids@),
    {
        let ghost nodes = self@.nodes;
        let n = self.nodes.len();
        let mut ids: Vec<usize> = Vec::new();
        let mut x: usize = 0;
        while x < n
            invariant
                x <= n,
                n == self@.nodes.len(),
                nodes == self@.nodes,
                lists_all(ids@, x as nat),
                ordered_by_name(nodes, ids@),
            decreases n - x,
        {
            let pos = self.place_for(&ids, x);
            let ghost before = ids@;
            ids.insert(pos, x);
            proof {
                let after = ids@;
                assert(after == before.insert(pos as int, x));
                assert forall|p: int| 0 <= p < after.len() implies #[trigger] after[p] < x + 1 by {
                    if p < pos {
                        assert(after[p] == before[p]);
                    } else if p > pos {
                        assert(after[p] == before[p - 1]);
                    }
                }
                assert forall|p: int, q: int| 0 <= p < q < after.len() implies #[trigger] after[p]
                    != #[trigger] after[q] && name_le(
                    nodes[after[p] as int].name,
                    nodes[after[q] as int].name,
                ) by {
                    let a = if p < pos {
                        p
                    } else {
                        p - 1
                    };
                    let b = if q < pos {
                        q
                    } else {
                        q - 1
                    };
                    if p != pos && q != pos {
                        assert(after[p] == before[a] && after[q] == before[b]);
                        assert(before[a] != before[b]);
                        assert(name_le(nodes[before[a] as int].name, nodes[before[b] as int].name));
                    } else if p == pos {
                        assert(after[q] == before[b]);
                        assert(before[b] < x);
                    } else {
                        assert(after[p] == before[a]);
                        assert(before[a] < x);
                    }
                }
                assert forall|y: usize| y < x + 1 implies #[trigger] after.contains(y) by {
                    if y == x {
                        assert(after[pos as int] == y);
                    } else {
                        assert(before.contains(y));
                        let k = choose|k: int| 0 <= k < before.len() && before[k] == y;
                        if k < pos {
                            assert(after[k] == y);
                        } else {
                            assert(after[k + 1] == y);
                        }
                    }
                }
            }
            x += 1;
        }
        ids
    }
}

} // verus!
