use vstd::prelude::*;

use crate::error::DecodeError;

verus! {

/// Table class: 0 = DC (or lossless) table, 1 = AC table.
#[derive(Debug, Clone, Copy, PartialEq, Eq, Hash, Structural)]
pub enum HuffmanClass {
    DC,
    AC,
}

/// The table class under the name used by the table definitions.
pub type TableType = HuffmanClass;

/// The class that a one-bit table-class field selects.
pub open spec fn class_of(bit: u8) -> HuffmanClass {
    if bit == 1 {
        HuffmanClass::AC
    } else {
        HuffmanClass::DC
    }
}

impl HuffmanClass {
    pub fn from(ht_class: u8) -> (r: HuffmanClass)
        requires
            ht_class <= 1,
        ensures
            r == class_of(ht_class),
    {
        if ht_class == 1 {
            HuffmanClass::AC
        } else {
            HuffmanClass::DC
        }
    }
}

/// A node of a tree held in an arena: a leaf carries a symbol, an internal
/// node the arena indices of its two children. Both carry the weight that
/// the merge construction ordered them by.
#[derive(Debug, Clone, Copy, PartialEq, Eq, Structural)]
pub enum HuffmanNode {
    Leaf { symbol: u8, weight: usize },
    Internal { left: usize, right: usize, weight: usize },
}

pub open spec fn weight_of(n: HuffmanNode) -> nat {
    match n {
        HuffmanNode::Leaf { weight, .. } => weight as nat,
        HuffmanNode::Internal { weight, .. } => weight as nat,
    }
}

impl HuffmanNode {
    pub fn new_leaf(symbol: u8, weight: usize) -> (r: HuffmanNode)
        ensures
            r == (HuffmanNode::Leaf { symbol, weight }),
    {
        HuffmanNode::Leaf { symbol, weight }
    }

    pub fn is_internal(&self) -> (r: bool)
        ensures
            r == (*self is Internal),
    {
        match self {
            HuffmanNode::Internal { .. } => true,
            HuffmanNode::Leaf { .. } => false,
        }
    }
}

/// Node `m` is internal and names `x` as one of its children.
pub open spec fn is_child_of(nodes: Seq<HuffmanNode>, m: int, x: int) -> bool {
    &&& 0 <= m < nodes.len()
    &&& match nodes[m] {
        HuffmanNode::Internal { left, right, .. } => left == x || right == x,
        HuffmanNode::Leaf { .. } => false,
    }
}

pub open spec fn has_parent(nodes: Seq<HuffmanNode>, x: int) -> bool {
    exists|m: int| #[trigger] is_child_of(nodes, m, x)
}

/// The arena holds one strict binary tree whose root is the last node:
/// every internal node has two distinct children stored before it, every
/// other node is the child of exactly one internal node.
pub open spec fn tree_shaped(nodes: Seq<HuffmanNode>) -> bool {
    &&& nodes.len() >= 1
    &&& forall|m: int|
        0 <= m < nodes.len() ==> match #[trigger] nodes[m] {
            HuffmanNode::Internal { left, right, .. } => left < m && right < m && left != right,
            HuffmanNode::Leaf { .. } => true,
        }
    &&& forall|x: int| 0 <= x < nodes.len() - 1 ==> #[trigger] has_parent(nodes, x)
    &&& forall|m1: int, m2: int, x: int|
        #[trigger] is_child_of(nodes, m1, x) && #[trigger] is_child_of(nodes, m2, x) ==> m1 == m2
}

/// One step down the tree: bit 0 goes left, bit 1 goes right.
pub open spec fn step(nodes: Seq<HuffmanNode>, node: int, bit: u8) -> Option<int> {
    if 0 <= node < nodes.len() {
        match nodes[node] {
            HuffmanNode::Internal { left, right, .. } => if bit == 0 {
                Some(left as int)
            } else if bit == 1 {
                Some(right as int)
            } else {
                None
            },
            HuffmanNode::Leaf { .. } => None,
        }
    } else {
        None
    }
}

/// The node reached from `root` by following `bits`, if every step exists.
pub open spec fn walk(nodes: Seq<HuffmanNode>, root: int, bits: Seq<u8>) -> Option<int>
    decreases bits.len(),
{
    if bits.len() == 0 {
        Some(root)
    } else {
        match walk(nodes, root, bits.drop_last()) {
            Some(n) => step(nodes, n, bits.last()),
            None => None,
        }
    }
}

/// The symbol that a bit sequence decodes to: the walk must end on a leaf.
pub open spec fn decode_path(nodes: Seq<HuffmanNode>, root: int, bits: Seq<u8>) -> Option<u8> {
    match walk(nodes, root, bits) {
        Some(n) => match nodes[n] {
            HuffmanNode::Leaf { symbol, .. } => Some(symbol),
            HuffmanNode::Internal { .. } => None,
        },
        None => None,
    }
}

/// The bits from the root (the last node) down to node `x`.
pub open spec fn node_path(nodes: Seq<HuffmanNode>, x: int) -> Seq<u8>
    decreases nodes.len() - x,
{
    if 0 <= x < nodes.len() - 1 && has_parent(nodes, x) {
        let m = choose|m: int| is_child_of(nodes, m, x);
        if m > x {
            let bit: u8 = match nodes[m] {
                HuffmanNode::Internal { left, .. } => if left == x {
                    0u8
                } else {
                    1u8
                },
                HuffmanNode::Leaf { .. } => 0u8,
            };
            node_path(nodes, m).push(bit)
        } else {
            Seq::empty()
        }
    } else {
        Seq::empty()
    }
}

/// Retracing the root-to-node path of any node of a well-shaped tree
/// arrives at that node; for a leaf the bits decode to its symbol.
pub proof fn lemma_leaf_path_round_trip(nodes: Seq<HuffmanNode>, x: int)
    requires
        tree_shaped(nodes),
        0 <= x < nodes.len(),
    ensures
        walk(nodes, nodes.len() - 1, node_path(nodes, x)) == Some(x),
        nodes[x] matches HuffmanNode::Leaf { symbol, .. } ==> decode_path(
            nodes,
            nodes.len() - 1,
            node_path(nodes, x),
        ) == Some(symbol),
    decreases nodes.len() - x,
{
    if x < nodes.len() - 1 {
        assert(has_parent(nodes, x));
        let m = choose|m: int| is_child_of(nodes, m, x);
        assert(0 <= m < nodes.len());
        assert(m > x) by {
            let nm = nodes[m];
        }
        lemma_leaf_path_round_trip(nodes, m);
        let p = node_path(nodes, m);
        let bit: u8 = match nodes[m] {
            HuffmanNode::Internal { left, .. } => if left == x {
                0u8
            } else {
                1u8
            },
            HuffmanNode::Leaf { .. } => 0u8,
        };
        assert(node_path(nodes, x) == p.push(bit));
        assert(p.push(bit).drop_last() == p);
    }
}

pub open spec fn count_leaves(nodes: Seq<HuffmanNode>) -> nat
    decreases nodes.len(),
{
    if nodes.len() == 0 {
        0
    } else {
        count_leaves(nodes.drop_last()) + if nodes.last() is Leaf {
            1nat
        } else {
            0nat
        }
    }
}

pub open spec fn count_internal(nodes: Seq<HuffmanNode>) -> nat
    decreases nodes.len(),
{
    if nodes.len() == 0 {
        0
    } else {
        count_internal(nodes.drop_last()) + if nodes.last() is Internal {
            1nat
        } else {
            0nat
        }
    }
}

/// An arena of `n` leaves followed by only internal nodes.
proof fn lemma_counts(nodes: Seq<HuffmanNode>, n: int)
    requires
        0 <= n <= nodes.len(),
        forall|i: int| 0 <= i < n ==> nodes[i] is Leaf,
        forall|i: int| n <= i < nodes.len() ==> nodes[i] is Internal,
    ensures
        count_leaves(nodes) == n,
        count_internal(nodes) == nodes.len() - n,
    decreases nodes.len(),
{
    if nodes.len() > 0 {
        let d = nodes.drop_last();
        if n == nodes.len() {
            lemma_counts(d, n - 1);
        } else {
            lemma_counts(d, n);
        }
    }
}

/// An entry of the merge queue: a subtree's weight and its root in the arena.
#[derive(Debug, Clone, Copy, PartialEq, Eq, Structural)]
pub struct HeapItem {
    pub freq: usize,
    pub node: usize,
}

impl HeapItem {
    pub fn from(freq: usize, node: usize) -> (r: HeapItem)
        ensures
            r == (HeapItem { freq, node }),
    {
        HeapItem { freq, node }
    }
}

pub open spec fn weight_sum(s: Seq<HeapItem>) -> nat
    decreases s.len(),
{
    if s.len() == 0 {
        0
    } else {
        (weight_sum(s.drop_last()) + s.last().freq) as nat
    }
}

proof fn lemma_weight_sum_remove(s: Seq<HeapItem>, k: int)
    requires
        0 <= k < s.len(),
    ensures
        weight_sum(s) == weight_sum(s.remove(k)) + s[k].freq,
    decreases s.len(),
{
    if k < s.len() - 1 {
        let d = s.drop_last();
        lemma_weight_sum_remove(d, k);
        assert(s.remove(k).drop_last() == d.remove(k));
        assert(s.remove(k).last() == s.last());
    } else {
        assert(s.remove(k) == s.drop_last());
    }
}

/// A priority queue that hands out the lightest item first; among equally
/// light items, the one that has waited longest.
pub struct MinHeap {
    items: Vec<HeapItem>,
}

impl MinHeap {
    pub closed spec fn view(&self) -> Seq<HeapItem> {
        self.items@
    }

    pub fn new() -> (r: MinHeap)
        ensures
            r@ == Seq::<HeapItem>::empty(),
    {
        MinHeap { items: Vec::new() }
    }

    pub fn len(&self) -> (r: usize)
        ensures
            r == self@.len(),
    {
        self.items.len()
    }

    pub fn is_empty(&self) -> (r: bool)
        ensures
            r == (self@.len() == 0),
    {
        self.items.len() == 0
    }

    pub fn push(&mut self, item: HeapItem)
        ensures
            final(self)@ == old(self)@.push(item),
    {
        self.items.push(item);
    }

    /// The position of the first item of least weight.
    pub fn min_index(&self) -> (k: usize)
        requires
            self@.len() > 0,
        ensures
            k < self@.len(),
            forall|j: int| 0 <= j < self@.len() ==> self@[k as int].freq <= #[trigger] self@[j].freq,
            forall|j: int| 0 <= j < k ==> self@[k as int].freq < #[trigger] self@[j].freq,
    {
        let mut best: usize = 0;
        let mut i: usize = 1;
        while i < self.items.len()
            invariant
                0 <= best < i <= self.items@.len(),
                forall|j: int| 0 <= j < i ==> self.items@[best as int].freq <= #[trigger] self.items@[j].freq,
                forall|j: int| 0 <= j < best ==> self.items@[best as int].freq < #[trigger] self.items@[j].freq,
            decreases self.items@.len() - i,
        {
            if self.items[i].freq < self.items[best].freq {
                best = i;
            }
            i = i + 1;
        }
        best
    }

    pub fn remove_at(&mut self, k: usize) -> (r: HeapItem)
        requires
            k < old(self)@.len(),
        ensures
            r == old(self)@[k as int],
            final(self)@ == old(self)@.remove(k as int),
    {
        self.items.remove(k)
    }

    /// Removes and returns the first item of least weight.
    pub fn pop(&mut self) -> (r: Option<HeapItem>)
        ensures
            old(self)@.len() == 0 ==> r is None && final(self)@ == old(self)@,
            old(self)@.len() > 0 ==> exists|k: int|
                0 <= k < old(self)@.len() && r == Some(old(self)@[k]) && final(self)@ == old(
                    self,
                )@.remove(k) && (forall|j: int|
                    0 <= j < old(self)@.len() ==> old(self)@[k].freq <= #[trigger] old(self)@[j].freq)
                    && (forall|j: int| 0 <= j < k ==> old(self)@[k].freq < #[trigger] old(self)@[j].freq),
    {
        if self.items.len() == 0 {
            return None;
        }
        let best = self.min_index();
        let item = self.remove_at(best);
        Some(item)
    }
}

pub open spec fn in_heap(h: Seq<HeapItem>, x: int) -> bool {
    exists|i: int| 0 <= i < h.len() && #[trigger] h[i].node == x
}

/// Node `m` merges two distinct earlier nodes, the lighter one on the left,
/// and weighs their sum.
pub open spec fn merged_at(nodes: Seq<HuffmanNode>, m: int) -> bool {
    match nodes[m] {
        HuffmanNode::Internal { left, right, weight } => left < m && right < m && left != right && weight
            == weight_of(nodes[left as int]) + weight_of(nodes[right as int]) && weight_of(
            nodes[left as int],
        ) <= weight_of(nodes[right as int]),
        HuffmanNode::Leaf { .. } => false,
    }
}

/// Node `x` is the root of a subtree that no node before `k` has merged.
pub open spec fn free_at(nodes: Seq<HuffmanNode>, k: int, x: int) -> bool {
    &&& 0 <= x < k
    &&& forall|m: int| 0 <= m < k ==> !#[trigger] is_child_of(nodes, m, x)
}

/// Node `x` leaves the queue before node `y`: it is lighter, or as light
/// and created earlier.
pub open spec fn precedes(nodes: Seq<HuffmanNode>, x: int, y: int) -> bool {
    weight_of(nodes[x]) < weight_of(nodes[y]) || (weight_of(nodes[x]) == weight_of(nodes[y]) && x < y)
}

/// Node `k` merges the first two of the subtrees that were free before it,
/// in queue order: the first becomes its left child, the second its right.
pub open spec fn greedy_at(nodes: Seq<HuffmanNode>, k: int) -> bool {
    match nodes[k] {
        HuffmanNode::Internal { left, right, .. } => {
            &&& free_at(nodes, k, left as int)
            &&& free_at(nodes, k, right as int)
            &&& forall|x: int| #[trigger] free_at(nodes, k, x) && x != left ==> precedes(nodes, left as int, x)
            &&& forall|x: int|
                #[trigger] free_at(nodes, k, x) && x != left && x != right ==> precedes(nodes, right as int, x)
        },
        HuffmanNode::Leaf { .. } => false,
    }
}

/// The tree that the merge construction builds from `(symbol, weight)` pairs:
/// the pairs are its first leaves in order, each later node merges two
/// earlier subtrees and weighs their sum, and the merges come lightest first.
pub open spec fn merge_layout(nodes: Seq<HuffmanNode>, pairs: Seq<(u8, usize)>) -> bool {
    let n = pairs.len() as int;
    &&& n >= 1
    &&& nodes.len() == 2 * n - 1
    &&& forall|i: int|
        0 <= i < n ==> #[trigger] nodes[i] == (HuffmanNode::Leaf { symbol: pairs[i].0, weight: pairs[i].1 })
    &&& forall|i: int|
        n <= i < nodes.len() ==> #[trigger] merged_at(nodes, i)
    &&& forall|i: int, j: int| n <= i < j < nodes.len() ==> weight_of(#[trigger] nodes[i]) <= weight_of(#[trigger] nodes[j])
    &&& forall|k: int| n <= k < nodes.len() ==> #[trigger] greedy_at(nodes, k)
}

pub open spec fn total_weight(pairs: Seq<(u8, usize)>) -> nat
    decreases pairs.len(),
{
    if pairs.len() == 0 {
        0
    } else {
        (total_weight(pairs.drop_last()) + pairs.last().1) as nat
    }
}

/// Where the `q`-th item left after removing positions `ka` and then `kb`
/// stood before.
spec fn kept(q: int, ka: int, kb: int) -> int {
    let i1 = if q < kb { q } else { q + 1 };
    if i1 < ka { i1 } else { i1 + 1 }
}

/// Where the item removed second stood before the first removal.
spec fn second(ka: int, kb: int) -> int {
    if kb < ka { kb } else { kb + 1 }
}

proof fn lemma_two_removals(h0: Seq<HeapItem>, ka: int, kb: int)
    requires
        0 <= ka < h0.len(),
        0 <= kb < h0.len() - 1,
    ensures
        h0.remove(ka)[kb] == h0[second(ka, kb)],
        0 <= second(ka, kb) < h0.len(),
        second(ka, kb) != ka,
        h0.remove(ka).remove(kb).len() == h0.len() - 2,
        forall|q: int|
            0 <= q < h0.len() - 2 ==> #[trigger] h0.remove(ka).remove(kb)[q] == h0[kept(q, ka, kb)] && 0
                <= kept(q, ka, kb) < h0.len() && kept(q, ka, kb) != ka && kept(q, ka, kb) != second(ka, kb),
        forall|q1: int, q2: int| 0 <= q1 < q2 < h0.len() - 2 ==> kept(q1, ka, kb) < kept(q2, ka, kb),
{
    let h1 = h0.remove(ka);
    let h2 = h1.remove(kb);
    assert forall|q: int| 0 <= q < h0.len() - 2 implies #[trigger] h2[q] == h0[kept(q, ka, kb)] by {
        let i1 = if q < kb { q } else { q + 1 };
        assert(h2[q] == h1[i1]);
    }
}

#[verifier::opaque]
spec fn leaves_ok(nodes: Seq<HuffmanNode>, pairs: Seq<(u8, usize)>) -> bool {
    forall|j: int|
        0 <= j < pairs.len() ==> #[trigger] nodes[j] == (HuffmanNode::Leaf { symbol: pairs[j].0, weight: pairs[j].1 })
}

/// Every node from `n` on merges two distinct earlier nodes, the lighter
/// one on the left, and weighs their sum.
#[verifier::opaque]
spec fn internal_ok(nodes: Seq<HuffmanNode>, n: int) -> bool {
    forall|m: int|
        n <= m < nodes.len() ==> #[trigger] merged_at(nodes, m)
}

#[verifier::opaque]
spec fn greedy_ok(nodes: Seq<HuffmanNode>, n: int) -> bool {
    forall|k: int| n <= k < nodes.len() ==> #[trigger] greedy_at(nodes, k)
}

#[verifier::opaque]
spec fn monotone(nodes: Seq<HuffmanNode>, n: int) -> bool {
    forall|i: int, j: int|
        n <= i < j < nodes.len() ==> weight_of(#[trigger] nodes[i]) <= weight_of(#[trigger] nodes[j])
}

/// No queued subtree is lighter than the heavier child of the latest merge.
#[verifier::opaque]
spec fn last_bound(nodes: Seq<HuffmanNode>, heap: Seq<HeapItem>, n: int) -> bool {
    nodes.len() > n ==> match nodes.last() {
        HuffmanNode::Internal { right, .. } => forall|k: int|
            0 <= k < heap.len() ==> weight_of(nodes[right as int]) <= #[trigger] heap[k].freq,
        HuffmanNode::Leaf { .. } => false,
    }
}

#[verifier::opaque]
spec fn heap_matches(nodes: Seq<HuffmanNode>, heap: Seq<HeapItem>) -> bool {
    forall|k: int|
        0 <= k < heap.len() ==> (#[trigger] heap[k]).node < nodes.len() && heap[k].freq == weight_of(
            nodes[heap[k].node as int],
        )
}

#[verifier::opaque]
spec fn heap_sorted(heap: Seq<HeapItem>) -> bool {
    forall|k1: int, k2: int| 0 <= k1 < k2 < heap.len() ==> (#[trigger] heap[k1]).node < (#[trigger] heap[k2]).node
}

#[verifier::opaque]
spec fn heap_free(nodes: Seq<HuffmanNode>, heap: Seq<HeapItem>) -> bool {
    forall|k: int, m: int| 0 <= k < heap.len() ==> !#[trigger] is_child_of(nodes, m, heap[k].node as int)
}

#[verifier::opaque]
spec fn covered(nodes: Seq<HuffmanNode>, heap: Seq<HeapItem>) -> bool {
    forall|x: int| 0 <= x < nodes.len() ==> in_heap(heap, x) || #[trigger] has_parent(nodes, x)
}

#[verifier::opaque]
spec fn unique_parent(nodes: Seq<HuffmanNode>) -> bool {
    forall|m1: int, m2: int, x: int|
        #[trigger] is_child_of(nodes, m1, x) && #[trigger] is_child_of(nodes, m2, x) ==> m1 == m2
}

/// What holds between two merges: the pairs are the first leaves, every
/// later node merges two earlier ones, the queue holds exactly the subtrees
/// that have no parent yet, in arena order, and none is lighter than the
/// heavier child of the latest merge.
spec fn merge_inv(nodes: Seq<HuffmanNode>, heap: Seq<HeapItem>, pairs: Seq<(u8, usize)>) -> bool {
    let n = pairs.len() as int;
    &&& 1 <= heap.len() <= n
    &&& nodes.len() == 2 * n - heap.len()
    &&& weight_sum(heap) == total_weight(pairs)
    &&& heap.last().node == nodes.len() - 1
    &&& leaves_ok(nodes, pairs)
    &&& internal_ok(nodes, n)
    &&& monotone(nodes, n)
    &&& greedy_ok(nodes, n)
    &&& last_bound(nodes, heap, n)
    &&& heap_matches(nodes, heap)
    &&& heap_sorted(heap)
    &&& heap_free(nodes, heap)
    &&& covered(nodes, heap)
    &&& unique_parent(nodes)
}

proof fn lemma_step_heap(nodes0: Seq<HuffmanNode>, h0: Seq<HeapItem>, ka: int, kb: int, w: usize)
    requires
        nodes0.len() < usize::MAX,
        heap_matches(nodes0, h0),
        heap_sorted(h0),
        0 <= ka < h0.len(),
        0 <= kb < h0.len() - 1,
        w == weight_of(nodes0[h0[ka].node as int]) + weight_of(nodes0[h0[second(ka, kb)].node as int]),
    ensures
        ({
            let nodes = nodes0.push(
                HuffmanNode::Internal { left: h0[ka].node, right: h0[second(ka, kb)].node, weight: w },
            );
            let h3 = h0.remove(ka).remove(kb).push(HeapItem { freq: w, node: nodes0.len() as usize });
            &&& heap_matches(nodes, h3)
            &&& heap_sorted(h3)
            &&& h0[ka].node != h0[second(ka, kb)].node
        }),
{
    reveal(heap_matches);
    reveal(heap_sorted);
    lemma_two_removals(h0, ka, kb);
    let nodes = nodes0.push(
        HuffmanNode::Internal { left: h0[ka].node, right: h0[second(ka, kb)].node, weight: w },
    );
    let h2 = h0.remove(ka).remove(kb);
    let h3 = h2.push(HeapItem { freq: w, node: nodes0.len() as usize });
    assert forall|q: int| 0 <= q < h3.len() implies (#[trigger] h3[q]).node < nodes.len() && h3[q].freq
        == weight_of(nodes[h3[q].node as int]) by {
        if q < h3.len() - 1 {
            assert(h3[q] == h2[q]);
            assert(h2[q] == h0[kept(q, ka, kb)]);
        }
    }
    assert forall|k1: int, k2: int| 0 <= k1 < k2 < h3.len() implies (#[trigger] h3[k1]).node < (
    #[trigger] h3[k2]).node by {
        assert(h3[k1] == h2[k1]);
        assert(h2[k1] == h0[kept(k1, ka, kb)]);
        if k2 < h3.len() - 1 {
            assert(h3[k2] == h2[k2]);
            assert(h2[k2] == h0[kept(k2, ka, kb)]);
        }
    }
    if ka < second(ka, kb) {
    } else {
    }
}

proof fn lemma_step_tree(nodes0: Seq<HuffmanNode>, h0: Seq<HeapItem>, ka: int, kb: int, w: usize)
    requires
        forall|m: int, x: int| #[trigger] is_child_of(nodes0, m, x) ==> x < nodes0.len(),
        nodes0.len() < usize::MAX,
        heap_matches(nodes0, h0),
        heap_sorted(h0),
        heap_free(nodes0, h0),
        covered(nodes0, h0),
        unique_parent(nodes0),
        0 <= ka < h0.len(),
        0 <= kb < h0.len() - 1,
        h0[ka].node != h0[second(ka, kb)].node,
    ensures
        ({
            let nodes = nodes0.push(
                HuffmanNode::Internal { left: h0[ka].node, right: h0[second(ka, kb)].node, weight: w },
            );
            let h3 = h0.remove(ka).remove(kb).push(HeapItem { freq: w, node: nodes0.len() as usize });
            &&& heap_free(nodes, h3)
            &&& covered(nodes, h3)
            &&& unique_parent(nodes)
        }),
{
    reveal(heap_free);
    reveal(covered);
    reveal(unique_parent);
    reveal(heap_matches);
    lemma_two_removals(h0, ka, kb);
    let an = h0[ka].node as int;
    let bn = h0[second(ka, kb)].node as int;
    let k = nodes0.len() as int;
    let nodes = nodes0.push(
        HuffmanNode::Internal { left: h0[ka].node, right: h0[second(ka, kb)].node, weight: w },
    );
    let h2 = h0.remove(ka).remove(kb);
    let h3 = h2.push(HeapItem { freq: w, node: nodes0.len() as usize });
    assert forall|m: int, x: int| m != k implies is_child_of(nodes, m, x) == is_child_of(nodes0, m, x) by {
        if 0 <= m < nodes0.len() {
            assert(nodes[m] == nodes0[m]);
        }
    }
    assert forall|x: int| 0 <= x < nodes.len() implies in_heap(h3, x) || #[trigger] has_parent(nodes, x) by {
        if x == k {
            assert(h3[h3.len() - 1].node == x);
        } else if x == an || x == bn {
            assert(is_child_of(nodes, k, x));
        } else if in_heap(h0, x) {
            let i = choose|i: int| 0 <= i < h0.len() && #[trigger] h0[i].node == x;
            let q = if i < ka && i < second(ka, kb) {
                i
            } else if i > ka && i > second(ka, kb) {
                i - 2
            } else {
                i - 1
            };
            assert(kept(q, ka, kb) == i);
            assert(h3[q] == h2[q]);
            assert(h3[q].node == x);
        } else {
            assert(has_parent(nodes0, x));
            let m = choose|m: int| #[trigger] is_child_of(nodes0, m, x);
            assert(is_child_of(nodes, m, x));
        }
    }
    assert forall|m1: int, m2: int, x: int|
        #[trigger] is_child_of(nodes, m1, x) && #[trigger] is_child_of(nodes, m2, x) implies m1 == m2 by {
        if m1 != k && m2 != k {
            assert(is_child_of(nodes0, m1, x));
            assert(is_child_of(nodes0, m2, x));
        } else if m1 == k && m2 != k {
            assert(is_child_of(nodes0, m2, x));
            if x == an {
                assert(!is_child_of(nodes0, m2, h0[ka].node as int));
            } else {
                assert(!is_child_of(nodes0, m2, h0[second(ka, kb)].node as int));
            }
        } else if m2 == k && m1 != k {
            assert(is_child_of(nodes0, m1, x));
            if x == an {
                assert(!is_child_of(nodes0, m1, h0[ka].node as int));
            } else {
                assert(!is_child_of(nodes0, m1, h0[second(ka, kb)].node as int));
            }
        }
    }
    assert forall|q: int, m: int| 0 <= q < h3.len() implies !#[trigger] is_child_of(nodes, m, h3[q].node as int) by {
        if q < h3.len() - 1 {
            assert(h3[q] == h2[q]);
            assert(h2[q] == h0[kept(q, ka, kb)]);
            if m != k {
                assert(!is_child_of(nodes0, m, h0[kept(q, ka, kb)].node as int));
            } else {
                reveal(heap_sorted);
                let j = kept(q, ka, kb);
                if j < ka {
                    assert(h0[j].node < h0[ka].node);
                } else {
                    assert(h0[ka].node < h0[j].node);
                }
                if j < second(ka, kb) {
                    assert(h0[j].node < h0[second(ka, kb)].node);
                } else {
                    assert(h0[second(ka, kb)].node < h0[j].node);
                }
            }
        } else {
            assert(h3[q].node == k);
            assert(h0[ka].node < nodes0.len());
            assert(h0[second(ka, kb)].node < nodes0.len());
            if 0 <= m < nodes0.len() {
                if is_child_of(nodes, m, k) {
                    assert(is_child_of(nodes0, m, k));
                }
            }
        }
    }
}

proof fn lemma_step_internal(nodes0: Seq<HuffmanNode>, n: int, l: usize, r: usize, w: usize)
    requires
        internal_ok(nodes0, n),
        nodes0.len() >= n,
        l < nodes0.len(),
        r < nodes0.len(),
        l != r,
        weight_of(nodes0[l as int]) <= weight_of(nodes0[r as int]),
        w == weight_of(nodes0[l as int]) + weight_of(nodes0[r as int]),
    ensures
        internal_ok(nodes0.push(HuffmanNode::Internal { left: l, right: r, weight: w }), n),
{
    reveal(internal_ok);
    let nodes = nodes0.push(HuffmanNode::Internal { left: l, right: r, weight: w });
    assert forall|m: int| n <= m < nodes.len() implies #[trigger] merged_at(nodes, m) by {
        if m < nodes0.len() {
            assert(merged_at(nodes0, m));
            assert(nodes[m] == nodes0[m]);
            match nodes0[m] {
                HuffmanNode::Internal { left, right, .. } => {
                    assert(nodes[left as int] == nodes0[left as int]);
                    assert(nodes[right as int] == nodes0[right as int]);
                },
                HuffmanNode::Leaf { .. } => {},
            }
        } else {
            assert(nodes[l as int] == nodes0[l as int]);
            assert(nodes[r as int] == nodes0[r as int]);
        }
    }
}

/// The latest merge is no lighter than any before it.
proof fn lemma_step_monotone(nodes0: Seq<HuffmanNode>, n: int, fa: nat, fb: nat, l: usize, r: usize, w: usize)
    requires
        internal_ok(nodes0, n),
        monotone(nodes0, n),
        0 <= n <= nodes0.len(),
        nodes0.len() > n ==> match nodes0.last() {
            HuffmanNode::Internal { right, .. } => weight_of(nodes0[right as int]) <= fa && weight_of(
                nodes0[right as int],
            ) <= fb,
            HuffmanNode::Leaf { .. } => false,
        },
        w == fa + fb,
    ensures
        monotone(nodes0.push(HuffmanNode::Internal { left: l, right: r, weight: w }), n),
{
    reveal(internal_ok);
    reveal(monotone);
    let k = nodes0.len() as int;
    let nodes = nodes0.push(HuffmanNode::Internal { left: l, right: r, weight: w });
    if k > n {
        let last0 = nodes0[k - 1];
        assert(weight_of(last0) <= w) by {
            assert(merged_at(nodes0, k - 1));
            match last0 {
                HuffmanNode::Internal { left, right, .. } => {},
                HuffmanNode::Leaf { .. } => {},
            }
        }
    }
    assert forall|i: int, j: int| n <= i < j < nodes.len() implies weight_of(#[trigger] nodes[i]) <= weight_of(
        #[trigger] nodes[j],
    ) by {
        assert(nodes[i] == nodes0[i]);
        if j < k {
            assert(nodes[j] == nodes0[j]);
        } else if i < k - 1 {
            assert(weight_of(nodes0[i]) <= weight_of(nodes0[k - 1]));
        }
    }
}

proof fn lemma_step_bound(h0: Seq<HeapItem>, ka: int, kb: int, l: usize, r: usize, w: usize, k: usize)
    requires
        0 <= ka < h0.len(),
        0 <= kb < h0.len() - 1,
        forall|j: int| 0 <= j < h0.len() - 1 ==> h0.remove(ka)[kb].freq <= #[trigger] h0.remove(ka)[j].freq,
        w >= h0.remove(ka)[kb].freq,
    ensures
        forall|q: int|
            0 <= q < h0.len() - 1 ==> h0.remove(ka)[kb].freq <= #[trigger] h0.remove(ka).remove(kb).push(
                HeapItem { freq: w, node: k },
            )[q].freq,
{
    let h1 = h0.remove(ka);
    let h2 = h1.remove(kb);
    let h3 = h2.push(HeapItem { freq: w, node: k });
    assert forall|q: int| 0 <= q < h0.len() - 1 implies h1[kb].freq <= #[trigger] h3[q].freq by {
        if q < h3.len() - 1 {
            assert(h3[q] == h2[q]);
            let i1 = if q < kb { q } else { q + 1 };
            assert(h2[q] == h1[i1]);
        }
    }
}

/// Pushing a node leaves what earlier nodes merged unchanged.
proof fn lemma_greedy_kept(nodes0: Seq<HuffmanNode>, node: HuffmanNode, n: int)
    requires
        greedy_ok(nodes0, n),
        0 <= n,
    ensures
        forall|m: int| n <= m < nodes0.len() ==> #[trigger] greedy_at(nodes0.push(node), m),
{
    reveal(greedy_ok);
    let nodes = nodes0.push(node);
    assert forall|m: int| n <= m < nodes0.len() implies #[trigger] greedy_at(nodes, m) by {
        assert(greedy_at(nodes0, m));
        assert forall|x: int| #[trigger] free_at(nodes, m, x) == free_at(nodes0, m, x) by {
            assert forall|q: int| 0 <= q < m implies #[trigger] is_child_of(nodes, q, x) == is_child_of(
                nodes0,
                q,
                x,
            ) by {
                assert(nodes[q] == nodes0[q]);
            }
            if free_at(nodes0, m, x) {
                assert forall|q: int| 0 <= q < m implies !#[trigger] is_child_of(nodes, q, x) by {
                    assert(!is_child_of(nodes0, q, x));
                }
            }
            if free_at(nodes, m, x) {
                assert forall|q: int| 0 <= q < m implies !#[trigger] is_child_of(nodes0, q, x) by {
                    assert(!is_child_of(nodes, q, x));
                }
            }
        }
        assert(nodes[m] == nodes0[m]);
        match nodes0[m] {
            HuffmanNode::Internal { left, right, .. } => {
                assert forall|x: int| 0 <= x < m implies nodes[x] == nodes0[x] by {}
                assert(free_at(nodes0, m, left as int));
                assert(free_at(nodes0, m, right as int));
                assert(nodes[left as int] == nodes0[left as int]);
                assert(nodes[right as int] == nodes0[right as int]);
                assert forall|x: int| #[trigger] free_at(nodes, m, x) && x != left implies precedes(
                    nodes,
                    left as int,
                    x,
                ) by {
                    assert(free_at(nodes0, m, x));
                    assert(nodes[x] == nodes0[x]);
                }
                assert forall|x: int| #[trigger] free_at(nodes, m, x) && x != left && x != right implies precedes(
                    nodes,
                    right as int,
                    x,
                ) by {
                    assert(free_at(nodes0, m, x));
                    assert(nodes[x] == nodes0[x]);
                }
            },
            HuffmanNode::Leaf { .. } => {},
        }
    }
}

/// The new node merges the first two free subtrees in queue order.
proof fn lemma_step_greedy(nodes0: Seq<HuffmanNode>, h0: Seq<HeapItem>, ka: int, kb: int, w: usize)
    requires
        nodes0.len() < usize::MAX,
        heap_matches(nodes0, h0),
        heap_sorted(h0),
        heap_free(nodes0, h0),
        covered(nodes0, h0),
        0 <= ka < h0.len(),
        0 <= kb < h0.len() - 1,
        forall|j: int| 0 <= j < h0.len() ==> h0[ka].freq <= #[trigger] h0[j].freq,
        forall|j: int| 0 <= j < ka ==> h0[ka].freq < #[trigger] h0[j].freq,
        forall|j: int| 0 <= j < h0.len() - 1 ==> h0.remove(ka)[kb].freq <= #[trigger] h0.remove(ka)[j].freq,
        forall|j: int| 0 <= j < kb ==> h0.remove(ka)[kb].freq < #[trigger] h0.remove(ka)[j].freq,
    ensures
        greedy_at(
            nodes0.push(HuffmanNode::Internal { left: h0[ka].node, right: h0[second(ka, kb)].node, weight: w }),
            nodes0.len() as int,
        ),
{
    reveal(heap_matches);
    reveal(heap_sorted);
    reveal(heap_free);
    reveal(covered);
    lemma_two_removals(h0, ka, kb);
    let k = nodes0.len() as int;
    let jb = second(ka, kb);
    let an = h0[ka].node as int;
    let bn = h0[jb].node as int;
    let nodes = nodes0.push(HuffmanNode::Internal { left: h0[ka].node, right: h0[jb].node, weight: w });
    let h1 = h0.remove(ka);
    assert forall|q: int| 0 <= q < k implies #[trigger] nodes[q] == nodes0[q] by {}
    assert forall|q: int, x: int| 0 <= q < k implies #[trigger] is_child_of(nodes, q, x) == is_child_of(
        nodes0,
        q,
        x,
    ) by {
        assert(nodes[q] == nodes0[q]);
    }
    // the free subtrees are exactly the queued ones
    assert forall|x: int| #[trigger] free_at(nodes, k, x) implies exists|i: int|
        0 <= i < h0.len() && #[trigger] h0[i].node == x by {
        if has_parent(nodes0, x) {
            let m = choose|m: int| #[trigger] is_child_of(nodes0, m, x);
            assert(is_child_of(nodes, m, x));
        }
    }
    assert forall|i: int| 0 <= i < h0.len() implies #[trigger] free_at(nodes, k, h0[i].node as int) by {
        assert forall|m: int| 0 <= m < k implies !#[trigger] is_child_of(nodes, m, h0[i].node as int) by {
            assert(!is_child_of(nodes0, m, h0[i].node as int));
        }
    }
    assert(free_at(nodes, k, an));
    assert(free_at(nodes, k, bn));
    assert forall|x: int| #[trigger] free_at(nodes, k, x) && x != an implies precedes(nodes, an, x) by {
        let i = choose|i: int| 0 <= i < h0.len() && #[trigger] h0[i].node == x;
        assert(nodes[x] == nodes0[x]);
        assert(nodes[an] == nodes0[an]);
        if i > ka {
            assert(h0[ka].node < h0[i].node);
        }
    }
    assert forall|x: int| #[trigger] free_at(nodes, k, x) && x != an && x != bn implies precedes(nodes, bn, x) by {
        let i = choose|i: int| 0 <= i < h0.len() && #[trigger] h0[i].node == x;
        assert(nodes[x] == nodes0[x]);
        assert(nodes[bn] == nodes0[bn]);
        assert(i != ka);
        assert(i != jb);
        let i1 = if i < ka { i } else { i - 1 };
        assert(h1[i1] == h0[i]);
        if i1 > kb {
            assert(jb < i);
            assert(h0[jb].node < h0[i].node);
        }
    }
}

proof fn lemma_merge_step(
    nodes0: Seq<HuffmanNode>,
    h0: Seq<HeapItem>,
    pairs: Seq<(u8, usize)>,
    ka: int,
    kb: int,
)
    requires
        nodes0.len() < usize::MAX,
        merge_inv(nodes0, h0, pairs),
        total_weight(pairs) <= usize::MAX,
        h0.len() > 1,
        0 <= ka < h0.len(),
        forall|j: int| 0 <= j < h0.len() ==> h0[ka].freq <= #[trigger] h0[j].freq,
        forall|j: int| 0 <= j < ka ==> h0[ka].freq < #[trigger] h0[j].freq,
        0 <= kb < h0.len() - 1,
        forall|j: int| 0 <= j < h0.len() - 1 ==> h0.remove(ka)[kb].freq <= #[trigger] h0.remove(ka)[j].freq,
        forall|j: int| 0 <= j < kb ==> h0.remove(ka)[kb].freq < #[trigger] h0.remove(ka)[j].freq,
    ensures
        ({
            let a = h0[ka];
            let b = h0.remove(ka)[kb];
            let w = (a.freq + b.freq) as usize;
            &&& a.freq + b.freq <= usize::MAX
            &&& merge_inv(
                nodes0.push(HuffmanNode::Internal { left: a.node, right: b.node, weight: w }),
                h0.remove(ka).remove(kb).push(HeapItem { freq: w, node: nodes0.len() as usize }),
                pairs,
            )
        }),
{
    let n = pairs.len() as int;
    lemma_two_removals(h0, ka, kb);
    let h1 = h0.remove(ka);
    let h2 = h1.remove(kb);
    let a = h0[ka];
    let b = h1[kb];
    let w = (a.freq + b.freq) as usize;
    lemma_weight_sum_remove(h0, ka);
    lemma_weight_sum_remove(h1, kb);
    let nodes = nodes0.push(HuffmanNode::Internal { left: a.node, right: b.node, weight: w });
    let h3 = h2.push(HeapItem { freq: w, node: nodes0.len() as usize });
    assert(h3.drop_last() == h2);
    reveal(heap_matches);
    assert(a.freq == weight_of(nodes0[a.node as int]));
    assert(b.freq == weight_of(nodes0[b.node as int]));
    lemma_step_heap(nodes0, h0, ka, kb, w);
    assert forall|m: int, x: int| #[trigger] is_child_of(nodes0, m, x) implies x < nodes0.len() by {
        reveal(internal_ok);
        reveal(leaves_ok);
        if m < n {
            assert(nodes0[m] is Leaf);
        } else {
            assert(merged_at(nodes0, m));
        }
    }
    lemma_step_tree(nodes0, h0, ka, kb, w);
    lemma_step_greedy(nodes0, h0, ka, kb, w);
    lemma_greedy_kept(nodes0, HuffmanNode::Internal { left: a.node, right: b.node, weight: w }, n);
    assert(greedy_ok(nodes, n)) by {
        reveal(greedy_ok);
    }
    reveal(internal_ok);
    reveal(last_bound);
    assert(a.freq <= b.freq);
    lemma_step_internal(nodes0, n, a.node, b.node, w);
    if nodes0.len() > n {
        let last0 = nodes0.last();
        assert(merged_at(nodes0, nodes0.len() - 1));
        match last0 {
            HuffmanNode::Internal { right, .. } => {
                assert(weight_of(nodes0[right as int]) <= h0[ka].freq);
                assert(weight_of(nodes0[right as int]) <= h0[second(ka, kb)].freq);
            },
            HuffmanNode::Leaf { .. } => {},
        }
    }
    lemma_step_monotone(nodes0, n, a.freq as nat, b.freq as nat, a.node, b.node, w);
    lemma_step_bound(h0, ka, kb, a.node, b.node, w, nodes0.len() as usize);
    assert(last_bound(nodes, h3, n)) by {
        assert(nodes.last() == HuffmanNode::Internal { left: a.node, right: b.node, weight: w });
        assert(weight_of(nodes[b.node as int]) == b.freq);
    }
    assert(leaves_ok(nodes, pairs)) by {
        reveal(leaves_ok);
        assert forall|j: int| 0 <= j < pairs.len() implies #[trigger] nodes[j] == (HuffmanNode::Leaf {
            symbol: pairs[j].0,
            weight: pairs[j].1,
        }) by {
            assert(nodes[j] == nodes0[j]);
        }
    }
}

proof fn lemma_merge_start(nodes: Seq<HuffmanNode>, heap: Seq<HeapItem>, pairs: Seq<(u8, usize)>)
    requires
        1 <= pairs.len() <= usize::MAX,
        nodes.len() == pairs.len(),
        heap.len() == pairs.len(),
        weight_sum(heap) == total_weight(pairs),
        forall|j: int|
            0 <= j < pairs.len() ==> #[trigger] nodes[j] == (HuffmanNode::Leaf {
                symbol: pairs[j].0,
                weight: pairs[j].1,
            }),
        forall|j: int| 0 <= j < pairs.len() ==> #[trigger] heap[j] == (HeapItem { freq: pairs[j].1, node: j as usize }),
    ensures
        merge_inv(nodes, heap, pairs),
{
    reveal(leaves_ok);
    reveal(internal_ok);
    reveal(monotone);
    reveal(greedy_ok);
    reveal(last_bound);
    reveal(heap_matches);
    reveal(heap_sorted);
    reveal(heap_free);
    reveal(covered);
    reveal(unique_parent);
    assert forall|x: int| 0 <= x < nodes.len() implies in_heap(heap, x) || #[trigger] has_parent(nodes, x) by {
        assert(heap[x].node == x);
    }
    assert forall|k: int, m: int| 0 <= k < heap.len() implies !#[trigger] is_child_of(nodes, m, heap[k].node as int) by {
        if 0 <= m < nodes.len() {
            assert(nodes[m] is Leaf);
        }
    }
    assert forall|m1: int, m2: int, x: int|
        #[trigger] is_child_of(nodes, m1, x) && #[trigger] is_child_of(nodes, m2, x) implies m1 == m2 by {
        assert(nodes[m1] is Leaf);
    }
}

proof fn lemma_merge_done(nodes: Seq<HuffmanNode>, heap: Seq<HeapItem>, pairs: Seq<(u8, usize)>)
    requires
        merge_inv(nodes, heap, pairs),
        heap.len() == 1,
    ensures
        tree_shaped(nodes),
        merge_layout(nodes, pairs),
        count_leaves(nodes) == pairs.len(),
        count_internal(nodes) == pairs.len() - 1,
{
    let n = pairs.len() as int;
    assert forall|x: int| 0 <= x < nodes.len() - 1 implies #[trigger] has_parent(nodes, x) by {
        reveal(covered);
        if in_heap(heap, x) {
            let q = choose|q: int| 0 <= q < heap.len() && #[trigger] heap[q].node == x;
        }
    }
    assert forall|m: int| 0 <= m < nodes.len() implies match #[trigger] nodes[m] {
        HuffmanNode::Internal { left, right, .. } => left < m && right < m && left != right,
        HuffmanNode::Leaf { .. } => true,
    } by {
        reveal(internal_ok);
        reveal(leaves_ok);
        if m >= n {
            assert(merged_at(nodes, m));
        }
    }
    assert(forall|m1: int, m2: int, x: int|
        #[trigger] is_child_of(nodes, m1, x) && #[trigger] is_child_of(nodes, m2, x) ==> m1 == m2) by {
        reveal(unique_parent);
    }
    assert forall|i: int| 0 <= i < n implies #[trigger] nodes[i] is Leaf by {
        reveal(leaves_ok);
    }
    assert forall|i: int| n <= i < nodes.len() implies #[trigger] nodes[i] is Internal by {
        reveal(internal_ok);
        assert(merged_at(nodes, i));
    }
    lemma_counts(nodes, n);
    assert(merge_layout(nodes, pairs)) by {
        reveal(leaves_ok);
        reveal(internal_ok);
        reveal(monotone);
        reveal(greedy_ok);
    }
}

/// `t` is the tree that the merge construction builds from `pairs`, tagged
/// with `class` and `id`: `pairs.len()` leaves and one fewer internal nodes.
pub open spec fn built_from(t: HuffmanTree, class: HuffmanClass, id: u8, pairs: Seq<(u8, usize)>) -> bool {
    &&& t.spec_class() == class
    &&& t.spec_destination_id() == id
    &&& merge_layout(t.spec_nodes(), pairs)
    &&& tree_shaped(t.spec_nodes())
    &&& count_leaves(t.spec_nodes()) == pairs.len()
    &&& count_internal(t.spec_nodes()) == pairs.len() - 1
}

/// A Huffman table as a binary tree, tagged with its class and destination.
pub struct HuffmanTree {
    class: HuffmanClass,
    destination_id: u8,
    nodes: Vec<HuffmanNode>,
}

impl HuffmanTree {
    #[verifier::type_invariant]
    spec fn shaped(self) -> bool {
        tree_shaped(self.nodes@)
    }

    pub closed spec fn spec_class(self) -> HuffmanClass {
        self.class
    }

    pub closed spec fn spec_destination_id(self) -> u8 {
        self.destination_id
    }

    /// The arena; the root is its last node.
    pub closed spec fn spec_nodes(self) -> Seq<HuffmanNode> {
        self.nodes@
    }

    pub fn class(&self) -> (r: HuffmanClass)
        ensures
            r == self.spec_class(),
    {
        self.class
    }

    pub fn destination_id(&self) -> (r: u8)
        ensures
            r == self.spec_destination_id(),
    {
        self.destination_id
    }

    pub fn num_nodes(&self) -> (r: usize)
        ensures
            r == self.spec_nodes().len(),
            tree_shaped(self.spec_nodes()),
    {
        proof {
            use_type_invariant(self);
        }
        self.nodes.len()
    }

    pub fn root(&self) -> (r: usize)
        ensures
            r == self.spec_nodes().len() - 1,
            tree_shaped(self.spec_nodes()),
    {
        proof {
            use_type_invariant(self);
        }
        self.nodes.len() - 1
    }

    pub fn node(&self, i: usize) -> (r: HuffmanNode)
        requires
            i < self.spec_nodes().len(),
        ensures
            r == self.spec_nodes()[i as int],
            tree_shaped(self.spec_nodes()),
    {
        proof {
            use_type_invariant(self);
        }
        self.nodes[i]
    }

    /// Builds the tree by repeatedly merging the two lightest subtrees (the
    /// first one popped becomes the left child) until one root is left.
    pub fn from(class: u8, destination_id: u8, code_freqs: Vec<(u8, usize)>) -> (r: Result<
        HuffmanTree,
        DecodeError,
    >)
        requires
            class <= 1,
            code_freqs@.len() <= usize::MAX / 2,
            total_weight(code_freqs@) <= usize::MAX,
        ensures
            code_freqs@.len() == 0 ==> r == Err::<HuffmanTree, DecodeError>(DecodeError::MalformedHuffmanTable),
            code_freqs@.len() > 0 ==> (r matches Ok(t) && built_from(t, class_of(class), destination_id, code_freqs@)),
    {
        let n = code_freqs.len();
        if n == 0 {
            return Err(DecodeError::MalformedHuffmanTable);
        }
        let ghost pairs = code_freqs@;
        let mut nodes: Vec<HuffmanNode> = Vec::new();
        let mut heap = MinHeap::new();
        let mut i: usize = 0;
        proof {
            assert(pairs.subrange(0, 0) =~= Seq::<(u8, usize)>::empty());
        }
        while i < n
            invariant
                n == pairs.len(),
                code_freqs@ == pairs,
                i <= n,
                nodes@.len() == i,
                heap@.len() == i,
                forall|j: int|
                    0 <= j < i ==> #[trigger] nodes@[j] == (HuffmanNode::Leaf {
                        symbol: pairs[j].0,
                        weight: pairs[j].1,
                    }),
                forall|j: int| 0 <= j < i ==> #[trigger] heap@[j] == (HeapItem { freq: pairs[j].1, node: j as usize }),
                weight_sum(heap@) == total_weight(pairs.subrange(0, i as int)),
            decreases n - i,
        {
            let (symbol, weight) = code_freqs[i];
            let ghost heap0 = heap@;
            nodes.push(HuffmanNode::new_leaf(symbol, weight));
            heap.push(HeapItem::from(weight, i));
            proof {
                assert(pairs.subrange(0, i + 1).drop_last() =~= pairs.subrange(0, i as int));
                assert(heap@.drop_last() == heap0);
            }
            i = i + 1;
        }
        proof {
            assert(pairs.subrange(0, n as int) =~= pairs);
        }
        proof {
            lemma_merge_start(nodes@, heap@, pairs);
        }
        while heap.len() > 1
            invariant
                n == pairs.len(),
                n <= usize::MAX / 2,
                merge_inv(nodes@, heap@, pairs),
                total_weight(pairs) <= usize::MAX,
            decreases heap@.len(),
        {
            let ghost h0 = heap@;
            let ghost nodes0 = nodes@;
            let k = nodes.len();
            let ka = heap.min_index();
            let a = heap.remove_at(ka);
            let kb = heap.min_index();
            let b = heap.remove_at(kb);
            proof {
                lemma_merge_step(nodes0, h0, pairs, ka as int, kb as int);
            }
            let weight = a.freq + b.freq;
            nodes.push(HuffmanNode::Internal { left: a.node, right: b.node, weight });
            heap.push(HeapItem::from(weight, k));
        }
        proof {
            lemma_merge_done(nodes@, heap@, pairs);
        }
        Ok(HuffmanTree { class: HuffmanClass::from(class), destination_id, nodes })
    }
}

} // verus!
