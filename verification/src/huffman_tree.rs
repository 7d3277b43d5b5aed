//! Huffman tree construction, prefix-code derivation and bit-stream decoding.
//!
//! A tree is built from a frequency table by repeatedly combining the two
//! lowest-priority nodes under a deterministic order: ascending weight; on a
//! weight tie an internal node precedes a leaf; between two leaves of equal
//! weight the smaller symbol precedes.  Equal-weight internal nodes keep
//! their construction order.  This order fixes the exact tree shape and
//! therefore the exact codes, so independent runs produce identical output.

use vstd::prelude::*;

verus! {

use crate::CompressError;
use crate::frequency_table::FrequencyTable;
use crate::frequency_table::sum_counts;
use crate::frequency_table::sum_counts_up_to;

/// A node of a Huffman tree: either a terminal symbol with its occurrence
/// count, or an internal node whose weight is the sum of its children's.
#[derive(Debug, PartialEq, Eq)]
pub enum HuffmanNode {
    Leaf { weight: u64, element: u8 },
    Node { weight: u64, left: Box<HuffmanNode>, right: Box<HuffmanNode> },
}

impl HuffmanNode {
    /// The weight stored in this node.
    pub open spec fn spec_weight(self) -> u64 {
        match self {
            HuffmanNode::Leaf { weight, .. } => weight,
            HuffmanNode::Node { weight, .. } => weight,
        }
    }

    /// The symbol of a leaf.
    pub open spec fn leaf_element(self) -> u8 {
        match self {
            HuffmanNode::Leaf { element, .. } => element,
            HuffmanNode::Node { .. } => 0,
        }
    }

    /// Every internal node's weight is the sum of its children's weights.
    pub open spec fn wf_weights(self) -> bool
        decreases self,
    {
        match self {
            HuffmanNode::Leaf { .. } => true,
            HuffmanNode::Node { weight, left, right } => {
                &&& weight == left.spec_weight() + right.spec_weight()
                &&& left.wf_weights()
                &&& right.wf_weights()
            },
        }
    }

    /// Whether the symbol `b` appears on some leaf of this subtree.
    pub open spec fn has_sym(self, b: u8) -> bool
        decreases self,
    {
        match self {
            HuffmanNode::Leaf { element, .. } => element == b,
            HuffmanNode::Node { left, right, .. } => left.has_sym(b) || right.has_sym(b),
        }
    }

    /// No symbol appears on two different leaves.
    pub open spec fn distinct_syms(self) -> bool
        decreases self,
    {
        match self {
            HuffmanNode::Leaf { .. } => true,
            HuffmanNode::Node { left, right, .. } => {
                &&& left.distinct_syms()
                &&& right.distinct_syms()
                &&& forall|b: u8| !(left.has_sym(b) && right.has_sym(b))
            },
        }
    }

    /// Total number of nodes of this subtree.
    pub open spec fn size(self) -> nat
        decreases self,
    {
        match self {
            HuffmanNode::Leaf { .. } => 1,
            HuffmanNode::Node { left, right, .. } => (1 + left.size() + right.size()) as nat,
        }
    }

    /// Root-to-leaf path of symbol `b`: `false` descends left, `true` right.
    pub open spec fn path_to(self, b: u8) -> Seq<bool>
        decreases self,
    {
        match self {
            HuffmanNode::Leaf { .. } => Seq::empty(),
            HuffmanNode::Node { left, right, .. } => {
                if left.has_sym(b) {
                    seq![false] + left.path_to(b)
                } else {
                    seq![true] + right.path_to(b)
                }
            },
        }
    }

    /// The code of symbol `b` in the tree rooted at `self`.  When the root is
    /// itself a leaf the natural path is empty, which would make the encoded
    /// stream independent of the input length; that symbol is assigned the
    /// one-bit code `[false]` instead, so every occurrence is recoverable.
    pub open spec fn code_of(self, b: u8) -> Seq<bool> {
        if self is Leaf {
            seq![false]
        } else {
            self.path_to(b)
        }
    }

    /// Creates a terminal node.
    pub fn new_leaf(element: u8, weight: u64) -> (r: Self)
        ensures
            r == (HuffmanNode::Leaf { weight, element }),
    {
        HuffmanNode::Leaf { weight, element }
    }

    /// Combines two subtrees under a new internal node carrying their summed
    /// weight.
    pub fn new_node(left: Box<HuffmanNode>, right: Box<HuffmanNode>) -> (r: Self)
        requires
            left.spec_weight() + right.spec_weight() <= u64::MAX,
        ensures
            r == (HuffmanNode::Node {
                weight: (left.spec_weight() + right.spec_weight()) as u64,
                left,
                right,
            }),
    {
        let weight = left.weight() + right.weight();
        HuffmanNode::Node { weight, left, right }
    }

    /// The weight stored in this node.
    pub fn weight(&self) -> (r: u64)
        ensures
            r == self.spec_weight(),
    {
        match self {
            HuffmanNode::Leaf { weight, .. } => *weight,
            HuffmanNode::Node { weight, .. } => *weight,
        }
    }
}

/// The strict construction order: ascending weight; on a weight tie an
/// internal node precedes a leaf (so a freshly combined node is taken
/// before a leaf of equal weight); between two leaves the smaller symbol
/// precedes.  Two internal nodes of equal weight are unordered (neither
/// precedes), and the construction keeps their existing order.
pub open spec fn node_lt(a: HuffmanNode, b: HuffmanNode) -> bool {
    ||| a.spec_weight() < b.spec_weight()
    ||| (a.spec_weight() == b.spec_weight() && match (a, b) {
        (HuffmanNode::Leaf { element: ea, .. }, HuffmanNode::Leaf { element: eb, .. }) => ea < eb,
        (HuffmanNode::Node { .. }, HuffmanNode::Leaf { .. }) => true,
        _ => false,
    })
}

/// Decides the construction order between two nodes.
pub fn precedes(a: &HuffmanNode, b: &HuffmanNode) -> (r: bool)
    ensures
        r == node_lt(*a, *b),
{
    let wa = a.weight();
    let wb = b.weight();
    if wa < wb {
        true
    } else if wb < wa {
        false
    } else {
        match (a, b) {
            (HuffmanNode::Leaf { element: ea, .. }, HuffmanNode::Leaf { element: eb, .. }) => {
                *ea < *eb
            },
            (HuffmanNode::Node { .. }, HuffmanNode::Leaf { .. }) => true,
            _ => false,
        }
    }
}

/// Index of the first node that no later candidate strictly precedes,
/// scanning from `i` with current best index `best`.
pub open spec fn min_idx(f: Seq<HuffmanNode>, i: int, best: int) -> int
    decreases f.len() - i,
{
    if i < 0 || i >= f.len() {
        best
    } else {
        min_idx(
            f,
            i + 1,
            if node_lt(f[i], f[best]) {
                i
            } else {
                best
            },
        )
    }
}

proof fn lemma_min_idx_in_range(f: Seq<HuffmanNode>, i: int, best: int)
    requires
        0 <= best < f.len(),
        0 <= i,
    ensures
        0 <= min_idx(f, i, best) < f.len(),
    decreases f.len() - i,
{
    if i < f.len() {
        lemma_min_idx_in_range(
            f,
            i + 1,
            if node_lt(f[i], f[best]) {
                i
            } else {
                best
            },
        );
    }
}

/// One construction step: remove the two highest-priority nodes, combine
/// them (first removed on the left), and append the new node.
pub open spec fn merge_step(f: Seq<HuffmanNode>) -> Seq<HuffmanNode>
    recommends
        f.len() >= 2,
{
    let i1 = min_idx(f, 1, 0);
    let a = f[i1];
    let f1 = f.remove(i1);
    let i2 = min_idx(f1, 1, 0);
    let b = f1[i2];
    let f2 = f1.remove(i2);
    f2.push(HuffmanNode::Node {
        weight: (a.spec_weight() + b.spec_weight()) as u64,
        left: Box::new(a),
        right: Box::new(b),
    })
}

/// Repeated merging down to a single root.  An empty forest has no defined
/// tree; construction rejects it before reaching this point.
pub open spec fn spec_merge(f: Seq<HuffmanNode>) -> HuffmanNode
    decreases f.len() via spec_merge_decreases
{
    if f.len() == 0 {
        HuffmanNode::Leaf { weight: 0, element: 0 }
    } else if f.len() == 1 {
        f[0]
    } else {
        spec_merge(merge_step(f))
    }
}

#[via_fn]
proof fn spec_merge_decreases(f: Seq<HuffmanNode>) {
    if f.len() >= 2 {
        lemma_min_idx_in_range(f, 1, 0);
        lemma_min_idx_in_range(f.remove(min_idx(f, 1, 0)), 1, 0);
    }
}

/// One leaf per symbol below `n` whose count is positive, in ascending
/// symbol order.
pub open spec fn leaves_up_to(counts: Seq<u64>, n: int) -> Seq<HuffmanNode>
    decreases n,
{
    if n <= 0 {
        Seq::empty()
    } else {
        leaves_up_to(counts, n - 1) + if counts[n - 1] > 0 {
            seq![HuffmanNode::Leaf { weight: counts[n - 1], element: (n - 1) as u8 }]
        } else {
            Seq::empty()
        }
    }
}

/// The initial forest of a frequency table: one leaf per present symbol.
pub open spec fn initial_leaves(counts: Seq<u64>) -> Seq<HuffmanNode> {
    leaves_up_to(counts, 256)
}

/// The tree that a frequency table determines.
pub open spec fn spec_build(counts: Seq<u64>) -> HuffmanNode {
    spec_merge(initial_leaves(counts))
}

/// Sum of the weights of a forest.
pub open spec fn forest_weight(f: Seq<HuffmanNode>) -> nat
    decreases f.len(),
{
    if f.len() == 0 {
        0
    } else {
        (forest_weight(f.drop_last()) + f.last().spec_weight()) as nat
    }
}

/// Total node count of a forest.
pub open spec fn forest_size(f: Seq<HuffmanNode>) -> nat
    decreases f.len(),
{
    if f.len() == 0 {
        0
    } else {
        (forest_size(f.drop_last()) + f.last().size()) as nat
    }
}

pub open spec fn forest_wf(f: Seq<HuffmanNode>) -> bool {
    forall|i: int| 0 <= i < f.len() ==> (#[trigger] f[i]).wf_weights()
}

pub open spec fn forest_has_sym(f: Seq<HuffmanNode>, b: u8) -> bool {
    exists|i: int| 0 <= i < f.len() && (#[trigger] f[i]).has_sym(b)
}

/// Every tree of the forest has distinct symbols and no symbol appears in
/// two different trees.
pub open spec fn forest_distinct(f: Seq<HuffmanNode>) -> bool {
    &&& forall|i: int| 0 <= i < f.len() ==> (#[trigger] f[i]).distinct_syms()
    &&& forall|i: int, j: int, b: u8|
        0 <= i < j < f.len() ==> !((#[trigger] f[i].has_sym(b)) && #[trigger] f[j].has_sym(b))
}

proof fn lemma_remove_index(f: Seq<HuffmanNode>, k: int)
    requires
        0 <= k < f.len(),
    ensures
        f.remove(k).len() == f.len() - 1,
        forall|j: int| 0 <= j < k ==> f.remove(k)[j] == f[j],
        forall|j: int| k <= j < f.len() - 1 ==> f.remove(k)[j] == f[j + 1],
{
}

proof fn lemma_forest_weight_remove(f: Seq<HuffmanNode>, k: int)
    requires
        0 <= k < f.len(),
    ensures
        forest_weight(f.remove(k)) == forest_weight(f) - f[k].spec_weight(),
        f[k].spec_weight() <= forest_weight(f),
    decreases f.len(),
{
    lemma_remove_index(f, k);
    if k == f.len() - 1 {
        assert(f.remove(k) =~= f.drop_last());
    } else {
        assert(f.remove(k).drop_last() =~= f.drop_last().remove(k));
        assert(f.remove(k).last() == f.last());
        lemma_forest_weight_remove(f.drop_last(), k);
    }
}

proof fn lemma_forest_size_remove(f: Seq<HuffmanNode>, k: int)
    requires
        0 <= k < f.len(),
    ensures
        forest_size(f.remove(k)) == forest_size(f) - f[k].size(),
    decreases f.len(),
{
    lemma_remove_index(f, k);
    if k == f.len() - 1 {
        assert(f.remove(k) =~= f.drop_last());
    } else {
        assert(f.remove(k).drop_last() =~= f.drop_last().remove(k));
        assert(f.remove(k).last() == f.last());
        lemma_forest_size_remove(f.drop_last(), k);
    }
}

/// The pre-removal index of the element at position `m` after removing index
/// `i1` from `f` and then index `i2` from the result.
pub open spec fn orig_index(i1: int, i2: int, m: int) -> int {
    let m1 = if m < i2 {
        m
    } else {
        m + 1
    };
    if m1 < i1 {
        m1
    } else {
        m1 + 1
    }
}

/// What one merge step preserves.
proof fn lemma_merge_step_props(f: Seq<HuffmanNode>)
    requires
        f.len() >= 2,
        forest_wf(f),
        forest_weight(f) <= u64::MAX,
    ensures
        merge_step(f).len() == f.len() - 1,
        forest_wf(merge_step(f)),
        forest_weight(merge_step(f)) == forest_weight(f),
        forest_size(merge_step(f)) == forest_size(f) + 1,
        forall|b: u8| forest_has_sym(merge_step(f), b) <==> forest_has_sym(f, b),
        forest_distinct(f) ==> forest_distinct(merge_step(f)),
{
    let i1 = min_idx(f, 1, 0);
    lemma_min_idx_in_range(f, 1, 0);
    let a = f[i1];
    let f1 = f.remove(i1);
    lemma_remove_index(f, i1);
    lemma_forest_weight_remove(f, i1);
    lemma_forest_size_remove(f, i1);
    let i2 = min_idx(f1, 1, 0);
    lemma_min_idx_in_range(f1, 1, 0);
    let b = f1[i2];
    let f2 = f1.remove(i2);
    lemma_remove_index(f1, i2);
    lemma_forest_weight_remove(f1, i2);
    lemma_forest_size_remove(f1, i2);
    let nn = HuffmanNode::Node {
        weight: (a.spec_weight() + b.spec_weight()) as u64,
        left: Box::new(a),
        right: Box::new(b),
    };
    let g = merge_step(f);
    assert(g == f2.push(nn));
    assert(g.drop_last() =~= f2);
    assert(g.last() == nn);

    // Map every index of f2 back to an index of f, skipping i1 and the
    // position of b.
    let ghost j2 = if i2 < i1 {
        i2
    } else {
        i2 + 1
    };
    assert(f[j2] == b);
    assert(j2 != i1);
    assert forall|m: int| 0 <= m < f2.len() implies {
        &&& #[trigger] f2[m] == f[orig_index(i1, i2, m)]
        &&& 0 <= orig_index(i1, i2, m) < f.len()
        &&& orig_index(i1, i2, m) != i1
        &&& orig_index(i1, i2, m) != j2
    } by {
        let m1 = if m < i2 {
            m
        } else {
            m + 1
        };
        assert(f1[m1] == f2[m]);
        assert(f[orig_index(i1, i2, m)] == f1[m1]);
    }
    assert forall|m: int, n: int| 0 <= m < n < f2.len() implies orig_index(i1, i2, m)
        < orig_index(i1, i2, n) by {}

    // Weight and size bookkeeping.
    assert(forest_weight(f2) == forest_weight(f) - a.spec_weight() - b.spec_weight());
    assert(forest_weight(g) == forest_weight(f2) + nn.spec_weight());
    assert(nn.spec_weight() == a.spec_weight() + b.spec_weight());
    assert(forest_size(g) == forest_size(f2) + nn.size());
    assert(nn.size() == a.size() + b.size() + 1);

    // Well-formed weights.
    assert(nn.wf_weights());
    assert forall|i: int| 0 <= i < g.len() implies (#[trigger] g[i]).wf_weights() by {
        if i < f2.len() {
            assert(f[orig_index(i1, i2, i)].wf_weights());
        }
    }

    // Symbols are preserved.
    assert forall|s: u8| forest_has_sym(g, s) implies forest_has_sym(f, s) by {
        let i = choose|i: int| 0 <= i < g.len() && (#[trigger] g[i]).has_sym(s);
        if i < f2.len() {
            assert(f[orig_index(i1, i2, i)].has_sym(s));
        } else {
            assert(g[i] == nn);
            if a.has_sym(s) {
                assert(f[i1].has_sym(s));
            } else {
                assert(f[j2].has_sym(s));
            }
        }
    }
    assert forall|s: u8| forest_has_sym(f, s) implies forest_has_sym(g, s) by {
        let n = choose|n: int| 0 <= n < f.len() && (#[trigger] f[n]).has_sym(s);
        if n == i1 || n == j2 {
            assert(g[g.len() - 1].has_sym(s));
        } else {
            let m1 = if n < i1 {
                n
            } else {
                n - 1
            };
            let m = if m1 < i2 {
                m1
            } else {
                m1 - 1
            };
            assert(orig_index(i1, i2, m) == n);
            assert(g[m].has_sym(s));
        }
    }

    // Distinctness is preserved.
    if forest_distinct(f) {
        assert(nn.distinct_syms()) by {
            assert(a.distinct_syms());
            assert(b.distinct_syms());
            assert forall|s: u8| !(a.has_sym(s) && b.has_sym(s)) by {
                if i1 < j2 {
                    assert(!(f[i1].has_sym(s) && f[j2].has_sym(s)));
                } else {
                    assert(!(f[j2].has_sym(s) && f[i1].has_sym(s)));
                }
            }
        }
        assert forall|i: int| 0 <= i < g.len() implies (#[trigger] g[i]).distinct_syms() by {
            if i < f2.len() {
                assert(f[orig_index(i1, i2, i)].distinct_syms());
            }
        }
        assert forall|i: int, j: int, s: u8|
            0 <= i < j < g.len() implies !((#[trigger] g[i].has_sym(s))
            && #[trigger] g[j].has_sym(s)) by {
            if j < f2.len() {
                let pi = orig_index(i1, i2, i);
                let pj = orig_index(i1, i2, j);
                assert(pi < pj);
                assert(!(f[pi].has_sym(s) && f[pj].has_sym(s)));
            } else {
                assert(g[j] == nn);
                let pi = orig_index(i1, i2, i);
                if pi < i1 {
                    assert(!(f[pi].has_sym(s) && f[i1].has_sym(s)));
                } else {
                    assert(!(f[i1].has_sym(s) && f[pi].has_sym(s)));
                }
                if pi < j2 {
                    assert(!(f[pi].has_sym(s) && f[j2].has_sym(s)));
                } else {
                    assert(!(f[j2].has_sym(s) && f[pi].has_sym(s)));
                }
            }
        }
    }
}

/// Invariants of the fully merged tree: its weights are well formed, its
/// root weight is the total weight of the forest, it holds exactly the
/// forest's symbols, and merging preserves symbol distinctness.
pub proof fn lemma_merge_props(f: Seq<HuffmanNode>)
    requires
        f.len() >= 1,
        forest_wf(f),
        forest_weight(f) <= u64::MAX,
    ensures
        spec_merge(f).wf_weights(),
        spec_merge(f).spec_weight() == forest_weight(f),
        forall|b: u8| spec_merge(f).has_sym(b) <==> forest_has_sym(f, b),
        forest_distinct(f) ==> spec_merge(f).distinct_syms(),
        spec_merge(f).size() == forest_size(f) + f.len() - 1,
    decreases f.len(),
{
    if f.len() == 1 {
        assert(f.drop_last() =~= Seq::<HuffmanNode>::empty());
        assert(f.last() == f[0]);
        assert(forest_weight(f.drop_last()) == 0);
        assert(forest_size(f.drop_last()) == 0);
        assert(forest_weight(f) == f[0].spec_weight());
        assert(forest_size(f) == f[0].size());
        assert(spec_merge(f) == f[0]);
        assert(f[0].wf_weights());
        if forest_distinct(f) {
            assert(f[0].distinct_syms());
        }
        assert forall|b: u8| f[0].has_sym(b) implies forest_has_sym(f, b) by {
            assert(0 <= 0 < f.len() && f[0].has_sym(b));
        }
    } else {
        lemma_merge_step_props(f);
        lemma_merge_props(merge_step(f));
        assert(spec_merge(f) == spec_merge(merge_step(f)));
    }
}

/// Properties of the initial forest of leaves.
pub proof fn lemma_leaves_props(counts: Seq<u64>, n: int)
    requires
        counts.len() == 256,
        0 <= n <= 256,
    ensures
        forest_wf(leaves_up_to(counts, n)),
        forest_distinct(leaves_up_to(counts, n)),
        forest_weight(leaves_up_to(counts, n)) == sum_counts_up_to(counts, n),
        forest_size(leaves_up_to(counts, n)) == leaves_up_to(counts, n).len(),
        leaves_up_to(counts, n).len() <= n,
        forall|b: u8| forest_has_sym(leaves_up_to(counts, n), b)
            <==> ((b as int) < n && counts[b as int] > 0),
        forall|i: int| 0 <= i < leaves_up_to(counts, n).len()
            ==> (#[trigger] leaves_up_to(counts, n)[i]) is Leaf,
    decreases n,
{
    let cur = leaves_up_to(counts, n);
    if n <= 0 {
        assert(cur =~= Seq::<HuffmanNode>::empty());
    } else {
        lemma_leaves_props(counts, n - 1);
        let prev = leaves_up_to(counts, n - 1);
        if counts[n - 1] > 0 {
            let leaf = HuffmanNode::Leaf { weight: counts[n - 1], element: (n - 1) as u8 };
            assert(cur =~= prev.push(leaf));
            assert(cur.drop_last() =~= prev);
            assert(cur.last() == leaf);
            assert forall|b: u8| forest_has_sym(cur, b) implies ((b as int) < n
                && counts[b as int] > 0) by {
                let i = choose|i: int| 0 <= i < cur.len() && (#[trigger] cur[i]).has_sym(b);
                if i < prev.len() {
                    assert(prev[i].has_sym(b));
                    assert(forest_has_sym(prev, b));
                } else {
                    assert(cur[i] == leaf);
                }
            }
            assert forall|b: u8| ((b as int) < n && counts[b as int] > 0) implies forest_has_sym(
                cur,
                b,
            ) by {
                if (b as int) < n - 1 {
                    assert(forest_has_sym(prev, b));
                    let i = choose|i: int| 0 <= i < prev.len() && (#[trigger] prev[i]).has_sym(b);
                    assert(cur[i].has_sym(b));
                } else {
                    assert(cur[cur.len() - 1].has_sym(b));
                }
            }
            assert forall|i: int, j: int, b: u8|
                0 <= i < j < cur.len() implies !((#[trigger] cur[i].has_sym(b))
                && #[trigger] cur[j].has_sym(b)) by {
                if j < prev.len() {
                    assert(!(prev[i].has_sym(b) && prev[j].has_sym(b)));
                } else {
                    if cur[i].has_sym(b) {
                        assert(prev[i].has_sym(b));
                        assert(forest_has_sym(prev, b));
                        assert((b as int) < n - 1);
                    }
                }
            }
        } else {
            assert(cur =~= prev);
        }
    }
}

/// Index of the first minimal node under the construction order.
fn find_min(forest: &Vec<HuffmanNode>) -> (r: usize)
    requires
        forest@.len() >= 1,
    ensures
        r as int == min_idx(forest@, 1, 0),
        r < forest@.len(),
{
    let mut best: usize = 0;
    let mut j: usize = 1;
    while j < forest.len()
        invariant
            forest@.len() >= 1,
            1 <= j,
            best < j || (j == 1 && best == 0),
            best < forest@.len(),
            j <= forest@.len(),
            min_idx(forest@, j as int, best as int) == min_idx(forest@, 1, 0),
        decreases forest@.len() - j,
    {
        if precedes(&forest[j], &forest[best]) {
            best = j;
        }
        j += 1;
    }
    best
}

/// A Huffman coding tree: a full binary tree whose leaves carry symbols.
#[derive(Debug, PartialEq, Eq)]
pub struct HuffmanTree {
    root: HuffmanNode,
}

impl View for HuffmanTree {
    type V = HuffmanNode;

    closed spec fn view(&self) -> HuffmanNode {
        self.root
    }
}

impl HuffmanTree {
    /// A tree of a single symbol.
    pub fn from_element(element: u8, weight: u64) -> (r: Self)
        ensures
            r@ == (HuffmanNode::Leaf { weight, element }),
    {
        HuffmanTree { root: HuffmanNode::new_leaf(element, weight) }
    }

    /// Joins two trees under a new root; the first argument becomes the left
    /// child.
    pub fn from_nodes(left: HuffmanTree, right: HuffmanTree) -> (r: Self)
        requires
            left@.spec_weight() + right@.spec_weight() <= u64::MAX,
        ensures
            r@ == (HuffmanNode::Node {
                weight: (left@.spec_weight() + right@.spec_weight()) as u64,
                left: Box::new(left@),
                right: Box::new(right@),
            }),
    {
        HuffmanTree {
            root: HuffmanNode::new_node(Box::new(left.root), Box::new(right.root)),
        }
    }

    /// Whether this tree strictly precedes `other` in the construction
    /// order.
    pub fn precedes(&self, other: &HuffmanTree) -> (r: bool)
        ensures
            r == node_lt(self@, other@),
    {
        precedes(&self.root, &other.root)
    }

    /// A borrow of the root node.
    pub(crate) fn root_ref(&self) -> (r: &HuffmanNode)
        ensures
            *r == self@,
    {
        &self.root
    }

    /// Wraps a node as a tree.
    pub(crate) fn from_root(root: HuffmanNode) -> (r: Self)
        ensures
            r@ == root,
    {
        HuffmanTree { root }
    }

    /// The root node, surrendering the tree.
    pub fn root(self) -> (r: Box<HuffmanNode>)
        ensures
            *r == self@,
    {
        Box::new(self.root)
    }

    /// Builds the Huffman tree of a frequency table by repeatedly combining
    /// the two lowest-priority nodes under the construction order.  Fails
    /// exactly when no symbol has a positive count.
    pub fn from_table(table: &FrequencyTable) -> (r: Result<Self, CompressError>)
        requires
            table.wf(),
            sum_counts(table@) <= u64::MAX,
        ensures
            match r {
                Ok(t) => {
                    &&& table.has_symbols()
                    &&& t@ == spec_build(table@)
                    &&& t@.wf_weights()
                    &&& t@.distinct_syms()
                    &&& t@.spec_weight() == sum_counts(table@)
                    &&& forall|b: u8| t@.has_sym(b) <==> table@[b as int] > 0
                    &&& t@.size() <= 511
                },
                Err(e) => !table.has_symbols() && e == CompressError::EmptyAlphabet,
            },
    {
        let mut forest: Vec<HuffmanNode> = Vec::new();
        let mut b: usize = 0;
        while b < 256
            invariant
                table.wf(),
                b <= 256,
                forest@ == leaves_up_to(table@, b as int),
            decreases 256 - b,
        {
            let c = table.count(b as u8);
            let ghost prev = forest@;
            if c > 0 {
                forest.push(HuffmanNode::Leaf { weight: c, element: b as u8 });
                proof {
                    assert(forest@ =~= prev + seq![
                        HuffmanNode::Leaf { weight: table@[b as int], element: b as u8 },
                    ]);
                }
            } else {
                proof {
                    assert(forest@ =~= prev + Seq::<HuffmanNode>::empty());
                }
            }
            b += 1;
        }
        proof {
            lemma_leaves_props(table@, 256);
        }
        if forest.len() == 0 {
            proof {
                assert(!table.has_symbols()) by {
                    if table.has_symbols() {
                        let s = choose|s: u8| table@[s as int] > 0;
                        assert(forest_has_sym(leaves_up_to(table@, 256), s));
                        let i = choose|i: int|
                            0 <= i < forest@.len() && (#[trigger] forest@[i]).has_sym(s);
                        assert(false);
                    }
                }
            }
            return Err(CompressError::EmptyAlphabet);
        }
        let ghost f0 = forest@;
        proof {
            lemma_merge_props(f0);
            assert(forest_has_sym(f0, f0[0].leaf_element())) by {
                assert(f0[0] is Leaf);
                assert(f0[0].has_sym(f0[0].leaf_element()));
            }
        }
        while forest.len() > 1
            invariant
                forest@.len() >= 1,
                spec_merge(forest@) == spec_merge(f0),
                forest_weight(forest@) == forest_weight(f0),
                forest_weight(f0) <= u64::MAX,
            decreases forest@.len(),
        {
            let ghost pre = forest@;
            let i1 = find_min(&forest);
            let a = forest.remove(i1);
            proof {
                lemma_forest_weight_remove(pre, i1 as int);
            }
            let i2 = find_min(&forest);
            let ghost f1 = forest@;
            let b2 = forest.remove(i2);
            proof {
                lemma_forest_weight_remove(f1, i2 as int);
            }
            let w = a.weight() + b2.weight();
            let node = HuffmanNode::Node { weight: w, left: Box::new(a), right: Box::new(b2) };
            forest.push(node);
            proof {
                assert(forest@ =~= merge_step(pre));
                assert(forest@.drop_last() =~= f1.remove(i2 as int));
                assert(forest_weight(forest@) == forest_weight(f1.remove(i2 as int))
                    + node.spec_weight());
            }
        }
        let ghost fin = forest@;
        let root = forest.remove(0);
        proof {
            assert(spec_merge(fin) == fin[0]);
            assert(root == spec_merge(f0));
            assert forall|s: u8| #[trigger] table@[s as int] > 0 implies root.has_sym(s) by {
                assert(forest_has_sym(f0, s));
                assert(spec_merge(f0).has_sym(s));
            }
            assert forall|s: u8| #[trigger] root.has_sym(s) implies table@[s as int] > 0 by {
                assert(spec_merge(f0).has_sym(s));
                assert(forest_has_sym(f0, s));
            }
        }
        Ok(HuffmanTree { root })
    }
}

// ------------------------------------------------------------------
// Bit-stream decoding
// ------------------------------------------------------------------

/// One decoding walk: starting from `cur`, each bit moves the cursor to the
/// left child on `false` or the right child on `true`; landing on a leaf
/// emits its symbol and resets the cursor to the root.  When the root is
/// itself a leaf, every bit emits that symbol (the one-bit convention of
/// `code_of`).
pub open spec fn decode_from(root: HuffmanNode, cur: HuffmanNode, bits: Seq<bool>) -> Seq<u8>
    decreases bits.len(),
{
    if bits.len() == 0 {
        Seq::empty()
    } else {
        let next = match cur {
            HuffmanNode::Node { left, right, .. } => if bits[0] {
                *right
            } else {
                *left
            },
            _ => cur,
        };
        match next {
            HuffmanNode::Leaf { element, .. } => seq![element] + decode_from(
                root,
                root,
                bits.drop_first(),
            ),
            _ => decode_from(root, next, bits.drop_first()),
        }
    }
}

/// Decoding a whole bit sequence from the root.
pub open spec fn decode_all(root: HuffmanNode, bits: Seq<bool>) -> Seq<u8> {
    decode_from(root, root, bits)
}

/// The bit sequence that encodes `s` symbol by symbol.
pub open spec fn encode_seq(root: HuffmanNode, s: Seq<u8>) -> Seq<bool>
    decreases s.len(),
{
    if s.len() == 0 {
        Seq::empty()
    } else {
        root.code_of(s[0]) + encode_seq(root, s.drop_first())
    }
}

/// Encoding one more symbol appends its code.
pub proof fn lemma_encode_push(root: HuffmanNode, s: Seq<u8>, x: u8)
    ensures
        encode_seq(root, s.push(x)) == encode_seq(root, s) + root.code_of(x),
    decreases s.len(),
{
    if s.len() == 0 {
        assert(s.push(x).drop_first() =~= Seq::<u8>::empty());
        assert(s.push(x)[0] == x);
        assert(encode_seq(root, s.push(x)) == root.code_of(x) + encode_seq(
            root,
            Seq::<u8>::empty(),
        ));
        assert(encode_seq(root, Seq::<u8>::empty()) == Seq::<bool>::empty());
        assert(root.code_of(x) + Seq::<bool>::empty() =~= root.code_of(x));
        assert(encode_seq(root, s) == Seq::<bool>::empty());
        assert(Seq::<bool>::empty() + root.code_of(x) =~= root.code_of(x));
    } else {
        assert(s.push(x).drop_first() =~= s.drop_first().push(x));
        assert(s.push(x)[0] == s[0]);
        assert(encode_seq(root, s.push(x)) == root.code_of(s[0]) + encode_seq(
            root,
            s.drop_first().push(x),
        ));
        lemma_encode_push(root, s.drop_first(), x);
        assert(encode_seq(root, s) == root.code_of(s[0]) + encode_seq(root, s.drop_first()));
        assert(root.code_of(s[0]) + (encode_seq(root, s.drop_first()) + root.code_of(x)) =~= (
        root.code_of(s[0]) + encode_seq(root, s.drop_first())) + root.code_of(x));
    }
}

/// `p` is a prefix of `s`.
pub open spec fn is_prefix(p: Seq<bool>, s: Seq<bool>) -> bool {
    p.len() <= s.len() && forall|i: int| 0 <= i < p.len() ==> p[i] == s[i]
}

/// Following the path of a symbol from any internal node of the tree emits
/// exactly that symbol and returns the cursor to the root.
proof fn lemma_decode_path(root: HuffmanNode, cur: HuffmanNode, b: u8, rest: Seq<bool>)
    requires
        cur is Node,
        cur.has_sym(b),
    ensures
        decode_from(root, cur, cur.path_to(b) + rest) == seq![b] + decode_from(root, root, rest),
    decreases cur,
{
    let bits = cur.path_to(b) + rest;
    match cur {
        HuffmanNode::Node { left, right, .. } => {
            if left.has_sym(b) {
                assert(cur.path_to(b) == seq![false] + left.path_to(b));
                assert(bits[0] == false);
                assert(bits.drop_first() =~= left.path_to(b) + rest);
                match *left {
                    HuffmanNode::Leaf { element, .. } => {
                        assert(element == b);
                        assert(left.path_to(b) =~= Seq::<bool>::empty());
                        assert(bits.drop_first() =~= rest);
                    },
                    _ => {
                        lemma_decode_path(root, *left, b, rest);
                    },
                }
            } else {
                assert(right.has_sym(b));
                assert(cur.path_to(b) == seq![true] + right.path_to(b));
                assert(bits[0] == true);
                assert(bits.drop_first() =~= right.path_to(b) + rest);
                match *right {
                    HuffmanNode::Leaf { element, .. } => {
                        assert(element == b);
                        assert(right.path_to(b) =~= Seq::<bool>::empty());
                        assert(bits.drop_first() =~= rest);
                    },
                    _ => {
                        lemma_decode_path(root, *right, b, rest);
                    },
                }
            }
        },
        _ => {},
    }
}

/// With a single-leaf root, each bit emits the root's symbol.
proof fn lemma_decode_leaf_root(root: HuffmanNode, bit: bool, rest: Seq<bool>)
    requires
        root is Leaf,
    ensures
        decode_from(root, root, seq![bit] + rest) == seq![root.leaf_element()] + decode_from(
            root,
            root,
            rest,
        ),
{
    let bits = seq![bit] + rest;
    assert(bits.len() == rest.len() + 1);
    assert(bits.drop_first() =~= rest);
}

/// Decoding inverts encoding: for any tree holding every symbol of `s`,
/// walking the tree over the encoded bit stream emits exactly `s`.
pub proof fn lemma_decode_encode(root: HuffmanNode, s: Seq<u8>)
    requires
        forall|i: int| 0 <= i < s.len() ==> root.has_sym(#[trigger] s[i]),
    ensures
        decode_all(root, encode_seq(root, s)) == s,
    decreases s.len(),
{
    if s.len() == 0 {
    } else {
        let code = root.code_of(s[0]);
        let rest = encode_seq(root, s.drop_first());
        assert(encode_seq(root, s) == code + rest);
        assert forall|i: int| 0 <= i < s.drop_first().len() implies root.has_sym(
            #[trigger] s.drop_first()[i],
        ) by {
            assert(s.drop_first()[i] == s[i + 1]);
        }
        lemma_decode_encode(root, s.drop_first());
        if root is Leaf {
            assert(root.has_sym(s[0]));
            assert(root.leaf_element() == s[0]);
            assert(code == seq![false]);
            lemma_decode_leaf_root(root, false, rest);
        } else {
            lemma_decode_path(root, root, s[0], rest);
        }
        assert(seq![s[0]] + s.drop_first() =~= s);
    }
}

/// In a tree without repeated symbols, the paths of two different symbols
/// never extend one another.
proof fn lemma_path_prefix_free(n: HuffmanNode, a: u8, b: u8)
    requires
        n is Node,
        n.distinct_syms(),
        n.has_sym(a),
        n.has_sym(b),
        a != b,
    ensures
        !is_prefix(n.path_to(a), n.path_to(b)),
    decreases n,
{
    match n {
        HuffmanNode::Node { left, right, .. } => {
            let pa = n.path_to(a);
            let pb = n.path_to(b);
            if left.has_sym(a) && left.has_sym(b) {
                assert(pa == seq![false] + left.path_to(a));
                assert(pb == seq![false] + left.path_to(b));
                match *left {
                    HuffmanNode::Leaf { element, .. } => {
                        assert(element == a && element == b);
                    },
                    _ => {
                        lemma_path_prefix_free(*left, a, b);
                        if is_prefix(pa, pb) {
                            assert forall|i: int| 0 <= i < left.path_to(a).len() implies
                                left.path_to(a)[i] == left.path_to(b)[i] by {
                                assert(pa[i + 1] == pb[i + 1]);
                            }
                            assert(is_prefix(left.path_to(a), left.path_to(b)));
                        }
                    },
                }
            } else if !left.has_sym(a) && !left.has_sym(b) {
                assert(right.has_sym(a) && right.has_sym(b));
                assert(pa == seq![true] + right.path_to(a));
                assert(pb == seq![true] + right.path_to(b));
                match *right {
                    HuffmanNode::Leaf { element, .. } => {
                        assert(element == a && element == b);
                    },
                    _ => {
                        lemma_path_prefix_free(*right, a, b);
                        if is_prefix(pa, pb) {
                            assert forall|i: int| 0 <= i < right.path_to(a).len() implies
                                right.path_to(a)[i] == right.path_to(b)[i] by {
                                assert(pa[i + 1] == pb[i + 1]);
                            }
                            assert(is_prefix(right.path_to(a), right.path_to(b)));
                        }
                    },
                }
            } else {
                // The two symbols sit in different children: the first bits
                // of their paths differ.
                assert(pa.len() >= 1 && pb.len() >= 1);
                assert(pa[0] != pb[0]);
            }
        },
        _ => {},
    }
}

/// Prefix-code validity: in a tree without repeated symbols, no symbol's
/// code is a prefix of another symbol's code.
pub proof fn lemma_prefix_code(root: HuffmanNode, a: u8, b: u8)
    requires
        root.distinct_syms(),
        root.has_sym(a),
        root.has_sym(b),
        a != b,
    ensures
        !is_prefix(root.code_of(a), root.code_of(b)),
{
    match root {
        HuffmanNode::Leaf { element, .. } => {
            assert(element == a && element == b);
        },
        _ => {
            lemma_path_prefix_free(root, a, b);
        },
    }
}

/// An element-for-element copy of a bit vector.
fn clone_bools(v: &Vec<bool>) -> (r: Vec<bool>)
    ensures
        r@ == v@,
{
    let mut r: Vec<bool> = Vec::new();
    let mut i: usize = 0;
    while i < v.len()
        invariant
            i <= v@.len(),
            r@ == v@.subrange(0, i as int),
        decreases v@.len() - i,
    {
        r.push(v[i]);
        proof {
            assert(r@ =~= v@.subrange(0, i as int + 1));
        }
        i += 1;
    }
    proof {
        assert(v@.subrange(0, v@.len() as int) =~= v@);
    }
    r
}

impl HuffmanTree {
    /// Records, for every symbol of the subtree `node`, the code
    /// `prefix + path`, leaving all other entries unchanged.
    fn collect_codes(node: &HuffmanNode, prefix: Vec<bool>, table: &mut Vec<Option<Vec<bool>>>)
        requires
            node.distinct_syms(),
            old(table)@.len() == 256,
        ensures
            final(table)@.len() == 256,
            forall|b: u8| node.has_sym(b) ==> {
                &&& #[trigger] final(table)@[b as int] is Some
                &&& final(table)@[b as int]->0@ == prefix@ + node.path_to(b)
            },
            forall|b: u8| !node.has_sym(b) ==> #[trigger] final(table)@[b as int] == old(
                table,
            )@[b as int],
        decreases *node,
    {
        match node {
            HuffmanNode::Leaf { element, .. } => {
                proof {
                    assert(node.path_to(*element) =~= Seq::<bool>::empty());
                    assert(prefix@ + node.path_to(*element) =~= prefix@);
                }
                table.set(*element as usize, Some(prefix));
            },
            HuffmanNode::Node { left, right, .. } => {
                let mut left_prefix = clone_bools(&prefix);
                left_prefix.push(false);
                Self::collect_codes(left, left_prefix, table);
                let ghost mid = table@;
                let mut right_prefix = prefix;
                right_prefix.push(true);
                proof {
                    assert(left_prefix@ =~= prefix@ + seq![false]);
                }
                Self::collect_codes(right, right_prefix, table);
                proof {
                    assert forall|b: u8| node.has_sym(b) implies {
                        &&& #[trigger] table@[b as int] is Some
                        &&& table@[b as int]->0@ == prefix@ + node.path_to(b)
                    } by {
                        if right.has_sym(b) {
                            assert(table@[b as int]->0@ == (prefix@ + seq![true])
                                + right.path_to(b));
                            assert((prefix@ + seq![true]) + right.path_to(b) =~= prefix@ + (
                            seq![true] + right.path_to(b)));
                        } else {
                            assert(left.has_sym(b));
                            assert(table@[b as int] == mid[b as int]);
                            assert(mid[b as int]->0@ == (prefix@ + seq![false])
                                + left.path_to(b));
                            assert((prefix@ + seq![false]) + left.path_to(b) =~= prefix@ + (
                            seq![false] + left.path_to(b)));
                        }
                    }
                }
            },
        }
    }

    /// Derives the prefix-code table: entry `b` holds the code of symbol `b`
    /// when the symbol occurs in the tree and nothing otherwise.  A tree
    /// whose root is a single leaf assigns its symbol the one-bit code
    /// `[false]`.
    pub fn prefix_code_table(&self) -> (r: Vec<Option<Vec<bool>>>)
        requires
            self@.distinct_syms(),
        ensures
            r@.len() == 256,
            forall|b: u8| self@.has_sym(b) ==> {
                &&& #[trigger] r@[b as int] is Some
                &&& r@[b as int]->0@ == self@.code_of(b)
            },
            forall|b: u8| !self@.has_sym(b) ==> #[trigger] r@[b as int] is None,
    {
        let mut table: Vec<Option<Vec<bool>>> = Vec::new();
        let mut k: usize = 0;
        while k < 256
            invariant
                table@.len() == k,
                k <= 256,
                forall|j: int| 0 <= j < k ==> #[trigger] table@[j] is None,
            decreases 256 - k,
        {
            table.push(None);
            k += 1;
        }
        match &self.root {
            HuffmanNode::Leaf { element, .. } => {
                let mut code: Vec<bool> = Vec::new();
                code.push(false);
                proof {
                    assert(code@ =~= seq![false]);
                }
                table.set(*element as usize, Some(code));
            },
            _ => {
                let prefix: Vec<bool> = Vec::new();
                proof {
                    assert(prefix@ =~= Seq::<bool>::empty());
                }
                Self::collect_codes(&self.root, prefix, &mut table);
                proof {
                    assert forall|b: u8| self@.has_sym(b) implies {
                        &&& #[trigger] table@[b as int] is Some
                        &&& table@[b as int]->0@ == self@.code_of(b)
                    } by {
                        assert(table@[b as int]->0@ == Seq::<bool>::empty()
                            + self@.path_to(b));
                        assert(Seq::<bool>::empty() + self@.path_to(b) =~= self@.path_to(b));
                    }
                }
            },
        }
        table
    }

    /// Decodes a bit sequence by walking the tree, emitting a symbol at each
    /// leaf and restarting from the root.
    pub fn decode_bits(&self, bits: Vec<bool>) -> (r: Vec<u8>)
        ensures
            r@ == decode_all(self@, bits@),
    {
        let mut ret: Vec<u8> = Vec::new();
        let mut cur: &HuffmanNode = &self.root;
        let n = bits.len();
        let mut i: usize = 0;
        proof {
            assert(bits@.skip(0) =~= bits@);
            assert(Seq::<u8>::empty() + decode_from(self@, self@, bits@) =~= decode_from(
                self@,
                self@,
                bits@,
            ));
        }
        while i < n
            invariant
                n == bits@.len(),
                i <= n,
                decode_all(self@, bits@) == ret@ + decode_from(self@, *cur, bits@.skip(i as int)),
            decreases n - i,
        {
            let ghost before = *cur;
            let ghost rem = bits@.skip(i as int);
            proof {
                assert(rem[0] == bits@[i as int]);
                assert(rem.drop_first() =~= bits@.skip(i as int + 1));
            }
            let b = bits[i];
            match cur {
                HuffmanNode::Node { left, right, .. } => {
                    if b {
                        cur = &**right;
                    } else {
                        cur = &**left;
                    }
                },
                _ => {},
            }
            let ghost next = *cur;
            match cur {
                HuffmanNode::Leaf { element, .. } => {
                    let e = *element;
                    ret.push(e);
                    cur = &self.root;
                    proof {
                        assert(decode_from(self@, before, rem) == seq![e] + decode_from(
                            self@,
                            self@,
                            rem.drop_first(),
                        ));
                        assert((ret@.drop_last() + seq![e]) =~= ret@);
                        assert(ret@.drop_last() + (seq![e] + decode_from(
                            self@,
                            self@,
                            rem.drop_first(),
                        )) =~= ret@ + decode_from(self@, self@, rem.drop_first()));
                    }
                },
                _ => {
                    proof {
                        assert(decode_from(self@, before, rem) == decode_from(
                            self@,
                            next,
                            rem.drop_first(),
                        ));
                    }
                },
            }
            i += 1;
        }
        proof {
            assert(bits@.skip(n as int) =~= Seq::<bool>::empty());
            assert(ret@ + Seq::<u8>::empty() =~= ret@);
        }
        ret
    }
}

} // verus!
