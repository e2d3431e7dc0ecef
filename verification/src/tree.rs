//! Huffman trees and the mathematical model of their construction.
//!
//! A tree is built from a frequency table by repeatedly merging the two
//! pending nodes with the lowest key, where a node's key is the pair
//! (frequency, insertion index): the insertion index breaks frequency
//! ties, so every merge is uniquely determined and the whole
//! construction is a function of the table. Leaves are inserted in
//! ascending byte-value order, merge nodes in the order they are made.

use vstd::multiset::Multiset;
use vstd::prelude::*;

use crate::hist::table_sum;

verus! {

/// One node of a Huffman tree: a leaf carries a byte value and its
/// occurrence count; an internal node carries the total count of its
/// subtree and owns exactly two children.
pub enum Node {
    Leaf { value: u8, freq: u64 },
    Internal { freq: u64, left: Box<Node>, right: Box<Node> },
}

impl Node {
    /// A fresh leaf for byte value `value` observed `freq` times.
    pub fn new(value: u8, freq: u64) -> (r: Node)
        ensures
            r == (Node::Leaf { value, freq }),
    {
        Node::Leaf { value, freq }
    }

    /// A structurally identical copy of the tree.
    pub fn duplicate(&self) -> (r: Node)
        ensures
            r == *self,
        decreases *self,
    {
        match self {
            Node::Leaf { value, freq } => Node::Leaf { value: *value, freq: *freq },
            Node::Internal { freq, left, right } => Node::Internal {
                freq: *freq,
                left: Box::new(left.duplicate()),
                right: Box::new(right.duplicate()),
            },
        }
    }

    /// The occurrence count this node stands for.
    pub fn get_freq(&self) -> (r: u64)
        ensures
            r == freq_of(*self),
    {
        match self {
            Node::Leaf { freq, .. } => *freq,
            Node::Internal { freq, .. } => *freq,
        }
    }
}

/// The occurrence count a node stands for.
pub open spec fn freq_of(n: Node) -> u64 {
    match n {
        Node::Leaf { freq, .. } => freq,
        Node::Internal { freq, .. } => freq,
    }
}

/// Every internal node's count is the sum of its children's counts.
pub open spec fn node_wf(n: Node) -> bool
    decreases n,
{
    match n {
        Node::Leaf { .. } => true,
        Node::Internal { freq, left, right } => {
            &&& node_wf(*left)
            &&& node_wf(*right)
            &&& freq == freq_of(*left) as int + freq_of(*right) as int
        },
    }
}

/// The multiset of byte values at the leaves.
pub open spec fn lvals(n: Node) -> Multiset<u8>
    decreases n,
{
    match n {
        Node::Leaf { value, .. } => Multiset::empty().insert(value),
        Node::Internal { left, right, .. } => lvals(*left).add(lvals(*right)),
    }
}

/// The multiset of (byte value, count) pairs at the leaves.
pub open spec fn leaves_ms(n: Node) -> Multiset<(u8, u64)>
    decreases n,
{
    match n {
        Node::Leaf { value, freq } => Multiset::empty().insert((value, freq)),
        Node::Internal { left, right, .. } => leaves_ms(*left).add(leaves_ms(*right)),
    }
}

/// No byte value occurs at two leaves.
pub open spec fn distinct_leaves(n: Node) -> bool {
    forall|v: u8| lvals(n).count(v) <= 1
}

/// Number of leaves.
pub open spec fn leaf_count(n: Node) -> nat
    decreases n,
{
    match n {
        Node::Leaf { .. } => 1,
        Node::Internal { left, right, .. } => leaf_count(*left) + leaf_count(*right),
    }
}

/// Length of the longest root-to-leaf path.
pub open spec fn height(n: Node) -> nat
    decreases n,
{
    match n {
        Node::Leaf { .. } => 0,
        Node::Internal { left, right, .. } => 1 + if height(*left) >= height(*right) {
            height(*left)
        } else {
            height(*right)
        },
    }
}

/// The root-to-leaf path of the leftmost leaf holding `v`: `false` for
/// a left turn, `true` for a right turn. `None` if no leaf holds `v`.
pub open spec fn path_of(n: Node, v: u8) -> Option<Seq<bool>>
    decreases n,
{
    match n {
        Node::Leaf { value, .. } => if value == v {
            Some(Seq::<bool>::empty())
        } else {
            None
        },
        Node::Internal { left, right, .. } => if path_of(*left, v) is Some {
            Some(seq![false] + path_of(*left, v)->Some_0)
        } else if path_of(*right, v) is Some {
            Some(seq![true] + path_of(*right, v)->Some_0)
        } else {
            None
        },
    }
}

/// The count stored at the leaf that `path_of` reaches for `v`.
pub open spec fn lfreq(n: Node, v: u8) -> u64
    decreases n,
{
    match n {
        Node::Leaf { freq, .. } => freq,
        Node::Internal { left, right, .. } => if path_of(*left, v) is Some {
            lfreq(*left, v)
        } else {
            lfreq(*right, v)
        },
    }
}

/// Sum over the leaves of (depth from here + `d`) times leaf count:
/// the exact number of bits this subtree contributes to a channel whose
/// codes are the leaf paths prefixed by `d` bits.
pub open spec fn weighted_depth(n: Node, d: int) -> int
    decreases n,
{
    match n {
        Node::Leaf { freq, .. } => freq * d,
        Node::Internal { left, right, .. } => weighted_depth(*left, d + 1) + weighted_depth(
            *right,
            d + 1,
        ),
    }
}

/// A tree has at least one leaf, and is never taller than its leaf
/// count allows.
pub proof fn lemma_height_leaf_count(n: Node)
    ensures
        leaf_count(n) >= 1,
        height(n) + 1 <= leaf_count(n),
    decreases n,
{
    match n {
        Node::Leaf { .. } => {},
        Node::Internal { left, right, .. } => {
            lemma_height_leaf_count(*left);
            lemma_height_leaf_count(*right);
        },
    }
}

/// A value has a path exactly when some leaf holds it, and the path is
/// never longer than the height.
pub proof fn lemma_path_of(n: Node, v: u8)
    ensures
        (path_of(n, v) is Some) <==> lvals(n).count(v) > 0,
        path_of(n, v) is Some ==> path_of(n, v)->Some_0.len() <= height(n),
    decreases n,
{
    match n {
        Node::Leaf { .. } => {},
        Node::Internal { left, right, .. } => {
            lemma_path_of(*left, v);
            lemma_path_of(*right, v);
        },
    }
}

// ---------------------------------------------------------------------
// The pending queue of the construction, modelled as a sequence of
// (insertion index, node) entries.
// ---------------------------------------------------------------------

/// The ordering key of a pending entry: frequency first, insertion
/// index as the deterministic tie-break.
pub open spec fn ekey(e: (u64, Node)) -> (u64, u64) {
    (freq_of(e.1), e.0)
}

/// Strict lexicographic order on keys.
pub open spec fn key_lt(a: (u64, u64), b: (u64, u64)) -> bool {
    a.0 < b.0 || (a.0 == b.0 && a.1 < b.1)
}

/// Position of the entry with the least key (the earliest such entry,
/// though keys never tie when insertion indices are distinct).
pub open spec fn argmin(q: Seq<(u64, Node)>) -> int
    decreases q.len(),
{
    if q.len() <= 1 {
        0
    } else {
        let m = 1 + argmin(q.drop_first());
        if key_lt(ekey(q[m]), ekey(q[0])) {
            m
        } else {
            0
        }
    }
}

/// `argmin` lands in the sequence and no entry has a smaller key.
pub proof fn lemma_argmin(q: Seq<(u64, Node)>)
    requires
        q.len() >= 1,
    ensures
        0 <= argmin(q) < q.len(),
        forall|k: int| 0 <= k < q.len() ==> !key_lt(ekey(q[k]), ekey(q[argmin(q)])),
    decreases q.len(),
{
    if q.len() > 1 {
        lemma_argmin(q.drop_first());
        let m = 1 + argmin(q.drop_first());
        assert forall|k: int| 0 <= k < q.len() implies !key_lt(ekey(q[k]), ekey(q[argmin(q)])) by {
            if k >= 1 {
                assert(q.drop_first()[k - 1] == q[k]);
                assert(q.drop_first()[m - 1] == q[m]);
                assert(!key_lt(ekey(q.drop_first()[k - 1]), ekey(q.drop_first()[m - 1])));
            }
        }
    }
}

/// The merge of the two extracted entries: the first extracted (least
/// key) becomes the right child, the second the left child, as a fixed
/// convention.
pub open spec fn merge_nodes(first: Node, second: Node) -> Node {
    Node::Internal {
        freq: (freq_of(first) + freq_of(second)) as u64,
        left: Box::new(second),
        right: Box::new(first),
    }
}

/// One round of the construction: extract the two least entries and
/// enqueue their merge under the next insertion index.
pub open spec fn step(q: Seq<(u64, Node)>, next: u64) -> Seq<(u64, Node)> {
    let a = argmin(q);
    let q1 = q.remove(a);
    let b = argmin(q1);
    let q2 = q1.remove(b);
    q2.push((next, merge_nodes(q[a].1, q1[b].1)))
}

/// The tree the construction leaves once one entry remains.
pub open spec fn build_from(q: Seq<(u64, Node)>, next: u64) -> Node
    decreases q.len(),
    via build_from_decreases
{
    if q.len() <= 1 {
        q[0].1
    } else {
        build_from(step(q, next), (next + 1) as u64)
    }
}

#[via_fn]
proof fn build_from_decreases(q: Seq<(u64, Node)>, next: u64) {
    if q.len() > 1 {
        lemma_argmin(q);
        lemma_argmin(q.remove(argmin(q)));
    }
}

/// The queue a frequency table seeds: one leaf per byte value below `v`
/// with a positive count, in ascending value order, insertion indices
/// counting up from zero.
pub open spec fn seed_queue(t: Seq<u64>, v: int) -> Seq<(u64, Node)>
    decreases v,
{
    if v <= 0 {
        Seq::empty()
    } else {
        let pre = seed_queue(t, v - 1);
        if t[v - 1] > 0 {
            pre.push((pre.len() as u64, Node::Leaf { value: (v - 1) as u8, freq: t[v - 1] }))
        } else {
            pre
        }
    }
}

/// The Huffman tree of a whole frequency table; meaningful when the
/// table has a positive entry.
pub open spec fn huff_tree(t: Seq<u64>) -> Node {
    build_from(seed_queue(t, 256), seed_queue(t, 256).len() as u64)
}

// ---------------------------------------------------------------------
// Measures of a pending queue, and how the construction preserves them.
// ---------------------------------------------------------------------

/// Byte values at the leaves of all pending nodes.
pub open spec fn q_lvals(q: Seq<(u64, Node)>) -> Multiset<u8>
    decreases q.len(),
{
    if q.len() == 0 {
        Multiset::empty()
    } else {
        q_lvals(q.drop_last()).add(lvals(q.last().1))
    }
}

/// (value, count) pairs at the leaves of all pending nodes.
pub open spec fn q_leaves(q: Seq<(u64, Node)>) -> Multiset<(u8, u64)>
    decreases q.len(),
{
    if q.len() == 0 {
        Multiset::empty()
    } else {
        q_leaves(q.drop_last()).add(leaves_ms(q.last().1))
    }
}

/// Total frequency of all pending nodes.
pub open spec fn q_freq_sum(q: Seq<(u64, Node)>) -> int
    decreases q.len(),
{
    if q.len() == 0 {
        0
    } else {
        q_freq_sum(q.drop_last()) + freq_of(q.last().1)
    }
}

/// Total leaf count of all pending nodes.
pub open spec fn q_leafcount(q: Seq<(u64, Node)>) -> nat
    decreases q.len(),
{
    if q.len() == 0 {
        0
    } else {
        q_leafcount(q.drop_last()) + leaf_count(q.last().1)
    }
}

/// All pending nodes are well-formed.
pub open spec fn q_wf(q: Seq<(u64, Node)>) -> bool {
    forall|k: int| 0 <= k < q.len() ==> node_wf(#[trigger] q[k].1)
}

/// Removing one entry takes exactly its contribution out of every
/// measure.
pub proof fn lemma_q_measures_remove(q: Seq<(u64, Node)>, k: int)
    requires
        0 <= k < q.len(),
    ensures
        q_lvals(q) == q_lvals(q.remove(k)).add(lvals(q[k].1)),
        q_leaves(q) == q_leaves(q.remove(k)).add(leaves_ms(q[k].1)),
        q_freq_sum(q) == q_freq_sum(q.remove(k)) + freq_of(q[k].1),
        q_leafcount(q) == q_leafcount(q.remove(k)) + leaf_count(q[k].1),
    decreases q.len(),
{
    if k == q.len() - 1 {
        assert(q.remove(k) =~= q.drop_last());
        assert(q_lvals(q) =~= q_lvals(q.remove(k)).add(lvals(q[k].1)));
        assert(q_leaves(q) =~= q_leaves(q.remove(k)).add(leaves_ms(q[k].1)));
    } else {
        lemma_q_measures_remove(q.drop_last(), k);
        assert(q.remove(k).drop_last() =~= q.drop_last().remove(k));
        assert(q.remove(k).last() == q.last());
        assert(q.remove(k).len() == q.len() - 1);
        assert(q_lvals(q) =~= q_lvals(q.remove(k)).add(lvals(q[k].1)));
        assert(q_leaves(q) =~= q_leaves(q.remove(k)).add(leaves_ms(q[k].1)));
    }
}

/// The total frequency of a queue is never negative.
pub proof fn lemma_q_freq_sum_nonneg(q: Seq<(u64, Node)>)
    ensures
        q_freq_sum(q) >= 0,
    decreases q.len(),
{
    if q.len() > 0 {
        lemma_q_freq_sum_nonneg(q.drop_last());
    }
}

/// What the finished tree inherits from the pending queue: its leaves
/// are exactly the pending leaves, its count their total, and it is
/// well-formed.
pub proof fn lemma_build_props(q: Seq<(u64, Node)>, next: u64)
    requires
        q.len() >= 1,
        q_wf(q),
        q_freq_sum(q) <= u64::MAX,
    ensures
        node_wf(build_from(q, next)),
        freq_of(build_from(q, next)) == q_freq_sum(q),
        lvals(build_from(q, next)) == q_lvals(q),
        leaves_ms(build_from(q, next)) == q_leaves(q),
        leaf_count(build_from(q, next)) == q_leafcount(q),
    decreases q.len(),
{
    if q.len() == 1 {
        assert(q.drop_last() =~= Seq::<(u64, Node)>::empty());
        assert(q.last() == q[0]);
        assert(q_lvals(Seq::<(u64, Node)>::empty()) == Multiset::<u8>::empty());
        assert(q_leaves(Seq::<(u64, Node)>::empty()) == Multiset::<(u8, u64)>::empty());
        assert(q_lvals(q) == q_lvals(q.drop_last()).add(lvals(q.last().1)));
        assert(q_leaves(q) == q_leaves(q.drop_last()).add(leaves_ms(q.last().1)));
        assert(q_lvals(q) =~= lvals(q[0].1));
        assert(q_leaves(q) =~= leaves_ms(q[0].1));
        assert(q_freq_sum(Seq::<(u64, Node)>::empty()) == 0);
        assert(q_leafcount(Seq::<(u64, Node)>::empty()) == 0);
        assert(q_freq_sum(q) == q_freq_sum(q.drop_last()) + freq_of(q.last().1));
        assert(q_leafcount(q) == q_leafcount(q.drop_last()) + leaf_count(q.last().1));
    } else {
        let a = argmin(q);
        lemma_argmin(q);
        let q1 = q.remove(a);
        let b = argmin(q1);
        lemma_argmin(q1);
        let q2 = q1.remove(b);
        lemma_q_measures_remove(q, a);
        lemma_q_measures_remove(q1, b);
        lemma_q_freq_sum_nonneg(q2);
        let m = merge_nodes(q[a].1, q1[b].1);
        let q3 = q2.push((next, m));
        assert(q3.drop_last() =~= q2);
        assert(q3.last() == (next, m));
        assert(freq_of(m) == freq_of(q[a].1) + freq_of(q1[b].1));
        assert(node_wf(m));
        assert(q_wf(q3)) by {
            assert(forall|k: int|
                0 <= k < q2.len() ==> q2[k] == q3[k] && node_wf(#[trigger] q3[k].1));
        }
        assert(q_lvals(q3) == q_lvals(q2).add(lvals(m)));
        assert(q_leaves(q3) == q_leaves(q2).add(leaves_ms(m)));
        assert(q_freq_sum(q3) == q_freq_sum(q2) + freq_of(m));
        assert(q_leafcount(q3) == q_leafcount(q2) + leaf_count(m));
        assert(q_lvals(q3) =~= q_lvals(q));
        assert(q_leaves(q3) =~= q_leaves(q));
        lemma_build_props(q3, (next + 1) as u64);
        assert(q3 == step(q, next));
        assert(build_from(q, next) == build_from(q3, (next + 1) as u64));
    }
}

// ---------------------------------------------------------------------
// Properties of the seeded queue.
// ---------------------------------------------------------------------

/// The seed of a table: as many leaves as positive entries, insertion
/// indices equal to positions, values below `v` in ascending order,
/// counts copied from the table, total frequency the table's sum.
pub proof fn lemma_seed_queue(t: Seq<u64>, v: int)
    requires
        0 <= v <= t.len() <= 256,
    ensures
        seed_queue(t, v).len() <= v,
        q_wf(seed_queue(t, v)),
        forall|k: int|
            0 <= k < seed_queue(t, v).len() ==> (#[trigger] seed_queue(t, v)[k]).0 == k,
        forall|k: int|
            0 <= k < seed_queue(t, v).len() ==> (#[trigger] seed_queue(t, v)[k]).1 is Leaf,
        forall|u: u8|
            q_lvals(seed_queue(t, v)).count(u) == if u < v && t[u as int] > 0 {
                1int
            } else {
                0int
            },
        forall|u: u8, f: u64|
            q_leaves(seed_queue(t, v)).count((u, f)) == if u < v && t[u as int] > 0 && f == t[u as int] {
                1int
            } else {
                0int
            },
        q_freq_sum(seed_queue(t, v)) == table_sum(t, v),
        q_leafcount(seed_queue(t, v)) == seed_queue(t, v).len(),
        (seed_queue(t, v).len() == 0) <==> (forall|u: int| 0 <= u < v ==> t[u] == 0),
    decreases v,
{
    if v > 0 {
        lemma_seed_queue(t, v - 1);
        let pre = seed_queue(t, v - 1);
        if t[v - 1] > 0 {
            let e = (pre.len() as u64, Node::Leaf { value: (v - 1) as u8, freq: t[v - 1] });
            let q = pre.push(e);
            assert(q.drop_last() =~= pre);
            assert(q.last() == e);
            assert(forall|k: int| 0 <= k < pre.len() ==> q[k] == pre[k]);
            assert(q_lvals(q) == q_lvals(pre).add(lvals(e.1)));
            assert(q_leaves(q) == q_leaves(pre).add(leaves_ms(e.1)));
            assert(lvals(e.1) =~= Multiset::<u8>::empty().insert((v - 1) as u8));
            assert(leaves_ms(e.1) =~= Multiset::<(u8, u64)>::empty().insert(
                ((v - 1) as u8, t[v - 1]),
            ));
            assert forall|u: u8|
                q_lvals(q).count(u) == if u < v && t[u as int] > 0 {
                    1int
                } else {
                    0int
                } by {
                assert(q_lvals(q).count(u) == q_lvals(pre).count(u) + lvals(e.1).count(u));
                assert(lvals(e.1).count(u) == if u == (v - 1) as u8 {
                    1int
                } else {
                    0int
                });
            }
            assert forall|u: u8, f: u64|
                q_leaves(q).count((u, f)) == if u < v && t[u as int] > 0 && f == t[u as int] {
                    1int
                } else {
                    0int
                } by {
                assert(q_leaves(q).count((u, f)) == q_leaves(pre).count((u, f)) + leaves_ms(
                    e.1,
                ).count((u, f)));
                assert(leaves_ms(e.1).count((u, f)) == if u == (v - 1) as u8 && f == t[v - 1] {
                    1int
                } else {
                    0int
                });
            }
        }
    }
}

} // verus!
