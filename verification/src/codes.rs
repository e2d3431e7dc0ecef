//! Code assigner: a depth-first pass over a Huffman tree records each
//! leaf's root-to-leaf path as that byte value's code and accumulates
//! the channel's exact encoded bit count.

use vstd::prelude::*;

use crate::tree::{
    distinct_leaves, freq_of, height, lemma_path_of, lvals, node_wf, path_of, weighted_depth, Node,
};

verus! {

/// Codes for one channel, indexed by byte value.
pub struct CodeTable {
    pub codes: Vec<Option<Vec<bool>>>,
}

impl CodeTable {
    /// One slot per possible byte value.
    pub open spec fn wf(&self) -> bool {
        self.codes@.len() == 256
    }

    /// The code recorded for byte value `v`, if any.
    pub open spec fn code_at(&self, v: u8) -> Option<Seq<bool>> {
        match self.codes@[v as int] {
            Some(c) => Some(c@),
            None => None,
        }
    }
}

/// The code a finished table assigns under `root`: the leaf path, except
/// that the single leaf of a degenerate tree is coded as one zero bit.
pub open spec fn code_spec(root: Node, v: u8) -> Option<Seq<bool>> {
    match root {
        Node::Leaf { value, .. } => if value == v {
            Some(seq![false])
        } else {
            None
        },
        Node::Internal { .. } => path_of(root, v),
    }
}

/// The exact number of bits a channel with this tree encodes to: each
/// leaf contributes its code length times its count.
pub open spec fn total_bits(root: Node) -> int {
    match root {
        Node::Leaf { freq, .. } => freq as int,
        Node::Internal { .. } => weighted_depth(root, 0),
    }
}

/// Weighted depth is bounded by (prefix depth + height) times the total
/// count, and never negative.
pub proof fn lemma_wd_bound(n: Node, d: int)
    requires
        node_wf(n),
        d >= 0,
    ensures
        0 <= weighted_depth(n, d) <= (d + height(n)) * freq_of(n),
    decreases n,
{
    match n {
        Node::Leaf { freq, .. } => {
            let f = freq as int;
            assert(0 <= f * d && f * d == (d + 0) * f) by (nonlinear_arith)
                requires
                    d >= 0,
                    f >= 0,
            ;
        },
        Node::Internal { freq, left, right } => {
            lemma_wd_bound(*left, d + 1);
            lemma_wd_bound(*right, d + 1);
            let h = height(n) as int;
            let fl = freq_of(*left) as int;
            let fr = freq_of(*right) as int;
            assert((d + 1 + height(*left)) * fl <= (d + h) * fl) by (nonlinear_arith)
                requires
                    height(*left) + 1 <= h,
                    d >= 0,
                    fl >= 0,
            ;
            assert((d + 1 + height(*right)) * fr <= (d + h) * fr) by (nonlinear_arith)
                requires
                    height(*right) + 1 <= h,
                    d >= 0,
                    fr >= 0,
            ;
            assert((d + h) * fl + (d + h) * fr == (d + h) * (fl + fr)) by (nonlinear_arith);
        },
    }
}

/// In a tree without repeated leaf values, no value is found in both
/// children of an internal node, and the children repeat no value
/// either.
pub proof fn lemma_distinct_children(freq: u64, left: Node, right: Node)
    requires
        distinct_leaves(Node::Internal { freq, left: Box::new(left), right: Box::new(right) }),
    ensures
        distinct_leaves(left),
        distinct_leaves(right),
        forall|v: u8| !(path_of(left, v) is Some && path_of(right, v) is Some),
{
    let n = Node::Internal { freq, left: Box::new(left), right: Box::new(right) };
    assert forall|v: u8| lvals(left).count(v) <= 1 by {
        assert(lvals(n).count(v) == lvals(left).count(v) + lvals(right).count(v));
        assert(lvals(n).count(v) <= 1);
    }
    assert forall|v: u8| lvals(right).count(v) <= 1 by {
        assert(lvals(n).count(v) == lvals(left).count(v) + lvals(right).count(v));
        assert(lvals(n).count(v) <= 1);
    }
    assert forall|v: u8| !(path_of(left, v) is Some && path_of(right, v) is Some) by {
        assert(lvals(n).count(v) == lvals(left).count(v) + lvals(right).count(v));
        assert(lvals(n).count(v) <= 1);
        lemma_path_of(left, v);
        lemma_path_of(right, v);
    }
}

/// A table with no codes yet.
pub fn new_code_table() -> (r: CodeTable)
    ensures
        r.wf(),
        forall|v: u8| r.code_at(v) is None,
{
    let mut codes: Vec<Option<Vec<bool>>> = Vec::new();
    let mut i: usize = 0;
    while i < 256
        invariant
            i <= 256,
            codes@.len() == i,
            forall|k: int| 0 <= k < i ==> codes@[k] is None,
        decreases 256 - i,
    {
        codes.push(None);
        i = i + 1;
    }
    CodeTable { codes }
}

/// A copy of a bit string.
fn copy_bits(v: &Vec<bool>) -> (r: Vec<bool>)
    ensures
        r@ == v@,
{
    let mut r: Vec<bool> = Vec::new();
    let mut i: usize = 0;
    while i < v.len()
        invariant
            i <= v@.len(),
            r@ == v@.take(i as int),
        decreases v@.len() - i,
    {
        r.push(v[i]);
        proof {
            assert(v@.take(i as int).push(v@[i as int]) =~= v@.take(i as int + 1));
        }
        i = i + 1;
    }
    proof {
        assert(v@.take(v@.len() as int) =~= v@);
    }
    r
}

/// Walks the subtree under `node`, recording `binary` extended by the
/// leaf path as each leaf value's code and adding the subtree's exact
/// bit contribution to `channel_size`.
pub fn dfs(node: &Node, binary: Vec<bool>, tree: &mut CodeTable, channel_size: &mut u64)
    requires
        old(tree).wf(),
        node_wf(*node),
        distinct_leaves(*node),
        binary@.len() + height(*node) <= 256,
        *old(channel_size) + weighted_depth(*node, binary@.len() as int) <= u64::MAX,
    ensures
        final(tree).wf(),
        forall|v: u8|
            final(tree).code_at(v) == match path_of(*node, v) {
                Some(p) => Some(binary@ + p),
                None => old(tree).code_at(v),
            },
        *final(channel_size) == *old(channel_size) + weighted_depth(
            *node,
            binary@.len() as int,
        ),
    decreases *node,
{
    match node {
        Node::Leaf { value, freq } => {
            let len_bits = binary.len() as u64;
            proof {
                let f = *freq as int;
                let l = binary@.len() as int;
                assert(weighted_depth(*node, l) == f * l);
                assert(f * l == l * f) by (nonlinear_arith);
                assert(*channel_size + l * f <= u64::MAX);
            }
            *channel_size = *channel_size + len_bits * *freq;
            let ghost b = binary@;
            tree.codes.set(*value as usize, Some(binary));
            proof {
                assert(b + path_of(*node, *value)->Some_0 =~= b);
                assert(forall|v: u8|
                    v != *value ==> final(tree).code_at(v) == old(tree).code_at(v));
            }
        },
        Node::Internal { freq, left, right } => {
            proof {
                lemma_distinct_children(*freq, **left, **right);
                lemma_wd_bound(**left, binary@.len() as int + 1);
                lemma_wd_bound(**right, binary@.len() as int + 1);
            }
            let ghost b0 = binary@;
            let mut lp = copy_bits(&binary);
            lp.push(false);
            dfs(left, lp, tree, channel_size);
            let mut rp = binary;
            rp.push(true);
            dfs(right, rp, tree, channel_size);
            proof {
                let b = b0;
                assert forall|v: u8|
                    final(tree).code_at(v) == match path_of(*node, v) {
                        Some(p) => Some(b + p),
                        None => old(tree).code_at(v),
                    } by {
                    if path_of(**left, v) is Some {
                        let p = path_of(**left, v)->Some_0;
                        assert(path_of(*node, v) == Some(seq![false] + p));
                        assert(b.push(false) + p =~= b + (seq![false] + p));
                    } else if path_of(**right, v) is Some {
                        let p = path_of(**right, v)->Some_0;
                        assert(path_of(*node, v) == Some(seq![true] + p));
                        assert(b.push(true) + p =~= b + (seq![true] + p));
                    }
                }
            }
        },
    }
}

/// Builds the code table of a tree and its exact encoded bit count: the
/// path of every leaf, except that a degenerate single-leaf tree codes
/// its value as the single bit 0 so every code is non-empty.
pub fn assign_codes(root: &Node) -> (r: (CodeTable, u64))
    requires
        node_wf(*root),
        distinct_leaves(*root),
        height(*root) < 256,
        total_bits(*root) <= u64::MAX,
    ensures
        r.0.wf(),
        forall|v: u8| r.0.code_at(v) == code_spec(*root, v),
        r.1 == total_bits(*root),
{
    let mut table = new_code_table();
    match root {
        Node::Leaf { value, freq } => {
            let mut code: Vec<bool> = Vec::new();
            code.push(false);
            let ghost c = code@;
            let ghost t0 = table;
            table.codes.set(*value as usize, Some(code));
            proof {
                assert(c =~= seq![false]);
                assert forall|v: u8| v != *value implies table.code_at(v) is None by {
                    assert(table.codes@[v as int] == t0.codes@[v as int]);
                    assert(t0.code_at(v) is None);
                }
            }
            (table, *freq)
        },
        Node::Internal { .. } => {
            let mut channel_size: u64 = 0;
            proof {
                lemma_wd_bound(*root, 0);
            }
            let empty: Vec<bool> = Vec::new();
            dfs(root, empty, &mut table, &mut channel_size);
            proof {
                assert forall|v: u8| table.code_at(v) == code_spec(*root, v) by {
                    if path_of(*root, v) is Some {
                        assert(Seq::<bool>::empty() + path_of(*root, v)->Some_0 =~= path_of(
                            *root,
                            v,
                        )->Some_0);
                    }
                }
            }
            (table, channel_size)
        },
    }
}

} // verus!
