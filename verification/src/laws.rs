//! The library's laws: what holds of whole pipelines, proved once and
//! for all inputs.

use vstd::multiset::Multiset;
use vstd::prelude::*;

use crate::bits::lemma_unpack_pack;
use crate::codes::code_spec;
use crate::comp::{hist_spec, lemma_count_pos, lemma_coverage, lemma_encode_len_bound,
    lemma_huff_props};
use crate::container::{artifact_spec, decompress_spec, lemma_parse_artifact, ser_tree, strip,
    le16};
use crate::encode::{chan_seq, decode_channel_spec, decode_sym, decode_walk, encode_channel_t,
    lemma_decode_encode};
use crate::hist::{count_chan, lemma_count_le_len, table_sum};
use crate::tree::{distinct_leaves, height, huff_tree, leaf_count, leaves_ms, lemma_path_of, lvals,
    path_of, Node};
use crate::{chan, Pixel, PixelGrid};

verus! {

/// A histogram's counts add up to the number of pixels.
pub proof fn lemma_hist_sum(ps: Seq<Pixel>, c: int)
    requires
        ps.len() <= u64::MAX,
    ensures
        table_sum(hist_spec(ps, c), 256) == ps.len(),
    decreases ps.len(),
{
    if ps.len() == 0 {
        lemma_hist_sum_zero(hist_spec(ps, c), 256, ps, c);
    } else {
        let pre = ps.drop_last();
        lemma_hist_sum(pre, c);
        let v = chan(ps.last(), c);
        assert forall|u: int| 0 <= u < 256 implies hist_spec(ps, c)[u] == hist_spec(pre, c).update(
            v as int,
            (hist_spec(pre, c)[v as int] + 1) as u64,
        )[u] by {
            lemma_count_le_len(pre, c, u as u8);
            lemma_count_le_len(pre, c, v);
        }
        assert(hist_spec(ps, c) =~= hist_spec(pre, c).update(
            v as int,
            (hist_spec(pre, c)[v as int] + 1) as u64,
        ));
        lemma_count_le_len(pre, c, v);
        crate::hist::lemma_table_sum_update(
            hist_spec(pre, c),
            v as int,
            (hist_spec(pre, c)[v as int] + 1) as u64,
            256,
        );
    }
}

proof fn lemma_hist_sum_zero(t: Seq<u64>, v: int, ps: Seq<Pixel>, c: int)
    requires
        ps.len() == 0,
        t == hist_spec(ps, c),
        0 <= v <= 256,
    ensures
        table_sum(t, v) == 0,
    decreases v,
{
    if v > 0 {
        lemma_hist_sum_zero(t, v - 1, ps, c);
    }
}

// ---------------------------------------------------------------------
// The prefix-free property.
// ---------------------------------------------------------------------

/// `p` is an initial segment of `q`.
pub open spec fn is_prefix(p: Seq<bool>, q: Seq<bool>) -> bool {
    p.len() <= q.len() && p == q.take(p.len() as int)
}

/// Two distinct leaves' paths never prefix one another.
proof fn lemma_paths_not_prefix(n: Node, v1: u8, v2: u8)
    requires
        v1 != v2,
        path_of(n, v1) is Some,
        path_of(n, v2) is Some,
    ensures
        !is_prefix(path_of(n, v1)->Some_0, path_of(n, v2)->Some_0),
    decreases n,
{
    match n {
        Node::Leaf { .. } => {},
        Node::Internal { left, right, .. } => {
            let p1 = path_of(n, v1)->Some_0;
            let p2 = path_of(n, v2)->Some_0;
            let in_left1 = path_of(*left, v1) is Some;
            let in_left2 = path_of(*left, v2) is Some;
            if in_left1 == in_left2 {
                let child = if in_left1 {
                    *left
                } else {
                    *right
                };
                lemma_paths_not_prefix(child, v1, v2);
                let q1 = path_of(child, v1)->Some_0;
                let q2 = path_of(child, v2)->Some_0;
                assert(p1 == seq![p1[0]] + q1 && p2 == seq![p2[0]] + q2 && p1[0] == p2[0]) by {
                    assert(seq![!in_left1] + q1 =~= p1);
                    assert(seq![!in_left2] + q2 =~= p2);
                }
                if is_prefix(p1, p2) {
                    assert(is_prefix(q1, q2)) by {
                        assert(q1 =~= p2.take(p1.len() as int).skip(1));
                        assert(p2.take(p1.len() as int).skip(1) =~= q2.take(q1.len() as int));
                    }
                }
            } else {
                assert(p1[0] != p2[0]);
                if is_prefix(p1, p2) {
                    assert(p2.take(p1.len() as int)[0] == p2[0]);
                }
            }
        },
    }
}

/// Prefix-free codes: in any one channel's table, the code of one byte
/// value is never a prefix of another's.
pub proof fn lemma_prefix_free(root: Node, v1: u8, v2: u8)
    requires
        v1 != v2,
        code_spec(root, v1) is Some,
        code_spec(root, v2) is Some,
    ensures
        !is_prefix(code_spec(root, v1)->Some_0, code_spec(root, v2)->Some_0),
{
    match root {
        Node::Leaf { .. } => {},
        Node::Internal { .. } => {
            lemma_paths_not_prefix(root, v1, v2);
        },
    }
}

// ---------------------------------------------------------------------
// Determinism.
// ---------------------------------------------------------------------

/// The artifact a grid compresses to, as a function of the grid and the
/// carried metadata alone.
pub open spec fn compress_spec(grid: PixelGrid, tap: i32, seed: Seq<u8>) -> Seq<u8> {
    artifact_spec(
        tap,
        seed,
        grid.width,
        grid.height,
        huff_tree(hist_spec(grid@, 0)),
        huff_tree(hist_spec(grid@, 1)),
        huff_tree(hist_spec(grid@, 2)),
        encode_channel_t(grid@, huff_tree(hist_spec(grid@, 0)), 0),
        encode_channel_t(grid@, huff_tree(hist_spec(grid@, 1)), 1),
        encode_channel_t(grid@, huff_tree(hist_spec(grid@, 2)), 2),
    )
}

/// Determinism: two compressions of the same grid with the same carried
/// metadata are byte-identical, because the artifact is a function of
/// them alone.
pub proof fn lemma_compress_deterministic(
    a: Seq<u8>,
    b: Seq<u8>,
    grid: PixelGrid,
    tap: i32,
    seed: Seq<u8>,
)
    requires
        a == compress_spec(grid, tap, seed),
        b == compress_spec(grid, tap, seed),
    ensures
        a == b,
{
}

// ---------------------------------------------------------------------
// Stripped trees decode like the originals.
// ---------------------------------------------------------------------

proof fn lemma_strip_walk(n: Node, bits: Seq<bool>)
    ensures
        decode_walk(strip(n), bits) == decode_walk(n, bits),
    decreases n,
{
    match n {
        Node::Leaf { .. } => {},
        Node::Internal { left, right, .. } => {
            if bits.len() > 0 {
                lemma_strip_walk(*left, bits.drop_first());
                lemma_strip_walk(*right, bits.drop_first());
            }
        },
    }
}

proof fn lemma_strip_decode(n: Node, bits: Seq<bool>, count: nat)
    ensures
        decode_channel_spec(strip(n), bits, count) == decode_channel_spec(n, bits, count),
    decreases count,
{
    lemma_strip_walk(n, bits);
    assert(decode_sym(strip(n), bits) == decode_sym(n, bits));
    if count > 0 {
        match decode_sym(n, bits) {
            None => {},
            Some((v, u)) => {
                lemma_strip_decode(n, bits.skip(u as int), (count - 1) as nat);
            },
        }
    }
}

// ---------------------------------------------------------------------
// The round trip.
// ---------------------------------------------------------------------

/// Round trip: decoding a compressed grid gives back exactly that grid,
/// with the carried tap position and seed.
#[verifier::rlimit(100)]
pub proof fn lemma_round_trip(grid: PixelGrid, tap: i32, seed: Seq<u8>)
    requires
        grid.wf(),
        grid@.len() > 0,
        255 * grid@.len() <= u64::MAX,
        seed.len() <= u64::MAX,
    ensures
        decompress_spec(compress_spec(grid, tap, seed)) == Some(
            (tap, seed, grid.width, grid.height, grid@),
        ),
{
    let ps = grid@;
    let t0 = hist_spec(ps, 0);
    let t1 = hist_spec(ps, 1);
    let t2 = hist_spec(ps, 2);
    lemma_hist_sum(ps, 0);
    lemma_hist_sum(ps, 1);
    lemma_hist_sum(ps, 2);
    lemma_count_pos(ps, 0, 0);
    lemma_count_pos(ps, 1, 0);
    lemma_count_pos(ps, 2, 0);
    lemma_count_le_len(ps, 0, chan(ps[0], 0));
    lemma_count_le_len(ps, 1, chan(ps[0], 1));
    lemma_count_le_len(ps, 2, chan(ps[0], 2));
    assert(t0[chan(ps[0], 0) as int] > 0);
    assert(t1[chan(ps[0], 1) as int] > 0);
    assert(t2[chan(ps[0], 2) as int] > 0);
    lemma_huff_props(t0);
    lemma_huff_props(t1);
    lemma_huff_props(t2);
    let r0 = huff_tree(t0);
    let r1 = huff_tree(t1);
    let r2 = huff_tree(t2);
    lemma_coverage(ps, 0);
    lemma_coverage(ps, 1);
    lemma_coverage(ps, 2);
    let b0 = encode_channel_t(ps, r0, 0);
    let b1 = encode_channel_t(ps, r1, 1);
    let b2 = encode_channel_t(ps, r2, 2);
    lemma_encode_len_bound(ps, r0, 0);
    lemma_encode_len_bound(ps, r1, 1);
    lemma_encode_len_bound(ps, r2, 2);
    assert(255 * ps.len() <= u64::MAX);
    lemma_parse_artifact(tap, seed, grid.width, grid.height, r0, r1, r2, b0, b1, b2);
    lemma_unpack_pack(b0);
    lemma_unpack_pack(b1);
    lemma_unpack_pack(b2);
    let count = (grid.width as nat) * (grid.height as nat);
    assert(count == ps.len()) by {
        assert(grid.width as int * grid.height as int == ps.len());
    }
    lemma_strip_decode(r0, b0, count);
    lemma_strip_decode(r1, b1, count);
    lemma_strip_decode(r2, b2, count);
    lemma_decode_encode(r0, ps, 0);
    lemma_decode_encode(r1, ps, 1);
    lemma_decode_encode(r2, ps, 2);
    assert(Seq::new(count, |i: int| Pixel {
        r: chan_seq(ps, 0)[i],
        g: chan_seq(ps, 1)[i],
        b: chan_seq(ps, 2)[i],
    }) =~= ps);
}

// ---------------------------------------------------------------------
// The degenerate channel.
// ---------------------------------------------------------------------

/// A multiset's size counts each element as often as it occurs.
proof fn lemma_lvals_len(n: Node)
    ensures
        lvals(n).len() == leaf_count(n),
    decreases n,
{
    match n {
        Node::Leaf { .. } => {},
        Node::Internal { left, right, .. } => {
            lemma_lvals_len(*left);
            lemma_lvals_len(*right);
        },
    }
}

/// A channel with exactly one distinct byte value gets a single-leaf
/// tree, the one-bit code 0, a stream of one zero bit per pixel, and a
/// serialized tree of one value slot, no sentinel.
pub proof fn lemma_degenerate_channel(ps: Seq<Pixel>, c: int, v: u8)
    requires
        0 < ps.len() <= u64::MAX,
        forall|i: int| 0 <= i < ps.len() ==> chan(#[trigger] ps[i], c) == v,
    ensures
        huff_tree(hist_spec(ps, c)) == (Node::Leaf { value: v, freq: ps.len() as u64 }),
        code_spec(huff_tree(hist_spec(ps, c)), v) == Some(seq![false]),
        encode_channel_t(ps, huff_tree(hist_spec(ps, c)), c) == Seq::new(ps.len(), |i: int| false),
        ser_tree(huff_tree(hist_spec(ps, c))) == le16(v as u16),
{
    let t = hist_spec(ps, c);
    lemma_hist_sum(ps, c);
    lemma_count_pos(ps, c, 0);
    lemma_count_le_len(ps, c, v);
    assert(t[v as int] > 0);
    lemma_huff_props(t);
    let root = huff_tree(t);
    assert forall|u: u8| u != v implies t[u as int] == 0 by {
        lemma_count_zero(ps, c, u);
    }
    assert(lvals(root) =~= Multiset::<u8>::empty().insert(v));
    lemma_lvals_len(root);
    assert(leaf_count(root) == 1);
    let freq = ps.len() as u64;
    match root {
        Node::Leaf { value, freq: f } => {
            assert(leaves_ms(root).count((value, f)) == 1);
            assert(t[value as int] > 0 && f == t[value as int]);
            assert(value == v);
            assert(count_chan(ps, c, v) == ps.len()) by {
                lemma_count_all(ps, c, v);
            }
        },
        Node::Internal { left, right, .. } => {
            crate::tree::lemma_height_leaf_count(*left);
            crate::tree::lemma_height_leaf_count(*right);
        },
    }
    assert(encode_channel_t(ps, root, c) =~= Seq::new(ps.len(), |i: int| false)) by {
        lemma_degenerate_stream(ps, root, c, v);
    }
}

/// A value no pixel carries is counted zero times.
proof fn lemma_count_zero(ps: Seq<Pixel>, c: int, u: u8)
    requires
        forall|i: int| 0 <= i < ps.len() ==> chan(#[trigger] ps[i], c) != u,
    ensures
        count_chan(ps, c, u) == 0,
    decreases ps.len(),
{
    if ps.len() > 0 {
        lemma_count_zero(ps.drop_last(), c, u);
    }
}

/// A value every pixel carries is counted once per pixel.
proof fn lemma_count_all(ps: Seq<Pixel>, c: int, v: u8)
    requires
        forall|i: int| 0 <= i < ps.len() ==> chan(#[trigger] ps[i], c) == v,
    ensures
        count_chan(ps, c, v) == ps.len(),
    decreases ps.len(),
{
    if ps.len() > 0 {
        lemma_count_all(ps.drop_last(), c, v);
    }
}

/// Under a single-leaf tree every pixel contributes the bit 0.
proof fn lemma_degenerate_stream(ps: Seq<Pixel>, root: Node, c: int, v: u8)
    requires
        root == (Node::Leaf { value: v, freq: crate::tree::freq_of(root) }),
        forall|i: int| 0 <= i < ps.len() ==> chan(#[trigger] ps[i], c) == v,
    ensures
        encode_channel_t(ps, root, c) == Seq::new(ps.len(), |i: int| false),
    decreases ps.len(),
{
    if ps.len() == 0 {
        assert(encode_channel_t(ps, root, c) =~= Seq::new(0, |i: int| false));
    } else {
        assert(forall|i: int|
            0 <= i < ps.drop_first().len() ==> #[trigger] ps.drop_first()[i] == ps[i + 1]);
        lemma_degenerate_stream(ps.drop_first(), root, c, v);
        assert(code_spec(root, chan(ps[0], c)) == Some(seq![false]));
        assert(encode_channel_t(ps, root, c) =~= Seq::new(ps.len(), |i: int| false));
    }
}

} // verus!

verus! {

// ---------------------------------------------------------------------
// Bit-length accounting.
// ---------------------------------------------------------------------

/// Sum over byte values below `v` of (code length × table count).
pub open spec fn table_code_sum(t: Seq<u64>, root: Node, v: int) -> int
    decreases v,
{
    if v <= 0 {
        0
    } else {
        table_code_sum(t, root, v - 1) + (match code_spec(root, (v - 1) as u8) {
            Some(c) => t[v - 1] * c.len(),
            None => 0,
        })
    }
}

/// Sum over byte values below `v` of count × (depth `d` + path length).
pub open spec fn path_code_sum(n: Node, t: Seq<u64>, d: int, v: int) -> int
    decreases v,
{
    if v <= 0 {
        0
    } else {
        path_code_sum(n, t, d, v - 1) + (match path_of(n, (v - 1) as u8) {
            Some(p) => t[v - 1] * (d + p.len()),
            None => 0,
        })
    }
}

/// A (value, count) pair occurs at most as often as the value itself.
proof fn lemma_leaves_le_lvals(n: Node, u: u8, f: u64)
    ensures
        leaves_ms(n).count((u, f)) <= lvals(n).count(u),
    decreases n,
{
    match n {
        Node::Leaf { .. } => {},
        Node::Internal { left, right, .. } => {
            lemma_leaves_le_lvals(*left, u, f);
            lemma_leaves_le_lvals(*right, u, f);
        },
    }
}

/// In a tree without repeated leaf values, a recorded (value, count)
/// pair is found by the path walk with exactly that count.
proof fn lemma_leaf_freq(n: Node, u: u8, f: u64)
    requires
        distinct_leaves(n),
        leaves_ms(n).count((u, f)) > 0,
    ensures
        path_of(n, u) is Some,
        crate::tree::lfreq(n, u) == f,
    decreases n,
{
    match n {
        Node::Leaf { .. } => {},
        Node::Internal { freq, left, right } => {
            crate::codes::lemma_distinct_children(freq, *left, *right);
            lemma_leaves_le_lvals(*left, u, f);
            lemma_leaves_le_lvals(*right, u, f);
            lemma_path_of(*left, u);
            lemma_path_of(*right, u);
            if leaves_ms(*left).count((u, f)) > 0 {
                lemma_leaf_freq(*left, u, f);
            } else {
                lemma_leaf_freq(*right, u, f);
                assert(lvals(n).count(u) == lvals(*left).count(u) + lvals(*right).count(u));
                assert(lvals(n).count(u) <= 1);
                assert(lvals(*right).count(u) > 0);
                assert(path_of(*left, u) is None);
            }
        },
    }
}

/// Summing over both children of an internal node, one level deeper,
/// gives the node's own sum.
proof fn lemma_path_sum_split(freq: u64, left: Node, right: Node, t: Seq<u64>, d: int, v: int)
    requires
        distinct_leaves(Node::Internal { freq, left: Box::new(left), right: Box::new(right) }),
    ensures
        path_code_sum(
            Node::Internal { freq, left: Box::new(left), right: Box::new(right) },
            t,
            d,
            v,
        ) == path_code_sum(left, t, d + 1, v) + path_code_sum(right, t, d + 1, v),
    decreases v,
{
    let n = Node::Internal { freq, left: Box::new(left), right: Box::new(right) };
    if v > 0 {
        lemma_path_sum_split(freq, left, right, t, d, v - 1);
        crate::codes::lemma_distinct_children(freq, left, right);
        let u = (v - 1) as u8;
        if path_of(left, u) is Some {
            assert(path_of(n, u) == Some(seq![false] + path_of(left, u)->Some_0));
            assert((seq![false] + path_of(left, u)->Some_0).len() == 1 + path_of(
                left,
                u,
            )->Some_0.len());
            assert(t[v - 1] * (d + 1 + path_of(left, u)->Some_0.len()) == t[v - 1] * (d + (seq![
                false,
            ] + path_of(left, u)->Some_0).len()));
        } else if path_of(right, u) is Some {
            assert(path_of(n, u) == Some(seq![true] + path_of(right, u)->Some_0));
            assert((seq![true] + path_of(right, u)->Some_0).len() == 1 + path_of(
                right,
                u,
            )->Some_0.len());
            assert(t[v - 1] * (d + 1 + path_of(right, u)->Some_0.len()) == t[v - 1] * (d + (seq![
                true,
            ] + path_of(right, u)->Some_0).len()));
        }
    }
}

/// A leaf's sum picks out its own value's count.
proof fn lemma_path_sum_leaf(value: u8, freq: u64, t: Seq<u64>, d: int, v: int)
    requires
        0 <= v <= 256,
    ensures
        path_code_sum(Node::Leaf { value, freq }, t, d, v) == if value < v {
            t[value as int] * d
        } else {
            0
        },
    decreases v,
{
    if v > 0 {
        lemma_path_sum_leaf(value, freq, t, d, v - 1);
        assert(((v - 1) as u8) as int == v - 1);
        if value == (v - 1) as u8 {
            assert(path_of(Node::Leaf { value, freq }, (v - 1) as u8) == Some(
                Seq::<bool>::empty(),
            ));
        }
    }
}

/// The weighted sum over the table equals the tree's weighted depth,
/// when each found value's table count matches its leaf count.
proof fn lemma_path_sum_wd(n: Node, t: Seq<u64>, d: int)
    requires
        distinct_leaves(n),
        forall|u: u8| path_of(n, u) is Some ==> t[u as int] == crate::tree::lfreq(n, u),
    ensures
        path_code_sum(n, t, d, 256) == crate::tree::weighted_depth(n, d),
    decreases n,
{
    match n {
        Node::Leaf { value, freq } => {
            lemma_path_sum_leaf(value, freq, t, d, 256);
        },
        Node::Internal { freq, left, right } => {
            crate::codes::lemma_distinct_children(freq, *left, *right);
            lemma_path_sum_split(freq, *left, *right, t, d, 256);
            assert forall|u: u8| path_of(*left, u) is Some implies t[u as int]
                == crate::tree::lfreq(*left, u) by {
                assert(path_of(n, u) is Some);
            }
            assert forall|u: u8| path_of(*right, u) is Some implies t[u as int]
                == crate::tree::lfreq(*right, u) by {
                assert(path_of(n, u) is Some);
                assert(path_of(*left, u) is None);
            }
            lemma_path_sum_wd(*left, t, d + 1);
            lemma_path_sum_wd(*right, t, d + 1);
        },
    }
}

/// Under an internal root the two sums agree slot by slot.
proof fn lemma_table_sum_is_path_sum(t: Seq<u64>, root: Node, v: int)
    requires
        root is Internal,
    ensures
        table_code_sum(t, root, v) == path_code_sum(root, t, 0, v),
    decreases v,
{
    if v > 0 {
        lemma_table_sum_is_path_sum(t, root, v - 1);
    }
}

/// Bit-length accounting: the sum over a channel's code table of
/// (code length × frequency) is exactly the channel's reported encoded
/// bit count.
pub proof fn lemma_bit_length_accounting(ps: Seq<Pixel>, c: int)
    requires
        0 < ps.len() <= u64::MAX,
    ensures
        table_code_sum(hist_spec(ps, c), huff_tree(hist_spec(ps, c)), 256) == crate::codes::total_bits(
            huff_tree(hist_spec(ps, c)),
        ),
{
    let t = hist_spec(ps, c);
    lemma_hist_sum(ps, c);
    lemma_count_pos(ps, c, 0);
    lemma_count_le_len(ps, c, chan(ps[0], c));
    assert(t[chan(ps[0], c) as int] > 0);
    lemma_huff_props(t);
    let root = huff_tree(t);
    match root {
        Node::Leaf { value, freq } => {
            assert(leaves_ms(root).count((value, freq)) == 1);
            assert(t[value as int] > 0 && freq == t[value as int]);
            lemma_degenerate_table_sum(t, value, freq, 256);
        },
        Node::Internal { .. } => {
            assert forall|u: u8| path_of(root, u) is Some implies t[u as int]
                == crate::tree::lfreq(root, u) by {
                lemma_path_of(root, u);
                assert(lvals(root).count(u) > 0);
                assert(t[u as int] > 0);
                assert(leaves_ms(root).count((u, t[u as int])) == 1);
                lemma_leaf_freq(root, u, t[u as int]);
            }
            lemma_table_sum_is_path_sum(t, root, 256);
            lemma_path_sum_wd(root, t, 0);
        },
    }
}

/// Under a single-leaf root the table sum is the one value's count.
proof fn lemma_degenerate_table_sum(t: Seq<u64>, value: u8, freq: u64, v: int)
    requires
        freq == t[value as int],
        0 <= v <= 256,
    ensures
        table_code_sum(t, Node::Leaf { value, freq }, v) == if value < v {
            freq as int
        } else {
            0
        },
    decreases v,
{
    if v > 0 {
        lemma_degenerate_table_sum(t, value, freq, v - 1);
        assert(((v - 1) as u8) as int == v - 1);
        let root = Node::Leaf { value, freq };
        if value == (v - 1) as u8 {
            assert(code_spec(root, (v - 1) as u8) == Some(seq![false]));
            assert(seq![false].len() == 1);
            assert(t[v - 1] * 1int == t[v - 1]) by (nonlinear_arith);
        } else {
            assert(code_spec(root, (v - 1) as u8) is None);
        }
    }
}

/// The stream is as long as the accounting says: the encoded channel's
/// length is the sum over the table of (code length × frequency).
pub proof fn lemma_stream_length(ps: Seq<Pixel>, root: Node, c: int)
    requires
        ps.len() <= u64::MAX,
        forall|i: int| 0 <= i < ps.len() ==> code_spec(root, chan(#[trigger] ps[i], c)) is Some,
    ensures
        encode_channel_t(ps, root, c).len() == table_code_sum(hist_spec(ps, c), root, 256),
    decreases ps.len(),
{
    if ps.len() == 0 {
        lemma_tcs_zero(hist_spec(ps, c), root, 256, ps, c);
    } else {
        let pre = ps.drop_last();
        assert(forall|i: int| 0 <= i < pre.len() ==> #[trigger] pre[i] == ps[i]);
        lemma_stream_length(pre, root, c);
        let v = chan(ps.last(), c);
        assert forall|u: int| 0 <= u < 256 implies hist_spec(ps, c)[u] == hist_spec(pre, c).update(
            v as int,
            (hist_spec(pre, c)[v as int] + 1) as u64,
        )[u] by {
            lemma_count_le_len(pre, c, u as u8);
            lemma_count_le_len(pre, c, v);
        }
        assert(hist_spec(ps, c) =~= hist_spec(pre, c).update(
            v as int,
            (hist_spec(pre, c)[v as int] + 1) as u64,
        ));
        lemma_count_le_len(pre, c, v);
        assert(ps.len() - 1 < ps.len());
        assert(code_spec(root, v) is Some) by {
            assert(chan(ps[ps.len() - 1], c) == v);
        }
        lemma_tcs_update(hist_spec(pre, c), root, v, 256);
        lemma_encode_t_push(pre, ps.last(), root, c);
        assert(pre.push(ps.last()) =~= ps);
    }
}

/// An all-zero table sums to zero.
proof fn lemma_tcs_zero(t: Seq<u64>, root: Node, v: int, ps: Seq<Pixel>, c: int)
    requires
        ps.len() == 0,
        t == hist_spec(ps, c),
        0 <= v <= 256,
    ensures
        table_code_sum(t, root, v) == 0,
    decreases v,
{
    if v > 0 {
        lemma_tcs_zero(t, root, v - 1, ps, c);
        assert(t[v - 1] == 0);
        match code_spec(root, (v - 1) as u8) {
            Some(cd) => {
                assert(t[v - 1] * cd.len() == 0) by (nonlinear_arith)
                    requires
                        t[v - 1] == 0,
                ;
            },
            None => {},
        }
    }
}

/// Bumping one covered slot adds one code length to the sum.
proof fn lemma_tcs_update(t: Seq<u64>, root: Node, j: u8, v: int)
    requires
        t[j as int] < u64::MAX,
        code_spec(root, j) is Some,
        t.len() == 256,
        0 <= v <= 256,
    ensures
        table_code_sum(t.update(j as int, (t[j as int] + 1) as u64), root, v) == table_code_sum(
            t,
            root,
            v,
        ) + if j < v {
            code_spec(root, j)->Some_0.len() as int
        } else {
            0
        },
    decreases v,
{
    if v > 0 {
        lemma_tcs_update(t, root, j, v - 1);
        assert(((v - 1) as u8) as int == v - 1);
        let t2 = t.update(j as int, (t[j as int] + 1) as u64);
        if j == (v - 1) as u8 {
            let clen = code_spec(root, j)->Some_0.len() as int;
            assert(t2[v - 1] * clen == t[v - 1] * clen + clen) by (nonlinear_arith)
                requires
                    t2[v - 1] == t[v - 1] + 1,
                    clen >= 0,
            ;
        }
    }
}

/// Appending one pixel appends its code to the tree-level stream.
proof fn lemma_encode_t_push(s: Seq<Pixel>, p: Pixel, root: Node, c: int)
    ensures
        encode_channel_t(s.push(p), root, c) == encode_channel_t(s, root, c) + code_spec(
            root,
            chan(p, c),
        )->Some_0,
    decreases s.len(),
{
    let code = code_spec(root, chan(p, c))->Some_0;
    if s.len() == 0 {
        assert(s.push(p).drop_first() =~= Seq::<Pixel>::empty());
        assert(s.push(p)[0] == p);
        assert(encode_channel_t(s.push(p).drop_first(), root, c) =~= Seq::<bool>::empty());
        assert(code + Seq::<bool>::empty() =~= code);
        assert(encode_channel_t(s, root, c) + code =~= code);
    } else {
        lemma_encode_t_push(s.drop_first(), p, root, c);
        assert(s.push(p).drop_first() =~= s.drop_first().push(p));
        assert(s.push(p)[0] == s[0]);
        let c0 = code_spec(root, chan(s[0], c))->Some_0;
        assert(encode_channel_t(s.push(p), root, c) == c0 + encode_channel_t(
            s.drop_first().push(p),
            root,
            c,
        ));
        assert(c0 + (encode_channel_t(s.drop_first(), root, c) + code) =~= (c0 + encode_channel_t(
            s.drop_first(),
            root,
            c,
        )) + code);
    }
}

} // verus!
