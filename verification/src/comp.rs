//! The compression pipeline: histograms, one Huffman tree and code
//! table per channel, the encoded bit streams and the reported ratio.

use vstd::prelude::*;

use crate::builder::build_huffman_tree;
use crate::codes::{assign_codes, code_spec, lemma_wd_bound, total_bits, CodeTable};
use crate::encode::{encode_channel, encode_channel_t, pixel_encoding};
use crate::hist::{construct_dictionaries, count_chan, lemma_count_le_len, table_sum, FrequencyTable};
use crate::container::write_compressed_image;
use crate::ratio::{overall_ratio, Ratio};
use crate::tree::{
    distinct_leaves, freq_of, height, huff_tree, lemma_build_props, lemma_height_leaf_count,
    lemma_path_of, lemma_seed_queue, lvals, node_wf, path_of, seed_queue, Node,
};
use crate::{chan, InputError, Pixel, PixelGrid};

verus! {

/// The frequency table of channel `c`, as a mathematical value.
pub open spec fn hist_spec(ps: Seq<Pixel>, c: int) -> Seq<u64> {
    Seq::new(256, |v: int| count_chan(ps, c, v as u8) as u64)
}

/// A table that agrees with the tree's codes encodes the same stream.
pub proof fn lemma_encode_table_tree(ps: Seq<Pixel>, ct: CodeTable, root: Node, c: int)
    requires
        forall|v: u8| ct.code_at(v) == code_spec(root, v),
    ensures
        encode_channel(ps, ct, c) == encode_channel_t(ps, root, c),
    decreases ps.len(),
{
    if ps.len() > 0 {
        lemma_encode_table_tree(ps.drop_first(), ct, root, c);
    }
}

/// The byte any pixel carries is counted at least once.
pub proof fn lemma_count_pos(ps: Seq<Pixel>, c: int, i: int)
    requires
        0 <= i < ps.len(),
    ensures
        count_chan(ps, c, chan(ps[i], c)) >= 1,
    decreases ps.len(),
{
    if i == ps.len() - 1 {
    } else {
        lemma_count_pos(ps.drop_last(), c, i);
    }
}

/// What the Huffman tree of a histogram is like: well-formed, its total
/// count the pixel count, one leaf per occurring byte value carrying
/// that value's count, no repeated leaf values, fewer than 256 levels.
pub proof fn lemma_huff_props(t: Seq<u64>)
    requires
        t.len() == 256,
        table_sum(t, 256) <= u64::MAX,
        exists|v: int| 0 <= v < 256 && t[v] > 0,
    ensures
        node_wf(huff_tree(t)),
        freq_of(huff_tree(t)) == table_sum(t, 256),
        forall|u: u8|
            lvals(huff_tree(t)).count(u) == if t[u as int] > 0 {
                1int
            } else {
                0int
            },
        forall|u: u8, f: u64|
            crate::tree::leaves_ms(huff_tree(t)).count((u, f)) == if t[u as int] > 0 && f == t[
                u as int
            ] {
                1int
            } else {
                0int
            },
        distinct_leaves(huff_tree(t)),
        height(huff_tree(t)) < 256,
        crate::tree::leaf_count(huff_tree(t)) <= 256,
{
    lemma_seed_queue(t, 256);
    let seed = seed_queue(t, 256);
    assert(seed.len() >= 1);
    lemma_build_props(seed, seed.len() as u64);
    lemma_height_leaf_count(huff_tree(t));
}

/// Every observed byte value has a code under the histogram's tree.
pub proof fn lemma_coverage(ps: Seq<Pixel>, c: int)
    requires
        ps.len() > 0,
        ps.len() <= u64::MAX,
        table_sum(hist_spec(ps, c), 256) <= u64::MAX,
    ensures
        forall|i: int|
            0 <= i < ps.len() ==> code_spec(huff_tree(hist_spec(ps, c)), chan(#[trigger] ps[i], c))
                is Some,
{
    let t = hist_spec(ps, c);
    assert(exists|v: int| 0 <= v < 256 && t[v] > 0) by {
        lemma_count_pos(ps, c, 0);
        lemma_count_le_len(ps, c, chan(ps[0], c));
        assert(t[chan(ps[0], c) as int] > 0);
    }
    lemma_huff_props(t);
    let root = huff_tree(t);
    assert forall|i: int|
        0 <= i < ps.len() implies code_spec(root, chan(#[trigger] ps[i], c)) is Some by {
        let v = chan(ps[i], c);
        lemma_count_pos(ps, c, i);
        lemma_count_le_len(ps, c, v);
        assert(t[v as int] > 0);
        assert(lvals(root).count(v) > 0);
        lemma_path_of(root, v);
        match root {
            Node::Leaf { value, .. } => {
                assert(value == v);
            },
            Node::Internal { .. } => {},
        }
    }
}

/// No code is longer than 255 bits, so a channel stream never exceeds
/// 255 bits per pixel.
pub proof fn lemma_encode_len_bound(ps: Seq<Pixel>, root: Node, c: int)
    requires
        height(root) < 256,
        forall|i: int| 0 <= i < ps.len() ==> code_spec(root, chan(#[trigger] ps[i], c)) is Some,
    ensures
        encode_channel_t(ps, root, c).len() <= 255 * ps.len(),
    decreases ps.len(),
{
    if ps.len() > 0 {
        assert(forall|i: int|
            0 <= i < ps.drop_first().len() ==> #[trigger] ps.drop_first()[i] == ps[i + 1]);
        lemma_encode_len_bound(ps.drop_first(), root, c);
        let v = chan(ps[0], c);
        lemma_path_of(root, v);
        match root {
            Node::Leaf { .. } => {
                assert(code_spec(root, v)->Some_0.len() == 1);
            },
            Node::Internal { .. } => {
                assert(code_spec(root, v)->Some_0.len() <= height(root));
            },
        }
    }
}

/// One compressed image: the three trees, the code tables and exact bit
/// counts their assigner reported, the three encoded streams, and the
/// overall ratio.
pub struct CompressedImage {
    pub ratio: Ratio,
    pub red_root: Node,
    pub green_root: Node,
    pub blue_root: Node,
    pub red_table: CodeTable,
    pub green_table: CodeTable,
    pub blue_table: CodeTable,
    pub red_bits: Vec<bool>,
    pub green_bits: Vec<bool>,
    pub blue_bits: Vec<bool>,
    pub red_size: u64,
    pub green_size: u64,
    pub blue_size: u64,
}

/// Builds one tree from a channel's histogram and derives its facts.
fn channel_tree(table: &FrequencyTable, grid: &PixelGrid, c: Ghost<int>) -> (r: Node)
    requires
        grid@.len() > 0,
        255 * grid@.len() <= usize::MAX,
        table.wf(),
        table@ == hist_spec(grid@, c@),
        table_sum(table@, 256) == grid@.len(),
    ensures
        r == huff_tree(hist_spec(grid@, c@)),
        node_wf(r),
        distinct_leaves(r),
        height(r) < 256,
        freq_of(r) == grid@.len(),
        total_bits(r) <= 255 * grid@.len(),
{
    proof {
        lemma_count_pos(grid@, c@, 0);
        lemma_count_le_len(grid@, c@, chan(grid@[0], c@));
        assert(table@[chan(grid@[0], c@) as int] > 0);
        lemma_huff_props(table@);
    }
    let r = match build_huffman_tree(table) {
        Ok(node) => node,
        Err(_) => {
            proof {
                assert(false);
            }
            Node::new(0, 0)
        },
    };
    proof {
        lemma_wd_bound(r, 0);
        let h = height(r) as int;
        let f = freq_of(r) as int;
        assert(h * f <= 255 * f) by (nonlinear_arith)
            requires
                0 <= h <= 255,
                f >= 0,
        ;
    }
    r
}

/// Compresses a pixel grid: builds the three histograms, trees and code
/// tables, encodes the three bit streams, and reports the exact overall
/// ratio. Fails exactly on a grid with no pixels.
pub fn huffman_compress(grid: &PixelGrid) -> (r: Result<CompressedImage, InputError>)
    requires
        grid.wf(),
        255 * grid@.len() <= usize::MAX,
    ensures
        (r is Ok) <==> grid@.len() > 0,
        r is Err ==> r->Err_0 == InputError::EmptyInput,
        r is Ok ==> ({
            let ci = r->Ok_0;
            &&& ci.red_root == huff_tree(hist_spec(grid@, 0))
            &&& ci.green_root == huff_tree(hist_spec(grid@, 1))
            &&& ci.blue_root == huff_tree(hist_spec(grid@, 2))
            &&& ci.red_table.wf() && ci.green_table.wf() && ci.blue_table.wf()
            &&& forall|v: u8| ci.red_table.code_at(v) == code_spec(ci.red_root, v)
            &&& forall|v: u8| ci.green_table.code_at(v) == code_spec(ci.green_root, v)
            &&& forall|v: u8| ci.blue_table.code_at(v) == code_spec(ci.blue_root, v)
            &&& ci.red_bits@ == encode_channel_t(grid@, ci.red_root, 0)
            &&& ci.green_bits@ == encode_channel_t(grid@, ci.green_root, 1)
            &&& ci.blue_bits@ == encode_channel_t(grid@, ci.blue_root, 2)
            &&& ci.red_bits@.len() <= 255 * grid@.len()
            &&& ci.green_bits@.len() <= 255 * grid@.len()
            &&& ci.blue_bits@.len() <= 255 * grid@.len()
            &&& ci.red_size == total_bits(ci.red_root)
            &&& ci.green_size == total_bits(ci.green_root)
            &&& ci.blue_size == total_bits(ci.blue_root)
            &&& ci.ratio.numerator == (ci.red_size as int + ci.green_size as int
                + ci.blue_size as int) * 100
            &&& ci.ratio.denominator == grid@.len() * 24
            &&& ci.ratio.wf()
        }),
{
    if grid.pixels.len() == 0 {
        return Err(InputError::EmptyInput);
    }
    let (rf, gf, bf) = construct_dictionaries(grid);
    proof {
        assert(rf@ =~= hist_spec(grid@, 0));
        assert(gf@ =~= hist_spec(grid@, 1));
        assert(bf@ =~= hist_spec(grid@, 2));
    }
    let red_root = channel_tree(&rf, grid, Ghost(0int));
    let green_root = channel_tree(&gf, grid, Ghost(1int));
    let blue_root = channel_tree(&bf, grid, Ghost(2int));
    let (red_table, red_size) = assign_codes(&red_root);
    let (green_table, green_size) = assign_codes(&green_root);
    let (blue_table, blue_size) = assign_codes(&blue_root);
    proof {
        lemma_coverage(grid@, 0);
        lemma_coverage(grid@, 1);
        lemma_coverage(grid@, 2);
        assert(crate::encode::codes_cover(red_table, grid@, 0));
        assert(crate::encode::codes_cover(green_table, grid@, 1));
        assert(crate::encode::codes_cover(blue_table, grid@, 2));
    }
    let (red_bits, green_bits, blue_bits) = pixel_encoding(
        grid,
        &red_table,
        &green_table,
        &blue_table,
    );
    proof {
        lemma_encode_table_tree(grid@, red_table, red_root, 0);
        lemma_encode_table_tree(grid@, green_table, green_root, 1);
        lemma_encode_table_tree(grid@, blue_table, blue_root, 2);
        lemma_encode_len_bound(grid@, red_root, 0);
        lemma_encode_len_bound(grid@, green_root, 1);
        lemma_encode_len_bound(grid@, blue_root, 2);
    }
    let ratio = overall_ratio(red_size, green_size, blue_size, grid.width, grid.height);
    Ok(
        CompressedImage {
            ratio,
            red_root,
            green_root,
            blue_root,
            red_table,
            green_table,
            blue_table,
            red_bits,
            green_bits,
            blue_bits,
            red_size,
            green_size,
            blue_size,
        },
    )
}

} // verus!

verus! {

/// Compresses a grid and serializes the artifact in one step: the
/// returned bytes are `compress_spec` of the grid and the carried
/// metadata, so equal inputs give byte-identical artifacts.
pub fn compress_to_bytes(grid: &PixelGrid, tap_position: i32, init_seed: &Vec<u8>) -> (r: Result<
    (Vec<u8>, Ratio),
    InputError,
>)
    requires
        grid.wf(),
        255 * grid@.len() + 7 <= usize::MAX,
    ensures
        (r is Ok) <==> grid@.len() > 0,
        r is Err ==> r->Err_0 == InputError::EmptyInput,
        r is Ok ==> ({
            let (bytes, ratio) = r->Ok_0;
            &&& bytes@ == crate::laws::compress_spec(*grid, tap_position, init_seed@)
            &&& ratio.wf()
            &&& ratio.denominator == grid@.len() * 24
        }),
{
    let ci = match huffman_compress(grid) {
        Ok(v) => v,
        Err(e) => {
            return Err(e);
        },
    };
    let bytes = write_compressed_image(
        init_seed,
        tap_position,
        &ci.red_root,
        &ci.green_root,
        &ci.blue_root,
        grid.width,
        grid.height,
        &ci.red_bits,
        &ci.green_bits,
        &ci.blue_bits,
    );
    Ok((bytes, ci.ratio))
}

} // verus!
