//! The binary container: a little-endian artifact holding the carried
//! cipher metadata, the grid dimensions, the three trees in preorder,
//! the three bit lengths and the three packed bit streams.
//!
//! Layout, in order: `tap_position` as 4 bytes; the seed as an 8-byte
//! length and its bytes; width and height as 4 bytes each; each tree in
//! preorder, one 16-bit slot per node — `256` marks an internal node
//! (children follow, left then right), any smaller value is a leaf's
//! byte value, so every byte value 0 to 255 stays unambiguous; each
//! channel's bit length as 8 bytes; each channel's stream packed
//! MSB-first. Node counts are not stored: decoding walks the tree, so
//! only its shape and leaf values matter.

use vstd::prelude::*;

use crate::bits::{pack_spec, packed_len, unpack_spec};
use crate::encode::decode_channel_spec;
use crate::tree::{height, Node};
use crate::{FormatError, Pixel};

verus! {

/// The 16-bit slot that marks an internal node.
pub const SENTINEL: u16 = 256;

/// Two little-endian bytes.
pub open spec fn le16(x: u16) -> Seq<u8> {
    seq![(x % 256) as u8, (x / 256) as u8]
}

/// Four little-endian bytes.
pub open spec fn le32(x: u32) -> Seq<u8> {
    seq![
        (x % 256) as u8,
        ((x / 256) % 256) as u8,
        ((x / 65536) % 256) as u8,
        (x / 16777216) as u8,
    ]
}

/// Eight little-endian bytes.
pub open spec fn le64(x: u64) -> Seq<u8> {
    seq![
        (x % 256) as u8,
        ((x / 256) % 256) as u8,
        ((x / 65536) % 256) as u8,
        ((x / 16777216) % 256) as u8,
        ((x / 4294967296) % 256) as u8,
        ((x / 1099511627776) % 256) as u8,
        ((x / 281474976710656) % 256) as u8,
        (x / 72057594037927936) as u8,
    ]
}

/// A tree in preorder 16-bit slots: a leaf is its value, an internal
/// node is the sentinel followed by both children.
pub open spec fn ser_tree(n: Node) -> Seq<u8>
    decreases n,
{
    match n {
        Node::Leaf { value, .. } => le16(value as u16),
        Node::Internal { left, right, .. } => le16(SENTINEL) + (ser_tree(*left) + ser_tree(
            *right,
        )),
    }
}

/// The header: tap position, length-prefixed seed, width, height.
pub open spec fn header_bytes(tap: i32, seed: Seq<u8>, width: u32, height_px: u32) -> Seq<u8> {
    (((le32(tap as u32) + le64(seed.len() as u64)) + seed) + le32(width)) + le32(height_px)
}

/// Three serialized trees appended to a prefix.
pub open spec fn with_trees(pre: Seq<u8>, rt: Node, gt: Node, bt: Node) -> Seq<u8> {
    ((pre + ser_tree(rt)) + ser_tree(gt)) + ser_tree(bt)
}

/// Three bit lengths appended to a prefix.
pub open spec fn with_lens(pre: Seq<u8>, rb: Seq<bool>, gb: Seq<bool>, bb: Seq<bool>) -> Seq<u8> {
    ((pre + le64(rb.len() as u64)) + le64(gb.len() as u64)) + le64(bb.len() as u64)
}

/// Three packed streams appended to a prefix.
pub open spec fn with_packs(pre: Seq<u8>, rb: Seq<bool>, gb: Seq<bool>, bb: Seq<bool>) -> Seq<u8> {
    ((pre + pack_spec(rb)) + pack_spec(gb)) + pack_spec(bb)
}

/// The whole artifact as a function of what it stores.
pub open spec fn artifact_spec(
    tap: i32,
    seed: Seq<u8>,
    width: u32,
    height_px: u32,
    rt: Node,
    gt: Node,
    bt: Node,
    rb: Seq<bool>,
    gb: Seq<bool>,
    bb: Seq<bool>,
) -> Seq<u8> {
    with_packs(
        with_lens(with_trees(header_bytes(tap, seed, width, height_px), rt, gt, bt), rb, gb, bb),
        rb,
        gb,
        bb,
    )
}

// ---------------------------------------------------------------------
// Readers: each consumes from the front and returns the rest.
// ---------------------------------------------------------------------

/// Reads two little-endian bytes.
pub open spec fn rd16(s: Seq<u8>) -> Option<(u16, Seq<u8>)> {
    if s.len() < 2 {
        None
    } else {
        Some(((s[0] + 256 * s[1]) as u16, s.skip(2)))
    }
}

/// Reads four little-endian bytes.
pub open spec fn rd32(s: Seq<u8>) -> Option<(u32, Seq<u8>)> {
    if s.len() < 4 {
        None
    } else {
        Some(((s[0] + 256 * s[1] + 65536 * s[2] + 16777216 * s[3]) as u32, s.skip(4)))
    }
}

/// Reads eight little-endian bytes.
pub open spec fn rd64(s: Seq<u8>) -> Option<(u64, Seq<u8>)> {
    if s.len() < 8 {
        None
    } else {
        Some(
            ((s[0] + 256 * s[1] + 65536 * s[2] + 16777216 * s[3] + 4294967296 * s[4]
                + 1099511627776 * s[5] + 281474976710656 * s[6] + 72057594037927936
                * s[7]) as u64, s.skip(8)),
        )
    }
}

/// Reads `n` raw bytes.
pub open spec fn rd_bytes(s: Seq<u8>, n: int) -> Option<(Seq<u8>, Seq<u8>)> {
    if n < 0 || s.len() < n {
        None
    } else {
        Some((s.take(n), s.skip(n)))
    }
}

/// Reads a preorder tree, refusing nodes deeper than `fuel`. Parsed
/// nodes carry no counts: decoding needs only shape and leaf values.
pub open spec fn parse_tree(s: Seq<u8>, fuel: nat) -> Option<(Node, Seq<u8>)>
    decreases fuel,
{
    match rd16(s) {
        None => None,
        Some((x, r1)) => if x < 256 {
            Some((Node::Leaf { value: x as u8, freq: 0 }, r1))
        } else if x == 256 && fuel > 0 {
            match parse_tree(r1, (fuel - 1) as nat) {
                None => None,
                Some((l, r2)) => match parse_tree(r2, (fuel - 1) as nat) {
                    None => None,
                    Some((rt, r3)) => Some(
                        (Node::Internal { freq: 0, left: Box::new(l), right: Box::new(rt) }, r3),
                    ),
                },
            }
        } else {
            None
        },
    }
}

/// The same tree with all counts zeroed: what parsing a serialized tree
/// gives back.
pub open spec fn strip(n: Node) -> Node
    decreases n,
{
    match n {
        Node::Leaf { value, .. } => Node::Leaf { value, freq: 0 },
        Node::Internal { left, right, .. } => Node::Internal {
            freq: 0,
            left: Box::new(strip(*left)),
            right: Box::new(strip(*right)),
        },
    }
}

// ---------------------------------------------------------------------
// Round trips of the primitives.
// ---------------------------------------------------------------------

pub proof fn lemma_rd16_le(x: u16, rest: Seq<u8>)
    ensures
        rd16(le16(x) + rest) == Some((x, rest)),
{
    let s = le16(x) + rest;
    assert(s[0] == (x % 256) as u8 && s[1] == (x / 256) as u8);
    assert(x % 256 + 256 * (x / 256) == x);
    assert(s.skip(2) =~= rest);
}

pub proof fn lemma_rd32_le(x: u32, rest: Seq<u8>)
    ensures
        rd32(le32(x) + rest) == Some((x, rest)),
{
    let s = le32(x) + rest;
    assert(s[0] == (x % 256) as u8 && s[1] == ((x / 256) % 256) as u8 && s[2] == ((x / 65536)
        % 256) as u8 && s[3] == (x / 16777216) as u8);
    assert(x % 256 + 256 * ((x / 256) % 256) + 65536 * ((x / 65536) % 256) + 16777216 * (x
        / 16777216) == x) by (bit_vector);
    assert(s.skip(4) =~= rest);
}

pub proof fn lemma_rd64_le(x: u64, rest: Seq<u8>)
    ensures
        rd64(le64(x) + rest) == Some((x, rest)),
{
    let s = le64(x) + rest;
    assert(s[0] == (x % 256) as u8 && s[1] == ((x / 256) % 256) as u8 && s[2] == ((x / 65536)
        % 256) as u8 && s[3] == ((x / 16777216) % 256) as u8 && s[4] == ((x / 4294967296)
        % 256) as u8 && s[5] == ((x / 1099511627776) % 256) as u8 && s[6] == ((x
        / 281474976710656) % 256) as u8 && s[7] == (x / 72057594037927936) as u8);
    assert(x % 256 + 256 * ((x / 256) % 256) + 65536 * ((x / 65536) % 256) + 16777216 * ((x
        / 16777216) % 256) + 4294967296 * ((x / 4294967296) % 256) + 1099511627776 * ((x
        / 1099511627776) % 256) + 281474976710656 * ((x / 281474976710656) % 256)
        + 72057594037927936 * (x / 72057594037927936) == x) by (bit_vector);
    assert(s.skip(8) =~= rest);
}

pub proof fn lemma_rd_bytes(data: Seq<u8>, rest: Seq<u8>)
    ensures
        rd_bytes(data + rest, data.len() as int) == Some((data, rest)),
{
    let s = data + rest;
    assert(s.take(data.len() as int) =~= data);
    assert(s.skip(data.len() as int) =~= rest);
}

/// Parsing inverts serialization for any tree shallower than the fuel.
pub proof fn lemma_parse_ser_tree(t: Node, rest: Seq<u8>, fuel: nat)
    requires
        height(t) < fuel,
    ensures
        parse_tree(ser_tree(t) + rest, fuel) == Some((strip(t), rest)),
    decreases t,
{
    match t {
        Node::Leaf { value, .. } => {
            lemma_rd16_le(value as u16, rest);
            assert(le16(value as u16) + rest =~= ser_tree(t) + rest);
        },
        Node::Internal { left, right, .. } => {
            let tail = ser_tree(*left) + (ser_tree(*right) + rest);
            lemma_rd16_le(SENTINEL, tail);
            assert(le16(SENTINEL) + tail =~= ser_tree(t) + rest);
            lemma_parse_ser_tree(*left, ser_tree(*right) + rest, (fuel - 1) as nat);
            lemma_parse_ser_tree(*right, rest, (fuel - 1) as nat);
        },
    }
}

// ---------------------------------------------------------------------
// Executable writers.
// ---------------------------------------------------------------------

fn push_u16(out: &mut Vec<u8>, x: u16)
    ensures
        final(out)@ == old(out)@ + le16(x),
{
    out.push((x % 256) as u8);
    out.push((x / 256) as u8);
    proof {
        assert(final(out)@ =~= old(out)@ + le16(x));
    }
}

fn push_u32(out: &mut Vec<u8>, x: u32)
    ensures
        final(out)@ == old(out)@ + le32(x),
{
    out.push((x % 256) as u8);
    out.push(((x / 256) % 256) as u8);
    out.push(((x / 65536) % 256) as u8);
    out.push((x / 16777216) as u8);
    proof {
        assert(final(out)@ =~= old(out)@ + le32(x));
    }
}

fn push_u64(out: &mut Vec<u8>, x: u64)
    ensures
        final(out)@ == old(out)@ + le64(x),
{
    out.push((x % 256) as u8);
    out.push(((x / 256) % 256) as u8);
    out.push(((x / 65536) % 256) as u8);
    out.push(((x / 16777216) % 256) as u8);
    out.push(((x / 4294967296) % 256) as u8);
    out.push(((x / 1099511627776) % 256) as u8);
    out.push(((x / 281474976710656) % 256) as u8);
    out.push((x / 72057594037927936) as u8);
    proof {
        assert(final(out)@ =~= old(out)@ + le64(x));
    }
}

/// Appends a tree in preorder: the sentinel slot for an internal node,
/// the value slot for a leaf.
pub fn write_tree(out: &mut Vec<u8>, node: &Node)
    ensures
        final(out)@ == old(out)@ + ser_tree(*node),
    decreases *node,
{
    match node {
        Node::Leaf { value, .. } => {
            push_u16(out, *value as u16);
        },
        Node::Internal { left, right, .. } => {
            push_u16(out, SENTINEL);
            write_tree(out, left);
            write_tree(out, right);
            proof {
                assert(final(out)@ =~= old(out)@ + ser_tree(*node));
            }
        },
    }
}

/// Appends a bit stream's packed bytes.
fn write_packed(out: &mut Vec<u8>, bits: &Vec<bool>)
    requires
        bits@.len() + 7 <= usize::MAX,
    ensures
        final(out)@ == old(out)@ + pack_spec(bits@),
{
    let packed = crate::bits::pack_bits_spec(bits);
    let mut i: usize = 0;
    let n = packed.len();
    while i < n
        invariant
            i <= n,
            n == packed@.len(),
            out@ == old(out)@ + packed@.take(i as int),
        decreases n - i,
    {
        out.push(packed[i]);
        proof {
            assert(old(out)@ + packed@.take(i as int + 1) =~= (old(out)@ + packed@.take(
                i as int,
            )).push(packed@[i as int]));
        }
        i = i + 1;
    }
    proof {
        assert(packed@.take(n as int) =~= packed@);
    }
}

/// Serializes the artifact: the carried tap position and seed, the
/// dimensions, the three trees, the three bit lengths and the three
/// packed streams, in the container's order.
#[verifier::rlimit(100)]
pub fn write_compressed_image(
    init_seed: &Vec<u8>,
    tap_position: i32,
    red_root: &Node,
    green_root: &Node,
    blue_root: &Node,
    width: u32,
    height_px: u32,
    red_bits: &Vec<bool>,
    green_bits: &Vec<bool>,
    blue_bits: &Vec<bool>,
) -> (r: Vec<u8>)
    requires
        red_bits@.len() + 7 <= usize::MAX,
        green_bits@.len() + 7 <= usize::MAX,
        blue_bits@.len() + 7 <= usize::MAX,
    ensures
        r@ == artifact_spec(
            tap_position,
            init_seed@,
            width,
            height_px,
            *red_root,
            *green_root,
            *blue_root,
            red_bits@,
            green_bits@,
            blue_bits@,
        ),
{
    let mut out: Vec<u8> = Vec::new();
    push_u32(&mut out, tap_position as u32);
    push_u64(&mut out, init_seed.len() as u64);
    let mut i: usize = 0;
    let slen = init_seed.len();
    let ghost mid = out@;
    while i < slen
        invariant
            i <= slen,
            slen == init_seed@.len(),
            out@ == mid + init_seed@.take(i as int),
        decreases slen - i,
    {
        out.push(init_seed[i]);
        proof {
            assert(mid + init_seed@.take(i as int + 1) =~= (mid + init_seed@.take(i as int)).push(
                init_seed@[i as int],
            ));
        }
        i = i + 1;
    }
    proof {
        assert(init_seed@.take(slen as int) =~= init_seed@);
    }
    push_u32(&mut out, width);
    push_u32(&mut out, height_px);
    write_tree(&mut out, red_root);
    write_tree(&mut out, green_root);
    write_tree(&mut out, blue_root);
    push_u64(&mut out, red_bits.len() as u64);
    push_u64(&mut out, green_bits.len() as u64);
    push_u64(&mut out, blue_bits.len() as u64);
    write_packed(&mut out, red_bits);
    write_packed(&mut out, green_bits);
    write_packed(&mut out, blue_bits);
    out
}

// ---------------------------------------------------------------------
// Staged parsing of a whole artifact.
// ---------------------------------------------------------------------

/// Tap position, seed, width, height; and what follows them.
pub open spec fn parse_header(s: Seq<u8>) -> Option<(i32, Seq<u8>, u32, u32, Seq<u8>)> {
    match rd32(s) {
        None => None,
        Some((tapu, s1)) => match rd64(s1) {
            None => None,
            Some((slen, s2)) => match rd_bytes(s2, slen as int) {
                None => None,
                Some((seed, s3)) => match rd32(s3) {
                    None => None,
                    Some((w, s4)) => match rd32(s4) {
                        None => None,
                        Some((h, s5)) => Some((tapu as i32, seed, w, h, s5)),
                    },
                },
            },
        },
    }
}

/// The three trees; and what follows them.
pub open spec fn parse_trees3(s: Seq<u8>) -> Option<(Node, Node, Node, Seq<u8>)> {
    match parse_tree(s, 256) {
        None => None,
        Some((rt, s1)) => match parse_tree(s1, 256) {
            None => None,
            Some((gt, s2)) => match parse_tree(s2, 256) {
                None => None,
                Some((bt, s3)) => Some((rt, gt, bt, s3)),
            },
        },
    }
}

/// The three bit lengths; and what follows them.
pub open spec fn parse_lens3(s: Seq<u8>) -> Option<(u64, u64, u64, Seq<u8>)> {
    match rd64(s) {
        None => None,
        Some((rbl, s1)) => match rd64(s1) {
            None => None,
            Some((gbl, s2)) => match rd64(s2) {
                None => None,
                Some((bbl, s3)) => Some((rbl, gbl, bbl, s3)),
            },
        },
    }
}

/// The three packed sections; and what follows them.
pub open spec fn parse_packs3(s: Seq<u8>, rbl: u64, gbl: u64, bbl: u64) -> Option<
    (Seq<u8>, Seq<u8>, Seq<u8>, Seq<u8>),
> {
    match rd_bytes(s, packed_len(rbl as int)) {
        None => None,
        Some((pr, s1)) => match rd_bytes(s1, packed_len(gbl as int)) {
            None => None,
            Some((pg, s2)) => match rd_bytes(s2, packed_len(bbl as int)) {
                None => None,
                Some((pb, s3)) => Some((pr, pg, pb, s3)),
            },
        },
    }
}

/// The three channels decoded, `count` bytes each.
pub open spec fn decode3(
    rt: Node,
    gt: Node,
    bt: Node,
    rbits: Seq<bool>,
    gbits: Seq<bool>,
    bbits: Seq<bool>,
    count: nat,
) -> Option<(Seq<u8>, Seq<u8>, Seq<u8>)> {
    match decode_channel_spec(rt, rbits, count) {
        None => None,
        Some(rs) => match decode_channel_spec(gt, gbits, count) {
            None => None,
            Some(gs) => match decode_channel_spec(bt, bbits, count) {
                None => None,
                Some(bs) => Some((rs, gs, bs)),
            },
        },
    }
}

/// What a whole artifact means: the carried tap position and seed, the
/// dimensions, and the decoded pixels. `None` on any malformed or
/// truncated artifact, on trailing bytes, and on streams that do not
/// decode to exactly width times height symbols per channel.
pub open spec fn decompress_spec(s: Seq<u8>) -> Option<(i32, Seq<u8>, u32, u32, Seq<Pixel>)> {
    match parse_header(s) {
        None => None,
        Some((tap, seed, w, h, s5)) => match parse_trees3(s5) {
            None => None,
            Some((rt, gt, bt, s8)) => match parse_lens3(s8) {
                None => None,
                Some((rbl, gbl, bbl, s11)) => match parse_packs3(s11, rbl, gbl, bbl) {
                    None => None,
                    Some((pr, pg, pb, s14)) => if s14.len() != 0 {
                        None
                    } else {
                        let count = (w as nat) * (h as nat);
                        match decode3(
                            rt,
                            gt,
                            bt,
                            unpack_spec(pr, rbl as nat),
                            unpack_spec(pg, gbl as nat),
                            unpack_spec(pb, bbl as nat),
                            count,
                        ) {
                            None => None,
                            Some((rs, gs, bs)) => Some(
                                (
                                    tap,
                                    seed,
                                    w,
                                    h,
                                    Seq::new(count, |i: int| Pixel { r: rs[i], g: gs[i], b: bs[i] }),
                                ),
                            ),
                        }
                    },
                },
            },
        },
    }
}

// ---------------------------------------------------------------------
// Parsing inverts serialization, stage by stage.
// ---------------------------------------------------------------------

/// What follows the header in an artifact.
pub open spec fn trees_tail(
    rt: Node,
    gt: Node,
    bt: Node,
    rb: Seq<bool>,
    gb: Seq<bool>,
    bb: Seq<bool>,
) -> Seq<u8> {
    ser_tree(rt) + (ser_tree(gt) + (ser_tree(bt) + lens_tail(rb, gb, bb)))
}

/// What follows the trees in an artifact.
pub open spec fn lens_tail(rb: Seq<bool>, gb: Seq<bool>, bb: Seq<bool>) -> Seq<u8> {
    le64(rb.len() as u64) + (le64(gb.len() as u64) + (le64(bb.len() as u64) + packs_tail(
        rb,
        gb,
        bb,
    )))
}

/// What follows the bit lengths in an artifact.
pub open spec fn packs_tail(rb: Seq<bool>, gb: Seq<bool>, bb: Seq<bool>) -> Seq<u8> {
    pack_spec(rb) + (pack_spec(gb) + pack_spec(bb))
}

/// Parsing a serialized artifact recovers, stage by stage, what it
/// stores: the header fields, the stripped trees, the bit lengths, the
/// packed sections, and nothing after them.
#[verifier::rlimit(100)]
pub proof fn lemma_parse_artifact(
    tap: i32,
    seed: Seq<u8>,
    w: u32,
    h: u32,
    rt: Node,
    gt: Node,
    bt: Node,
    rb: Seq<bool>,
    gb: Seq<bool>,
    bb: Seq<bool>,
)
    requires
        seed.len() <= u64::MAX,
        rb.len() <= u64::MAX,
        gb.len() <= u64::MAX,
        bb.len() <= u64::MAX,
        height(rt) < 256,
        height(gt) < 256,
        height(bt) < 256,
    ensures
        parse_header(artifact_spec(tap, seed, w, h, rt, gt, bt, rb, gb, bb)) == Some(
            (tap, seed, w, h, trees_tail(rt, gt, bt, rb, gb, bb)),
        ),
        parse_trees3(trees_tail(rt, gt, bt, rb, gb, bb)) == Some(
            (strip(rt), strip(gt), strip(bt), lens_tail(rb, gb, bb)),
        ),
        parse_lens3(lens_tail(rb, gb, bb)) == Some(
            (rb.len() as u64, gb.len() as u64, bb.len() as u64, packs_tail(rb, gb, bb)),
        ),
        parse_packs3(packs_tail(rb, gb, bb), rb.len() as u64, gb.len() as u64, bb.len() as u64)
            == Some((pack_spec(rb), pack_spec(gb), pack_spec(bb), Seq::<u8>::empty())),
{
    let a1 = le32(tap as u32);
    let a2 = le64(seed.len() as u64);
    let a3 = seed;
    let a4 = le32(w);
    let a5 = le32(h);
    let a6 = ser_tree(rt);
    let a7 = ser_tree(gt);
    let a8 = ser_tree(bt);
    let a9 = le64(rb.len() as u64);
    let a10 = le64(gb.len() as u64);
    let a11 = le64(bb.len() as u64);
    let a12 = pack_spec(rb);
    let a13 = pack_spec(gb);
    let a14 = pack_spec(bb);
    let l2 = a1 + a2;
    let l3 = l2 + a3;
    let l4 = l3 + a4;
    let l5 = l4 + a5;
    let l6 = l5 + a6;
    let l7 = l6 + a7;
    let l8 = l7 + a8;
    let l9 = l8 + a9;
    let l10 = l9 + a10;
    let l11 = l10 + a11;
    let l12 = l11 + a12;
    let l13 = l12 + a13;
    let l14 = l13 + a14;
    let art = artifact_spec(tap, seed, w, h, rt, gt, bt, rb, gb, bb);
    assert(art == l14);
    let r14 = a14;
    let r13 = a13 + r14;
    let r12 = a12 + r13;
    let r11 = a11 + r12;
    let r10 = a10 + r11;
    let r9 = a9 + r10;
    let r8 = a8 + r9;
    let r7 = a7 + r8;
    let r6 = a6 + r7;
    let r5 = a5 + r6;
    let r4 = a4 + r5;
    let r3 = a3 + r4;
    let r2 = a2 + r3;
    assert(l13 + a14 =~= l12 + r13);
    assert(l12 + r13 =~= l11 + r12);
    assert(l11 + r12 =~= l10 + r11);
    assert(l10 + r11 =~= l9 + r10);
    assert(l9 + r10 =~= l8 + r9);
    assert(l8 + r9 =~= l7 + r8);
    assert(l7 + r8 =~= l6 + r7);
    assert(l6 + r7 =~= l5 + r6);
    assert(l5 + r6 =~= l4 + r5);
    assert(l4 + r5 =~= l3 + r4);
    assert(l3 + r4 =~= l2 + r3);
    assert(l2 + r3 =~= a1 + r2);
    assert(art == a1 + r2);
    // header
    lemma_rd32_le(tap as u32, r2);
    assert(((tap as u32) as i32) == tap) by (bit_vector);
    lemma_rd64_le(seed.len() as u64, r3);
    assert((seed.len() as u64) as int == seed.len());
    lemma_rd_bytes(seed, r4);
    lemma_rd32_le(w, r5);
    lemma_rd32_le(h, r6);
    assert(r6 == trees_tail(rt, gt, bt, rb, gb, bb));
    // trees
    lemma_parse_ser_tree(rt, r7, 256);
    lemma_parse_ser_tree(gt, r8, 256);
    lemma_parse_ser_tree(bt, r9, 256);
    assert(r9 == lens_tail(rb, gb, bb));
    // bit lengths
    lemma_rd64_le(rb.len() as u64, r10);
    lemma_rd64_le(gb.len() as u64, r11);
    lemma_rd64_le(bb.len() as u64, r12);
    assert(r12 == packs_tail(rb, gb, bb));
    // packed sections
    assert(packed_len((rb.len() as u64) as int) == pack_spec(rb).len());
    assert(packed_len((gb.len() as u64) as int) == pack_spec(gb).len());
    assert(packed_len((bb.len() as u64) as int) == pack_spec(bb).len());
    lemma_rd_bytes(pack_spec(rb), r13);
    lemma_rd_bytes(pack_spec(gb), r14);
    assert(a14 =~= pack_spec(bb) + Seq::<u8>::empty());
    lemma_rd_bytes(pack_spec(bb), Seq::<u8>::empty());
}

// ---------------------------------------------------------------------
// The executable parser.
// ---------------------------------------------------------------------

proof fn lemma_skip_skip(s: Seq<u8>, a: int, b: int)
    requires
        0 <= a,
        0 <= b,
        a + b <= s.len(),
    ensures
        s.skip(a).skip(b) == s.skip(a + b),
{
    assert(s.skip(a).skip(b) =~= s.skip(a + b));
}

fn rd16x(bytes: &Vec<u8>, pos: usize) -> (r: Result<(u16, usize), FormatError>)
    requires
        pos <= bytes@.len(),
    ensures
        r is Ok ==> rd16(bytes@.skip(pos as int)) == Some(
            (r->Ok_0.0, bytes@.skip(r->Ok_0.1 as int)),
        ) && r->Ok_0.1 == pos + 2 && r->Ok_0.1 <= bytes@.len(),
        r is Err ==> rd16(bytes@.skip(pos as int)) is None && r->Err_0 == FormatError::Truncated,
{
    let n = bytes.len();
    if n - pos < 2 {
        return Err(FormatError::Truncated);
    }
    let b0 = bytes[pos];
    let b1 = bytes[pos + 1];
    let x: u16 = b0 as u16 + 256 * (b1 as u16);
    proof {
        assert(bytes@.skip(pos as int)[0] == bytes@[pos as int]);
        assert(bytes@.skip(pos as int)[1] == bytes@[pos as int + 1]);
        lemma_skip_skip(bytes@, pos as int, 2);
    }
    Ok((x, pos + 2))
}

fn rd32x(bytes: &Vec<u8>, pos: usize) -> (r: Result<(u32, usize), FormatError>)
    requires
        pos <= bytes@.len(),
    ensures
        r is Ok ==> rd32(bytes@.skip(pos as int)) == Some(
            (r->Ok_0.0, bytes@.skip(r->Ok_0.1 as int)),
        ) && r->Ok_0.1 == pos + 4 && r->Ok_0.1 <= bytes@.len(),
        r is Err ==> rd32(bytes@.skip(pos as int)) is None && r->Err_0 == FormatError::Truncated,
{
    let n = bytes.len();
    if n - pos < 4 {
        return Err(FormatError::Truncated);
    }
    let b0 = bytes[pos] as u32;
    let b1 = bytes[pos + 1] as u32;
    let b2 = bytes[pos + 2] as u32;
    let b3 = bytes[pos + 3] as u32;
    let x: u32 = b0 + 256 * b1 + 65536 * b2 + 16777216 * b3;
    proof {
        assert(bytes@.skip(pos as int)[0] == bytes@[pos as int]);
        assert(bytes@.skip(pos as int)[1] == bytes@[pos as int + 1]);
        assert(bytes@.skip(pos as int)[2] == bytes@[pos as int + 2]);
        assert(bytes@.skip(pos as int)[3] == bytes@[pos as int + 3]);
        lemma_skip_skip(bytes@, pos as int, 4);
    }
    Ok((x, pos + 4))
}

fn rd64x(bytes: &Vec<u8>, pos: usize) -> (r: Result<(u64, usize), FormatError>)
    requires
        pos <= bytes@.len(),
    ensures
        r is Ok ==> rd64(bytes@.skip(pos as int)) == Some(
            (r->Ok_0.0, bytes@.skip(r->Ok_0.1 as int)),
        ) && r->Ok_0.1 == pos + 8 && r->Ok_0.1 <= bytes@.len(),
        r is Err ==> rd64(bytes@.skip(pos as int)) is None && r->Err_0 == FormatError::Truncated,
{
    let n = bytes.len();
    if n - pos < 8 {
        return Err(FormatError::Truncated);
    }
    let b0 = bytes[pos] as u64;
    let b1 = bytes[pos + 1] as u64;
    let b2 = bytes[pos + 2] as u64;
    let b3 = bytes[pos + 3] as u64;
    let b4 = bytes[pos + 4] as u64;
    let b5 = bytes[pos + 5] as u64;
    let b6 = bytes[pos + 6] as u64;
    let b7 = bytes[pos + 7] as u64;
    let x: u64 = b0 + 256 * b1 + 65536 * b2 + 16777216 * b3 + 4294967296 * b4 + 1099511627776 * b5
        + 281474976710656 * b6 + 72057594037927936 * b7;
    proof {
        assert(bytes@.skip(pos as int)[0] == bytes@[pos as int]);
        assert(bytes@.skip(pos as int)[1] == bytes@[pos as int + 1]);
        assert(bytes@.skip(pos as int)[2] == bytes@[pos as int + 2]);
        assert(bytes@.skip(pos as int)[3] == bytes@[pos as int + 3]);
        assert(bytes@.skip(pos as int)[4] == bytes@[pos as int + 4]);
        assert(bytes@.skip(pos as int)[5] == bytes@[pos as int + 5]);
        assert(bytes@.skip(pos as int)[6] == bytes@[pos as int + 6]);
        assert(bytes@.skip(pos as int)[7] == bytes@[pos as int + 7]);
        lemma_skip_skip(bytes@, pos as int, 8);
    }
    Ok((x, pos + 8))
}

/// Reads one preorder tree starting at `pos`, refusing trees deeper
/// than `fuel`.
fn parse_tree_x(bytes: &Vec<u8>, pos: usize, fuel: u32) -> (r: Result<(Node, usize), FormatError>)
    requires
        pos <= bytes@.len(),
    ensures
        r is Ok ==> parse_tree(bytes@.skip(pos as int), fuel as nat) == Some(
            (r->Ok_0.0, bytes@.skip(r->Ok_0.1 as int)),
        ) && pos <= r->Ok_0.1 <= bytes@.len(),
        r is Err ==> parse_tree(bytes@.skip(pos as int), fuel as nat) is None,
    decreases fuel,
{
    let x16 = rd16x(bytes, pos);
    match x16 {
        Err(e) => Err(e),
        Ok((x, p1)) => {
            if x < 256 {
                Ok((Node::Leaf { value: x as u8, freq: 0 }, p1))
            } else if x == 256 && fuel > 0 {
                match parse_tree_x(bytes, p1, fuel - 1) {
                    Err(e) => Err(e),
                    Ok((l, p2)) => match parse_tree_x(bytes, p2, fuel - 1) {
                        Err(e) => Err(e),
                        Ok((rt, p3)) => Ok(
                            (Node::Internal { freq: 0, left: Box::new(l), right: Box::new(rt) }, p3),
                        ),
                    },
                }
            } else {
                Err(FormatError::Malformed)
            }
        },
    }
}

/// What an artifact decodes to.
pub struct DecodedImage {
    pub tap_position: i32,
    pub seed: Vec<u8>,
    pub grid: crate::PixelGrid,
}

/// Reads the header fields starting at the front.
fn parse_header_x(bytes: &Vec<u8>) -> (r: Result<(i32, Vec<u8>, u32, u32, usize), FormatError>)
    ensures
        r is Ok ==> ({
            let (tap, seed, w, h, p5) = r->Ok_0;
            parse_header(bytes@) == Some((tap, seed@, w, h, bytes@.skip(p5 as int))) && p5
                <= bytes@.len()
        }),
        r is Err ==> parse_header(bytes@) is None,
{
    let n = bytes.len();
    proof {
        assert(bytes@.skip(0) =~= bytes@);
    }
    let (tapu, p1) = match rd32x(bytes, 0) {
        Ok(v) => v,
        Err(e) => {
            return Err(e);
        },
    };
    let (slen, p2) = match rd64x(bytes, p1) {
        Ok(v) => v,
        Err(e) => {
            return Err(e);
        },
    };
    if slen > (n - p2) as u64 {
        proof {
            assert(rd_bytes(bytes@.skip(p2 as int), slen as int) is None);
        }
        return Err(FormatError::Truncated);
    }
    let slen_u = slen as usize;
    let mut seed: Vec<u8> = Vec::new();
    let mut i: usize = 0;
    while i < slen_u
        invariant
            i <= slen_u,
            n == bytes@.len(),
            p2 + slen_u <= bytes@.len(),
            seed@ == bytes@.skip(p2 as int).take(slen_u as int).take(i as int),
        decreases slen_u - i,
    {
        proof {
            let w = bytes@.skip(p2 as int).take(slen_u as int);
            assert(w.take(i as int).push(w[i as int]) =~= w.take(i as int + 1));
            assert(w[i as int] == bytes@[p2 as int + i]);
        }
        seed.push(bytes[p2 + i]);
        i = i + 1;
    }
    let p3 = p2 + slen_u;
    proof {
        let w = bytes@.skip(p2 as int).take(slen_u as int);
        assert(seed@ == w.take(slen_u as int));
        assert(w.take(slen_u as int) =~= w);
        lemma_skip_skip(bytes@, p2 as int, slen_u as int);
        assert(rd_bytes(bytes@.skip(p2 as int), slen as int) == Some(
            (seed@, bytes@.skip(p3 as int)),
        ));
    }
    let (w, p4) = match rd32x(bytes, p3) {
        Ok(v) => v,
        Err(e) => {
            return Err(e);
        },
    };
    let (h, p5) = match rd32x(bytes, p4) {
        Ok(v) => v,
        Err(e) => {
            return Err(e);
        },
    };
    let tap = tapu as i32;
    Ok((tap, seed, w, h, p5))
}

/// Reads the three trees starting at `pos`.
fn parse_trees_x(bytes: &Vec<u8>, pos: usize) -> (r: Result<(Node, Node, Node, usize), FormatError>)
    requires
        pos <= bytes@.len(),
    ensures
        r is Ok ==> ({
            let (rt, gt, bt, p2) = r->Ok_0;
            parse_trees3(bytes@.skip(pos as int)) == Some((rt, gt, bt, bytes@.skip(p2 as int)))
                && pos <= p2 <= bytes@.len()
        }),
        r is Err ==> parse_trees3(bytes@.skip(pos as int)) is None,
{
    let (rt, p6) = match parse_tree_x(bytes, pos, 256) {
        Ok(v) => v,
        Err(e) => {
            return Err(e);
        },
    };
    let (gt, p7) = match parse_tree_x(bytes, p6, 256) {
        Ok(v) => v,
        Err(e) => {
            return Err(e);
        },
    };
    let (bt, p8) = match parse_tree_x(bytes, p7, 256) {
        Ok(v) => v,
        Err(e) => {
            return Err(e);
        },
    };
    Ok((rt, gt, bt, p8))
}

/// Reads the three bit lengths starting at `pos`.
fn parse_lens_x(bytes: &Vec<u8>, pos: usize) -> (r: Result<(u64, u64, u64, usize), FormatError>)
    requires
        pos <= bytes@.len(),
    ensures
        r is Ok ==> ({
            let (rbl, gbl, bbl, p2) = r->Ok_0;
            parse_lens3(bytes@.skip(pos as int)) == Some((rbl, gbl, bbl, bytes@.skip(p2 as int)))
                && pos <= p2 <= bytes@.len()
        }),
        r is Err ==> parse_lens3(bytes@.skip(pos as int)) is None,
{
    let (rbl, p9) = match rd64x(bytes, pos) {
        Ok(v) => v,
        Err(e) => {
            return Err(e);
        },
    };
    let (gbl, p10) = match rd64x(bytes, p9) {
        Ok(v) => v,
        Err(e) => {
            return Err(e);
        },
    };
    let (bbl, p11) = match rd64x(bytes, p10) {
        Ok(v) => v,
        Err(e) => {
            return Err(e);
        },
    };
    Ok((rbl, gbl, bbl, p11))
}

/// Reads and unpacks the three packed sections starting at `pos`.
fn parse_packs_x(bytes: &Vec<u8>, pos: usize, rbl: u64, gbl: u64, bbl: u64) -> (r: Result<
    (Vec<bool>, Vec<bool>, Vec<bool>, usize),
    FormatError,
>)
    requires
        pos <= bytes@.len(),
    ensures
        r is Ok ==> ({
            let (rb, gb, bb, p2) = r->Ok_0;
            &&& parse_packs3(bytes@.skip(pos as int), rbl, gbl, bbl) is Some
            &&& ({
                let (pr, pg, pb, s14) = parse_packs3(bytes@.skip(pos as int), rbl, gbl, bbl)->Some_0;
                rb@ == unpack_spec(pr, rbl as nat) && gb@ == unpack_spec(pg, gbl as nat) && bb@
                    == unpack_spec(pb, bbl as nat) && s14 == bytes@.skip(p2 as int)
            })
            &&& pos <= p2 <= bytes@.len()
        }),
        r is Err ==> parse_packs3(bytes@.skip(pos as int), rbl, gbl, bbl) is None || rbl
            > usize::MAX as u64 || gbl > usize::MAX as u64 || bbl > usize::MAX as u64,
{
    let (rb, p12) = match read_packed(bytes, pos, rbl) {
        Ok(v) => v,
        Err(e) => {
            return Err(e);
        },
    };
    let (gb, p13) = match read_packed(bytes, p12, gbl) {
        Ok(v) => v,
        Err(e) => {
            return Err(e);
        },
    };
    let (bb, p14) = match read_packed(bytes, p13, bbl) {
        Ok(v) => v,
        Err(e) => {
            return Err(e);
        },
    };
    Ok((rb, gb, bb, p14))
}

/// Parses and decodes an artifact: the header, the three trees, the
/// three bit lengths, the three packed streams — nothing may follow —
/// and then width times height symbols per channel, each stream
/// exhausted exactly. Succeeds exactly on the artifacts `decompress_spec`
/// accepts, as long as eight times the input length fits the machine (a
/// decodable artifact bounds its declared bit lengths and symbol counts
/// by eight bits per present byte, so under that bound no size check can
/// fire); any violation is a `FormatError`, and a malformed or truncated
/// artifact never decodes to a wrong grid.
#[verifier::rlimit(100)]
pub fn read_compressed_image(bytes: &Vec<u8>) -> (r: Result<DecodedImage, FormatError>)
    ensures
        r is Ok ==> decompress_spec(bytes@) == Some(
            (
                r->Ok_0.tap_position,
                r->Ok_0.seed@,
                r->Ok_0.grid.width,
                r->Ok_0.grid.height,
                r->Ok_0.grid@,
            ),
        ) && r->Ok_0.grid.wf(),
        decompress_spec(bytes@) is None ==> r is Err,
        (decompress_spec(bytes@) is Some && 8 * bytes@.len() <= usize::MAX) ==> r is Ok,
{
    let n = bytes.len();
    let (tap, seed, w, h, p5) = match parse_header_x(bytes) {
        Ok(v) => v,
        Err(e) => {
            return Err(e);
        },
    };
    let (rt, gt, bt, p8) = match parse_trees_x(bytes, p5) {
        Ok(v) => v,
        Err(e) => {
            return Err(e);
        },
    };
    let (rbl, gbl, bbl, p11) = match parse_lens_x(bytes, p8) {
        Ok(v) => v,
        Err(e) => {
            return Err(e);
        },
    };
    let (rbits, gbits, bbits, p14) = match parse_packs_x(bytes, p11, rbl, gbl, bbl) {
        Ok(v) => v,
        Err(e) => {
            proof {
                if decompress_spec(bytes@) is Some && 8 * bytes@.len() <= usize::MAX {
                    lemma_packs_present(
                        bytes@.skip(p11 as int),
                        rbl,
                        gbl,
                        bbl,
                        bytes@.len() as int,
                    );
                }
            }
            return Err(e);
        },
    };
    if p14 != n {
        proof {
            assert(bytes@.skip(p14 as int).len() != 0);
        }
        return Err(FormatError::Malformed);
    }
    proof {
        assert(bytes@.skip(p14 as int) =~= Seq::<u8>::empty());
    }
    proof {
        assert((w as u64) * (h as u64) <= u64::MAX) by (nonlinear_arith)
            requires
                w <= u32::MAX && h <= u32::MAX,
        ;
    }
    let count64: u64 = (w as u64) * (h as u64);
    if count64 > usize_max() {
        let rlen = rbits.len();
        proof {
            lemma_decode3_count_bound(rt, gt, bt, rbits@, gbits@, bbits@, (w as nat) * (h as nat));
        }
        return Err(FormatError::Malformed);
    }

    let count = count64 as usize;
    let rs = match crate::encode::decode_channel(&rt, &rbits, count) {
        Ok(v) => v,
        Err(e) => {
            return Err(e);
        },
    };
    let gs = match crate::encode::decode_channel(&gt, &gbits, count) {
        Ok(v) => v,
        Err(e) => {
            return Err(e);
        },
    };
    let bs = match crate::encode::decode_channel(&bt, &bbits, count) {
        Ok(v) => v,
        Err(e) => {
            return Err(e);
        },
    };
    let mut pixels: Vec<Pixel> = Vec::new();
    let mut k: usize = 0;
    while k < count
        invariant
            k <= count,
            rs@.len() == count && gs@.len() == count && bs@.len() == count,
            pixels@.len() == k,
            forall|j: int| 0 <= j < k ==> pixels@[j] == (Pixel { r: rs@[j], g: gs@[j], b: bs@[j] }),
        decreases count - k,
    {
        pixels.push(Pixel { r: rs[k], g: gs[k], b: bs[k] });
        k = k + 1;
    }
    proof {
        assert(pixels@ =~= Seq::new((w as nat) * (h as nat), |i: int| Pixel {
            r: decode_channel_spec(rt, rbits@, (w as nat) * (h as nat))->Some_0[i],
            g: decode_channel_spec(gt, gbits@, (w as nat) * (h as nat))->Some_0[i],
            b: decode_channel_spec(bt, bbits@, (w as nat) * (h as nat))->Some_0[i],
        }));
    }
    Ok(
        DecodedImage {
            tap_position: tap,
            seed,
            grid: crate::PixelGrid { width: w, height: h, pixels },
        },
    )
}

/// A decodable stream is at least one bit per symbol long, so a symbol
/// count above the machine's limit never decodes from in-memory bits.
proof fn lemma_decode3_count_bound(
    rt: Node,
    gt: Node,
    bt: Node,
    rbits: Seq<bool>,
    gbits: Seq<bool>,
    bbits: Seq<bool>,
    count: nat,
)
    requires
        rbits.len() <= usize::MAX,
        count > usize::MAX as nat,
    ensures
        decode3(rt, gt, bt, rbits, gbits, bbits, count) is None,
{
    crate::encode::lemma_decode_needs_bits(rt, rbits, count);
}

/// `n` bits fit in `packed_len(n)` bytes.
proof fn lemma_packed_le_bits(n: int)
    requires
        n >= 0,
    ensures
        n <= 8 * packed_len(n),
{
    assert(8 * ((n + 7) / 8) >= n) by (nonlinear_arith)
        requires
            n >= 0,
    ;
}

/// Packed sections that parse are present, so the declared bit lengths
/// are at most eight per byte of the stream they were read from.
proof fn lemma_packs_present(s11: Seq<u8>, rbl: u64, gbl: u64, bbl: u64, total: int)
    requires
        parse_packs3(s11, rbl, gbl, bbl) is Some,
        s11.len() <= total,
        8 * total <= usize::MAX,
    ensures
        rbl <= usize::MAX as u64,
        gbl <= usize::MAX as u64,
        bbl <= usize::MAX as u64,
{
    lemma_packed_le_bits(rbl as int);
    lemma_packed_le_bits(gbl as int);
    lemma_packed_le_bits(bbl as int);
    let s12 = s11.skip(packed_len(rbl as int));
    let s13 = s12.skip(packed_len(gbl as int));
    assert(packed_len(rbl as int) <= s11.len());
    assert(packed_len(gbl as int) <= s12.len());
    assert(packed_len(bbl as int) <= s13.len());
}

/// The largest `usize`, as a `u64`.
fn usize_max() -> (r: u64)
    ensures
        r == usize::MAX as u64,
{
    usize::MAX as u64
}

/// Reads one packed section of `bl` bits: its `packed_len` bytes, unpacked.
fn read_packed(bytes: &Vec<u8>, pos: usize, bl: u64) -> (r: Result<(Vec<bool>, usize), FormatError>)
    requires
        pos <= bytes@.len(),
    ensures
        r is Ok ==> ({
            let (bits, p2) = r->Ok_0;
            &&& rd_bytes(bytes@.skip(pos as int), packed_len(bl as int)) is Some
            &&& bits@ == unpack_spec(
                rd_bytes(bytes@.skip(pos as int), packed_len(bl as int))->Some_0.0,
                bl as nat,
            )
            &&& bytes@.skip(p2 as int) == rd_bytes(
                bytes@.skip(pos as int),
                packed_len(bl as int),
            )->Some_0.1
            &&& pos <= p2 <= bytes@.len()
            &&& bits@.len() == bl
        }),
        r is Err ==> rd_bytes(bytes@.skip(pos as int), packed_len(bl as int)) is None || bl
            > usize::MAX as u64,
{
    let n = bytes.len();
    let nb: u64 = bl / 8 + if bl % 8 == 0 {
        0
    } else {
        1
    };
    proof {
        assert(nb == packed_len(bl as int));
    }
    if nb > (n - pos) as u64 {
        return Err(FormatError::Truncated);
    }
    let nbu = nb as usize;
    if bl > usize_max() {
        return Err(FormatError::Truncated);
    }
    let blu = bl as usize;
    let bits = crate::bits::unpack_bits(bytes, pos, blu);
    let p2 = pos + nbu;
    proof {
        let win = bytes@.subrange(pos as int, pos as int + packed_len(blu as int));
        assert(win =~= bytes@.skip(pos as int).take(packed_len(bl as int)));
        assert(bits@ =~= unpack_spec(win, bl as nat));
        lemma_skip_skip(bytes@, pos as int, nb as int);
    }
    Ok((bits, p2))
}

// ---------------------------------------------------------------------
// Truncation is always detected.
// ---------------------------------------------------------------------

proof fn lemma_rd16_prefix(s: Seq<u8>, k: int)
    requires
        0 <= k <= s.len(),
    ensures
        k < 2 ==> rd16(s.take(k)) is None,
        k >= 2 ==> rd16(s) is Some && rd16(s.take(k)) == Some(
            (rd16(s)->Some_0.0, s.skip(2).take(k - 2)),
        ),
{
    if k >= 2 {
        assert(s.take(k)[0] == s[0]);
        assert(s.take(k)[1] == s[1]);
        assert(s.take(k).skip(2) =~= s.skip(2).take(k - 2));
    }
}

proof fn lemma_rd32_prefix(s: Seq<u8>, k: int)
    requires
        0 <= k <= s.len(),
    ensures
        k < 4 ==> rd32(s.take(k)) is None,
        k >= 4 ==> rd32(s) is Some && rd32(s.take(k)) == Some(
            (rd32(s)->Some_0.0, s.skip(4).take(k - 4)),
        ),
{
    if k >= 4 {
        assert(s.take(k)[0] == s[0]);
        assert(s.take(k)[1] == s[1]);
        assert(s.take(k)[2] == s[2]);
        assert(s.take(k)[3] == s[3]);
        assert(s.take(k).skip(4) =~= s.skip(4).take(k - 4));
    }
}

proof fn lemma_rd64_prefix(s: Seq<u8>, k: int)
    requires
        0 <= k <= s.len(),
    ensures
        k < 8 ==> rd64(s.take(k)) is None,
        k >= 8 ==> rd64(s) is Some && rd64(s.take(k)) == Some(
            (rd64(s)->Some_0.0, s.skip(8).take(k - 8)),
        ),
{
    if k >= 8 {
        assert(forall|i: int| 0 <= i < 8 ==> s.take(k)[i] == s[i]);
        assert(s.take(k).skip(8) =~= s.skip(8).take(k - 8));
    }
}

proof fn lemma_rd_bytes_prefix(s: Seq<u8>, n: int, k: int)
    requires
        0 <= k <= s.len(),
        0 <= n <= s.len(),
    ensures
        k < n ==> rd_bytes(s.take(k), n) is None,
        k >= n ==> rd_bytes(s.take(k), n) == Some((s.take(n), s.skip(n).take(k - n))),
{
    if k >= n {
        assert(s.take(k).take(n) =~= s.take(n));
        assert(s.take(k).skip(n) =~= s.skip(n).take(k - n));
    }
}

/// A parsed tree's remainder is a suffix: the parse consumed at least
/// two bytes off the front.
proof fn lemma_parse_tree_suffix(s: Seq<u8>, fuel: nat)
    requires
        parse_tree(s, fuel) is Some,
    ensures
        ({
            let rest = parse_tree(s, fuel)->Some_0.1;
            rest.len() + 2 <= s.len() && rest == s.skip(s.len() - rest.len())
        }),
    decreases fuel,
{
    let (x, r1) = rd16(s)->Some_0;
    assert(r1 == s.skip(2));
    if x == 256 {
        let (l, r2) = parse_tree(r1, (fuel - 1) as nat)->Some_0;
        lemma_parse_tree_suffix(r1, (fuel - 1) as nat);
        let (rt, r3) = parse_tree(r2, (fuel - 1) as nat)->Some_0;
        lemma_parse_tree_suffix(r2, (fuel - 1) as nat);
        assert(r2 == s.skip(s.len() - r2.len())) by {
            lemma_skip_skip(s, 2, s.skip(2).len() - r2.len());
        }
        assert(r3 == s.skip(s.len() - r3.len())) by {
            lemma_skip_skip(
                s,
                s.len() - r2.len(),
                r2.len() - r3.len(),
            );
        }
    }
}

/// Cutting a parsable tree short makes the parse fail; cutting after it
/// leaves the same tree.
proof fn lemma_parse_tree_prefix(s: Seq<u8>, k: int, fuel: nat)
    requires
        0 <= k <= s.len(),
        parse_tree(s, fuel) is Some,
    ensures
        ({
            let (n, rest) = parse_tree(s, fuel)->Some_0;
            let c = s.len() - rest.len();
            &&& (k < c ==> parse_tree(s.take(k), fuel) is None)
            &&& (k >= c ==> parse_tree(s.take(k), fuel) == Some((n, rest.take(k - c))))
        }),
    decreases fuel,
{
    let (n, rest) = parse_tree(s, fuel)->Some_0;
    let c = s.len() - rest.len();
    lemma_parse_tree_suffix(s, fuel);
    lemma_rd16_prefix(s, k);
    if k < 2 {
    } else {
        let (x, r1) = rd16(s)->Some_0;
        assert(r1 == s.skip(2));
        if x < 256 {
            assert(c == 2);
            assert(rest == r1);
        } else {
            let (l, r2) = parse_tree(r1, (fuel - 1) as nat)->Some_0;
            lemma_parse_tree_suffix(r1, (fuel - 1) as nat);
            let c1 = r1.len() - r2.len();
            let (rt, r3) = parse_tree(r2, (fuel - 1) as nat)->Some_0;
            lemma_parse_tree_suffix(r2, (fuel - 1) as nat);
            let c2 = r2.len() - r3.len();
            assert(rest == r3);
            assert(c == 2 + c1 + c2);
            lemma_parse_tree_prefix(r1, k - 2, (fuel - 1) as nat);
            if k - 2 < c1 {
                assert(k < c);
            } else {
                assert(s.take(k).skip(2) =~= r1.take(k - 2));
                lemma_parse_tree_prefix(r2, k - 2 - c1, (fuel - 1) as nat);
                if k - 2 - c1 < c2 {
                    assert(k < c);
                } else {
                    assert(k >= c);
                }
            }
        }
    }
}

/// Truncation is detected: a strict prefix of a decodable artifact
/// never decodes, whatever was cut.
#[verifier::rlimit(100)]
pub proof fn lemma_truncation_detected(s: Seq<u8>, k: int)
    requires
        decompress_spec(s) is Some,
        0 <= k < s.len(),
    ensures
        decompress_spec(s.take(k)) is None,
{
    let s2 = s.take(k);
    // header
    let (tapu, h1) = rd32(s)->Some_0;
    lemma_rd32_prefix(s, k);
    if k < 4 {
        return ;
    }
    assert(h1 == s.skip(4));
    let (slen, h2) = rd64(h1)->Some_0;
    lemma_rd64_prefix(h1, k - 4);
    if k - 4 < 8 {
        return ;
    }
    assert(h2 == h1.skip(8));
    let (seed, h3) = rd_bytes(h2, slen as int)->Some_0;
    lemma_rd_bytes_prefix(h2, slen as int, k - 12);
    if k - 12 < slen {
        return ;
    }
    assert(h3 == h2.skip(slen as int));
    let (w, h4) = rd32(h3)->Some_0;
    lemma_rd32_prefix(h3, k - 12 - slen);
    if k - 12 - slen < 4 {
        return ;
    }
    assert(h4 == h3.skip(4));
    let (h, h5) = rd32(h4)->Some_0;
    lemma_rd32_prefix(h4, k - 16 - slen);
    if k - 16 - slen < 4 {
        return ;
    }
    assert(h5 == h4.skip(4));
    let used_header = 20 + slen as int;
    assert(parse_header(s2) == Some((tapu as i32, seed, w, h, h5.take(k - used_header))));
    // trees
    let (rt, t1) = parse_tree(h5, 256)->Some_0;
    lemma_parse_tree_prefix(h5, k - used_header, 256);
    let c_rt = h5.len() - t1.len();
    if k - used_header < c_rt {
        return ;
    }
    let (gt, t2) = parse_tree(t1, 256)->Some_0;
    lemma_parse_tree_prefix(t1, k - used_header - c_rt, 256);
    let c_gt = t1.len() - t2.len();
    if k - used_header - c_rt < c_gt {
        return ;
    }
    let (bt, t3) = parse_tree(t2, 256)->Some_0;
    lemma_parse_tree_prefix(t2, k - used_header - c_rt - c_gt, 256);
    let c_bt = t2.len() - t3.len();
    let used_trees = used_header + c_rt + c_gt + c_bt;
    if k - used_header - c_rt - c_gt < c_bt {
        return ;
    }
    assert(parse_trees3(h5.take(k - used_header)) == Some((rt, gt, bt, t3.take(k - used_trees))));
    // bit lengths
    let (rbl, l1) = rd64(t3)->Some_0;
    lemma_rd64_prefix(t3, k - used_trees);
    if k - used_trees < 8 {
        return ;
    }
    assert(l1 == t3.skip(8));
    let (gbl, l2) = rd64(l1)->Some_0;
    lemma_rd64_prefix(l1, k - used_trees - 8);
    if k - used_trees - 8 < 8 {
        return ;
    }
    assert(l2 == l1.skip(8));
    let (bbl, l3) = rd64(l2)->Some_0;
    lemma_rd64_prefix(l2, k - used_trees - 16);
    if k - used_trees - 16 < 8 {
        return ;
    }
    assert(l3 == l2.skip(8));
    let used_lens = used_trees + 24;
    assert(parse_lens3(t3.take(k - used_trees)) == Some((rbl, gbl, bbl, l3.take(k - used_lens))));
    // packed sections
    let (pr, p1) = rd_bytes(l3, packed_len(rbl as int))->Some_0;
    lemma_rd_bytes_prefix(l3, packed_len(rbl as int), k - used_lens);
    if k - used_lens < packed_len(rbl as int) {
        return ;
    }
    assert(p1 == l3.skip(packed_len(rbl as int)));
    let (pg, p2) = rd_bytes(p1, packed_len(gbl as int))->Some_0;
    lemma_rd_bytes_prefix(p1, packed_len(gbl as int), k - used_lens - packed_len(rbl as int));
    if k - used_lens - packed_len(rbl as int) < packed_len(gbl as int) {
        return ;
    }
    assert(p2 == p1.skip(packed_len(gbl as int)));
    let (pb, p3) = rd_bytes(p2, packed_len(bbl as int))->Some_0;
    lemma_rd_bytes_prefix(
        p2,
        packed_len(bbl as int),
        k - used_lens - packed_len(rbl as int) - packed_len(gbl as int),
    );
    if k - used_lens - packed_len(rbl as int) - packed_len(gbl as int) < packed_len(bbl as int) {
        return ;
    }
    // everything parsed: the full artifact left nothing over, so the
    // prefix still has bytes missing, which the emptiness check catches
    let used_all = used_lens + packed_len(rbl as int) + packed_len(gbl as int) + packed_len(
        bbl as int,
    );
    assert(p3.len() == 0);
    assert(used_all == s.len());
    assert(k - used_all < 0);
}

} // verus!
