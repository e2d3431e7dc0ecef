//! Pixel stream encoder and its inverse: the encoder replaces every
//! channel byte, in row-major order, by its code; the decoder walks the
//! tree bit by bit, emitting a byte value at each leaf.

use vstd::prelude::*;

use crate::codes::{code_spec, CodeTable};
use crate::tree::{path_of, Node};
use crate::{chan, FormatError, Pixel, PixelGrid};

verus! {

/// The bytes of channel `c`, in pixel order.
pub open spec fn chan_seq(ps: Seq<Pixel>, c: int) -> Seq<u8> {
    Seq::new(ps.len(), |i: int| chan(ps[i], c))
}

/// Every channel byte of the pixels has a code in the table.
pub open spec fn codes_cover(ct: CodeTable, ps: Seq<Pixel>, c: int) -> bool {
    forall|i: int| 0 <= i < ps.len() ==> ct.code_at(chan(ps[i], c)) is Some
}

/// The channel's bit stream: the codes of its bytes, concatenated in
/// pixel order.
pub open spec fn encode_channel(ps: Seq<Pixel>, ct: CodeTable, c: int) -> Seq<bool>
    decreases ps.len(),
{
    if ps.len() == 0 {
        Seq::empty()
    } else {
        ct.code_at(chan(ps[0], c))->Some_0 + encode_channel(ps.drop_first(), ct, c)
    }
}

/// The channel's bit stream, written against the tree alone: each
/// pixel's channel byte replaced by the code the tree assigns.
pub open spec fn encode_channel_t(ps: Seq<Pixel>, root: Node, c: int) -> Seq<bool>
    decreases ps.len(),
{
    if ps.len() == 0 {
        Seq::empty()
    } else {
        code_spec(root, chan(ps[0], c))->Some_0 + encode_channel_t(ps.drop_first(), root, c)
    }
}

/// Appending one pixel appends its code.
pub proof fn lemma_encode_push(s: Seq<Pixel>, p: Pixel, ct: CodeTable, c: int)
    ensures
        encode_channel(s.push(p), ct, c) == encode_channel(s, ct, c) + ct.code_at(
            chan(p, c),
        )->Some_0,
    decreases s.len(),
{
    let code = ct.code_at(chan(p, c))->Some_0;
    if s.len() == 0 {
        assert(s.push(p).drop_first() =~= Seq::<Pixel>::empty());
        assert(s.push(p)[0] == p);
        assert(encode_channel(s.push(p), ct, c) == code + encode_channel(
            s.push(p).drop_first(),
            ct,
            c,
        ));
        assert(encode_channel(s.push(p).drop_first(), ct, c) =~= Seq::<bool>::empty());
        assert(code + Seq::<bool>::empty() =~= code);
        assert(encode_channel(s, ct, c) + code =~= code);
    } else {
        lemma_encode_push(s.drop_first(), p, ct, c);
        assert(s.push(p).drop_first() =~= s.drop_first().push(p));
        assert(s.push(p)[0] == s[0]);
        let c0 = ct.code_at(chan(s[0], c))->Some_0;
        assert(encode_channel(s.push(p), ct, c) == c0 + encode_channel(
            s.drop_first().push(p),
            ct,
            c,
        ));
        assert(encode_channel(s.drop_first().push(p), ct, c) == encode_channel(
            s.drop_first(),
            ct,
            c,
        ) + code);
        assert(c0 + (encode_channel(s.drop_first(), ct, c) + code) =~= (c0 + encode_channel(
            s.drop_first(),
            ct,
            c,
        )) + code);
    }
}

/// Appends the code of byte value `v` to a stream. The table is known
/// to cover `v`, so the lookup cannot miss; a miss would mean the
/// histogram and the tree disagree, which the contracts rule out.
fn append_code(stream: &mut Vec<bool>, table: &CodeTable, v: u8)
    requires
        table.wf(),
        table.code_at(v) is Some,
    ensures
        final(stream)@ == old(stream)@ + table.code_at(v)->Some_0,
{
    let ghost base = stream@;
    match &table.codes[v as usize] {
        Some(code) => {
            let mut j: usize = 0;
            while j < code.len()
                invariant
                    j <= code@.len(),
                    stream@ == base + code@.take(j as int),
                decreases code@.len() - j,
            {
                stream.push(code[j]);
                proof {
                    assert(base + code@.take(j as int + 1) =~= (base + code@.take(j as int)).push(
                        code@[j as int],
                    ));
                }
                j = j + 1;
            }
            proof {
                assert(code@.take(code@.len() as int) =~= code@);
            }
        },
        None => {
            proof {
                assert(false);
            }
        },
    }
}

/// Encodes the grid: one bit stream per channel, the codes of each
/// pixel's channel bytes concatenated in row-major order.
pub fn pixel_encoding(grid: &PixelGrid, r_tree: &CodeTable, g_tree: &CodeTable, b_tree: &CodeTable)
    -> (r: (Vec<bool>, Vec<bool>, Vec<bool>))
    requires
        r_tree.wf() && g_tree.wf() && b_tree.wf(),
        codes_cover(*r_tree, grid@, 0),
        codes_cover(*g_tree, grid@, 1),
        codes_cover(*b_tree, grid@, 2),
    ensures
        r.0@ == encode_channel(grid@, *r_tree, 0),
        r.1@ == encode_channel(grid@, *g_tree, 1),
        r.2@ == encode_channel(grid@, *b_tree, 2),
{
    let mut red: Vec<bool> = Vec::new();
    let mut green: Vec<bool> = Vec::new();
    let mut blue: Vec<bool> = Vec::new();
    let n = grid.pixels.len();
    proof {
        assert(grid@.take(0) =~= Seq::<Pixel>::empty());
    }
    let mut i: usize = 0;
    while i < n
        invariant
            i <= n,
            n == grid@.len(),
            r_tree.wf() && g_tree.wf() && b_tree.wf(),
            codes_cover(*r_tree, grid@, 0),
            codes_cover(*g_tree, grid@, 1),
            codes_cover(*b_tree, grid@, 2),
            red@ == encode_channel(grid@.take(i as int), *r_tree, 0),
            green@ == encode_channel(grid@.take(i as int), *g_tree, 1),
            blue@ == encode_channel(grid@.take(i as int), *b_tree, 2),
        decreases n - i,
    {
        let p = grid.pixels[i];
        proof {
            assert(grid@.take(i as int + 1) =~= grid@.take(i as int).push(grid@[i as int]));
            lemma_encode_push(grid@.take(i as int), grid@[i as int], *r_tree, 0);
            lemma_encode_push(grid@.take(i as int), grid@[i as int], *g_tree, 1);
            lemma_encode_push(grid@.take(i as int), grid@[i as int], *b_tree, 2);
        }
        append_code(&mut red, r_tree, p.r);
        append_code(&mut green, g_tree, p.g);
        append_code(&mut blue, b_tree, p.b);
        i = i + 1;
    }
    proof {
        assert(grid@.take(n as int) =~= grid@);
    }
    (red, green, blue)
}

/// Tree descent on a bit stream: follow one bit per internal node until
/// a leaf, yielding its value and the number of bits consumed.
pub open spec fn decode_walk(n: Node, bits: Seq<bool>) -> Option<(u8, nat)>
    decreases n,
{
    match n {
        Node::Leaf { value, .. } => Some((value, 0)),
        Node::Internal { left, right, .. } => if bits.len() == 0 {
            None
        } else {
            let child = if !bits[0] {
                *left
            } else {
                *right
            };
            match decode_walk(child, bits.drop_first()) {
                Some((v, u)) => Some((v, u + 1)),
                None => None,
            }
        },
    }
}

/// One symbol of a stream: a descent, except that under a degenerate
/// single-leaf tree each symbol is the single bit 0.
pub open spec fn decode_sym(root: Node, bits: Seq<bool>) -> Option<(u8, nat)> {
    match root {
        Node::Leaf { value, .. } => if bits.len() >= 1 && bits[0] == false {
            Some((value, 1))
        } else {
            None
        },
        Node::Internal { .. } => decode_walk(root, bits),
    }
}

/// `count` symbols decoded off the front of `bits`, which must then be
/// exhausted exactly.
pub open spec fn decode_channel_spec(root: Node, bits: Seq<bool>, count: nat) -> Option<Seq<u8>>
    decreases count,
{
    if count == 0 {
        if bits.len() == 0 {
            Some(Seq::empty())
        } else {
            None
        }
    } else {
        match decode_sym(root, bits) {
            None => None,
            Some((v, u)) => match decode_channel_spec(root, bits.skip(u as int), (count - 1) as nat) {
                None => None,
                Some(rest) => Some(seq![v] + rest),
            },
        }
    }
}

/// A descent never consumes more bits than there are, and consumes at
/// least one under an internal node.
proof fn lemma_walk_bounds(n: Node, bits: Seq<bool>)
    ensures
        decode_walk(n, bits) is Some ==> decode_walk(n, bits)->Some_0.1 <= bits.len(),
        (decode_walk(n, bits) is Some && n is Internal) ==> decode_walk(n, bits)->Some_0.1 >= 1,
    decreases n,
{
    match n {
        Node::Leaf { .. } => {},
        Node::Internal { left, right, .. } => {
            if bits.len() > 0 {
                lemma_walk_bounds(*left, bits.drop_first());
                lemma_walk_bounds(*right, bits.drop_first());
            }
        },
    }
}

/// A stream shorter than the symbol count never decodes: every symbol
/// takes at least one bit.
pub proof fn lemma_decode_needs_bits(root: Node, bits: Seq<bool>, count: nat)
    requires
        count > bits.len(),
    ensures
        decode_channel_spec(root, bits, count) is None,
    decreases count,
{
    match decode_sym(root, bits) {
        None => {},
        Some((v, u)) => {
            proof_decode_sym_bounds(root, bits);
            lemma_decode_needs_bits(root, bits.skip(u as int), (count - 1) as nat);
        },
    }
}

/// A decoded symbol consumes between one bit and the whole stream.
proof fn proof_decode_sym_bounds(root: Node, bits: Seq<bool>)
    ensures
        decode_sym(root, bits) is Some ==> 1 <= decode_sym(root, bits)->Some_0.1 <= bits.len(),
{
    match root {
        Node::Leaf { .. } => {},
        Node::Internal { .. } => {
            lemma_walk_bounds(root, bits);
        },
    }
}

/// Descending along a leaf's path, whatever follows it, reaches that
/// leaf and consumes exactly the path.
pub proof fn lemma_walk_code(n: Node, v: u8, rest: Seq<bool>)
    requires
        path_of(n, v) is Some,
    ensures
        decode_walk(n, path_of(n, v)->Some_0 + rest) == Some((v, path_of(n, v)->Some_0.len())),
    decreases n,
{
    match n {
        Node::Leaf { .. } => {
            assert(path_of(n, v)->Some_0 =~= Seq::<bool>::empty());
        },
        Node::Internal { left, right, .. } => {
            let p = path_of(n, v)->Some_0;
            if path_of(*left, v) is Some {
                let pl = path_of(*left, v)->Some_0;
                lemma_walk_code(*left, v, rest);
                assert(p + rest =~= seq![false] + (pl + rest));
                assert((p + rest).drop_first() =~= pl + rest);
                assert((p + rest)[0] == false);
            } else {
                let pr = path_of(*right, v)->Some_0;
                lemma_walk_code(*right, v, rest);
                assert(p + rest =~= seq![true] + (pr + rest));
                assert((p + rest).drop_first() =~= pr + rest);
                assert((p + rest)[0] == true);
            }
        },
    }
}

/// Decoding inverts encoding: a stream encoded from the pixels under a
/// tree that covers them, decoded for as many symbols as there are
/// pixels, gives back exactly the channel's bytes.
pub proof fn lemma_decode_encode(root: Node, ps: Seq<Pixel>, c: int)
    requires
        forall|i: int| 0 <= i < ps.len() ==> code_spec(root, chan(#[trigger] ps[i], c)) is Some,
    ensures
        decode_channel_spec(root, encode_channel_t(ps, root, c), ps.len()) == Some(
            chan_seq(ps, c),
        ),
    decreases ps.len(),
{
    if ps.len() == 0 {
        assert(chan_seq(ps, c) =~= Seq::<u8>::empty());
    } else {
        let v = chan(ps[0], c);
        let code = code_spec(root, v)->Some_0;
        let rest = encode_channel_t(ps.drop_first(), root, c);
        assert(encode_channel_t(ps, root, c) == code + rest);
        match root {
            Node::Leaf { value, .. } => {
                assert(value == v);
                assert(code =~= seq![false]);
                assert((code + rest)[0] == false);
                assert(decode_sym(root, code + rest) == Some((v, 1nat)));
                assert((code + rest).skip(1) =~= rest);
            },
            Node::Internal { .. } => {
                assert(code_spec(root, v) == path_of(root, v));
                lemma_walk_code(root, v, rest);
                assert(decode_sym(root, code + rest) == Some((v, code.len())));
                assert((code + rest).skip(code.len() as int) =~= rest);
            },
        }
        assert(forall|i: int|
            0 <= i < ps.drop_first().len() ==> #[trigger] ps.drop_first()[i] == ps[i + 1]);
        lemma_decode_encode(root, ps.drop_first(), c);
        assert(chan_seq(ps, c) =~= seq![v] + chan_seq(ps.drop_first(), c));
    }
}

/// One executable descent from bit position `pos`.
fn walk(node: &Node, bits: &Vec<bool>, pos: usize) -> (r: Result<(u8, usize), FormatError>)
    requires
        pos <= bits@.len(),
    ensures
        r is Ok ==> decode_walk(*node, bits@.skip(pos as int)) == Some(
            (r->Ok_0.0, (r->Ok_0.1 - pos) as nat),
        ) && pos <= r->Ok_0.1 <= bits@.len(),
        r is Err ==> decode_walk(*node, bits@.skip(pos as int)) is None && r->Err_0
            == FormatError::Truncated,
    decreases *node,
{
    match node {
        Node::Leaf { value, .. } => Ok((*value, pos)),
        Node::Internal { left, right, .. } => {
            if pos >= bits.len() {
                proof {
                    assert(bits@.skip(pos as int).len() == 0);
                }
                return Err(FormatError::Truncated);
            }
            let b = bits[pos];
            proof {
                assert(bits@.skip(pos as int).drop_first() =~= bits@.skip(pos as int + 1));
                assert(bits@.skip(pos as int)[0] == bits@[pos as int]);
            }
            if !b {
                walk(left, bits, pos + 1)
            } else {
                walk(right, bits, pos + 1)
            }
        },
    }
}

/// Decodes `count` symbols from a bit stream by tree descent, demanding
/// that the stream is exhausted exactly; fails on a stream that ends
/// inside a code, spends a 1 bit on a degenerate tree, or leaves bits
/// over.
pub fn decode_channel(root: &Node, bits: &Vec<bool>, count: usize) -> (r: Result<
    Vec<u8>,
    FormatError,
>)
    ensures
        (r is Ok) <==> decode_channel_spec(*root, bits@, count as nat) is Some,
        r is Ok ==> r->Ok_0@ == decode_channel_spec(*root, bits@, count as nat)->Some_0,
        r is Ok ==> r->Ok_0@.len() == count,
{
    let mut out: Vec<u8> = Vec::new();
    let mut pos: usize = 0;
    let n = bits.len();
    let mut i: usize = 0;
    proof {
        assert(bits@.skip(0) =~= bits@);
        assert forall|rest2: Seq<u8>| (Seq::<u8>::empty() + rest2) =~= rest2 by {}
    }
    while i < count
        invariant
            i <= count,
            pos <= n,
            n == bits@.len(),
            out@.len() == i,
            decode_channel_spec(*root, bits@, count as nat) == (match decode_channel_spec(
                *root,
                bits@.skip(pos as int),
                (count - i) as nat,
            ) {
                Some(rest) => Some(out@ + rest),
                None => None::<Seq<u8>>,
            }),
        decreases count - i,
    {
        let ghost suffix = bits@.skip(pos as int);
        let sym: Result<(u8, usize), FormatError> = match root {
            Node::Leaf { value, .. } => {
                if pos >= n {
                    Err(FormatError::Truncated)
                } else if bits[pos] {
                    proof {
                        assert(suffix[0] == bits@[pos as int]);
                    }
                    Err(FormatError::Malformed)
                } else {
                    proof {
                        assert(suffix[0] == bits@[pos as int]);
                    }
                    Ok((*value, pos + 1))
                }
            },
            Node::Internal { .. } => walk(root, bits, pos),
        };
        match sym {
            Ok((v, new_pos)) => {
                proof {
                    let u = (new_pos - pos) as nat;
                    assert(decode_sym(*root, suffix) == Some((v, u)));
                    assert(bits@.skip(pos as int).skip(u as int) =~= bits@.skip(new_pos as int));
                    assert(out@.push(v) =~= out@ + seq![v]);
                    assert forall|rest2: Seq<u8>| out@ + (seq![v] + rest2) =~= out@.push(v)
                        + rest2 by {}
                }
                out.push(v);
                pos = new_pos;
            },
            Err(e) => {
                proof {
                    assert(decode_sym(*root, suffix) is None);
                    assert(decode_channel_spec(*root, bits@, count as nat) is None);
                }
                return Err(e);
            },
        }
        i = i + 1;
    }
    if pos != n {
        proof {
            assert(bits@.skip(pos as int).len() != 0);
            assert(decode_channel_spec(*root, bits@.skip(pos as int), 0) is None);
        }
        return Err(FormatError::Malformed);
    }
    proof {
        assert(bits@.skip(pos as int).len() == 0);
        assert(decode_channel_spec(*root, bits@.skip(pos as int), 0) == Some(Seq::<u8>::empty()));
        assert(out@ + Seq::<u8>::empty() =~= out@);
    }
    Ok(out)
}

} // verus!
