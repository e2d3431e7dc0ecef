//! MSB-first bit packing: bit `i` of a stream is bit `7 - i % 8` of
//! byte `i / 8`; pad bits after the stream's end are zero.

use vstd::prelude::*;

verus! {

/// Bit `off` of one byte, counting the most significant bit as 0.
pub open spec fn get_bit(b: u8, off: int) -> bool {
    ((b >> ((7 - off) as u8)) & 1) == 1
}

/// Bit `i` of a packed byte sequence.
pub open spec fn bit_at(bytes: Seq<u8>, i: int) -> bool {
    get_bit(bytes[i / 8], i % 8)
}

/// How many bytes hold `n` bits.
pub open spec fn packed_len(n: int) -> int {
    (n + 7) / 8
}

proof fn lemma_zero_bits()
    by (bit_vector)
    ensures
        forall|j: u8| #![auto] j < 8 ==> ((0u8 >> j) & 1) == 0,
{
}

proof fn lemma_set_bit(b: u8, k: u8)
    by (bit_vector)
    requires
        k < 8,
    ensures
        (((b | (1u8 << k)) >> k) & 1) == 1,
        forall|j: u8| #![auto] j < 8 && j != k ==> (((b | (1u8 << k)) >> j) & 1) == ((b >> j) & 1),
{
}

/// Packs a bit string MSB-first: bit `i` of the input lands in bit
/// `7 - i % 8` of output byte `i / 8`; the pad bits of the final byte
/// are zero.
pub fn pack_bits(bits: &Vec<bool>) -> (r: Vec<u8>)
    requires
        bits@.len() + 7 <= usize::MAX,
    ensures
        r@.len() == packed_len(bits@.len() as int),
        forall|i: int| 0 <= i < bits@.len() ==> bit_at(r@, i) == bits@[i],
        forall|i: int| bits@.len() <= i < 8 * r@.len() ==> bit_at(r@, i) == false,
{
    let n = bits.len();
    let nbytes = (n + 7) / 8;
    let mut bytes: Vec<u8> = Vec::new();
    let mut j: usize = 0;
    while j < nbytes
        invariant
            j <= nbytes,
            bytes@.len() == j,
            forall|k: int| 0 <= k < j ==> bytes@[k] == 0,
        decreases nbytes - j,
    {
        bytes.push(0);
        j = j + 1;
    }
    proof {
        lemma_zero_bits();
        assert forall|i: int| 0 <= i < 8 * bytes@.len() implies bit_at(bytes@, i) == false by {
            assert(0 <= i / 8 < bytes@.len());
            assert(0 <= i % 8 < 8);
            assert(((0u8 >> ((7 - i % 8) as u8)) & 1) == 0);
        }
    }
    let mut i: usize = 0;
    while i < n
        invariant
            i <= n,
            n == bits@.len(),
            bytes@.len() == nbytes,
            nbytes == packed_len(n as int),
            forall|k: int| 0 <= k < i ==> bit_at(bytes@, k) == bits@[k],
            forall|k: int| i <= k < 8 * nbytes ==> bit_at(bytes@, k) == false,
        decreases n - i,
    {
        let byte_index = i / 8;
        let bit_offset = i % 8;
        let sh: u8 = (7 - bit_offset) as u8;
        proof {
            assert(i / 8 < nbytes);
        }
        if bits[i] {
            let ghost prev = bytes@;
            let b = bytes[byte_index];
            bytes.set(byte_index, b | (1u8 << sh));
            proof {
                lemma_set_bit(b, sh);
                assert forall|k: int| 0 <= k < i implies bit_at(bytes@, k) == bits@[k] by {
                    assert(0 <= k % 8 < 8);
                    if k / 8 == byte_index {
                        assert((7 - k % 8) as u8 != sh);
                    } else {
                        assert(bytes@[k / 8] == prev[k / 8]);
                    }
                }
                assert forall|k: int| i + 1 <= k < 8 * nbytes implies bit_at(bytes@, k)
                    == false by {
                    assert(0 <= k % 8 < 8);
                    assert(0 <= k / 8 < nbytes);
                    assert(bit_at(prev, k) == false);
                    if k / 8 == byte_index {
                        assert((7 - k % 8) as u8 != sh) by {
                            assert(k != i);
                            assert(k / 8 == i / 8 && 0 <= k % 8 < 8 && 0 <= i % 8 < 8);
                        }
                        assert((((b | (1u8 << sh)) >> ((7 - k % 8) as u8)) & 1) == ((b >> ((7 - k
                            % 8) as u8)) & 1));
                        assert(prev[k / 8] == b);
                    } else {
                        assert(bytes@[k / 8] == prev[k / 8]);
                    }
                }
                assert(bit_at(bytes@, i as int) == true);
            }
        } else {
            proof {
                assert(bit_at(bytes@, i as int) == false);
            }
        }
        i = i + 1;
    }
    bytes
}

/// Bit `i` of a bit string as 0 or 1; out-of-range bits are 0.
pub open spec fn bitv(bits: Seq<bool>, i: int) -> u8 {
    if 0 <= i < bits.len() && bits[i] {
        1
    } else {
        0
    }
}

/// Byte `j` of the packed form of a bit string.
pub open spec fn pack_byte(bits: Seq<bool>, j: int) -> u8 {
    (128 * bitv(bits, 8 * j) + 64 * bitv(bits, 8 * j + 1) + 32 * bitv(bits, 8 * j + 2) + 16 * bitv(
        bits,
        8 * j + 3,
    ) + 8 * bitv(bits, 8 * j + 4) + 4 * bitv(bits, 8 * j + 5) + 2 * bitv(bits, 8 * j + 6) + bitv(
        bits,
        8 * j + 7,
    )) as u8
}

/// The packed form of a bit string: MSB-first, zero-padded.
pub open spec fn pack_spec(bits: Seq<bool>) -> Seq<u8> {
    Seq::new(packed_len(bits.len() as int) as nat, |j: int| pack_byte(bits, j))
}

proof fn lemma_assemble_bits(b0: u8, b1: u8, b2: u8, b3: u8, b4: u8, b5: u8, b6: u8, b7: u8)
    by (bit_vector)
    requires
        b0 <= 1 && b1 <= 1 && b2 <= 1 && b3 <= 1 && b4 <= 1 && b5 <= 1 && b6 <= 1 && b7 <= 1,
    ensures
        (((128 * b0 + 64 * b1 + 32 * b2 + 16 * b3 + 8 * b4 + 4 * b5 + 2 * b6 + b7) as u8 >> 7u8)
            & 1) == b0,
        (((128 * b0 + 64 * b1 + 32 * b2 + 16 * b3 + 8 * b4 + 4 * b5 + 2 * b6 + b7) as u8 >> 6u8)
            & 1) == b1,
        (((128 * b0 + 64 * b1 + 32 * b2 + 16 * b3 + 8 * b4 + 4 * b5 + 2 * b6 + b7) as u8 >> 5u8)
            & 1) == b2,
        (((128 * b0 + 64 * b1 + 32 * b2 + 16 * b3 + 8 * b4 + 4 * b5 + 2 * b6 + b7) as u8 >> 4u8)
            & 1) == b3,
        (((128 * b0 + 64 * b1 + 32 * b2 + 16 * b3 + 8 * b4 + 4 * b5 + 2 * b6 + b7) as u8 >> 3u8)
            & 1) == b4,
        (((128 * b0 + 64 * b1 + 32 * b2 + 16 * b3 + 8 * b4 + 4 * b5 + 2 * b6 + b7) as u8 >> 2u8)
            & 1) == b5,
        (((128 * b0 + 64 * b1 + 32 * b2 + 16 * b3 + 8 * b4 + 4 * b5 + 2 * b6 + b7) as u8 >> 1u8)
            & 1) == b6,
        (((128 * b0 + 64 * b1 + 32 * b2 + 16 * b3 + 8 * b4 + 4 * b5 + 2 * b6 + b7) as u8 >> 0u8)
            & 1) == b7,
{
}

proof fn lemma_and1(x: u8, k: u8)
    by (bit_vector)
    ensures
        ((x >> k) & 1) <= 1,
{
}

proof fn lemma_byte_eq(x: u8, y: u8)
    by (bit_vector)
    requires
        ((x >> 7u8) & 1) == ((y >> 7u8) & 1),
        ((x >> 6u8) & 1) == ((y >> 6u8) & 1),
        ((x >> 5u8) & 1) == ((y >> 5u8) & 1),
        ((x >> 4u8) & 1) == ((y >> 4u8) & 1),
        ((x >> 3u8) & 1) == ((y >> 3u8) & 1),
        ((x >> 2u8) & 1) == ((y >> 2u8) & 1),
        ((x >> 1u8) & 1) == ((y >> 1u8) & 1),
        ((x >> 0u8) & 1) == ((y >> 0u8) & 1),
    ensures
        x == y,
{
}

/// Bit `k` of packed byte `j` is bit `8 j + k` of the bit string.
pub proof fn lemma_pack_byte_bits(bits: Seq<bool>, j: int, k: int)
    requires
        0 <= j,
        0 <= k < 8,
    ensures
        get_bit(pack_byte(bits, j), k) == (bitv(bits, 8 * j + k) == 1),
{
    lemma_assemble_bits(
        bitv(bits, 8 * j),
        bitv(bits, 8 * j + 1),
        bitv(bits, 8 * j + 2),
        bitv(bits, 8 * j + 3),
        bitv(bits, 8 * j + 4),
        bitv(bits, 8 * j + 5),
        bitv(bits, 8 * j + 6),
        bitv(bits, 8 * j + 7),
    );
    assert((7 - k) as u8 == 7u8 - k as u8);
}

/// A byte sequence of the right length that carries the bits, zero
/// padded, is exactly the packed form.
pub proof fn lemma_pack_spec_unique(bytes: Seq<u8>, bits: Seq<bool>)
    requires
        bytes.len() == packed_len(bits.len() as int),
        forall|i: int| 0 <= i < bits.len() ==> bit_at(bytes, i) == bits[i],
        forall|i: int| bits.len() <= i < 8 * bytes.len() ==> bit_at(bytes, i) == false,
    ensures
        bytes == pack_spec(bits),
{
    assert forall|j: int| 0 <= j < bytes.len() implies bytes[j] == pack_byte(bits, j) by {
        lemma_pack_bit_match(bytes, bits, j, 0);
        lemma_pack_bit_match(bytes, bits, j, 1);
        lemma_pack_bit_match(bytes, bits, j, 2);
        lemma_pack_bit_match(bytes, bits, j, 3);
        lemma_pack_bit_match(bytes, bits, j, 4);
        lemma_pack_bit_match(bytes, bits, j, 5);
        lemma_pack_bit_match(bytes, bits, j, 6);
        lemma_pack_bit_match(bytes, bits, j, 7);
        lemma_byte_eq(bytes[j], pack_byte(bits, j));
    }
    assert(bytes =~= pack_spec(bits));
}

proof fn lemma_pack_bit_match(bytes: Seq<u8>, bits: Seq<bool>, j: int, k: int)
    requires
        bytes.len() == packed_len(bits.len() as int),
        forall|i: int| 0 <= i < bits.len() ==> bit_at(bytes, i) == bits[i],
        forall|i: int| bits.len() <= i < 8 * bytes.len() ==> bit_at(bytes, i) == false,
        0 <= j < bytes.len(),
        0 <= k < 8,
    ensures
        ((bytes[j] >> ((7 - k) as u8)) & 1) == ((pack_byte(bits, j) >> ((7 - k) as u8)) & 1),
{
    lemma_and1(bytes[j], (7 - k) as u8);
    lemma_and1(pack_byte(bits, j), (7 - k) as u8);
    lemma_pack_byte_bits(bits, j, k);
    let i = 8 * j + k;
    assert(i / 8 == j && i % 8 == k) by (nonlinear_arith)
        requires
            0 <= k < 8,
            0 <= j,
            i == 8 * j + k,
    ;
    assert(i < 8 * bytes.len());
    assert(bit_at(bytes, i) == get_bit(bytes[j], k));
    if i < bits.len() {
        assert(bit_at(bytes, i) == bits[i]);
    } else {
        assert(bit_at(bytes, i) == false);
    }
}

/// The first `n` bits of a packed byte sequence.
pub open spec fn unpack_spec(bytes: Seq<u8>, n: nat) -> Seq<bool> {
    Seq::new(n, |i: int| bit_at(bytes, i))
}

/// Unpacking the packed form gives the bits back.
pub proof fn lemma_unpack_pack(bits: Seq<bool>)
    ensures
        unpack_spec(pack_spec(bits), bits.len()) == bits,
{
    assert forall|i: int| 0 <= i < bits.len() implies bit_at(pack_spec(bits), i) == bits[i] by {
        assert(0 <= i / 8 < packed_len(bits.len() as int) && 0 <= i % 8 < 8 && 8 * (i / 8) + i % 8
            == i);
        lemma_pack_byte_bits(bits, i / 8, i % 8);
        assert(pack_spec(bits)[i / 8] == pack_byte(bits, i / 8));
    }
    assert(unpack_spec(pack_spec(bits), bits.len()) =~= bits);
}

/// The executable packer produces exactly the packed form.
pub fn pack_bits_spec(bits: &Vec<bool>) -> (r: Vec<u8>)
    requires
        bits@.len() + 7 <= usize::MAX,
    ensures
        r@ == pack_spec(bits@),
{
    let r = pack_bits(bits);
    proof {
        lemma_pack_spec_unique(r@, bits@);
    }
    r
}

/// Unpacks `bit_length` bits from a packed byte sequence.
pub fn unpack_bits(bytes: &Vec<u8>, start: usize, bit_length: usize) -> (r: Vec<bool>)
    requires
        start + packed_len(bit_length as int) <= bytes@.len(),
    ensures
        r@.len() == bit_length,
        forall|i: int|
            0 <= i < bit_length ==> r@[i] == bit_at(
                bytes@.subrange(start as int, start as int + packed_len(bit_length as int)),
                i,
            ),
{
    let ghost window = bytes@.subrange(
        start as int,
        start as int + packed_len(bit_length as int),
    );
    let total = bytes.len();
    let mut r: Vec<bool> = Vec::new();
    let mut i: usize = 0;
    while i < bit_length
        invariant
            i <= bit_length,
            total == bytes@.len(),
            start + packed_len(bit_length as int) <= bytes@.len(),
            window == bytes@.subrange(
                start as int,
                start as int + packed_len(bit_length as int),
            ),
            r@.len() == i,
            forall|k: int| 0 <= k < i ==> r@[k] == bit_at(window, k),
        decreases bit_length - i,
    {
        let byte_index = i / 8;
        let bit_offset = i % 8;
        proof {
            assert(i / 8 < packed_len(bit_length as int));
            assert(window[i as int / 8] == bytes@[start + i / 8]);
        }
        let sh: u8 = (7 - bit_offset) as u8;
        let b = bytes[start + byte_index];
        r.push(((b >> sh) & 1) == 1);
        i = i + 1;
    }
    r
}

} // verus!
