//! Key schedule of the XOR stream cipher: a linear-feedback shift
//! register over a seed of characters. Each step XORs the tap character
//! with the outgoing first character, shifts the seed left and appends
//! the result; eight steps make one key.

use vstd::prelude::*;

verus! {

/// One register step's output: the tap character XORed with the
/// character shifted out.
pub open spec fn lfsr_out(seed: Seq<char>, tap: int) -> char {
    (((seed[seed.len() - tap - 1] as u8) ^ (seed[0] as u8)) as char)
}

/// The register after one step: shifted left by one, the new output at
/// the end.
pub open spec fn lfsr_shift(seed: Seq<char>, tap: int) -> Seq<char> {
    seed.skip(1).push(lfsr_out(seed, tap))
}

/// The register after `n` steps.
pub open spec fn lfsr_iter(seed: Seq<char>, tap: int, n: nat) -> Seq<char>
    decreases n,
{
    if n == 0 {
        seed
    } else {
        lfsr_iter(lfsr_shift(seed, tap), tap, (n - 1) as nat)
    }
}

/// The `n` outputs of the next `n` steps, in order.
pub open spec fn lfsr_key(seed: Seq<char>, tap: int, n: nat) -> Seq<char>
    decreases n,
{
    if n == 0 {
        Seq::empty()
    } else {
        seq![lfsr_out(seed, tap)] + lfsr_key(lfsr_shift(seed, tap), tap, (n - 1) as nat)
    }
}

/// Runs one register step in place and returns its output.
fn lfsr_step(tap_position: usize, seed: &mut Vec<char>) -> (res: char)
    requires
        old(seed)@.len() >= 1,
        tap_position < old(seed)@.len(),
    ensures
        res == lfsr_out(old(seed)@, tap_position as int),
        final(seed)@ == lfsr_shift(old(seed)@, tap_position as int),
        final(seed)@.len() == old(seed)@.len(),
{
    let bit_size = seed.len();
    let shift_out = seed[0];
    let tapped = seed[(bit_size - tap_position) - 1];
    let res = ((tapped as u8) ^ (shift_out as u8)) as char;
    let mut j: usize = 1;
    while j < bit_size
        invariant
            1 <= j <= bit_size,
            seed@.len() == bit_size,
            bit_size == old(seed)@.len(),
            forall|i: int| 0 <= i < j - 1 ==> seed@[i] == old(seed)@[i + 1],
            forall|i: int| j - 1 <= i < bit_size ==> seed@[i] == old(seed)@[i],
        decreases bit_size - j,
    {
        let c = seed[j];
        seed.set(j - 1, c);
        j = j + 1;
    }
    seed.set(bit_size - 1, res);
    proof {
        assert(seed@ =~= lfsr_shift(old(seed)@, tap_position as int));
    }
    res
}

/// Fills each of the given key slots with the next eight register
/// outputs, advancing the seed eight steps per key: key `k` holds the
/// outputs of steps `8 k` to `8 k + 7`.
pub fn key_generation(tap_position: usize, seed: &mut Vec<char>, rgb_keys: &mut Vec<Vec<char>>)
    requires
        old(seed)@.len() >= 1,
        tap_position < old(seed)@.len(),
    ensures
        final(seed)@ == lfsr_iter(old(seed)@, tap_position as int, 8 * old(rgb_keys)@.len()),
        final(rgb_keys)@.len() == old(rgb_keys)@.len(),
        forall|k: int|
            0 <= k < old(rgb_keys)@.len() ==> (#[trigger] final(rgb_keys)@[k])@ == lfsr_key(
                lfsr_iter(old(seed)@, tap_position as int, (8 * k) as nat),
                tap_position as int,
                8,
            ),
{
    let nkeys = rgb_keys.len();
    let mut k: usize = 0;
    while k < nkeys
        invariant
            k <= nkeys,
            seed@.len() == old(seed)@.len(),
            tap_position < seed@.len(),
            rgb_keys@.len() == nkeys,
            nkeys == old(rgb_keys)@.len(),
            seed@ == lfsr_iter(old(seed)@, tap_position as int, (8 * k) as nat),
            forall|j: int|
                0 <= j < k ==> (#[trigger] rgb_keys@[j])@ == lfsr_key(
                    lfsr_iter(old(seed)@, tap_position as int, (8 * j) as nat),
                    tap_position as int,
                    8,
                ),
            forall|j: int| k <= j < nkeys ==> rgb_keys@[j] == old(rgb_keys)@[j],
        decreases nkeys - k,
    {
        let ghost seed_k = seed@;
        let mut key_string: Vec<char> = Vec::new();
        let mut i: usize = 0;
        while i < 8
            invariant
                i <= 8,
                seed@.len() == seed_k.len(),
                tap_position < seed@.len(),
                seed@ == lfsr_iter(seed_k, tap_position as int, i as nat),
                key_string@.len() == i,
                key_string@ == lfsr_key(seed_k, tap_position as int, i as nat),
            decreases 8 - i,
        {
            let res = lfsr_step(tap_position, seed);
            key_string.push(res);
            proof {
                lemma_lfsr_unroll(seed_k, tap_position as int, i as nat);
            }
            i = i + 1;
        }
        rgb_keys.set(k, key_string);
        proof {
            lemma_lfsr_iter_add(old(seed)@, tap_position as int, (8 * k) as nat, 8);
        }
        k = k + 1;
    }
}

/// One more step extends the key by the current state's output and
/// advances the state.
proof fn lemma_lfsr_unroll(seed: Seq<char>, tap: int, i: nat)
    ensures
        lfsr_key(seed, tap, i + 1) == lfsr_key(seed, tap, i).push(
            lfsr_out(lfsr_iter(seed, tap, i), tap),
        ),
        lfsr_iter(seed, tap, i + 1) == lfsr_shift(lfsr_iter(seed, tap, i), tap),
    decreases i,
{
    let sh = lfsr_shift(seed, tap);
    if i == 0 {
        assert(lfsr_key(sh, tap, 0) == Seq::<char>::empty());
        assert(lfsr_key(seed, tap, 1) == seq![lfsr_out(seed, tap)] + lfsr_key(sh, tap, 0));
        assert(lfsr_iter(seed, tap, 1) == lfsr_iter(sh, tap, 0));
        assert(lfsr_key(seed, tap, 1) =~= lfsr_key(seed, tap, 0).push(
            lfsr_out(lfsr_iter(seed, tap, 0), tap),
        ));
    } else {
        lemma_lfsr_unroll(sh, tap, (i - 1) as nat);
        assert(lfsr_key(seed, tap, i + 1) == seq![lfsr_out(seed, tap)] + lfsr_key(sh, tap, i));
        assert(lfsr_key(seed, tap, i) == seq![lfsr_out(seed, tap)] + lfsr_key(
            sh,
            tap,
            (i - 1) as nat,
        ));
        assert(lfsr_iter(seed, tap, i) == lfsr_iter(sh, tap, (i - 1) as nat));
        assert(lfsr_iter(seed, tap, i + 1) == lfsr_iter(sh, tap, i));
        assert(lfsr_key(seed, tap, i + 1) =~= lfsr_key(seed, tap, i).push(
            lfsr_out(lfsr_iter(seed, tap, i), tap),
        ));
    }
}

/// Running `a` steps and then `b` steps is running `a + b` steps.
proof fn lemma_lfsr_iter_add(seed: Seq<char>, tap: int, a: nat, b: nat)
    ensures
        lfsr_iter(lfsr_iter(seed, tap, a), tap, b) == lfsr_iter(seed, tap, a + b),
    decreases a,
{
    if a > 0 {
        lemma_lfsr_iter_add(lfsr_shift(seed, tap), tap, (a - 1) as nat, b);
    }
}

/// Packs an eight-character key into one byte, first character at the
/// top bit: each character contributes its low bit position by shifting
/// the accumulator left and ORing the character in.
pub open spec fn byte_fold(key: Seq<char>, i: int) -> u8
    decreases i,
{
    if i <= 0 {
        0
    } else {
        (byte_fold(key, i - 1) << 1u8) | (key[i - 1] as u8)
    }
}

/// Folds a key into the byte that the cipher XORs into a channel.
pub fn convert_byte(key: &mut Vec<char>) -> (res: u8)
    ensures
        res == byte_fold(old(key)@, old(key)@.len() as int),
        final(key)@ == old(key)@,
{
    let mut res: u8 = 0;
    let mut i: usize = 0;
    let n = key.len();
    while i < n
        invariant
            i <= n,
            n == key@.len(),
            key@ == old(key)@,
            res == byte_fold(key@, i as int),
        decreases n - i,
    {
        res = (res << 1u8) | (key[i] as u8);
        i = i + 1;
    }
    res
}

} // verus!
