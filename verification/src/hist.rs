//! Histogram builder: one pass over the pixel grid yields one frequency
//! table per color channel, mapping each byte value to how often it
//! occurs on that channel.

use vstd::prelude::*;

use crate::{chan, Pixel, PixelGrid};

verus! {

/// How often byte value `v` occurs on channel `c` of the pixel sequence.
pub open spec fn count_chan(ps: Seq<Pixel>, c: int, v: u8) -> nat
    decreases ps.len(),
{
    if ps.len() == 0 {
        0
    } else {
        count_chan(ps.drop_last(), c, v) + (if chan(ps.last(), c) == v {
            1nat
        } else {
            0nat
        })
    }
}

/// Sum of the first `v` entries of a frequency table.
pub open spec fn table_sum(t: Seq<u64>, v: int) -> int
    decreases v,
{
    if v <= 0 {
        0
    } else {
        table_sum(t, v - 1) + t[v - 1]
    }
}

/// Occurrence counts for one channel, indexed by byte value: entry `v`
/// says how often `v` was observed. A value that never occurs has count
/// zero, which the tree builder treats as absent.
pub struct FrequencyTable {
    pub counts: Vec<u64>,
}

impl View for FrequencyTable {
    type V = Seq<u64>;

    open spec fn view(&self) -> Seq<u64> {
        self.counts@
    }
}

impl FrequencyTable {
    /// One slot per possible byte value.
    pub open spec fn wf(&self) -> bool {
        self.counts@.len() == 256
    }
}

/// A channel count never exceeds the number of pixels scanned.
pub proof fn lemma_count_le_len(ps: Seq<Pixel>, c: int, v: u8)
    ensures
        count_chan(ps, c, v) <= ps.len(),
    decreases ps.len(),
{
    if ps.len() > 0 {
        lemma_count_le_len(ps.drop_last(), c, v);
    }
}

/// Bumping one slot of a table raises every partial sum that covers it
/// by the same amount.
pub proof fn lemma_table_sum_update(t: Seq<u64>, j: int, x: u64, v: int)
    requires
        0 <= j < t.len(),
        v <= t.len(),
    ensures
        table_sum(t.update(j, x), v) == table_sum(t, v) + (if j < v {
            x - t[j]
        } else {
            0
        }),
    decreases v,
{
    if v > 0 {
        lemma_table_sum_update(t, j, x, v - 1);
    }
}

/// Every slot of a table is at most the sum over all slots.
pub proof fn lemma_entry_le_table_sum(t: Seq<u64>, j: int, v: int)
    requires
        0 <= j < v <= t.len(),
    ensures
        t[j] <= table_sum(t, v),
{
    lemma_table_sum_nonneg_tail(t, 0, j);
    lemma_table_sum_nonneg_tail(t, j + 1, v);
}

/// Partial sums of a table of unsigned counts only grow.
pub proof fn lemma_table_sum_nonneg_tail(t: Seq<u64>, a: int, b: int)
    requires
        0 <= a <= b <= t.len(),
    ensures
        table_sum(t, a) <= table_sum(t, b),
    decreases b - a,
{
    if a < b {
        lemma_table_sum_nonneg_tail(t, a, b - 1);
    }
}

/// Scans the grid once and returns the red, green and blue frequency
/// tables. Each table records, for every byte value, exactly the number
/// of pixels whose channel byte equals that value; per channel the
/// counts add up to the number of pixels.
pub fn construct_dictionaries(grid: &PixelGrid) -> (r: (
    FrequencyTable,
    FrequencyTable,
    FrequencyTable,
))
    ensures
        r.0.wf() && r.1.wf() && r.2.wf(),
        forall|v: u8| r.0@[v as int] == count_chan(grid@, 0, v),
        forall|v: u8| r.1@[v as int] == count_chan(grid@, 1, v),
        forall|v: u8| r.2@[v as int] == count_chan(grid@, 2, v),
        table_sum(r.0@, 256) == grid@.len(),
        table_sum(r.1@, 256) == grid@.len(),
        table_sum(r.2@, 256) == grid@.len(),
{
    let mut red: Vec<u64> = vec_of_zeros();
    let mut green: Vec<u64> = vec_of_zeros();
    let mut blue: Vec<u64> = vec_of_zeros();
    let n = grid.pixels.len();
    proof {
        assert(grid@.take(0) =~= Seq::<Pixel>::empty());
    }
    let mut i: usize = 0;
    while i < n
        invariant
            i <= n,
            n == grid@.len(),
            red@.len() == 256 && green@.len() == 256 && blue@.len() == 256,
            forall|v: u8| red@[v as int] == count_chan(grid@.take(i as int), 0, v),
            forall|v: u8| green@[v as int] == count_chan(grid@.take(i as int), 1, v),
            forall|v: u8| blue@[v as int] == count_chan(grid@.take(i as int), 2, v),
            table_sum(red@, 256) == i,
            table_sum(green@, 256) == i,
            table_sum(blue@, 256) == i,
        decreases n - i,
    {
        let p = grid.pixels[i];
        bump(&mut red, p.r, Ghost(grid@), Ghost(0int), Ghost(i as int));
        bump(&mut green, p.g, Ghost(grid@), Ghost(1int), Ghost(i as int));
        bump(&mut blue, p.b, Ghost(grid@), Ghost(2int), Ghost(i as int));
        i = i + 1;
    }
    proof {
        assert(grid@.take(n as int) =~= grid@);
    }
    (FrequencyTable { counts: red }, FrequencyTable { counts: green }, FrequencyTable {
        counts: blue,
    })
}

/// Adds one observation of channel byte `x` to a table that already
/// counts the first `i` pixels of `ps` on channel `c`.
fn bump(t: &mut Vec<u64>, x: u8, ps: Ghost<Seq<Pixel>>, c: Ghost<int>, i: Ghost<int>)
    requires
        old(t)@.len() == 256,
        ps@.len() <= u64::MAX,
        0 <= i@ < ps@.len(),
        x == chan(ps@[i@], c@),
        forall|v: u8| old(t)@[v as int] == count_chan(ps@.take(i@), c@, v),
        table_sum(old(t)@, 256) == i@,
    ensures
        final(t)@.len() == 256,
        forall|v: u8| final(t)@[v as int] == count_chan(ps@.take(i@ + 1), c@, v),
        table_sum(final(t)@, 256) == i@ + 1,
{
    proof {
        lemma_count_le_len(ps@.take(i@), c@, x);
    }
    let old_count = t[x as usize];
    t.set(x as usize, old_count + 1);
    proof {
        assert(ps@.take(i@ + 1).drop_last() =~= ps@.take(i@));
        assert(ps@.take(i@ + 1).last() == ps@[i@]);
        lemma_table_sum_update(old(t)@, x as int, (old_count + 1) as u64, 256);
        assert forall|v: u8| t@[v as int] == count_chan(ps@.take(i@ + 1), c@, v) by {
            if v != x {
                assert(t@[v as int] == old(t)@[v as int]);
            }
        }
    }
}

/// A fresh table of 256 zero counts.
fn vec_of_zeros() -> (r: Vec<u64>)
    ensures
        r@.len() == 256,
        forall|v: int| 0 <= v < 256 ==> r@[v] == 0,
        table_sum(r@, 256) == 0,
{
    let mut r: Vec<u64> = Vec::new();
    let mut i: usize = 0;
    while i < 256
        invariant
            i <= 256,
            r@.len() == i,
            forall|v: int| 0 <= v < i ==> r@[v] == 0,
        decreases 256 - i,
    {
        r.push(0);
        i = i + 1;
    }
    proof {
        lemma_table_sum_zeros(r@, 256);
    }
    r
}

/// A table of zeros sums to zero.
proof fn lemma_table_sum_zeros(t: Seq<u64>, v: int)
    requires
        v <= t.len(),
        forall|j: int| 0 <= j < t.len() ==> t[j] == 0,
    ensures
        table_sum(t, v) == 0,
    decreases v,
{
    if v > 0 {
        lemma_table_sum_zeros(t, v - 1);
    }
}

} // verus!
