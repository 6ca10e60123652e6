//! How much the samples of one pixel differ between noisy images, and the
//! seed that is drawn from it.

use vstd::prelude::*;

verus! {

/// Absolute difference of two channel values.
pub fn diff(r: (u8, u8)) -> (d: u32)
    ensures
        d == spec_diff(r.0, r.1),
{
    if r.0 > r.1 {
        (r.0 - r.1) as u32
    } else {
        (r.1 - r.0) as u32
    }
}

/// Absolute difference of two channel values.
pub open spec fn spec_diff(a: u8, b: u8) -> int {
    if a > b {
        a - b
    } else {
        b - a
    }
}

/// The differences of `value` to each of `samples`, summed.
pub open spec fn row_spread(value: u8, samples: Seq<u8>) -> int
    decreases samples.len(),
{
    if samples.len() == 0 {
        0
    } else {
        row_spread(value, samples.drop_last()) + spec_diff(value, samples.last())
    }
}

/// The differences of each of the first `rows` samples to each sample,
/// summed.
pub open spec fn spread(samples: Seq<u8>, rows: int) -> int
    decreases rows,
{
    if rows <= 0 {
        0
    } else {
        spread(samples, rows - 1) + row_spread(samples[rows - 1], samples)
    }
}

/// The differences to `n` samples sum to no more than 255 times `n`.
pub proof fn lemma_row_spread_bound(value: u8, samples: Seq<u8>)
    ensures
        0 <= row_spread(value, samples) <= 255 * samples.len(),
    decreases samples.len(),
{
    if samples.len() > 0 {
        lemma_row_spread_bound(value, samples.drop_last());
    }
}

/// The sum over more rows is no less than the sum over fewer.
pub proof fn lemma_spread_grows(samples: Seq<u8>, rows: int, more: int)
    requires
        0 <= rows <= more <= samples.len(),
    ensures
        0 <= spread(samples, rows) <= spread(samples, more),
    decreases more,
{
    if rows < more {
        lemma_spread_grows(samples, rows, more - 1);
        lemma_row_spread_bound(samples[more - 1], samples);
    } else if rows > 0 {
        lemma_spread_grows(samples, rows - 1, rows - 1);
        lemma_row_spread_bound(samples[rows - 1], samples);
    }
}

/// The differences of every sample of one channel to every other, summed:
/// `None` where the sum is more than 32 bits hold.
pub fn total_diff(samples: &Vec<u8>) -> (r: Option<u32>)
    ensures
        r == if spread(samples@, samples@.len() as int) <= u32::MAX {
            Some(spread(samples@, samples@.len() as int) as u32)
        } else {
            None
        },
{
    let n = samples.len();
    let mut total: u32 = 0;
    let mut i: usize = 0;
    while i < n
        invariant
            i <= n,
            n == samples@.len(),
            total == spread(samples@, i as int),
        decreases n - i,
    {
        let mut row: u32 = 0;
        let mut j: usize = 0;
        assert(samples@.take(0) =~= Seq::empty());
        while j < n
            invariant
                j <= n,
                i < n,
                n == samples@.len(),
                row == row_spread(samples@[i as int], samples@.take(j as int)),
            decreases n - j,
        {
            let ghost prefix = samples@.take(j + 1);
            assert(prefix.drop_last() =~= samples@.take(j as int));
            proof {
                lemma_row_spread_bound(samples@[i as int], samples@.take(j as int));
                lemma_row_spread_take(samples@[i as int], samples@, j + 1);
            }
            let d = diff((samples[i], samples[j]));
            row = match row.checked_add(d) {
                Some(sum) => sum,
                None => {
                    proof {
                        lemma_spread_grows(samples@, i + 1, n as int);
                        lemma_spread_grows(samples@, 0, i as int);
                    }
                    return None;
                },
            };
            j += 1;
        }
        assert(samples@.take(n as int) =~= samples@);
        total = match total.checked_add(row) {
            Some(sum) => sum,
            None => {
                proof {
                    lemma_spread_grows(samples@, i + 1, n as int);
                }
                return None;
            },
        };
        i += 1;
    }
    Some(total)
}

/// The differences to the first samples are no more than those to all.
pub proof fn lemma_row_spread_take(value: u8, samples: Seq<u8>, n: int)
    requires
        0 <= n <= samples.len(),
    ensures
        0 <= row_spread(value, samples.take(n)) <= row_spread(value, samples),
    decreases samples.len(),
{
    lemma_row_spread_bound(value, samples.take(n));
    if n < samples.len() {
        assert(samples.drop_last().take(n) =~= samples.take(n));
        lemma_row_spread_take(value, samples.drop_last(), n);
    } else {
        assert(samples.take(n) =~= samples);
    }
}

/// The two words that seed the samples drawn for a pixel: its four
/// normalised channels in one, its position in the other.
pub fn seed_words(channels: (u8, u8, u8, u8), x: u16, y: u16) -> (r: [u64; 2])
    ensures
        r@[0] == channels.0 * 0x100_0000 + channels.1 * 0x1_0000 + channels.2 * 0x100 + channels.3,
        r@[1] == x * 0x1_0000 + y,
{
    [
        (channels.0 as u64) * 0x100_0000 + (channels.1 as u64) * 0x1_0000 + (channels.2 as u64)
            * 0x100 + (channels.3 as u64),
        (x as u64) * 0x1_0000 + (y as u64),
    ]
}

/// The spread of a pixel over its four channels, summed: what pixels are
/// ranked by.
pub fn summed_spread(spread: (u32, u32, u32, u32)) -> (r: u64)
    ensures
        r == spread.0 + spread.1 + spread.2 + spread.3,
{
    spread.0 as u64 + spread.1 as u64 + spread.2 as u64 + spread.3 as u64
}

/// Whether a pixel with spread `a` ranks before one with spread `b`: the
/// greater summed spread comes first.
pub fn ranks_before(a: (u32, u32, u32, u32), b: (u32, u32, u32, u32)) -> (r: bool)
    ensures
        r == (a.0 + a.1 + a.2 + a.3 > b.0 + b.1 + b.2 + b.3),
{
    summed_spread(a) > summed_spread(b)
}

/// The least and the greatest of `values`: the greatest and the least
/// number of 32 bits where there are none.
pub fn range_of(values: &Vec<u32>) -> (r: (u32, u32))
    ensures
        forall|k: int| 0 <= k < values@.len() ==> r.0 <= #[trigger] values@[k] <= r.1,
        values@.len() == 0 ==> r == (u32::MAX, u32::MIN),
        values@.len() > 0 ==> values@.contains(r.0) && values@.contains(r.1),
{
    let mut least = u32::MAX;
    let mut greatest = u32::MIN;
    let mut j: usize = 0;
    while j < values.len()
        invariant
            j <= values.len(),
            forall|k: int| 0 <= k < j ==> least <= #[trigger] values@[k] <= greatest,
            j == 0 ==> least == u32::MAX && greatest == u32::MIN,
            j > 0 ==> values@.contains(least) && values@.contains(greatest),
        decreases values.len() - j,
    {
        let value = values[j];
        assert(values@.contains(value));
        if value < least {
            least = value;
        }
        if value > greatest {
            greatest = value;
        }
        j += 1;
    }
    (least, greatest)
}

} // verus!
