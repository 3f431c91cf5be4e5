//! Partitioning an image into horizontal bands, one per worker task.
//!
//! The renderer splits the output buffer into consecutive bands of
//! `height / workers + 1` rows each (the last band may be shorter) and hands
//! each band to its own task.  The share is deliberately one full row more
//! than a tight ceiling division would give; the surplus only shortens the
//! last band, and never more bands are needed than there are workers.

use vstd::prelude::*;
use vstd::arithmetic::div_mod::lemma_fundamental_div_mod;
use vstd::arithmetic::div_mod::lemma_fundamental_div_mod_converse;
use vstd::arithmetic::div_mod::lemma_mod_division_less_than_divisor;
use vstd::arithmetic::mul::lemma_mul_inequality;

verus! {

/// How many rows each band gets for an image of `height` rows shared among
/// `workers` workers.
pub open spec fn spec_rows_per_band(height: int, workers: int) -> int {
    height / workers + 1
}

/// The top row of band `i`.
pub open spec fn band_top(height: int, workers: int, i: int) -> int {
    i * spec_rows_per_band(height, workers)
}

/// The number of rows of band `i`: a full band's worth, or whatever is left
/// below its top row.
pub open spec fn band_height(height: int, workers: int, i: int) -> int {
    let rpb = spec_rows_per_band(height, workers);
    let top = band_top(height, workers, i);
    if height - top < rpb {
        height - top
    } else {
        rpb
    }
}

/// Band `i` of `bands` is the pair of `band_top` and `band_height`.
pub open spec fn band_at(bands: Seq<(usize, usize)>, height: int, workers: int, i: int) -> bool {
    &&& bands[i].0 == band_top(height, workers, i)
    &&& bands[i].1 == band_height(height, workers, i)
    &&& 1 <= bands[i].1
}

/// What it means for `bands` — pairs of a top row and a row count — to be the
/// band partition of an image of `height` rows among `workers` workers: every
/// band sits at its place, no band is empty, and together the bands reach
/// exactly to the bottom of the image.
pub open spec fn is_band_layout(bands: Seq<(usize, usize)>, height: int, workers: int) -> bool {
    let rpb = spec_rows_per_band(height, workers);
    &&& forall|i: int| 0 <= i < bands.len() ==> #[trigger] band_at(bands, height, workers, i)
    &&& height <= bands.len() * rpb
    &&& bands.len() >= 1 ==> (bands.len() - 1) * rpb < height
}

/// Row `row` lies inside band `b`, a pair of a top row and a row count.
pub open spec fn row_in_band(b: (usize, usize), row: int) -> bool {
    b.0 <= row < b.0 + b.1
}

/// The number of rows each band gets: one more than the even share, so that
/// `workers` bands always suffice.
pub fn rows_per_band(height: usize, workers: usize) -> (r: usize)
    requires
        1 <= workers,
        height < usize::MAX,
    ensures
        r == spec_rows_per_band(height as int, workers as int),
{
    proof {
        lemma_div_at_most(height as int, workers as int);
    }
    height / workers + 1
}

/// The quotient of nonnegative values never exceeds the dividend.
proof fn lemma_div_at_most(x: int, d: int)
    requires
        0 <= x,
        1 <= d,
    ensures
        0 <= x / d <= x,
{
    lemma_fundamental_div_mod(x, d);
    lemma_mod_division_less_than_divisor(x, d);
    if x / d < 0 {
        lemma_mul_inequality(x / d, -1, d);
        assert(d * (x / d) == (x / d) * d) by (nonlinear_arith);
        assert(false);
    }
    if x / d > x {
        lemma_mul_inequality(x + 1, x / d, d);
        assert(d * (x / d) == (x / d) * d) by (nonlinear_arith);
        assert((x + 1) * d >= x + 1) by (nonlinear_arith)
            requires
                1 <= d,
                0 <= x,
        ;
        assert(false);
    }
}

/// Computes the band partition of an image of `height` rows among `workers`
/// workers: consecutive bands of `rows_per_band` rows from the top of the
/// image down, the last band holding whatever is left.
pub fn band_layout(height: usize, workers: usize) -> (bands: Vec<(usize, usize)>)
    requires
        1 <= workers,
        height < usize::MAX,
    ensures
        is_band_layout(bands@, height as int, workers as int),
{
    let rpb = rows_per_band(height, workers);
    let mut bands: Vec<(usize, usize)> = Vec::new();
    let mut top: usize = 0;
    while top < height
        invariant
            1 <= workers,
            rpb == spec_rows_per_band(height as int, workers as int),
            1 <= rpb,
            top <= height,
            forall|i: int|
                0 <= i < bands@.len() ==> #[trigger] band_at(
                    bands@,
                    height as int,
                    workers as int,
                    i,
                ),
            top == if bands@.len() * (rpb as int) <= height {
                bands@.len() * (rpb as int)
            } else {
                height as int
            },
            bands@.len() >= 1 ==> (bands@.len() - 1) * (rpb as int) < height,
        decreases height - top,
    {
        let remaining = height - top;
        let h = if remaining < rpb {
            remaining
        } else {
            rpb
        };
        let ghost prev = bands@;
        proof {
            let len = prev.len() as int;
            let rpbi = rpb as int;
            if len * rpbi > height {
                assert(top == height);
                assert(false);
            }
            assert((len + 1) * rpbi == len * rpbi + rpbi) by (nonlinear_arith);
        }
        bands.push((top, h));
        proof {
            let len = prev.len() as int;
            let rpbi = rpb as int;
            assert forall|i: int| 0 <= i < bands@.len() implies #[trigger] band_at(
                bands@,
                height as int,
                workers as int,
                i,
            ) by {
                if i < len {
                    assert(band_at(prev, height as int, workers as int, i));
                    assert(bands@[i] == prev[i]);
                } else {
                    assert(bands@[i] == (top, h));
                    assert(top == len * rpbi);
                }
            }
        }
        top = top + h;
    }
    bands
}

/// Every row of the image lies in exactly one band: the bands cover the rows
/// `[0, height)` with no gap and no overlap.
pub proof fn lemma_bands_partition(
    bands: Seq<(usize, usize)>,
    height: int,
    workers: int,
    row: int,
)
    requires
        1 <= workers,
        is_band_layout(bands, height, workers),
        0 <= row < height,
    ensures
        exists|i: int| 0 <= i < bands.len() && #[trigger] row_in_band(bands[i], row),
        forall|i: int, j: int|
            0 <= i < bands.len() && 0 <= j < bands.len() && #[trigger] row_in_band(bands[i], row)
                && #[trigger] row_in_band(bands[j], row) ==> i == j,
{
    let rpb = spec_rows_per_band(height, workers);
    lemma_div_at_most(height, workers);
    assert(1 <= rpb);
    let q = row / rpb;
    lemma_fundamental_div_mod(row, rpb);
    lemma_mod_division_less_than_divisor(row, rpb);
    assert(rpb * q == q * rpb) by (nonlinear_arith);
    assert(q * rpb <= row < q * rpb + rpb);
    lemma_div_at_most(row, rpb);
    assert(0 <= q);
    if q >= bands.len() {
        lemma_mul_inequality(bands.len() as int, q, rpb);
        assert(false);
    }
    assert(band_at(bands, height, workers, q));
    assert(row_in_band(bands[q], row));
    assert forall|i: int, j: int|
        0 <= i < bands.len() && 0 <= j < bands.len() && #[trigger] row_in_band(bands[i], row)
            && #[trigger] row_in_band(bands[j], row) implies i == j by {
        lemma_band_index_unique(bands, height, workers, row, i);
        lemma_band_index_unique(bands, height, workers, row, j);
    }
}

/// The partition never needs more bands than there are workers: handing each
/// band to its own task keeps within a pool of `workers` tasks.
pub proof fn lemma_band_count_within_workers(
    bands: Seq<(usize, usize)>,
    height: int,
    workers: int,
)
    requires
        1 <= workers,
        0 <= height,
        is_band_layout(bands, height, workers),
    ensures
        bands.len() <= workers,
{
    let rpb = spec_rows_per_band(height, workers);
    lemma_div_at_most(height, workers);
    if bands.len() > workers {
        lemma_fundamental_div_mod(height, workers);
        lemma_mod_division_less_than_divisor(height, workers);
        let q = height / workers;
        assert(workers * (q + 1) == workers * q + workers) by (nonlinear_arith);
        assert(workers * (height / workers) == height - height % workers);
        assert(workers * rpb > height);
        lemma_mul_inequality(workers, bands.len() - 1, rpb);
        assert(false);
    }
}

/// A row determines the band it lies in: the band's index is the row divided
/// by the rows-per-band share.
proof fn lemma_band_index_unique(
    bands: Seq<(usize, usize)>,
    height: int,
    workers: int,
    row: int,
    i: int,
)
    requires
        1 <= workers,
        0 <= height,
        is_band_layout(bands, height, workers),
        0 <= i < bands.len(),
        row_in_band(bands[i], row),
    ensures
        i == row / spec_rows_per_band(height, workers),
{
    let rpb = spec_rows_per_band(height, workers);
    lemma_div_at_most(height, workers);
    assert(band_at(bands, height, workers, i));
    assert(i * rpb <= row < i * rpb + rpb);
    lemma_fundamental_div_mod_converse(row, rpb, i, row - i * rpb);
}

} // verus!
