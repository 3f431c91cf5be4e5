//! Turning per-pixel escape counts into the grayscale output buffer.
//!
//! The escape-time evaluation itself works on double-precision complex
//! numbers and is carried out by the surrounding application; the library
//! takes the per-pixel outcome — the iteration at which the orbit escaped, or
//! nothing — and owns everything after that: the shading rule and the
//! row-major filling of a band's buffer.

use vstd::prelude::*;

verus! {

/// The iteration limit of the escape-time evaluation.
pub const ESCAPE_LIMIT: u32 = 225;

/// The grayscale byte for one pixel: black for a point that never escaped
/// within the limit, brighter the sooner the orbit escaped.
pub open spec fn shade_spec(t: Option<u32>) -> u8 {
    match t {
        Option::None => 0,
        Option::Some(count) => if count < ESCAPE_LIMIT {
            (255 - count) as u8
        } else {
            0
        },
    }
}

/// An escape outcome lies within the iteration limit.
pub open spec fn count_within_limit(t: Option<u32>) -> bool {
    match t {
        Option::None => true,
        Option::Some(count) => count < ESCAPE_LIMIT,
    }
}

/// Every escape outcome of the sequence lies within the iteration limit.
pub open spec fn counts_within_limit(counts: Seq<Option<u32>>) -> bool {
    forall|i: int| 0 <= i < counts.len() ==> #[trigger] count_within_limit(counts[i])
}

/// The shading of a whole sequence of escape outcomes, pixel by pixel.
pub open spec fn shaded(counts: Seq<Option<u32>>) -> Seq<u8> {
    counts.map(|i: int, c: Option<u32>| shade_spec(c))
}

/// The grayscale byte for one escape outcome: `255 - count` for a point that
/// escaped at iteration `count`, and `0` for a point that never escaped.
pub fn shade(t: Option<u32>) -> (b: u8)
    requires
        count_within_limit(t),
    ensures
        b == shade_spec(t),
{
    match t {
        Option::None => 0,
        Option::Some(count) => 255 - (count as u8),
    }
}

/// Renders one band: fills `pixels` with the shade of each pixel's escape
/// outcome, row-major.  `bounds` is the pair of the band's width and height;
/// the caller hands a buffer and an outcome per pixel of the band.
pub fn render(pixels: &mut Vec<u8>, bounds: (usize, usize), counts: &Vec<Option<u32>>)
    requires
        old(pixels).len() == bounds.0 * bounds.1,
        counts.len() == bounds.0 * bounds.1,
        counts_within_limit(counts@),
    ensures
        final(pixels)@ == shaded(counts@),
{
    let width = bounds.0;
    let height = bounds.1;
    let total = counts.len();
    let mut row: usize = 0;
    while row < height
        invariant
            total == width * height,
            pixels.len() == total,
            counts.len() == total,
            counts_within_limit(counts@),
            row <= height,
            forall|k: int| 0 <= k < row * width ==> pixels@[k] == shade_spec(counts@[k]),
        decreases height - row,
    {
        let mut col: usize = 0;
        proof {
            assert(row * width + width <= total) by (nonlinear_arith)
                requires
                    row < height,
                    total == width * height,
            ;
        }
        while col < width
            invariant
                total == width * height,
                pixels.len() == total,
                counts.len() == total,
                counts_within_limit(counts@),
                row < height,
                col <= width,
                row * width + width <= total,
                forall|k: int| 0 <= k < row * width + col ==> pixels@[k] == shade_spec(counts@[k]),
            decreases width - col,
        {
            let idx = row * width + col;
            assert(count_within_limit(counts@[idx as int]));
            let b = shade(counts[idx]);
            pixels.set(idx, b);
            col = col + 1;
        }
        row = row + 1;
        proof {
            assert(row * width == (row - 1) * width + width) by (nonlinear_arith);
        }
    }
    proof {
        assert(row * width == total) by (nonlinear_arith)
            requires
                row == height,
                total == width * height,
        ;
        assert(pixels@ =~= shaded(counts@));
    }
}

/// A band of zero height has no pixels, so rendering it produces no bytes:
/// handing such a band to a worker is a harmless no-op.
pub proof fn lemma_empty_band_renders_nothing(counts: Seq<Option<u32>>)
    requires
        counts.len() == 0,
    ensures
        shaded(counts) == Seq::<u8>::empty(),
{
    assert(shaded(counts) =~= Seq::<u8>::empty());
}

/// Rendering is deterministic: two renders of the same escape data produce
/// identical buffers, because the shading of the data determines every byte.
pub proof fn lemma_render_deterministic(
    counts: Seq<Option<u32>>,
    first: Seq<u8>,
    second: Seq<u8>,
)
    requires
        first == shaded(counts),
        second == shaded(counts),
    ensures
        first == second,
{
}

/// Shading distributes over splitting the escape data in two: shading the two
/// parts and laying them end to end equals shading the whole.
pub proof fn lemma_shaded_concat(a: Seq<Option<u32>>, b: Seq<Option<u32>>)
    ensures
        shaded(a + b) == shaded(a) + shaded(b),
{
    assert forall|i: int| 0 <= i < (a + b).len() implies shaded(a + b)[i] == (shaded(a) + shaded(
        b,
    ))[i] by {
        if i < a.len() {
            assert((a + b)[i] == a[i]);
        } else {
            assert((a + b)[i] == b[i - a.len()]);
        }
    }
    assert(shaded(a + b) =~= shaded(a) + shaded(b));
}

/// The shading of each piece of a cut of the escape data.
pub open spec fn shaded_pieces(pieces: Seq<Seq<Option<u32>>>) -> Seq<Seq<u8>> {
    pieces.map(|i: int, p: Seq<Option<u32>>| shaded(p))
}

/// Worker-count invariance, for the part of the renderer the library owns:
/// however the escape data is cut into bands, shading the bands separately
/// and laying the results end to end equals shading the whole image at once.
pub proof fn lemma_shaded_flatten(pieces: Seq<Seq<Option<u32>>>)
    ensures
        shaded(pieces.flatten()) == shaded_pieces(pieces).flatten(),
    decreases pieces.len(),
{
    if pieces.len() == 0 {
        assert(shaded(pieces.flatten()) =~= Seq::<u8>::empty());
        assert(shaded_pieces(pieces).flatten() =~= Seq::<u8>::empty());
    } else {
        let rest = pieces.drop_first();
        lemma_shaded_flatten(rest);
        lemma_shaded_concat(pieces.first(), rest.flatten());
        assert(shaded_pieces(pieces).first() == shaded(pieces.first()));
        assert(shaded_pieces(pieces).drop_first() =~= shaded_pieces(rest));
        assert(shaded(pieces.flatten()) == shaded_pieces(pieces).flatten());
    }
}

} // verus!
