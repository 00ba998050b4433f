//! Gradient rows: sampled lookup-table colors blended under coverage.
//!
//! A gradient's position at a pixel is reduced to an index into its lookup table; a row of such
//! indices accompanies each row of pixels. An index past the table's end is transparent.

use vstd::prelude::*;
use crate::argb;
use crate::blend;
use crate::blend::{blend_gradient_px, composite_over_span, lut_color, lut_over, lut_store, src_px};
use crate::dirty;

verus! {

/// The number of colors in a gradient's lookup table.
pub const GRADIENT_LUT_SIZE: usize = 1024;

/// Full-coverage runs of at least this many pixels are blended as one.
pub const GRADIENT_RUN_MIN: usize = 16;

/// Rows shorter than this are blended pixel by pixel.
pub const GRADIENT_ROW_MIN: usize = 32;

/// True for a table of premultiplied colors, in which a transparent color is clear.
pub open spec fn is_premultiplied(lut: Seq<u32>) -> bool {
    forall|i: int| 0 <= i < lut.len() && argb::alpha_of(#[trigger] lut[i]) == 0 ==> lut[i] == 0
}

/// The source that a gradient puts on a pixel with coverage `cov` and table index `i`.
pub open spec fn sampled(lut: Seq<u32>, cov: int, i: u32) -> u32 {
    blend::gradient_src(cov, blend::lut_px(lut, i))
}

/// The number of pixels of a row that have a coverage byte.
pub open spec fn covered_len(dst: nat, cov: nat) -> nat {
    if dst < cov {
        dst
    } else {
        cov
    }
}

/// The row that `dst` becomes when a gradient is blended under the coverage row `cov`.
pub open spec fn gradient_blended(dst: Seq<u32>, cov: Seq<u8>, idx: Seq<u32>, lut: Seq<u32>) -> Seq<u32> {
    Seq::new(
        dst.len(),
        |i: int|
            if i < cov.len() {
                blend::over_px(dst[i], sampled(lut, cov[i] as int, idx[i]))
            } else {
                dst[i]
            },
    )
}

/// The sources that a gradient puts on a row with coverage `cov`.
pub open spec fn gradient_sources(cov: Seq<u8>, idx: Seq<u32>, lut: Seq<u32>) -> Seq<u32> {
    Seq::new(cov.len(), |i: int| sampled(lut, cov[i] as int, idx[i]))
}

/// Full coverage leaves a premultiplied color as it is.
pub proof fn lemma_full_coverage(lut: Seq<u32>, i: u32)
    requires
        is_premultiplied(lut),
    ensures
        sampled(lut, 255, i) == blend::lut_px(lut, i),
{
    let c = blend::lut_px(lut, i);
    blend::law_scale_by_255(c);
    if argb::alpha_of(c) == 0 {
        if i < lut.len() {
            assert(argb::alpha_of(lut[i as int]) == 0);
        }
    }
}

/// Without coverage a gradient puts nothing on a pixel.
pub proof fn lemma_no_coverage(lut: Seq<u32>, i: u32)
    ensures
        sampled(lut, 0, i) == 0,
{
    let c = blend::lut_px(lut, i);
    argb::lemma_argb_of_channels(c);
    argb::lemma_mul255(argb::alpha_of(c), 0);
    argb::lemma_mul255(argb::red_of(c), 0);
    argb::lemma_mul255(argb::green_of(c), 0);
    argb::lemma_mul255(argb::blue_of(c), 0);
}

/// Blends one gradient pixel.
fn blend_one(d: u32, cov: u8, lut: &[u32], i: u32) -> (o: u32)
    ensures
        o == blend::over_px(d, sampled(lut@, cov as int, i)),
{
    if cov == 0 {
        proof {
            lemma_no_coverage(lut@, i);
            blend::law_over_clear_source(d);
        }
        return d;
    }
    let mut o: u32 = d;
    blend_gradient_px(&mut o, cov, lut_color(lut, i));
    o
}

/// Blends a gradient row pixel by pixel.
pub fn gradient_row_scalar(dst_row: &mut [u32], cov_row: &[u8], idx: &[u32], lut: &[u32])
    requires
        idx@.len() >= covered_len(old(dst_row)@.len(), cov_row@.len()),
    ensures
        final(dst_row)@ == gradient_blended(old(dst_row)@, cov_row@, idx@, lut@),
{
    let ghost before = dst_row@;
    let mut i: usize = 0;
    while i < dst_row.len() && i < cov_row.len()
        invariant
            i <= dst_row@.len(),
            i <= cov_row@.len(),
            dst_row@.len() == before.len(),
            idx@.len() >= covered_len(before.len(), cov_row@.len()),
            forall|j: int| 0 <= j < i ==> #[trigger] dst_row@[j] == blend::over_px(before[j], sampled(lut@, cov_row@[j] as int, idx@[j])),
            forall|j: int| i <= j < before.len() ==> #[trigger] dst_row@[j] == before[j],
        decreases dst_row@.len() - i,
    {
        let d: u32 = dst_row[i];
        dst_row[i] = blend_one(d, cov_row[i], lut, idx[i]);
        i = i + 1;
    }
    assert(dst_row@ =~= gradient_blended(before, cov_row@, idx@, lut@));
}

/// The length of the full-coverage run at `i`, at most up to `n`.
fn full_run(cov_row: &[u8], i: usize, n: usize) -> (run: usize)
    requires
        i <= n <= cov_row@.len(),
    ensures
        i + run <= n,
        forall|j: int| i <= j < i + run ==> #[trigger] cov_row@[j] == 255,
{
    let mut j: usize = i;
    while j < n && cov_row[j] == 255
        invariant
            i <= j <= n,
            n <= cov_row@.len(),
            forall|k: int| i <= k < j ==> #[trigger] cov_row@[k] == 255,
        decreases n - j,
    {
        j = j + 1;
    }
    j - i
}

/// Composites the table colors at `idx[lo..hi]` over `dst[lo..hi]`.
fn over_range(dst: &mut [u32], lut: &[u32], idx: &[u32], lo: usize, hi: usize)
    requires
        lo <= hi <= old(dst)@.len(),
        hi <= idx@.len(),
    ensures
        final(dst)@.len() == old(dst)@.len(),
        forall|i: int| 0 <= i < old(dst)@.len() ==> #[trigger] final(dst)@[i] == if lo <= i < hi {
            blend::composite_px(old(dst)@[i], blend::lut_px(lut@, idx@[i]), 255)
        } else {
            old(dst)@[i]
        },
{
    let (_head, rest) = dst.split_at_mut(lo);
    let (span, _tail) = rest.split_at_mut(hi - lo);
    lut_over(span, lut, vstd::slice::slice_subrange(idx, lo, hi));
}

/// Stores the table colors at `idx[lo..hi]` into `out[lo..hi]`.
fn store_range(out: &mut [u32], lut: &[u32], idx: &[u32], lo: usize, hi: usize)
    requires
        lo <= hi <= old(out)@.len(),
        hi <= idx@.len(),
    ensures
        final(out)@.len() == old(out)@.len(),
        forall|i: int| 0 <= i < old(out)@.len() ==> #[trigger] final(out)@[i] == if lo <= i < hi {
            blend::lut_px(lut@, idx@[i])
        } else {
            old(out)@[i]
        },
{
    let (_head, rest) = out.split_at_mut(lo);
    let (span, _tail) = rest.split_at_mut(hi - lo);
    lut_store(span, lut, vstd::slice::slice_subrange(idx, lo, hi));
}

/// Blends a gradient row in one pass; long full-coverage runs skip the coverage arithmetic.
pub fn gradient_over(dst_row: &mut [u32], cov_row: &[u8], idx: &[u32], lut: &[u32])
    requires
        idx@.len() >= covered_len(old(dst_row)@.len(), cov_row@.len()),
        is_premultiplied(lut@),
    ensures
        final(dst_row)@ == gradient_blended(old(dst_row)@, cov_row@, idx@, lut@),
{
    let ghost before = dst_row@;
    let n: usize = dirty::min(dst_row.len(), cov_row.len());
    let mut i: usize = 0;
    while i < n
        invariant
            i <= n,
            n == covered_len(before.len(), cov_row@.len()),
            dst_row@.len() == before.len(),
            idx@.len() >= n,
            is_premultiplied(lut@),
            forall|j: int| 0 <= j < i ==> #[trigger] dst_row@[j] == blend::over_px(before[j], sampled(lut@, cov_row@[j] as int, idx@[j])),
            forall|j: int| i <= j < before.len() ==> #[trigger] dst_row@[j] == before[j],
        decreases n - i,
    {
        let run: usize = full_run(cov_row, i, n);
        if run >= GRADIENT_RUN_MIN {
            let ghost mid = dst_row@;
            over_range(dst_row, lut, idx, i, i + run);
            proof {
                assert forall|j: int| 0 <= j < i + run implies #[trigger] dst_row@[j] == blend::over_px(
                    before[j],
                    sampled(lut@, cov_row@[j] as int, idx@[j]),
                ) by {
                    assert(mid.len() == dst_row@.len());
                    if j >= i {
                        assert(cov_row@[j] == 255);
                        assert(mid[j] == before[j]);
                        lemma_full_coverage(lut@, idx@[j]);
                        blend::law_scale_by_255(blend::lut_px(lut@, idx@[j]));
                    } else {
                        assert(mid[j] == blend::over_px(before[j], sampled(lut@, cov_row@[j] as int, idx@[j])));
                    }
                }
            }
            i = i + run;
        } else {
            let d: u32 = dst_row[i];
            dst_row[i] = blend_one(d, cov_row[i], lut, idx[i]);
            i = i + 1;
        }
    }
    assert(dst_row@ =~= gradient_blended(before, cov_row@, idx@, lut@));
}

/// Blends one coverage row of a gradient paint.
pub fn gradient_row(dst_row: &mut [u32], cov_row: &[u8], idx: &[u32], lut: &[u32])
    requires
        idx@.len() >= covered_len(old(dst_row)@.len(), cov_row@.len()),
        is_premultiplied(lut@),
    ensures
        final(dst_row)@ == gradient_blended(old(dst_row)@, cov_row@, idx@, lut@),
{
    let n: usize = dirty::min(dst_row.len(), cov_row.len());
    if n < GRADIENT_ROW_MIN {
        gradient_row_scalar(dst_row, cov_row, idx, lut);
        return;
    }
    gradient_over(dst_row, cov_row, idx, lut);
}

/// Computes the sources that a gradient puts on a row.
pub fn gradient_srcs(srcs: &mut [u32], cov_row: &[u8], idx: &[u32], lut: &[u32])
    requires
        old(srcs)@.len() == cov_row@.len(),
        idx@.len() >= cov_row@.len(),
        is_premultiplied(lut@),
    ensures
        final(srcs)@ == gradient_sources(cov_row@, idx@, lut@),
{
    let n: usize = srcs.len();
    let mut i: usize = 0;
    while i < n
        invariant
            i <= n,
            n == srcs@.len(),
            n == cov_row@.len(),
            idx@.len() >= n,
            is_premultiplied(lut@),
            forall|j: int| 0 <= j < i ==> #[trigger] srcs@[j] == sampled(lut@, cov_row@[j] as int, idx@[j]),
        decreases n - i,
    {
        let run: usize = full_run(cov_row, i, n);
        if run >= GRADIENT_RUN_MIN {
            let ghost mid = srcs@;
            store_range(srcs, lut, idx, i, i + run);
            proof {
                assert forall|j: int| 0 <= j < i + run implies #[trigger] srcs@[j] == sampled(
                    lut@,
                    cov_row@[j] as int,
                    idx@[j],
                ) by {
                    assert(mid.len() == srcs@.len());
                    if j >= i {
                        assert(cov_row@[j] == 255);
                        lemma_full_coverage(lut@, idx@[j]);
                    } else {
                        assert(mid[j] == sampled(lut@, cov_row@[j] as int, idx@[j]));
                    }
                }
            }
            i = i + run;
        } else {
            let cov: u8 = cov_row[i];
            proof {
                lemma_full_coverage(lut@, idx@[i as int]);
                lemma_no_coverage(lut@, idx@[i as int]);
            }
            srcs[i] = if cov == 255 {
                lut_color(lut, idx[i])
            } else if cov != 0 {
                src_px(cov, lut_color(lut, idx[i]))
            } else {
                0
            };
            i = i + 1;
        }
    }
    assert(srcs@ =~= gradient_sources(cov_row@, idx@, lut@));
}

/// Blends a gradient into a span whose pixels all have the coverage `cov`.
pub fn gradient_span_uniform(dst_row: &mut [u32], cov: u8, idx: &[u32], lut: &[u32])
    requires
        idx@.len() == old(dst_row)@.len(),
        is_premultiplied(lut@),
    ensures
        final(dst_row)@ == gradient_blended(old(dst_row)@, dirty::constant(old(dst_row)@.len(), cov), idx@, lut@),
{
    let ghost before = dst_row@;
    let ghost covs = dirty::constant(before.len(), cov);
    if cov == 255 {
        lut_over(dst_row, lut, idx);
        proof {
            assert forall|j: int| 0 <= j < before.len() implies #[trigger] dst_row@[j] == gradient_blended(
                before,
                covs,
                idx@,
                lut@,
            )[j] by {
                lemma_full_coverage(lut@, idx@[j]);
                blend::law_scale_by_255(blend::lut_px(lut@, idx@[j]));
            }
            assert(dst_row@ =~= gradient_blended(before, covs, idx@, lut@));
        }
        return;
    }
    let mut i: usize = 0;
    while i < dst_row.len()
        invariant
            i <= dst_row@.len(),
            dst_row@.len() == before.len(),
            idx@.len() == before.len(),
            forall|j: int| 0 <= j < i ==> #[trigger] dst_row@[j] == blend::over_px(before[j], sampled(lut@, cov as int, idx@[j])),
            forall|j: int| i <= j < before.len() ==> #[trigger] dst_row@[j] == before[j],
        decreases dst_row@.len() - i,
    {
        let d: u32 = dst_row[i];
        dst_row[i] = blend_one(d, cov, lut, idx[i]);
        i = i + 1;
    }
    assert(dst_row@ =~= gradient_blended(before, covs, idx@, lut@));
}

/// True for a row of clear pixels.
pub open spec fn is_clear(row: Seq<u32>) -> bool {
    forall|i: int| 0 <= i < row.len() ==> #[trigger] row[i] == 0
}

/// Over clear pixels a gradient leaves exactly its sources.
pub proof fn law_gradient_over_clear(dst: Seq<u32>, cov: Seq<u8>, idx: Seq<u32>, lut: Seq<u32>)
    requires
        is_clear(dst),
        dst.len() == cov.len(),
    ensures
        gradient_blended(dst, cov, idx, lut) == gradient_sources(cov, idx, lut),
{
    assert forall|i: int| 0 <= i < dst.len() implies #[trigger] gradient_blended(dst, cov, idx, lut)[i]
        == gradient_sources(cov, idx, lut)[i] by {
        assert(dst[i] == 0);
        blend::law_over_clear_destination(sampled(lut, cov[i] as int, idx[i]));
    }
    assert(gradient_blended(dst, cov, idx, lut) =~= gradient_sources(cov, idx, lut));
}

/// Fills a clear span whose pixels all have the coverage `cov`.
pub fn gradient_span_uniform_clear(dst_row: &mut [u32], cov: u8, idx: &[u32], lut: &[u32])
    requires
        is_clear(old(dst_row)@),
        idx@.len() == old(dst_row)@.len(),
        is_premultiplied(lut@),
    ensures
        final(dst_row)@ == gradient_sources(dirty::constant(old(dst_row)@.len(), cov), idx@, lut@),
{
    let ghost before = dst_row@;
    let ghost covs = dirty::constant(before.len(), cov);
    proof {
        law_gradient_over_clear(before, covs, idx@, lut@);
    }
    if cov == 255 {
        lut_store(dst_row, lut, idx);
        proof {
            assert forall|j: int| 0 <= j < before.len() implies #[trigger] dst_row@[j] == gradient_sources(covs, idx@, lut@)[j] by {
                lemma_full_coverage(lut@, idx@[j]);
            }
            assert(dst_row@ =~= gradient_sources(covs, idx@, lut@));
        }
        return;
    }
    gradient_span_uniform(dst_row, cov, idx, lut);
}

/// Blends a gradient row and appends its sources to `out`.
pub fn gradient_row_capture(dst_row: &mut [u32], cov_row: &[u8], idx: &[u32], lut: &[u32], out: &mut Vec<u32>)
    requires
        old(dst_row)@.len() == cov_row@.len(),
        idx@.len() >= cov_row@.len(),
        is_premultiplied(lut@),
        old(out)@.len() + cov_row@.len() <= usize::MAX,
    ensures
        final(dst_row)@ == gradient_blended(old(dst_row)@, cov_row@, idx@, lut@),
        final(out)@ == old(out)@ + gradient_sources(cov_row@, idx@, lut@),
{
    let ghost before = dst_row@;
    let ghost out0 = out@;
    let base: usize = out.len();
    let n: usize = dst_row.len();
    out.resize(base + n, 0);
    capture_at(out, base, cov_row, idx, lut);
    composite_over_span(dst_row, vstd::slice::slice_subrange(out.as_slice(), base, base + n), 255);
    proof {
        let srcs = gradient_sources(cov_row@, idx@, lut@);
        assert(out@ =~= out0 + srcs);
        assert(out@.subrange(base as int, base + n) =~= srcs);
        assert forall|j: int| 0 <= j < before.len() implies #[trigger] dst_row@[j] == gradient_blended(
            before,
            cov_row@,
            idx@,
            lut@,
        )[j] by {
            blend::law_scale_by_255(srcs[j]);
        }
        assert(dst_row@ =~= gradient_blended(before, cov_row@, idx@, lut@));
    }
}

/// Computes a row's sources into `out` from `base` on.
fn capture_at(out: &mut Vec<u32>, base: usize, cov_row: &[u8], idx: &[u32], lut: &[u32])
    requires
        old(out)@.len() == base + cov_row@.len(),
        idx@.len() >= cov_row@.len(),
        is_premultiplied(lut@),
    ensures
        final(out)@ == old(out)@.take(base as int) + gradient_sources(cov_row@, idx@, lut@),
{
    let whole: &mut [u32] = out.as_mut_slice();
    let (_head, srcs) = whole.split_at_mut(base);
    gradient_srcs(srcs, cov_row, idx, lut);
}

/// Fills a clear gradient row and appends its sources to `out`.
pub fn gradient_row_capture_clear(dst_row: &mut [u32], cov_row: &[u8], idx: &[u32], lut: &[u32], out: &mut Vec<u32>)
    requires
        is_clear(old(dst_row)@),
        old(dst_row)@.len() == cov_row@.len(),
        idx@.len() >= cov_row@.len(),
        is_premultiplied(lut@),
        old(out)@.len() + cov_row@.len() <= usize::MAX,
    ensures
        final(dst_row)@ == gradient_sources(cov_row@, idx@, lut@),
        final(out)@ == old(out)@ + gradient_sources(cov_row@, idx@, lut@),
{
    let ghost out0 = out@;
    let base: usize = out.len();
    let n: usize = dst_row.len();
    let total: usize = base + n;
    out.resize(total, 0);
    capture_at(out, base, cov_row, idx, lut);
    let ghost srcs = gradient_sources(cov_row@, idx@, lut@);
    assert(out@ =~= out0 + srcs);
    let mut i: usize = 0;
    while i < n
        invariant
            i <= n,
            n == dst_row@.len(),
            n == srcs.len(),
            base + n == total,
            out@.len() == total,
            out@ == out0 + srcs,
            out0.len() == base,
            forall|j: int| 0 <= j < i ==> #[trigger] dst_row@[j] == srcs[j],
        decreases n - i,
    {
        dst_row[i] = out[base + i];
        i = i + 1;
    }
    assert(dst_row@ =~= srcs);
}

/// A gradient is blended pixel by pixel: each pixel gets the color that its own index names, faded by
/// its own coverage; pixels without coverage bytes stay.
pub proof fn law_gradients_are_blended_pixel_by_pixel(
    dst: Seq<u32>,
    cov: Seq<u8>,
    idx: Seq<u32>,
    lut: Seq<u32>,
    i: int,
)
    requires
        0 <= i < dst.len(),
    ensures
        gradient_blended(dst, cov, idx, lut).len() == dst.len(),
        i >= cov.len() ==> gradient_blended(dst, cov, idx, lut)[i] == dst[i],
        i < cov.len() && idx[i] < lut.len() ==> gradient_blended(dst, cov, idx, lut)[i]
            == blend::over_px(dst[i], blend::gradient_src(cov[i] as int, lut[idx[i] as int])),
        i < cov.len() && idx[i] >= lut.len() ==> gradient_blended(dst, cov, idx, lut)[i]
            == blend::over_px(dst[i], blend::gradient_src(cov[i] as int, 0)),
        i < cov.len() ==> gradient_sources(cov, idx, lut)[i] == sampled(
            lut,
            cov[i] as int,
            idx[i],
        ),
        gradient_sources(cov, idx, lut).len() == cov.len(),
{
}

/// Without coverage a gradient puts nothing, and with full coverage the color of the table.
pub proof fn law_gradients_follow_their_coverage(lut: Seq<u32>, i: u32)
    requires
        is_premultiplied(lut),
        i < lut.len(),
    ensures
        sampled(lut, 0, i) == 0,
        sampled(lut, 255, i) == lut[i as int],
{
    lemma_no_coverage(lut, i);
    lemma_full_coverage(lut, i);
}

} // verus!
