//! Painting planes onto a canvas: fresh coverage, and cached planes replayed.

use vstd::prelude::*;
use crate::blend;
use crate::blend::{fill_span_solid, fill_span_uniform};
use crate::dirty;
use crate::dirty::DirtyBox;
use crate::gradient;
use crate::gradient::{gradient_row, gradient_span_uniform};
use crate::spans;
use crate::spans::unpack_span;

verus! {

/// What a paint puts on covered pixels.
pub enum Paint<'a> {
    /// A straight-alpha color, every channel in `0..=255`.
    Solid {
        /// Red.
        sr: u32,
        /// Green.
        sg: u32,
        /// Blue.
        sb: u32,
        /// Alpha.
        sa: u32,
    },
    /// A gradient: its premultiplied lookup table, and the table index of every canvas pixel.
    Gradient {
        /// The lookup table.
        lut: &'a [u32],
        /// The table index of each pixel.
        index: &'a [u32],
    },
}

impl<'a> Paint<'a> {
    /// True for a paint that fits a canvas of `len` pixels.
    pub open spec fn wf(self, len: nat) -> bool {
        match self {
            Paint::Solid { sr, sg, sb, sa } => sr <= 255 && sg <= 255 && sb <= 255 && sa <= 255,
            Paint::Gradient { lut, index } => index@.len() == len && gradient::is_premultiplied(lut@),
        }
    }

    /// The premultiplied source that the paint puts on pixel `i` under coverage `cov`.
    pub open spec fn source(self, i: int, cov: u8) -> u32 {
        match self {
            Paint::Solid { sr, sg, sb, sa } => blend::solid_px(cov as int, sr as int, sg as int, sb as int, sa as int),
            Paint::Gradient { lut, index } => gradient::sampled(lut@, cov as int, index@[i]),
        }
    }
}

/// A run of covered pixels in one row.
pub struct Segment {
    /// The row.
    pub y: int,
    /// The first column.
    pub x: int,
    /// The coverage of each pixel.
    pub cov: Seq<u8>,
}

impl Segment {
    /// The index of the first pixel on a canvas of width `w`.
    pub open spec fn lo(self, w: int) -> int {
        self.y * w + self.x
    }

    /// The index after the last pixel on a canvas of width `w`.
    pub open spec fn hi(self, w: int) -> int {
        self.lo(w) + self.cov.len()
    }
}

/// The plane that `pixels` becomes when a paint covers the pixels from `lo` on.
pub open spec fn paint_at(pixels: Seq<u32>, lo: int, cov: Seq<u8>, paint: Paint) -> Seq<u32> {
    Seq::new(
        pixels.len(),
        |i: int|
            if lo <= i < lo + cov.len() {
                blend::over_px(pixels[i], paint.source(i, cov[i - lo]))
            } else {
                pixels[i]
            },
    )
}

/// The plane that `pixels` becomes when a paint covers segment after segment. The first segment that
/// does not fit ends it.
pub open spec fn paint_segments(pixels: Seq<u32>, segs: Seq<Segment>, w: int, paint: Paint) -> Seq<u32>
    decreases segs.len(),
{
    if segs.len() == 0 || segs[0].hi(w) > pixels.len() {
        pixels
    } else {
        paint_segments(paint_at(pixels, segs[0].lo(w), segs[0].cov, paint), segs.skip(1), w, paint)
    }
}

/// Painting keeps the number of pixels.
pub proof fn lemma_paint_len(pixels: Seq<u32>, segs: Seq<Segment>, w: int, paint: Paint)
    ensures
        paint_segments(pixels, segs, w, paint).len() == pixels.len(),
    decreases segs.len(),
{
    if segs.len() > 0 && segs[0].hi(w) <= pixels.len() {
        lemma_paint_len(paint_at(pixels, segs[0].lo(w), segs[0].cov, paint), segs.skip(1), w, paint);
    }
}

/// The rectangle that `b` becomes when segment after segment is marked on a canvas of `len` pixels.
pub open spec fn mark_segments(b: DirtyBox, segs: Seq<Segment>, w: int, len: nat) -> DirtyBox
    decreases segs.len(),
{
    if segs.len() == 0 || segs[0].hi(w) > len {
        b
    } else {
        mark_segments(
            b.marked(segs[0].y as usize, segs[0].x as usize, (segs[0].x + segs[0].cov.len()) as usize),
            segs.skip(1),
            w,
            len,
        )
    }
}

/// The segment of one packed span.
pub open spec fn span_segment(s: u64) -> Segment {
    Segment {
        y: spans::span_y(s),
        x: spans::span_x(s),
        cov: dirty::constant(spans::span_len(s) as nat, spans::span_cov(s) as u8),
    }
}

/// The segments of a list of packed spans.
pub open spec fn span_segments(list: Seq<u64>) -> Seq<Segment> {
    list.map_values(|s: u64| span_segment(s))
}

/// The segments of the row records from `k` on, whose bytes start at `off`. The first row without
/// all of its bytes ends the list.
pub open spec fn row_segments(rows: Seq<(u32, u32, u32)>, data: Seq<u8>, k: int, off: int) -> Seq<Segment>
    decreases rows.len() - k,
{
    if k < 0 || k >= rows.len() || off + rows[k].2 > data.len() {
        Seq::empty()
    } else {
        seq![
            Segment { y: rows[k].0 as int, x: rows[k].1 as int, cov: data.subrange(off, off + rows[k].2) },
        ] + row_segments(rows, data, k + 1, off + rows[k].2)
    }
}

/// The bounds of a run of `n` pixels at column `x` of row `y`, if it lies in a plane of `len`
/// elements of stride `w`.
pub fn row_bounds(y: usize, x: usize, n: usize, w: usize, len: usize) -> (r: Option<(usize, usize)>)
    ensures
        match r {
            Some(b) => b.0 == y * w + x && b.1 == b.0 + n && b.1 <= len,
            None => y * w + x + n > len,
        },
{
    let base: usize = match y.checked_mul(w) {
        Some(base) => base,
        None => {
            return None;
        },
    };
    let lo: usize = match base.checked_add(x) {
        Some(lo) => lo,
        None => {
            return None;
        },
    };
    match lo.checked_add(n) {
        Some(hi) => {
            if hi <= len {
                Some((lo, hi))
            } else {
                None
            }
        },
        None => None,
    }
}

/// Covers the pixels from `lo` on with a paint under a coverage row.
pub fn paint_row(pixels: &mut [u32], lo: usize, cov_row: &[u8], paint: &Paint)
    requires
        lo + cov_row@.len() <= old(pixels)@.len(),
        paint.wf(old(pixels)@.len()),
    ensures
        final(pixels)@ == paint_at(old(pixels)@, lo as int, cov_row@, *paint),
{
    let ghost before = pixels@;
    let n: usize = cov_row.len();
    let len: usize = pixels.len();
    assert(lo + n <= len);
    let hi: usize = lo + n;
    let (_head, rest) = pixels.split_at_mut(lo);
    let (span, _tail) = rest.split_at_mut(n);
    match paint {
        Paint::Solid { sr, sg, sb, sa } => {
            fill_span_solid(span, cov_row, *sr, *sg, *sb, *sa);
        },
        Paint::Gradient { lut, index } => {
            gradient_row(span, cov_row, vstd::slice::slice_subrange(index, lo, hi), lut);
        },
    }
    assert(pixels@ =~= paint_at(before, lo as int, cov_row@, *paint));
}

/// Covers `n` pixels from `lo` on with a paint under one coverage byte.
pub fn paint_span(pixels: &mut [u32], lo: usize, n: usize, cov: u8, paint: &Paint)
    requires
        lo + n <= old(pixels)@.len(),
        paint.wf(old(pixels)@.len()),
    ensures
        final(pixels)@ == paint_at(old(pixels)@, lo as int, dirty::constant(n as nat, cov), *paint),
{
    let ghost before = pixels@;
    let len: usize = pixels.len();
    assert(lo + n <= len);
    let hi: usize = lo + n;
    let (_head, rest) = pixels.split_at_mut(lo);
    let (span, _tail) = rest.split_at_mut(n);
    match paint {
        Paint::Solid { sr, sg, sb, sa } => {
            fill_span_uniform(span, cov, *sr, *sg, *sb, *sa);
        },
        Paint::Gradient { lut, index } => {
            gradient_span_uniform(span, cov, vstd::slice::slice_subrange(index, lo, hi), lut);
        },
    }
    assert(pixels@ =~= paint_at(before, lo as int, dirty::constant(n as nat, cov), *paint));
}

/// Replays a row plane: covers each of its rows with a paint and marks it.
pub fn replay_rows(
    pixels: &mut [u32],
    dirty_box: &mut DirtyBox,
    w: usize,
    rows: &[(u32, u32, u32)],
    data: &[u8],
    paint: &Paint,
)
    requires
        paint.wf(old(pixels)@.len()),
    ensures
        final(pixels)@ == paint_segments(old(pixels)@, row_segments(rows@, data@, 0, 0), w as int, *paint),
        *final(dirty_box) == mark_segments(*old(dirty_box), row_segments(rows@, data@, 0, 0), w as int, old(pixels)@.len()),
{
    let ghost before = pixels@;
    let ghost box0 = *dirty_box;
    let ghost segs = row_segments(rows@, data@, 0, 0);
    let len: usize = pixels.len();
    let mut off: usize = 0;
    let mut k: usize = 0;
    while k < rows.len()
        invariant
            k <= rows@.len(),
            off <= data@.len(),
            before == old(pixels)@,
            box0 == *old(dirty_box),
            len == before.len(),
            pixels@.len() == len,
            paint.wf(len as nat),
            segs == row_segments(rows@, data@, 0, 0),
            paint_segments(pixels@, row_segments(rows@, data@, k as int, off as int), w as int, *paint) == paint_segments(
                before,
                segs,
                w as int,
                *paint,
            ),
            mark_segments(*dirty_box, row_segments(rows@, data@, k as int, off as int), w as int, len as nat)
                == mark_segments(box0, segs, w as int, len as nat),
        decreases rows@.len() - k,
    {
        let (y, x0, n) = rows[k];
        let ghost here = row_segments(rows@, data@, k as int, off as int);
        if data.len() - off < n as usize {
            assert(here.len() == 0);
            return;
        }
        assert(here.skip(1) =~= row_segments(rows@, data@, k + 1, off + n));
        match row_bounds(y as usize, x0 as usize, n as usize, w, len) {
            None => {
                return;
            },
            Some((lo, _hi)) => {
                dirty_box.mark_row(y as usize, x0 as usize, x0 as usize + n as usize);
                paint_row(pixels, lo, vstd::slice::slice_subrange(data, off, off + n as usize), paint);
            },
        }
        off = off + n as usize;
        k = k + 1;
    }
}

/// Replays a span list: covers each span with a paint and marks it.
pub fn replay_spans(pixels: &mut [u32], dirty_box: &mut DirtyBox, w: usize, list: &[u64], paint: &Paint)
    requires
        paint.wf(old(pixels)@.len()),
    ensures
        final(pixels)@ == paint_segments(old(pixels)@, span_segments(list@), w as int, *paint),
        *final(dirty_box) == mark_segments(*old(dirty_box), span_segments(list@), w as int, old(pixels)@.len()),
{
    let ghost before = pixels@;
    let ghost box0 = *dirty_box;
    let ghost segs = span_segments(list@);
    let len: usize = pixels.len();
    let mut k: usize = 0;
    assert(segs.skip(0) =~= segs);
    while k < list.len()
        invariant
            k <= list@.len(),
            before == old(pixels)@,
            box0 == *old(dirty_box),
            len == before.len(),
            pixels@.len() == len,
            paint.wf(len as nat),
            segs == span_segments(list@),
            paint_segments(pixels@, segs.skip(k as int), w as int, *paint) == paint_segments(before, segs, w as int, *paint),
            mark_segments(*dirty_box, segs.skip(k as int), w as int, len as nat) == mark_segments(
                box0,
                segs,
                w as int,
                len as nat,
            ),
        decreases list@.len() - k,
    {
        let (y, x0, n, cov) = unpack_span(list[k]);
        assert(segs.skip(k as int)[0] == span_segment(list@[k as int]));
        assert(segs.skip(k as int).skip(1) =~= segs.skip(k + 1));
        match row_bounds(y, x0, n, w, len) {
            None => {
                return;
            },
            Some((lo, _hi)) => {
                dirty_box.mark_row(y, x0, x0 + n);
                paint_span(pixels, lo, n, cov, paint);
            },
        }
        k = k + 1;
    }
}

/// Painting one run of a row puts the paint over the pixels of the run, each under its own coverage,
/// and leaves every other pixel of the canvas as it is.
pub proof fn law_painting_stays_in_its_run(
    pixels: Seq<u32>,
    s: Segment,
    w: int,
    h: int,
    paint: Paint,
    x: int,
    y: int,
)
    requires
        pixels.len() == w * h,
        0 <= s.x,
        s.x + s.cov.len() <= w,
        0 <= s.y < h,
        0 <= x < w,
        0 <= y < h,
    ensures
        0 <= y * w + x < w * h,
        paint_segments(pixels, seq![s], w, paint)[y * w + x] == (if y == s.y && s.x <= x < s.x
            + s.cov.len() {
            blend::over_px(pixels[y * w + x], paint.source(y * w + x, s.cov[x - s.x]))
        } else {
            pixels[y * w + x]
        }),
{
    let (n, sx, sy) = (s.cov.len() as int, s.x, s.y);
    assert(0 <= y * w + x < w * h) by (nonlinear_arith)
        requires
            0 <= x < w,
            0 <= y < h,
    ;
    assert(sy * w + sx + n <= w * h) by (nonlinear_arith)
        requires
            sx + n <= w,
            0 <= sy < h,
            w > 0,
    ;
    assert(seq![s].skip(1).len() == 0);
    assert(paint_segments(pixels, seq![s], w, paint) == paint_at(pixels, s.lo(w), s.cov, paint)) by {
        reveal_with_fuel(paint_segments, 2);
    }
    if s.lo(w) <= y * w + x < s.lo(w) + n {
        assert(y == sy) by (nonlinear_arith)
            requires
                sy * w + sx <= y * w + x,
                y * w + x < sy * w + sx + n,
                sx + n <= w,
                0 <= sx,
                0 <= x < w,
        ;
    }
}

/// Segments are painted one after another: two lists give what the first gives, painted over with
/// the second, where every segment of the first fits; nothing is painted from a segment on that
/// does not fit.
pub proof fn law_segments_are_painted_in_turn(
    pixels: Seq<u32>,
    a: Seq<Segment>,
    b: Seq<Segment>,
    w: int,
    paint: Paint,
)
    requires
        forall|k: int| 0 <= k < a.len() ==> (#[trigger] a[k]).y * w + a[k].x + a[k].cov.len()
            <= pixels.len(),
    ensures
        paint_segments(pixels, a + b, w, paint) == paint_segments(
            paint_segments(pixels, a, w, paint),
            b,
            w,
            paint,
        ),
        b.len() > 0 && b[0].y * w + b[0].x + b[0].cov.len() > pixels.len() ==> paint_segments(
            pixels,
            a + b,
            w,
            paint,
        ) == paint_segments(pixels, a, w, paint),
    decreases a.len(),
{
    lemma_paint_len(pixels, a, w, paint);
    if a.len() == 0 {
        assert(a + b =~= b);
    } else {
        assert((a + b).skip(1) =~= a.skip(1) + b);
        assert((a + b)[0] == a[0]);
        let next = paint_at(pixels, a[0].lo(w), a[0].cov, paint);
        assert forall|k: int| 0 <= k < a.skip(1).len() implies (#[trigger] a.skip(1)[k]).y * w
            + a.skip(1)[k].x + a.skip(1)[k].cov.len() <= next.len() by {
            assert(a.skip(1)[k] == a[k + 1]);
        }
        law_segments_are_painted_in_turn(next, a.skip(1), b, w, paint);
    }
}

/// Every segment that fits is noted, in turn, as the columns of its row.
pub proof fn law_segments_are_noted_in_turn(
    b: DirtyBox,
    s: Segment,
    rest: Seq<Segment>,
    w: int,
    len: nat,
)
    requires
        0 <= s.y <= usize::MAX,
        0 <= s.x,
        s.x + s.cov.len() <= usize::MAX,
    ensures
        mark_segments(b, Seq::empty(), w, len) == b,
        s.y * w + s.x + s.cov.len() <= len ==> mark_segments(b, seq![s] + rest, w, len)
            == mark_segments(
            b.marked(s.y as usize, s.x as usize, (s.x + s.cov.len()) as usize),
            rest,
            w,
            len,
        ),
        s.y * w + s.x + s.cov.len() > len ==> mark_segments(b, seq![s] + rest, w, len) == b,
{
    assert((seq![s] + rest).skip(1) =~= rest);
    assert((seq![s] + rest)[0] == s);
}

/// A packed span covers as many pixels as it is long, from its column on, all of them alike.
pub proof fn law_spans_have_one_coverage(list: Seq<u64>, k: int, i: int)
    requires
        0 <= k < list.len(),
        0 <= i < spans::span_len(list[k]),
    ensures
        span_segments(list).len() == list.len(),
        span_segments(list)[k].y == spans::span_y(list[k]),
        span_segments(list)[k].x == spans::span_x(list[k]),
        span_segments(list)[k].cov.len() == spans::span_len(list[k]),
        span_segments(list)[k].cov[i] == spans::span_cov(list[k]) as u8,
{
}

/// Row records take their bytes one after another: the first takes as many as it is long, and the
/// next one goes on behind them. A row without all of its bytes is left out, with all that follow.
pub proof fn law_rows_take_their_bytes_in_turn(
    rows: Seq<(u32, u32, u32)>,
    data: Seq<u8>,
    k: int,
    off: int,
    i: int,
)
    requires
        0 <= k < rows.len(),
        0 <= off,
        0 <= i < rows[k].2,
    ensures
        off + rows[k].2 > data.len() ==> row_segments(rows, data, k, off).len() == 0,
        off + rows[k].2 <= data.len() ==> {
            let segs = row_segments(rows, data, k, off);
            &&& segs.len() > 0
            &&& segs[0].y == rows[k].0
            &&& segs[0].x == rows[k].1
            &&& segs[0].cov.len() == rows[k].2
            &&& segs[0].cov[i] == data[off + i]
            &&& segs.skip(1) == row_segments(rows, data, k + 1, off + rows[k].2)
        },
        row_segments(rows, data, rows.len() as int, off).len() == 0,
{
    if off + rows[k].2 <= data.len() {
        let segs = row_segments(rows, data, k, off);
        assert(segs.skip(1) =~= row_segments(rows, data, k + 1, off + rows[k].2));
    }
}

/// A solid paint is the same at every pixel; a gradient takes the color that the pixel's own index
/// names.
pub proof fn law_paints_are_found_at_their_pixel(paint: Paint, i: int, j: int, cov: u8)
    ensures
        paint is Solid ==> paint.source(i, cov) == paint.source(j, cov),
        paint is Gradient && paint->index@[i] == paint->index@[j] ==> paint.source(i, cov)
            == paint.source(j, cov),
        paint is Solid ==> paint.source(i, cov) == blend::solid_px(
            cov as int,
            paint->sr as int,
            paint->sg as int,
            paint->sb as int,
            paint->sa as int,
        ),
        paint is Gradient ==> paint.source(i, cov) == gradient::sampled(
            paint->lut@,
            cov as int,
            paint->index@[i],
        ),
{
}

} // verus!
