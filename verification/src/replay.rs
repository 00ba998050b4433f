//! Replaying a cached plane gives the same pixels, and marks the same rectangle, as painting what it was
//! captured from.

use vstd::prelude::*;
use crate::argb;
use crate::blend;
use crate::canvas;
use crate::canvas::{Paint, Segment};
use crate::dirty::DirtyBox;
use crate::fill;
use crate::gradient;
use crate::spans;

verus! {

/// Without coverage a paint puts nothing on a pixel.
pub proof fn law_no_coverage_no_source(paint: Paint, len: nat, i: int)
    requires
        paint.wf(len),
    ensures
        paint.source(i, 0) == 0,
{
    match paint {
        Paint::Solid { sr, sg, sb, sa } => {
            argb::lemma_mul255(0, sa as int);
            argb::lemma_mul255(sr as int, 0);
            argb::lemma_mul255(sg as int, 0);
            argb::lemma_mul255(sb as int, 0);
        },
        Paint::Gradient { lut, index } => {
            gradient::lemma_no_coverage(lut@, index@[i]);
        },
    }
}

proof fn lemma_paint_append(pixels: Seq<u32>, a: Seq<Segment>, b: Seq<Segment>, w: int, paint: Paint)
    requires
        forall|i: int| 0 <= i < a.len() ==> (#[trigger] a[i]).hi(w) <= pixels.len(),
    ensures
        canvas::paint_segments(pixels, a, w, paint).len() == pixels.len(),
        canvas::paint_segments(pixels, a + b, w, paint) == canvas::paint_segments(
            canvas::paint_segments(pixels, a, w, paint),
            b,
            w,
            paint,
        ),
    decreases a.len(),
{
    if a.len() == 0 {
        assert(a + b =~= b);
    } else {
        assert((a + b).skip(1) =~= a.skip(1) + b);
        assert((a + b)[0] == a[0]);
        assert forall|i: int| 0 <= i < a.skip(1).len() implies (#[trigger] a.skip(1)[i]).hi(w) <= pixels.len() by {
            assert(a.skip(1)[i] == a[i + 1]);
        }
        lemma_paint_append(canvas::paint_at(pixels, a[0].lo(w), a[0].cov, paint), a.skip(1), b, w, paint);
    }
}

proof fn lemma_row_segments_shift(
    rows0: Seq<(u32, u32, u32)>,
    rows: Seq<(u32, u32, u32)>,
    data0: Seq<u8>,
    data: Seq<u8>,
    k: int,
    off: int,
)
    requires
        0 <= k,
        0 <= off <= data.len(),
    ensures
        canvas::row_segments(rows0 + rows, data0 + data, rows0.len() + k, data0.len() + off) == canvas::row_segments(
            rows,
            data,
            k,
            off,
        ),
    decreases rows.len() - k,
{
    if k < rows.len() && off + rows[k].2 <= data.len() {
        let n = rows[k].2 as int;
        assert((rows0 + rows)[rows0.len() + k] == rows[k]);
        assert((data0 + data).subrange(data0.len() + off, data0.len() + off + n) =~= data.subrange(off, off + n));
        lemma_row_segments_shift(rows0, rows, data0, data, k + 1, off + n);
    }
}

/// Painting the spans `i..j` of one row one by one: each covered pixel gets the coverage of the span
/// over it, and no other pixel changes.
proof fn lemma_paint_row_of_spans(pixels: Seq<u32>, list: Seq<u64>, i: int, j: int, w: int, paint: Paint)
    requires
        spans::spans_sorted(list),
        0 <= i <= j <= list.len(),
        i < list.len(),
        forall|k: int| i <= k < j ==> spans::span_y(#[trigger] list[k]) == spans::span_y(list[i]),
        forall|k: int| i <= k < j ==> fill::span_in(#[trigger] list[k], w, pixels.len()),
    ensures
        ({
            let base = spans::span_y(list[i]) * w;
            let painted = canvas::paint_segments(pixels, canvas::span_segments(list.subrange(i, j)), w, paint);
            &&& painted.len() == pixels.len()
            &&& forall|p: int|
                0 <= p < pixels.len() ==> #[trigger] painted[p] == if exists|m: int|
                    i <= m < j && spans::span_x(#[trigger] list[m]) <= p - base < spans::span_end(list[m]) {
                    blend::over_px(pixels[p], paint.source(p, spans::cover_in(list, i, j, p - base) as u8))
                } else {
                    pixels[p]
                }
        }),
    decreases j - i,
{
    let base = spans::span_y(list[i]) * w;
    let segs = canvas::span_segments(list.subrange(i, j));
    let painted = canvas::paint_segments(pixels, segs, w, paint);
    if i == j {
        assert(segs.len() == 0);
    } else {
        lemma_paint_row_of_spans(pixels, list, i, j - 1, w, paint);
        let segs0 = canvas::span_segments(list.subrange(i, j - 1));
        let before = canvas::paint_segments(pixels, segs0, w, paint);
        let seg = canvas::span_segment(list[j - 1]);
        assert(segs =~= segs0.push(seg));
        assert forall|k: int| 0 <= k < segs0.len() implies (#[trigger] segs0[k]).hi(w) <= pixels.len() by {
            assert(segs0[k] == canvas::span_segment(list[i + k]));
            assert(fill::span_in(list[i + k], w, pixels.len()));
        }
        assert(fill::span_in(list[j - 1], w, pixels.len()));
        fill::lemma_paint_push(pixels, segs0, seg, w, paint);
        assert(seg.lo(w) == base + spans::span_x(list[j - 1]));
        assert forall|p: int| 0 <= p < pixels.len() implies #[trigger] painted[p] == if exists|m: int|
            i <= m < j && spans::span_x(#[trigger] list[m]) <= p - base < spans::span_end(list[m]) {
            blend::over_px(pixels[p], paint.source(p, spans::cover_in(list, i, j, p - base) as u8))
        } else {
            pixels[p]
        } by {
            let x = p - base;
            spans::lemma_cover_last(list, i, j - 1, x);
            if spans::span_x(list[j - 1]) <= x < spans::span_end(list[j - 1]) {
                assert forall|m: int| i <= m < j - 1 implies !(spans::span_x(#[trigger] list[m]) <= x < spans::span_end(list[m])) by {
                    assert(spans::span_before(list[m], list[j - 1]));
                }
                assert(before[p] == pixels[p]);
            } else {
                assert(painted[p] == before[p]);
                if exists|m: int| i <= m < j && spans::span_x(#[trigger] list[m]) <= x < spans::span_end(list[m]) {
                    let m = choose|m: int| i <= m < j && spans::span_x(#[trigger] list[m]) <= x < spans::span_end(list[m]);
                    assert(m < j - 1);
                    assert(i <= m < j - 1 && spans::span_x(list[m]) <= x < spans::span_end(list[m]));
                }
            }
        }
    }
}

proof fn lemma_row_is_its_spans(pixels: Seq<u32>, list: Seq<u64>, i: int, j: int, w: int, paint: Paint)
    requires
        spans::spans_sorted(list),
        0 <= i < j <= list.len(),
        forall|k: int| i <= k < j ==> spans::span_y(#[trigger] list[k]) == spans::span_y(list[i]),
        forall|k: int| i <= k < j ==> fill::span_in(#[trigger] list[k], w, pixels.len()),
        paint.wf(pixels.len()),
    ensures
        canvas::paint_at(
            pixels,
            spans::span_y(list[i]) * w + spans::span_x(list[i]),
            spans::row_bytes(list, i, j),
            paint,
        ) == canvas::paint_segments(pixels, canvas::span_segments(list.subrange(i, j)), w, paint),
{
    let base = spans::span_y(list[i]) * w;
    let lo = base + spans::span_x(list[i]);
    let bytes = spans::row_bytes(list, i, j);
    let one = canvas::paint_at(pixels, lo, bytes, paint);
    let many = canvas::paint_segments(pixels, canvas::span_segments(list.subrange(i, j)), w, paint);
    lemma_paint_row_of_spans(pixels, list, i, j, w, paint);
    spans::lemma_sorted_row(list, i, j);
    assert forall|p: int| 0 <= p < pixels.len() implies #[trigger] one[p] == many[p] by {
        let x = p - base;
        if exists|m: int| i <= m < j && spans::span_x(#[trigger] list[m]) <= x < spans::span_end(list[m]) {
            let m = choose|m: int| i <= m < j && spans::span_x(#[trigger] list[m]) <= x < spans::span_end(list[m]);
            assert(spans::span_x(list[i]) <= span_x_of(list, m) && spans::span_end(list[m]) <= spans::span_end(list[j - 1]));
            assert(lo <= p < lo + bytes.len());
            assert(bytes[p - lo] == spans::cover_in(list, i, j, x) as u8);
        } else {
            if lo <= p < lo + bytes.len() {
                spans::lemma_cover_none(list, i, j, x);
                assert(bytes[p - lo] == 0);
                law_no_coverage_no_source(paint, pixels.len(), p);
                blend::law_over_clear_source(pixels[p]);
            }
        }
    }
    assert(one =~= many);
}

spec fn span_x_of(list: Seq<u64>, m: int) -> int {
    spans::span_x(list[m])
}

/// The row that starts with the span at `i`, as one segment.
spec fn row_from(list: Seq<u64>, i: int) -> Segment {
    Segment {
        y: spans::span_y(list[i]),
        x: spans::span_x(list[i]),
        cov: spans::row_bytes(list, i, spans::next_row(list, i)),
    }
}

/// Unfolded to rows, a span list is the row that its first span starts and the rows of the rest.
proof fn lemma_first_row(list: Seq<u64>, i: int)
    requires
        spans::spans_sorted(list),
        0 <= i < list.len(),
    ensures
        ({
            let j = spans::next_row(list, i);
            &&& i < j <= list.len()
            &&& forall|k: int| i <= k < j ==> spans::span_y(#[trigger] list[k]) == spans::span_y(list[i])
            &&& j < list.len() ==> spans::span_y(list[j]) != spans::span_y(list[i])
            &&& row_from(list, i).cov.len() == spans::span_end(list[j - 1]) - spans::span_x(list[i])
            &&& canvas::row_segments(spans::plane_rows(list, i), spans::plane_bytes(list, i), 0, 0)
                == seq![row_from(list, i)] + canvas::row_segments(
                spans::plane_rows(list, j),
                spans::plane_bytes(list, j),
                0,
                0,
            )
        }),
{
    let y = spans::span_y(list[i]);
    spans::lemma_row_end(list, y, i + 1);
    let j = spans::next_row(list, i);
    assert forall|k: int| i <= k < j implies spans::span_y(#[trigger] list[k]) == y by {}
    spans::lemma_sorted_row(list, i, j);
    let rows = spans::plane_rows(list, i);
    let data = spans::plane_bytes(list, i);
    let bytes = spans::row_bytes(list, i, j);
    let rest_rows = spans::plane_rows(list, j);
    let rest_data = spans::plane_bytes(list, j);
    let row = (y as u32, spans::span_x(list[i]) as u32, spans::row_extent(list, i, j) as u32);
    let n = row.2 as int;
    assert(rows == seq![row] + rest_rows);
    assert(data == bytes + rest_data);
    assert(bytes.len() == n);
    assert(data.subrange(0, n) =~= bytes);
    lemma_row_segments_shift(seq![row], rest_rows, bytes, rest_data, 0, 0);
    assert(rows[0] == row);
    assert(canvas::row_segments(rows, data, 0, 0) == seq![row_from(list, i)]
        + canvas::row_segments(rows, data, 1, n));
}

/// The spans of one row and those after it.
proof fn lemma_row_of_spans(list: Seq<u64>, i: int, j: int, w: int, len: nat)
    requires
        0 <= i <= j <= list.len(),
        forall|k: int| 0 <= k < list.len() ==> fill::span_in(#[trigger] list[k], w, len),
    ensures
        canvas::span_segments(list.skip(i)) == canvas::span_segments(list.subrange(i, j))
            + canvas::span_segments(list.skip(j)),
        forall|k: int|
            0 <= k < canvas::span_segments(list.subrange(i, j)).len() ==> (
            #[trigger] canvas::span_segments(list.subrange(i, j))[k]).hi(w) <= len,
{
    let a = canvas::span_segments(list.subrange(i, j));
    assert(canvas::span_segments(list.skip(i)) =~= a + canvas::span_segments(list.skip(j)));
    assert forall|k: int| 0 <= k < a.len() implies (#[trigger] a[k]).hi(w) <= len by {
        assert(a[k] == canvas::span_segment(list[i + k]));
        assert(fill::span_in(list[i + k], w, len));
    }
}

proof fn lemma_rows_are_spans_from(pixels: Seq<u32>, list: Seq<u64>, i: int, w: int, paint: Paint)
    requires
        spans::spans_sorted(list),
        0 <= i <= list.len(),
        forall|k: int| 0 <= k < list.len() ==> fill::span_in(#[trigger] list[k], w, pixels.len()),
        paint.wf(pixels.len()),
    ensures
        canvas::paint_segments(
            pixels,
            canvas::row_segments(spans::plane_rows(list, i), spans::plane_bytes(list, i), 0, 0),
            w,
            paint,
        ) == canvas::paint_segments(pixels, canvas::span_segments(list.skip(i)), w, paint),
    decreases list.len() - i,
{
    let segs = canvas::row_segments(spans::plane_rows(list, i), spans::plane_bytes(list, i), 0, 0);
    if i == list.len() {
        assert(canvas::span_segments(list.skip(i)).len() == 0);
        assert(segs.len() == 0);
    } else {
        lemma_first_row(list, i);
        let j = spans::next_row(list, i);
        let seg = row_from(list, i);
        assert(segs.skip(1) =~= canvas::row_segments(
            spans::plane_rows(list, j),
            spans::plane_bytes(list, j),
            0,
            0,
        ));
        assert(fill::span_in(list[j - 1], w, pixels.len()));
        assert(spans::span_y(list[j - 1]) == spans::span_y(list[i]));
        lemma_row_is_its_spans(pixels, list, i, j, w, paint);
        lemma_rows_are_spans_from(canvas::paint_at(pixels, seg.lo(w), seg.cov, paint), list, j, w, paint);
        lemma_row_of_spans(list, i, j, w, pixels.len());
        lemma_paint_append(
            pixels,
            canvas::span_segments(list.subrange(i, j)),
            canvas::span_segments(list.skip(j)),
            w,
            paint,
        );
    }
}

/// A span list and the row plane that it unfolds to paint the same pixels.
pub proof fn law_row_replay_is_span_replay(pixels: Seq<u32>, list: Seq<u64>, w: int, paint: Paint)
    requires
        spans::spans_sorted(list),
        forall|k: int| 0 <= k < list.len() ==> fill::span_in(#[trigger] list[k], w, pixels.len()),
        paint.wf(pixels.len()),
    ensures
        canvas::paint_segments(
            pixels,
            canvas::row_segments(spans::plane_rows(list, 0), spans::plane_bytes(list, 0), 0, 0),
            w,
            paint,
        ) == canvas::paint_segments(pixels, canvas::span_segments(list), w, paint),
{
    lemma_rows_are_spans_from(pixels, list, 0, w, paint);
    assert(list.skip(0) =~= list);
}

/// A plane that was captured from a fresh rasterization replays to the pixels that the rasterization
/// painted.
pub proof fn law_captured_spans_replay_exactly(pixels: Seq<u32>, list: Seq<u64>, w: int, paint: Paint)
    requires
        spans::spans_sorted(list),
        forall|k: int| 0 <= k < list.len() ==> fill::span_in(#[trigger] list[k], w, pixels.len()),
        paint.wf(pixels.len()),
    ensures
        canvas::paint_segments(pixels, fill::plane_segments(fill::captured_plane(list)), w, paint)
            == canvas::paint_segments(pixels, canvas::span_segments(list), w, paint),
{
    law_row_replay_is_span_replay(pixels, list, w, paint);
}

/// True where a segment's row, column and length fit a row record.
pub open spec fn recordable(seg: Segment) -> bool {
    0 <= seg.y <= u32::MAX && 0 <= seg.x <= u32::MAX && seg.cov.len() <= u32::MAX
}

proof fn lemma_source_plane_prefix(segs: Seq<Segment>, w: int, paint: Paint, n: int, len: nat)
    requires
        0 <= n <= fill::fitting_prefix(segs, w, len),
    ensures
        fill::fitting_prefix(segs, w, len) <= segs.len(),
        forall|k: int| 0 <= k < fill::fitting_prefix(segs, w, len) ==> (#[trigger] segs[k]).hi(w) <= len,
        fill::source_plane(segs, w, paint, n).0.len() == n,
    decreases segs.len(), n,
{
    if segs.len() > 0 && segs[0].hi(w) <= len {
        let rest = fill::fitting_prefix(segs.skip(1), w, len);
        lemma_fitting_prefix_nonnegative(segs.skip(1), w, len);
        lemma_source_plane_prefix(segs.skip(1), w, paint, 0, len);
        assert forall|k: int| 0 <= k < fill::fitting_prefix(segs, w, len) implies (#[trigger] segs[k]).hi(w) <= len by {
            if k > 0 {
                assert(segs.skip(1)[k - 1] == segs[k]);
            }
        }
    }
    lemma_source_plane_rows(segs, w, paint, n);
}

proof fn lemma_fitting_prefix_nonnegative(segs: Seq<Segment>, w: int, len: nat)
    ensures
        0 <= fill::fitting_prefix(segs, w, len) <= segs.len(),
    decreases segs.len(),
{
    if segs.len() > 0 && segs[0].hi(w) <= len {
        lemma_fitting_prefix_nonnegative(segs.skip(1), w, len);
    }
}

proof fn lemma_source_plane_rows(segs: Seq<Segment>, w: int, paint: Paint, n: int)
    requires
        0 <= n,
    ensures
        fill::source_plane(segs, w, paint, n).0.len() == n,
    decreases n,
{
    if n > 0 {
        lemma_source_plane_rows(segs, w, paint, n - 1);
    }
}

/// The rows of a source plane, and where each row's sources lie in it.
proof fn lemma_source_plane_row(segs: Seq<Segment>, w: int, paint: Paint, n: int, k: int)
    requires
        0 <= k < n <= segs.len(),
        forall|i: int| 0 <= i < segs.len() ==> recordable(#[trigger] segs[i]),
    ensures
        ({
            let plane = fill::source_plane(segs, w, paint, n);
            let off = fill::source_plane(segs, w, paint, k).1.len() as int;
            &&& plane.0.len() == n
            &&& plane.0[k] == (segs[k].y as u32, segs[k].x as u32, segs[k].cov.len() as u32)
            &&& off + segs[k].cov.len() <= plane.1.len()
            &&& off + segs[k].cov.len() == fill::source_plane(segs, w, paint, k + 1).1.len()
            &&& plane.1.subrange(off, off + segs[k].cov.len()) == fill::segment_sources(segs[k], w, paint)
        }),
    decreases n,
{
    lemma_source_plane_rows(segs, w, paint, n);
    lemma_source_plane_rows(segs, w, paint, n - 1);
    let off = fill::source_plane(segs, w, paint, k).1.len() as int;
    let plane = fill::source_plane(segs, w, paint, n);
    if k < n - 1 {
        lemma_source_plane_row(segs, w, paint, n - 1, k);
        let before = fill::source_plane(segs, w, paint, n - 1);
        assert(plane.1.subrange(off, off + segs[k].cov.len()) =~= before.1.subrange(off, off + segs[k].cov.len()));
    } else {
        assert(plane.1.subrange(off, off + segs[k].cov.len()) =~= fill::segment_sources(segs[k], w, paint));
    }
}

proof fn lemma_source_replay_from(pixels: Seq<u32>, segs: Seq<Segment>, w: int, paint: Paint, k: int)
    requires
        forall|i: int| 0 <= i < segs.len() ==> recordable(#[trigger] segs[i]),
        0 <= k <= fill::fitting_prefix(segs, w, pixels.len()),
        fill::fitting_prefix(segs, w, pixels.len()) == k + fill::fitting_prefix(segs.skip(k), w, pixels.len()),
    ensures
        ({
            let n = fill::fitting_prefix(segs, w, pixels.len());
            let plane = fill::source_plane(segs, w, paint, n);
            let off = fill::source_plane(segs, w, paint, k).1.len() as int;
            fill::over_rows(pixels, plane.0, plane.1, w, k, off) == canvas::paint_segments(pixels, segs.skip(k), w, paint)
        }),
    decreases segs.len() - k,
{
    let len = pixels.len();
    let n = fill::fitting_prefix(segs, w, len);
    let plane = fill::source_plane(segs, w, paint, n);
    let off = fill::source_plane(segs, w, paint, k).1.len() as int;
    lemma_source_plane_prefix(segs, w, paint, n, len);
    if k == n {
        assert(fill::fitting_prefix(segs.skip(k), w, len) == 0);
        lemma_fitting_prefix_nonnegative(segs.skip(k).skip(1), w, len);
    } else {
        lemma_source_plane_row(segs, w, paint, n, k);
        let seg = segs[k];
        assert(recordable(seg));
        assert(segs.skip(k)[0] == seg);
        assert(segs.skip(k).skip(1) =~= segs.skip(k + 1));
        assert(seg.hi(w) <= len);
        let srcs = fill::segment_sources(seg, w, paint);
        let mid = canvas::paint_at(pixels, seg.lo(w), seg.cov, paint);
        assert(fill::over_at(pixels, seg.lo(w), srcs) =~= mid);
        lemma_source_replay_from(mid, segs, w, paint, k + 1);
    }
}

/// A captured source plane replays to the pixels that the paint itself gives.
pub proof fn law_source_replay_is_exact(pixels: Seq<u32>, segs: Seq<Segment>, w: int, paint: Paint)
    requires
        forall|i: int| 0 <= i < segs.len() ==> recordable(#[trigger] segs[i]),
    ensures
        ({
            let plane = fill::source_plane(segs, w, paint, fill::fitting_prefix(segs, w, pixels.len()));
            fill::over_rows(pixels, plane.0, plane.1, w, 0, 0) == canvas::paint_segments(pixels, segs, w, paint)
        }),
{
    lemma_fitting_prefix_nonnegative(segs, w, pixels.len());
    assert(segs.skip(0) =~= segs);
    lemma_source_replay_from(pixels, segs, w, paint, 0);
}

/// True where the span at `i` is the first of its row.
pub open spec fn starts_row(list: Seq<u64>, i: int) -> bool {
    i == 0 || spans::span_y(list[i - 1]) != spans::span_y(list[i])
}

/// True where the row of the spans `i..j` has pixels in its first column and in its last, or no column
/// at all.
pub open spec fn row_has_ends(list: Seq<u64>, i: int, j: int) -> bool {
    ||| spans::row_extent(list, i, j) == 0
    ||| {
        &&& exists|m: int|
            i <= m < j && #[trigger] spans::span_len(list[m]) > 0 && spans::span_x(list[m])
                == spans::span_x(list[i])
        &&& exists|m: int|
            i <= m < j && #[trigger] spans::span_len(list[m]) > 0 && spans::span_end(list[m])
                == spans::span_end(list[j - 1])
    }
}

/// True where every row of a span list has pixels in its first column and in its last. A span without
/// pixels marks nothing, while a row is marked from its first column to its last.
pub open spec fn rows_have_ends(list: Seq<u64>) -> bool {
    forall|i: int|
        0 <= i < list.len() && #[trigger] starts_row(list, i) ==> row_has_ends(
            list,
            i,
            spans::next_row(list, i),
        )
}

proof fn lemma_mark_append(b: DirtyBox, x: Seq<Segment>, y: Seq<Segment>, w: int, len: nat)
    requires
        forall|i: int| 0 <= i < x.len() ==> (#[trigger] x[i]).hi(w) <= len,
    ensures
        canvas::mark_segments(b, x + y, w, len) == canvas::mark_segments(
            canvas::mark_segments(b, x, w, len),
            y,
            w,
            len,
        ),
    decreases x.len(),
{
    if x.len() == 0 {
        assert(x + y =~= y);
    } else {
        assert((x + y).skip(1) =~= x.skip(1) + y);
        assert((x + y)[0] == x[0]);
        assert forall|i: int| 0 <= i < x.skip(1).len() implies (#[trigger] x.skip(1)[i]).hi(w)
            <= len by {
            assert(x.skip(1)[i] == x[i + 1]);
        }
        lemma_mark_append(
            b.marked(x[0].y as usize, x[0].x as usize, (x[0].x + x[0].cov.len()) as usize),
            x.skip(1),
            y,
            w,
            len,
        );
    }
}

/// The first column of the spans `i..k` of one row that holds a pixel and the one after the last, or
/// the same column twice where none does.
spec fn pixel_extent(list: Seq<u64>, i: int, k: int) -> (int, int)
    decreases k - i,
{
    if k <= i {
        (0, 0)
    } else {
        let before = pixel_extent(list, i, k - 1);
        let s = list[k - 1];
        if spans::span_len(s) == 0 {
            before
        } else if before.0 == before.1 {
            (spans::span_x(s), spans::span_end(s))
        } else {
            (before.0, spans::span_end(s))
        }
    }
}

/// Marking the spans `i..k` of one row one by one marks the row from its first pixel to its last.
proof fn lemma_mark_row_of_spans(b: DirtyBox, list: Seq<u64>, i: int, k: int, w: int, len: nat)
    requires
        spans::spans_sorted(list),
        0 <= i <= k <= list.len(),
        forall|m: int| i <= m < k ==> spans::span_y(#[trigger] list[m]) == spans::span_y(list[i]),
        forall|m: int| i <= m < k ==> fill::span_in(#[trigger] list[m], w, len),
    ensures
        ({
            let e = pixel_extent(list, i, k);
            &&& e.0 <= e.1
            &&& e.0 < e.1 ==> i < k && spans::span_x(list[i]) <= e.0 && e.1 <= spans::span_end(
                list[k - 1],
            )
            &&& forall|m: int|
                i <= m < k && #[trigger] spans::span_len(list[m]) > 0 ==> e.0 <= spans::span_x(
                    list[m],
                ) && spans::span_end(list[m]) <= e.1
            &&& canvas::mark_segments(b, canvas::span_segments(list.subrange(i, k)), w, len)
                == b.marked(spans::span_y(list[i]) as usize, e.0 as usize, e.1 as usize)
        }),
    decreases k - i,
{
    if k == i {
        assert(canvas::span_segments(list.subrange(i, k)).len() == 0);
    } else {
        let segs = canvas::span_segments(list.subrange(i, k));
        let last = canvas::span_segment(list[k - 1]);
        let before = canvas::span_segments(list.subrange(i, k - 1));
        assert(segs =~= before.push(last));
        assert(fill::span_in(list[k - 1], w, len));
        assert forall|m: int| 0 <= m < before.len() implies (#[trigger] before[m]).hi(w) <= len by {
            assert(before[m] == canvas::span_segment(list[i + m]));
            assert(fill::span_in(list[i + m], w, len));
        }
        fill::lemma_mark_push(b, before, last, w, len);
        lemma_mark_row_of_spans(b, list, i, k - 1, w, len);
        assert(spans::span_y(list[k - 1]) == spans::span_y(list[i]));
        if k - 1 > i {
            assert(spans::span_before(list[i], list[k - 1]));
            assert(spans::span_before(list[k - 2], list[k - 1]));
            assert(spans::span_y(list[k - 2]) == spans::span_y(list[i]));
        }
        assert forall|m: int| i <= m < k && #[trigger] spans::span_len(list[m]) > 0 implies {
            let e = pixel_extent(list, i, k);
            e.0 <= spans::span_x(list[m]) && spans::span_end(list[m]) <= e.1
        } by {
            if m < k - 1 {
                assert(spans::span_before(list[m], list[k - 1]));
                assert(spans::span_y(list[m]) == spans::span_y(list[i]));
            }
        }
    }
}

proof fn lemma_marks_from(b: DirtyBox, list: Seq<u64>, i: int, w: int, len: nat)
    requires
        spans::spans_sorted(list),
        rows_have_ends(list),
        0 <= i <= list.len(),
        i < list.len() ==> starts_row(list, i),
        forall|k: int| 0 <= k < list.len() ==> fill::span_in(#[trigger] list[k], w, len),
    ensures
        canvas::mark_segments(
            b,
            canvas::row_segments(spans::plane_rows(list, i), spans::plane_bytes(list, i), 0, 0),
            w,
            len,
        ) == canvas::mark_segments(b, canvas::span_segments(list.skip(i)), w, len),
    decreases list.len() - i,
{
    let segs = canvas::row_segments(spans::plane_rows(list, i), spans::plane_bytes(list, i), 0, 0);
    if i == list.len() {
        assert(canvas::span_segments(list.skip(i)).len() == 0);
        assert(segs.len() == 0);
    } else {
        lemma_first_row(list, i);
        let j = spans::next_row(list, i);
        let seg = row_from(list, i);
        let rest = canvas::row_segments(spans::plane_rows(list, j), spans::plane_bytes(list, j), 0, 0);
        assert(segs.skip(1) =~= rest);
        assert(segs[0] == seg);
        assert(fill::span_in(list[j - 1], w, len));
        assert(spans::span_y(list[j - 1]) == spans::span_y(list[i]));
        assert(row_has_ends(list, i, j));
        lemma_mark_row_of_spans(b, list, i, j, w, len);
        lemma_row_of_spans(list, i, j, w, len);
        lemma_mark_append(
            b,
            canvas::span_segments(list.subrange(i, j)),
            canvas::span_segments(list.skip(j)),
            w,
            len,
        );
        lemma_marks_from(
            b.marked(seg.y as usize, seg.x as usize, (seg.x + seg.cov.len()) as usize),
            list,
            j,
            w,
            len,
        );
    }
}

/// A plane that was captured from a fresh rasterization marks the rectangle that the rasterization
/// marked.
pub proof fn law_captured_spans_mark_exactly(b: DirtyBox, list: Seq<u64>, w: int, len: nat)
    requires
        spans::spans_sorted(list),
        rows_have_ends(list),
        forall|k: int| 0 <= k < list.len() ==> fill::span_in(#[trigger] list[k], w, len),
    ensures
        canvas::mark_segments(b, fill::plane_segments(fill::captured_plane(list)), w, len)
            == canvas::mark_segments(b, canvas::span_segments(list), w, len),
{
    lemma_marks_from(b, list, 0, w, len);
    assert(list.skip(0) =~= list);
}

proof fn lemma_source_marks_from(
    b: DirtyBox,
    segs: Seq<Segment>,
    w: int,
    paint: Paint,
    len: nat,
    k: int,
)
    requires
        forall|i: int| 0 <= i < segs.len() ==> recordable(#[trigger] segs[i]),
        0 <= k <= fill::fitting_prefix(segs, w, len),
        fill::fitting_prefix(segs, w, len) == k + fill::fitting_prefix(segs.skip(k), w, len),
    ensures
        ({
            let plane = fill::source_plane(segs, w, paint, fill::fitting_prefix(segs, w, len));
            let off = fill::source_plane(segs, w, paint, k).1.len() as int;
            fill::mark_rows(b, plane.0, plane.1.len(), w, len, k, off) == canvas::mark_segments(
                b,
                segs.skip(k),
                w,
                len,
            )
        }),
    decreases segs.len() - k,
{
    let n = fill::fitting_prefix(segs, w, len);
    lemma_source_plane_prefix(segs, w, paint, n, len);
    if k == n {
        assert(fill::fitting_prefix(segs.skip(k), w, len) == 0);
        lemma_fitting_prefix_nonnegative(segs.skip(k).skip(1), w, len);
    } else {
        lemma_source_plane_row(segs, w, paint, n, k);
        let seg = segs[k];
        assert(recordable(seg));
        assert(segs.skip(k)[0] == seg);
        assert(segs.skip(k).skip(1) =~= segs.skip(k + 1));
        assert(seg.hi(w) <= len);
        lemma_source_marks_from(
            b.marked(seg.y as usize, seg.x as usize, (seg.x + seg.cov.len()) as usize),
            segs,
            w,
            paint,
            len,
            k + 1,
        );
    }
}

/// A captured source plane marks the rectangle that painting itself marks.
pub proof fn law_source_marks_are_exact(
    b: DirtyBox,
    segs: Seq<Segment>,
    w: int,
    paint: Paint,
    len: nat,
)
    requires
        forall|i: int| 0 <= i < segs.len() ==> recordable(#[trigger] segs[i]),
    ensures
        ({
            let plane = fill::source_plane(segs, w, paint, fill::fitting_prefix(segs, w, len));
            fill::mark_rows(b, plane.0, plane.1.len(), w, len, 0, 0) == canvas::mark_segments(
                b,
                segs,
                w,
                len,
            )
        }),
{
    lemma_fitting_prefix_nonnegative(segs, w, len);
    assert(segs.skip(0) =~= segs);
    lemma_source_marks_from(b, segs, w, paint, len, 0);
}

proof fn lemma_fitting_row_segments(
    rows: Seq<(u32, u32, u32)>,
    data: Seq<u8>,
    w: int,
    len: nat,
    n: int,
)
    requires
        0 <= n <= rows.len(),
        fill::row_offset(rows, rows.len() as int) <= data.len(),
    ensures
        ({
            let fit = fill::fitting_rows(rows, data, w, len, n);
            canvas::row_segments(fit.0, fit.1, 0, 0) == fit.2
        }),
    decreases n,
{
    if n > 0 {
        lemma_fitting_row_segments(rows, data, w, len, n - 1);
        let before = fill::fitting_rows(rows, data, w, len, n - 1);
        let seg = fill::row_segment(rows, data, n - 1);
        fill::lemma_row_offset_monotone(rows, n, rows.len() as int);
        fill::lemma_row_offset_monotone(rows, n - 1, n);
        if seg.hi(w) <= len {
            lemma_rows_whole(rows, data, w, len, n - 1);
            lemma_row_segments_push(before.0, before.1, rows[n - 1], seg.cov, 0, 0);
        }
    }
}

/// The kept rows have all of their bytes and no others.
proof fn lemma_rows_whole(rows: Seq<(u32, u32, u32)>, data: Seq<u8>, w: int, len: nat, n: int)
    requires
        0 <= n <= rows.len(),
        fill::row_offset(rows, rows.len() as int) <= data.len(),
    ensures
        ({
            let fit = fill::fitting_rows(rows, data, w, len, n);
            fill::row_offset(fit.0, fit.0.len() as int) == fit.1.len()
        }),
    decreases n,
{
    if n > 0 {
        lemma_rows_whole(rows, data, w, len, n - 1);
        let before = fill::fitting_rows(rows, data, w, len, n - 1);
        let fit = fill::fitting_rows(rows, data, w, len, n);
        fill::lemma_row_offset_monotone(rows, n, rows.len() as int);
        fill::lemma_row_offset_monotone(rows, n - 1, n);
        if fill::row_segment(rows, data, n - 1).hi(w) <= len {
            lemma_offset_prefix(before.0, fit.0, before.0.len() as int);
        }
    }
}

proof fn lemma_offset_prefix(a: Seq<(u32, u32, u32)>, b: Seq<(u32, u32, u32)>, n: int)
    requires
        n <= a.len(),
        n <= b.len(),
        forall|i: int| 0 <= i < n ==> a[i] == b[i],
    ensures
        fill::row_offset(a, n) == fill::row_offset(b, n),
    decreases n,
{
    if n > 0 {
        lemma_offset_prefix(a, b, n - 1);
    }
}

proof fn lemma_row_segments_push(
    rows: Seq<(u32, u32, u32)>,
    data: Seq<u8>,
    row: (u32, u32, u32),
    bytes: Seq<u8>,
    k: int,
    off: int,
)
    requires
        0 <= k <= rows.len(),
        off == fill::row_offset(rows, k),
        fill::row_offset(rows, rows.len() as int) == data.len(),
        row.2 == bytes.len(),
    ensures
        canvas::row_segments(rows.push(row), data + bytes, k, off) == canvas::row_segments(
            rows,
            data,
            k,
            off,
        ).push(Segment { y: row.0 as int, x: row.1 as int, cov: bytes }),
    decreases rows.len() - k,
{
    let all = canvas::row_segments(rows.push(row), data + bytes, k, off);
    fill::lemma_row_offset_monotone(rows, k, rows.len() as int);
    if k == rows.len() {
        assert((data + bytes).subrange(off, off + row.2) =~= bytes);
        assert(canvas::row_segments(rows.push(row), data + bytes, k + 1, off + row.2).len() == 0);
        assert(all =~= canvas::row_segments(rows, data, k, off).push(
            Segment { y: row.0 as int, x: row.1 as int, cov: bytes },
        ));
    } else {
        let n = rows[k].2 as int;
        fill::lemma_row_offset_monotone(rows, k + 1, rows.len() as int);
        assert((data + bytes).subrange(off, off + n) =~= data.subrange(off, off + n));
        lemma_row_segments_push(rows, data, row, bytes, k + 1, off + n);
        assert(all =~= canvas::row_segments(rows, data, k, off).push(
            Segment { y: row.0 as int, x: row.1 as int, cov: bytes },
        ));
    }
}

/// The rows that were captured from a fresh rasterization replay to what the rasterization painted and
/// marked.
pub proof fn law_captured_rows_replay_exactly(
    pixels: Seq<u32>,
    b: DirtyBox,
    rows: Seq<(u32, u32, u32)>,
    data: Seq<u8>,
    w: int,
    paint: Paint,
)
    requires
        fill::row_offset(rows, rows.len() as int) == data.len(),
    ensures
        ({
            let fit = fill::fitting_rows(rows, data, w, pixels.len(), rows.len() as int);
            let segs = canvas::row_segments(fit.0, fit.1, 0, 0);
            &&& canvas::paint_segments(pixels, segs, w, paint) == canvas::paint_segments(
                pixels,
                fit.2,
                w,
                paint,
            )
            &&& canvas::mark_segments(b, segs, w, pixels.len()) == canvas::mark_segments(
                b,
                fit.2,
                w,
                pixels.len(),
            )
        }),
{
    lemma_fitting_row_segments(rows, data, w, pixels.len(), rows.len() as int);
}

/// A gradient that comes from a plane captured from rows, or from the sources of that plane, leaves the
/// pixels and the rectangle that it leaves when it is painted afresh.
pub proof fn law_cached_row_gradient_is_fresh(
    pixels: Seq<u32>,
    b: DirtyBox,
    rows: Seq<(u32, u32, u32)>,
    data: Seq<u8>,
    w: int,
    paint: Paint,
)
    requires
        fill::row_offset(rows, rows.len() as int) == data.len(),
        paint.wf(pixels.len()),
    ensures
        ({
            let len = pixels.len();
            let fit = fill::fitting_rows(rows, data, w, len, rows.len() as int);
            let cover = canvas::row_segments(fit.0, fit.1, 0, 0);
            let sources = fill::captured_sources(cover, w, paint, len);
            let fresh = canvas::paint_segments(pixels, fit.2, w, paint);
            let marked = canvas::mark_segments(b, fit.2, w, len);
            &&& canvas::paint_segments(pixels, cover, w, paint) == fresh
            &&& canvas::mark_segments(b, cover, w, len) == marked
            &&& sources.data is Src
            &&& fill::over_rows(pixels, sources.rows, sources.data->Src_0, w, 0, 0) == fresh
            &&& fill::mark_rows(b, sources.rows, sources.data->Src_0.len(), w, len, 0, 0) == marked
        }),
{
    let fit = fill::fitting_rows(rows, data, w, pixels.len(), rows.len() as int);
    let cover = canvas::row_segments(fit.0, fit.1, 0, 0);
    law_captured_rows_replay_exactly(pixels, b, rows, data, w, paint);
    lemma_rows_recordable(fit.0, fit.1, 0, 0);
    law_source_replay_is_exact(pixels, cover, w, paint);
    law_source_marks_are_exact(b, cover, w, paint, pixels.len());
}

/// A gradient that comes from a plane captured from spans, or from the sources of that plane, leaves the
/// pixels and the rectangle that it leaves when it is painted afresh.
pub proof fn law_cached_span_gradient_is_fresh(
    pixels: Seq<u32>,
    b: DirtyBox,
    list: Seq<u64>,
    w: int,
    paint: Paint,
)
    requires
        spans::spans_sorted(list),
        rows_have_ends(list),
        forall|k: int| 0 <= k < list.len() ==> fill::span_in(#[trigger] list[k], w, pixels.len()),
        paint.wf(pixels.len()),
    ensures
        ({
            let len = pixels.len();
            let cover = fill::plane_segments(fill::captured_plane(list));
            let sources = fill::captured_sources(cover, w, paint, len);
            let fresh = canvas::paint_segments(pixels, canvas::span_segments(list), w, paint);
            let marked = canvas::mark_segments(b, canvas::span_segments(list), w, len);
            &&& canvas::paint_segments(pixels, cover, w, paint) == fresh
            &&& canvas::mark_segments(b, cover, w, len) == marked
            &&& sources.data is Src
            &&& fill::over_rows(pixels, sources.rows, sources.data->Src_0, w, 0, 0) == fresh
            &&& fill::mark_rows(b, sources.rows, sources.data->Src_0.len(), w, len, 0, 0) == marked
        }),
{
    let cover = fill::plane_segments(fill::captured_plane(list));
    law_captured_spans_replay_exactly(pixels, list, w, paint);
    law_captured_spans_mark_exactly(b, list, w, pixels.len());
    if list.len() * 4 > fill::span_pixels(list) {
        lemma_rows_recordable(spans::plane_rows(list, 0), spans::plane_bytes(list, 0), 0, 0);
    } else {
        assert forall|i: int| 0 <= i < cover.len() implies recordable(#[trigger] cover[i]) by {
            assert(cover[i] == canvas::span_segment(list[i]));
        }
    }
    law_source_replay_is_exact(pixels, cover, w, paint);
    law_source_marks_are_exact(b, cover, w, paint, pixels.len());
}

proof fn lemma_rows_recordable(rows: Seq<(u32, u32, u32)>, data: Seq<u8>, k: int, off: int)
    requires
        0 <= off,
    ensures
        forall|i: int|
            0 <= i < canvas::row_segments(rows, data, k, off).len() ==> recordable(
                #[trigger] canvas::row_segments(rows, data, k, off)[i],
            ),
    decreases rows.len() - k,
{
    if !(k < 0 || k >= rows.len() || off + rows[k].2 > data.len()) {
        lemma_rows_recordable(rows, data, k + 1, off + rows[k].2);
        let rest = canvas::row_segments(rows, data, k + 1, off + rows[k].2);
        assert forall|i: int| 0 <= i < canvas::row_segments(rows, data, k, off).len() implies recordable(
            #[trigger] canvas::row_segments(rows, data, k, off)[i],
        ) by {
            if i > 0 {
                assert(canvas::row_segments(rows, data, k, off)[i] == rest[i - 1]);
            }
        }
    }
}

} // verus!
