//! Solid and gradient fills through the plane cache.

use vstd::prelude::*;
use crate::blend;
use crate::blend::composite_over_span;
use crate::canvas;
use crate::canvas::{paint_row, paint_span, replay_rows, replay_spans, row_bounds, Paint, Segment};
use crate::cov_cache;
use crate::cov_cache::{CovCache, COV_ENTRY_MAX};
use crate::dirty;
use crate::dirty::DirtyBox;
use crate::gradient::gradient_row_capture;
use crate::plane::{CovEntry, EntryView, PlaneData, PlaneSeq};
use crate::spans;
use crate::spans::{pre_size, spans_fragmented, spans_to_cov_entry, unpack_span};

verus! {

/// A longer span capture could not be admitted to the cache.
pub const SPAN_CAPTURE_MAX: usize = 32768;

/// True where a packed span lies in a plane of `len` pixels.
pub open spec fn span_in(s: u64, w: int, len: nat) -> bool {
    canvas::span_segment(s).hi(w) <= len
}

/// Those of the first `n` spans that lie in a plane of `len` pixels.
pub open spec fn fitting_spans(list: Seq<u64>, w: int, len: nat, n: int) -> Seq<u64>
    decreases n,
{
    if n <= 0 {
        Seq::empty()
    } else if span_in(list[n - 1], w, len) {
        fitting_spans(list, w, len, n - 1).push(list[n - 1])
    } else {
        fitting_spans(list, w, len, n - 1)
    }
}

/// The number of pixels of a span list.
pub open spec fn span_pixels(list: Seq<u64>) -> int
    decreases list.len(),
{
    if list.len() == 0 {
        0
    } else {
        span_pixels(list.drop_last()) + spans::span_len(list.last())
    }
}

/// The plane that is cached for a span list: rows where its spans are short on average, else the
/// spans themselves.
pub open spec fn captured_plane(list: Seq<u64>) -> EntryView {
    if list.len() * 4 > span_pixels(list) {
        EntryView { rows: spans::plane_rows(list, 0), data: PlaneSeq::Cov(spans::plane_bytes(list, 0)) }
    } else {
        EntryView { rows: Seq::empty(), data: PlaneSeq::Spans(list) }
    }
}

/// The spans that lie in a plane keep their order.
pub proof fn lemma_fitting_sorted(list: Seq<u64>, w: int, len: nat, n: int)
    requires
        spans::spans_sorted(list),
        0 <= n <= list.len(),
    ensures
        spans::spans_sorted(fitting_spans(list, w, len, n)),
        forall|i: int, m: int|
            #![trigger fitting_spans(list, w, len, n)[i], list[m]]
            0 <= i < fitting_spans(list, w, len, n).len() && n <= m < list.len() ==> spans::span_before(
                fitting_spans(list, w, len, n)[i],
                list[m],
            ),
        forall|i: int|
            0 <= i < fitting_spans(list, w, len, n).len() ==> span_in(#[trigger] fitting_spans(list, w, len, n)[i], w, len),
        fitting_spans(list, w, len, n).len() <= n,
    decreases n,
{
    if n > 0 {
        lemma_fitting_sorted(list, w, len, n - 1);
    }
}

/// One more segment at the end: painted last.
pub proof fn lemma_paint_push(pixels: Seq<u32>, segs: Seq<Segment>, seg: Segment, w: int, paint: Paint)
    requires
        forall|i: int| 0 <= i < segs.len() ==> (#[trigger] segs[i]).hi(w) <= pixels.len(),
        seg.hi(w) <= pixels.len(),
    ensures
        canvas::paint_segments(pixels, segs, w, paint).len() == pixels.len(),
        canvas::paint_segments(pixels, segs.push(seg), w, paint) == canvas::paint_at(
            canvas::paint_segments(pixels, segs, w, paint),
            seg.lo(w),
            seg.cov,
            paint,
        ),
    decreases segs.len(),
{
    if segs.len() == 0 {
        assert(segs.push(seg).skip(1) =~= Seq::<Segment>::empty());
        reveal_with_fuel(canvas::paint_segments, 2);
    } else {
        assert(segs.push(seg).skip(1) =~= segs.skip(1).push(seg));
        assert forall|i: int| 0 <= i < segs.skip(1).len() implies (#[trigger] segs.skip(1)[i]).hi(w) <= pixels.len() by {
            assert(segs.skip(1)[i] == segs[i + 1]);
        }
        lemma_paint_push(canvas::paint_at(pixels, segs[0].lo(w), segs[0].cov, paint), segs.skip(1), seg, w, paint);
    }
}

/// One more segment at the end: marked last.
pub proof fn lemma_mark_push(b: DirtyBox, segs: Seq<Segment>, seg: Segment, w: int, len: nat)
    requires
        forall|i: int| 0 <= i < segs.len() ==> (#[trigger] segs[i]).hi(w) <= len,
        seg.hi(w) <= len,
    ensures
        canvas::mark_segments(b, segs.push(seg), w, len) == canvas::mark_segments(b, segs, w, len).marked(
            seg.y as usize,
            seg.x as usize,
            (seg.x + seg.cov.len()) as usize,
        ),
    decreases segs.len(),
{
    if segs.len() == 0 {
        assert(segs.push(seg).skip(1) =~= Seq::<Segment>::empty());
        reveal_with_fuel(canvas::mark_segments, 2);
    } else {
        assert(segs.push(seg).skip(1) =~= segs.skip(1).push(seg));
        assert forall|i: int| 0 <= i < segs.skip(1).len() implies (#[trigger] segs.skip(1)[i]).hi(w) <= len by {
            assert(segs.skip(1)[i] == segs[i + 1]);
        }
        lemma_mark_push(
            b.marked(segs[0].y as usize, segs[0].x as usize, (segs[0].x + segs[0].cov.len()) as usize),
            segs.skip(1),
            seg,
            w,
            len,
        );
    }
}

/// Paints the spans of a fresh rasterization and offers them to the cache under `key`. Spans outside
/// the plane are dropped; a capture of too many spans is not offered.
pub fn fill_spans(
    cache: &mut CovCache,
    key: u128,
    pixels: &mut [u32],
    dirty_box: &mut DirtyBox,
    w: usize,
    list: &[u64],
    paint: &Paint,
)
    requires
        old(cache).wf(),
        paint.wf(old(pixels)@.len()),
        spans::spans_sorted(list@),
    ensures
        final(cache).wf(),
        ({
            let fit = fitting_spans(list@, w as int, old(pixels)@.len(), list@.len() as int);
            let segs = canvas::span_segments(fit);
            &&& final(pixels)@ == canvas::paint_segments(old(pixels)@, segs, w as int, *paint)
            &&& *final(dirty_box) == canvas::mark_segments(*old(dirty_box), segs, w as int, old(pixels)@.len())
            &&& if fit.len() > SPAN_CAPTURE_MAX {
                *final(cache) == *old(cache)
            } else {
                final(cache).offered_from(*old(cache), key, captured_plane(fit))
            }
        }),
{
    let ghost before = pixels@;
    let ghost box0 = *dirty_box;
    let ghost cache0 = *cache;
    let len: usize = pixels.len();
    let capture: bool = cache.capture_enabled();
    let mut captured: Vec<u64> = Vec::new();
    let mut px_total: usize = 0;
    let mut overflow: bool = false;
    let mut k: usize = 0;
    while k < list.len()
        invariant
            k <= list@.len(),
            len == before.len(),
            pixels@.len() == len,
            paint.wf(len as nat),
            spans::spans_sorted(list@),
            ({
                let fit = fitting_spans(list@, w as int, len as nat, k as int);
                let segs = canvas::span_segments(fit);
                &&& pixels@ == canvas::paint_segments(before, segs, w as int, *paint)
                &&& *dirty_box == canvas::mark_segments(box0, segs, w as int, len as nat)
                &&& capture ==> overflow == (fit.len() > SPAN_CAPTURE_MAX)
                &&& capture && !overflow ==> captured@ == fit && px_total == span_pixels(fit)
            }),
            captured@.len() <= SPAN_CAPTURE_MAX,
            px_total <= captured@.len() * 0xffff,
        decreases list@.len() - k,
    {
        let s: u64 = list[k];
        let (y, x0, n, cov) = unpack_span(s);
        let ghost fit = fitting_spans(list@, w as int, len as nat, k as int);
        let ghost segs = canvas::span_segments(fit);
        proof {
            lemma_fitting_sorted(list@, w as int, len as nat, k as int);
            assert forall|i: int| 0 <= i < segs.len() implies (#[trigger] segs[i]).hi(w as int) <= len by {
                assert(span_in(fit[i], w as int, len as nat));
            }
        }
        match row_bounds(y, x0, n, w, len) {
            None => {},
            Some((lo, _hi)) => {
                proof {
                    lemma_paint_push(before, segs, canvas::span_segment(s), w as int, *paint);
                    lemma_mark_push(box0, segs, canvas::span_segment(s), w as int, len as nat);
                    assert(canvas::span_segments(fit.push(s)) =~= segs.push(canvas::span_segment(s)));
                    assert(fit.push(s).drop_last() =~= fit);
                }
                dirty_box.mark_row(y, x0, x0 + n);
                if capture {
                    if captured.len() < SPAN_CAPTURE_MAX {
                        captured.push(s);
                        px_total = px_total + n;
                    } else {
                        overflow = true;
                    }
                }
                paint_span(pixels, lo, n, cov, paint);
            },
        }
        k = k + 1;
    }
    let ghost fit = fitting_spans(list@, w as int, len as nat, list@.len() as int);
    if overflow || !capture {
        proof {
            if !capture {
                assert(cache0.inserted_from(cache0, key, captured_plane(fit), usize::MAX));
            }
        }
        return;
    }
    proof {
        lemma_fitting_sorted(list@, w as int, len as nat, list@.len() as int);
    }
    let entry: CovEntry = if spans_fragmented(captured.as_slice(), px_total) {
        let (_nrows, nbytes) = pre_size(captured.as_slice());
        if nbytes > COV_ENTRY_MAX {
            assert(cache0.inserted_from(cache0, key, captured_plane(fit), usize::MAX));
            return;
        }
        spans_to_cov_entry(captured.as_slice())
    } else {
        let rows: Vec<(u32, u32, u32)> = Vec::new();
        CovEntry { rows, data: PlaneData::Spans(captured) }
    };
    assert(entry@ == captured_plane(fit));
    cache.insert(key, entry);
}

/// What replaying a cached coverage plane leaves: source planes are not coverage and leave nothing.
pub open spec fn plane_segments(e: EntryView) -> Seq<Segment> {
    match e.data {
        PlaneSeq::Cov(data) => canvas::row_segments(e.rows, data, 0, 0),
        PlaneSeq::Spans(list) => canvas::span_segments(list),
        PlaneSeq::Src(_) => Seq::empty(),
    }
}

/// Paints the plane that is cached under `key`, if there is one.
pub fn fill_cached(
    cache: &mut CovCache,
    key: u128,
    pixels: &mut [u32],
    dirty_box: &mut DirtyBox,
    w: usize,
    paint: &Paint,
) -> (hit: bool)
    requires
        old(cache).wf(),
        paint.wf(old(pixels)@.len()),
    ensures
        final(cache).wf(),
        hit == old(cache).resident().contains_key(key),
        hit ==> {
            let segs = plane_segments(old(cache).resident()[key]);
            &&& *final(cache) == old(cache).with_hit()
            &&& final(pixels)@ == canvas::paint_segments(old(pixels)@, segs, w as int, *paint)
            &&& *final(dirty_box) == canvas::mark_segments(*old(dirty_box), segs, w as int, old(pixels)@.len())
        },
        !hit ==> *final(cache) == *old(cache) && final(pixels)@ == old(pixels)@ && *final(dirty_box) == *old(dirty_box),
{
    match cache.get(key) {
        None => false,
        Some(e) => {
            match &e.data {
                PlaneData::Cov(data) => {
                    replay_rows(pixels, dirty_box, w, e.rows.as_slice(), data.as_slice(), paint);
                },
                PlaneData::Spans(list) => {
                    replay_spans(pixels, dirty_box, w, list.as_slice(), paint);
                },
                PlaneData::Src(_) => {},
            }
            true
        },
    }
}

/// The bytes of the first `n` rows.
pub open spec fn row_offset(rows: Seq<(u32, u32, u32)>, n: int) -> int
    decreases n,
{
    if n <= 0 {
        0
    } else {
        row_offset(rows, n - 1) + rows[n - 1].2
    }
}

/// The segment of row `k`.
pub open spec fn row_segment(rows: Seq<(u32, u32, u32)>, data: Seq<u8>, k: int) -> Segment {
    Segment {
        y: rows[k].0 as int,
        x: rows[k].1 as int,
        cov: data.subrange(row_offset(rows, k), row_offset(rows, k + 1)),
    }
}

/// The plane made of those of the first `n` rows that lie in a plane of `len` pixels.
pub open spec fn fitting_rows(rows: Seq<(u32, u32, u32)>, data: Seq<u8>, w: int, len: nat, n: int) -> (
    Seq<(u32, u32, u32)>,
    Seq<u8>,
    Seq<Segment>,
)
    decreases n,
{
    if n <= 0 {
        (Seq::empty(), Seq::empty(), Seq::empty())
    } else {
        let before = fitting_rows(rows, data, w, len, n - 1);
        let seg = row_segment(rows, data, n - 1);
        if seg.hi(w) <= len {
            (before.0.push(rows[n - 1]), before.1 + seg.cov, before.2.push(seg))
        } else {
            before
        }
    }
}

/// The bytes of rows add up.
pub proof fn lemma_row_offset_monotone(rows: Seq<(u32, u32, u32)>, i: int, n: int)
    requires
        0 <= i <= n,
    ensures
        0 <= row_offset(rows, i) <= row_offset(rows, n),
    decreases n,
{
    if i < n {
        lemma_row_offset_monotone(rows, i, n - 1);
    } else if n > 0 {
        lemma_row_offset_monotone(rows, n - 1, n - 1);
    }
}

proof fn lemma_fitting_rows(rows: Seq<(u32, u32, u32)>, data: Seq<u8>, w: int, len: nat, n: int)
    requires
        0 <= n <= rows.len(),
        row_offset(rows, rows.len() as int) <= data.len(),
    ensures
        forall|i: int|
            0 <= i < fitting_rows(rows, data, w, len, n).2.len() ==> (#[trigger] fitting_rows(rows, data, w, len, n).2[i]).hi(w) <= len,
        fitting_rows(rows, data, w, len, n).1.len() <= row_offset(rows, n),
    decreases n,
{
    if n > 0 {
        lemma_fitting_rows(rows, data, w, len, n - 1);
        lemma_row_offset_monotone(rows, n, rows.len() as int);
        lemma_row_offset_monotone(rows, n - 1, n);
    }
}

/// Paints the rows of a fresh rasterization and offers them to the cache under `key`. Rows outside
/// the plane are dropped.
pub fn fill_rows(
    cache: &mut CovCache,
    key: u128,
    pixels: &mut [u32],
    dirty_box: &mut DirtyBox,
    w: usize,
    rows: &[(u32, u32, u32)],
    data: &[u8],
    paint: &Paint,
)
    requires
        old(cache).wf(),
        paint.wf(old(pixels)@.len()),
        row_offset(rows@, rows@.len() as int) == data@.len(),
    ensures
        final(cache).wf(),
        ({
            let fit = fitting_rows(rows@, data@, w as int, old(pixels)@.len(), rows@.len() as int);
            &&& final(pixels)@ == canvas::paint_segments(old(pixels)@, fit.2, w as int, *paint)
            &&& *final(dirty_box) == canvas::mark_segments(*old(dirty_box), fit.2, w as int, old(pixels)@.len())
            &&& final(cache).offered_from(*old(cache), key, EntryView { rows: fit.0, data: PlaneSeq::Cov(fit.1) })
        }),
{
    let ghost before = pixels@;
    let ghost box0 = *dirty_box;
    let ghost cache0 = *cache;
    let len: usize = pixels.len();
    let capture: bool = cache.capture_enabled();
    let mut kept: Vec<(u32, u32, u32)> = Vec::new();
    let mut bytes: Vec<u8> = Vec::new();
    let total: usize = data.len();
    let mut off: usize = 0;
    let mut k: usize = 0;
    while k < rows.len()
        invariant
            k <= rows@.len(),
            off == row_offset(rows@, k as int),
            row_offset(rows@, rows@.len() as int) == total,
            data@.len() == total,
            len == before.len(),
            pixels@.len() == len,
            paint.wf(len as nat),
            ({
                let fit = fitting_rows(rows@, data@, w as int, len as nat, k as int);
                &&& pixels@ == canvas::paint_segments(before, fit.2, w as int, *paint)
                &&& *dirty_box == canvas::mark_segments(box0, fit.2, w as int, len as nat)
                &&& capture ==> kept@ == fit.0 && bytes@ == fit.1
            }),
        decreases rows@.len() - k,
    {
        let (y, x0, n) = rows[k];
        let ghost fit = fitting_rows(rows@, data@, w as int, len as nat, k as int);
        let ghost seg = row_segment(rows@, data@, k as int);
        proof {
            lemma_fitting_rows(rows@, data@, w as int, len as nat, k as int);
            lemma_row_offset_monotone(rows@, k + 1, rows@.len() as int);
            assert(seg.cov.len() == n);
        }
        let end: usize = off + n as usize;
        match row_bounds(y as usize, x0 as usize, n as usize, w, len) {
            None => {},
            Some((lo, _hi)) => {
                proof {
                    lemma_paint_push(before, fit.2, seg, w as int, *paint);
                    lemma_mark_push(box0, fit.2, seg, w as int, len as nat);
                }
                let cov_row: &[u8] = vstd::slice::slice_subrange(data, off, end);
                dirty_box.mark_row(y as usize, x0 as usize, x0 as usize + n as usize);
                if capture {
                    kept.push((y, x0, n));
                    extend(&mut bytes, cov_row);
                }
                paint_row(pixels, lo, cov_row, paint);
            },
        }
        off = end;
        k = k + 1;
    }
    let ghost fit = fitting_rows(rows@, data@, w as int, len as nat, rows@.len() as int);
    if capture {
        cache.insert(key, CovEntry { rows: kept, data: PlaneData::Cov(bytes) });
    } else {
        assert(cache0.inserted_from(cache0, key, EntryView { rows: fit.0, data: PlaneSeq::Cov(fit.1) }, usize::MAX));
    }
}

/// Appends a row of bytes.
fn extend(bytes: &mut Vec<u8>, row: &[u8])
    ensures
        final(bytes)@ == old(bytes)@ + row@,
{
    let ghost before = bytes@;
    let mut i: usize = 0;
    while i < row.len()
        invariant
            i <= row@.len(),
            bytes@ == before + row@.take(i as int),
        decreases row@.len() - i,
    {
        bytes.push(row[i]);
        assert(row@.take(i + 1) =~= row@.take(i as int).push(row@[i as int]));
        i = i + 1;
    }
    assert(row@.take(i as int) =~= row@);
}

/// The plane that `pixels` becomes when sources are composited over it from `lo` on.
pub open spec fn over_at(pixels: Seq<u32>, lo: int, srcs: Seq<u32>) -> Seq<u32> {
    Seq::new(
        pixels.len(),
        |i: int|
            if lo <= i < lo + srcs.len() {
                blend::over_px(pixels[i], srcs[i - lo])
            } else {
                pixels[i]
            },
    )
}

/// The plane that `pixels` becomes when the rows of a source plane from `k` on, whose pixels start at
/// `off`, are composited over it. The first row that does not fit, or that lacks pixels, ends it.
pub open spec fn over_rows(pixels: Seq<u32>, rows: Seq<(u32, u32, u32)>, data: Seq<u32>, w: int, k: int, off: int) -> Seq<u32>
    decreases rows.len() - k,
{
    if k < 0 || k >= rows.len() || off + rows[k].2 > data.len() || rows[k].0 * w + rows[k].1 + rows[k].2 > pixels.len() {
        pixels
    } else {
        over_rows(
            over_at(pixels, rows[k].0 * w + rows[k].1, data.subrange(off, off + rows[k].2)),
            rows,
            data,
            w,
            k + 1,
            off + rows[k].2,
        )
    }
}

/// Compositing rows keeps the number of pixels.
pub proof fn lemma_over_len(pixels: Seq<u32>, rows: Seq<(u32, u32, u32)>, data: Seq<u32>, w: int, k: int, off: int)
    ensures
        over_rows(pixels, rows, data, w, k, off).len() == pixels.len(),
    decreases rows.len() - k,
{
    if !(k < 0 || k >= rows.len() || off + rows[k].2 > data.len() || rows[k].0 * w + rows[k].1 + rows[k].2 > pixels.len()) {
        lemma_over_len(
            over_at(pixels, rows[k].0 * w + rows[k].1, data.subrange(off, off + rows[k].2)),
            rows,
            data,
            w,
            k + 1,
            off + rows[k].2,
        );
    }
}

/// The rectangle that `b` becomes when the same rows are marked.
pub open spec fn mark_rows(b: DirtyBox, rows: Seq<(u32, u32, u32)>, have: nat, w: int, len: nat, k: int, off: int) -> DirtyBox
    decreases rows.len() - k,
{
    if k < 0 || k >= rows.len() || off + rows[k].2 > have || rows[k].0 * w + rows[k].1 + rows[k].2 > len {
        b
    } else {
        mark_rows(
            b.marked(rows[k].0 as usize, rows[k].1 as usize, (rows[k].1 + rows[k].2) as usize),
            rows,
            have,
            w,
            len,
            k + 1,
            off + rows[k].2,
        )
    }
}

/// Composites sources over the pixels from `lo` on.
fn over_row(pixels: &mut [u32], lo: usize, srcs: &[u32])
    requires
        lo + srcs@.len() <= old(pixels)@.len(),
    ensures
        final(pixels)@ == over_at(old(pixels)@, lo as int, srcs@),
{
    let ghost before = pixels@;
    let n: usize = srcs.len();
    let (_head, rest) = pixels.split_at_mut(lo);
    let (span, _tail) = rest.split_at_mut(n);
    composite_over_span(span, srcs, 255);
    proof {
        assert forall|i: int| 0 <= i < before.len() implies #[trigger] pixels@[i] == over_at(before, lo as int, srcs@)[i] by {
            if lo <= i < lo + n {
                blend::law_scale_by_255(srcs@[i - lo]);
            }
        }
        assert(pixels@ =~= over_at(before, lo as int, srcs@));
    }
}

/// Replays a source plane: composites each of its rows and marks it.
pub fn replay_sources(pixels: &mut [u32], dirty_box: &mut DirtyBox, w: usize, rows: &[(u32, u32, u32)], data: &[u32])
    ensures
        final(pixels)@ == over_rows(old(pixels)@, rows@, data@, w as int, 0, 0),
        *final(dirty_box) == mark_rows(*old(dirty_box), rows@, data@.len(), w as int, old(pixels)@.len(), 0, 0),
{
    let ghost before = pixels@;
    let ghost box0 = *dirty_box;
    let len: usize = pixels.len();
    let mut off: usize = 0;
    let mut k: usize = 0;
    while k < rows.len()
        invariant
            before == old(pixels)@,
            box0 == *old(dirty_box),
            k <= rows@.len(),
            off <= data@.len(),
            len == before.len(),
            pixels@.len() == len,
            over_rows(pixels@, rows@, data@, w as int, k as int, off as int) == over_rows(before, rows@, data@, w as int, 0, 0),
            mark_rows(*dirty_box, rows@, data@.len(), w as int, len as nat, k as int, off as int) == mark_rows(
                box0,
                rows@,
                data@.len(),
                w as int,
                len as nat,
                0,
                0,
            ),
        decreases rows@.len() - k,
    {
        let (y, x0, n) = rows[k];
        if data.len() - off < n as usize {
            return;
        }
        match row_bounds(y as usize, x0 as usize, n as usize, w, len) {
            None => {
                return;
            },
            Some((lo, _hi)) => {
                dirty_box.mark_row(y as usize, x0 as usize, x0 as usize + n as usize);
                over_row(pixels, lo, vstd::slice::slice_subrange(data, off, off + n as usize));
            },
        }
        off = off + n as usize;
        k = k + 1;
    }
}

/// The number of leading segments that fit a plane of `len` pixels.
pub open spec fn fitting_prefix(segs: Seq<Segment>, w: int, len: nat) -> int
    decreases segs.len(),
{
    if segs.len() == 0 || segs[0].hi(w) > len {
        0
    } else {
        1 + fitting_prefix(segs.skip(1), w, len)
    }
}

/// The sources that a paint puts on one segment.
pub open spec fn segment_sources(seg: Segment, w: int, paint: Paint) -> Seq<u32> {
    Seq::new(seg.cov.len(), |c: int| paint.source(seg.lo(w) + c, seg.cov[c]))
}

/// The source plane of the first `n` segments: their row records, and the sources that a paint puts
/// on them.
pub open spec fn source_plane(segs: Seq<Segment>, w: int, paint: Paint, n: int) -> (Seq<(u32, u32, u32)>, Seq<u32>)
    decreases n,
{
    if n <= 0 {
        (Seq::empty(), Seq::empty())
    } else {
        let before = source_plane(segs, w, paint, n - 1);
        let seg = segs[n - 1];
        (
            before.0.push((seg.y as u32, seg.x as u32, seg.cov.len() as u32)),
            before.1 + segment_sources(seg, w, paint),
        )
    }
}

/// The number of pixels of a span list, or the top of the range.
fn count_pixels(list: &[u64]) -> (n: usize)
    ensures
        n == if span_pixels(list@) < usize::MAX {
            span_pixels(list@)
        } else {
            usize::MAX as int
        },
{
    let mut n: usize = 0;
    let mut k: usize = 0;
    while k < list.len()
        invariant
            k <= list@.len(),
            span_pixels(list@.take(k as int)) >= 0,
            n == if span_pixels(list@.take(k as int)) < usize::MAX {
                span_pixels(list@.take(k as int))
            } else {
                usize::MAX as int
            },
        decreases list@.len() - k,
    {
        let (_y, _x0, len, _cov) = unpack_span(list[k]);
        assert(list@.take(k + 1).drop_last() =~= list@.take(k as int));
        assert(list@.take(k + 1).last() == list@[k as int]);
        n = n.saturating_add(len);
        k = k + 1;
    }
    assert(list@.take(k as int) =~= list@);
    n
}

/// The bytes that a source plane of `px` pixels in `rows` rows is accounted with.
pub open spec fn source_plane_bytes(px: int, rows: int) -> int {
    px * 4 + rows * 12 + 64
}

/// True where a source plane of `px` pixels in `rows` rows would be admitted to a cache.
fn source_plane_fits(px: usize, rows: usize) -> (r: bool)
    ensures
        r == (source_plane_bytes(px as int, rows as int) <= COV_ENTRY_MAX),
{
    if px > COV_ENTRY_MAX || rows > COV_ENTRY_MAX {
        return false;
    }
    px * 4 + rows * 12 + 64 <= COV_ENTRY_MAX
}

/// Blends a gradient from `lo` on under a coverage row and appends its sources to `out`.
fn capture_row(pixels: &mut [u32], lo: usize, cov_row: &[u8], lut: &[u32], index: &[u32], out: &mut Vec<u32>)
    requires
        lo + cov_row@.len() <= old(pixels)@.len(),
        (Paint::Gradient { lut, index }).wf(old(pixels)@.len()),
        old(out)@.len() + cov_row@.len() <= usize::MAX,
    ensures
        final(pixels)@ == canvas::paint_at(old(pixels)@, lo as int, cov_row@, Paint::Gradient { lut, index }),
        final(out)@ == old(out)@ + Seq::new(
            cov_row@.len(),
            |c: int| (Paint::Gradient { lut, index }).source(lo + c, cov_row@[c]),
        ),
{
    let ghost before = pixels@;
    let ghost out0 = out@;
    let n: usize = cov_row.len();
    let len: usize = pixels.len();
    assert(lo + n <= len);
    let hi: usize = lo + n;
    let (_head, rest) = pixels.split_at_mut(lo);
    let (span, _tail) = rest.split_at_mut(n);
    gradient_row_capture(span, cov_row, vstd::slice::slice_subrange(index, lo, hi), lut, out);
    assert(pixels@ =~= canvas::paint_at(before, lo as int, cov_row@, Paint::Gradient { lut, index }));
    assert(out@ =~= out0 + Seq::new(
        cov_row@.len(),
        |c: int| (Paint::Gradient { lut, index }).source(lo + c, cov_row@[c]),
    ));
}

/// The source plane of those leading segments that fit a plane of `len` pixels.
pub open spec fn captured_sources(segs: Seq<Segment>, w: int, paint: Paint, len: nat) -> EntryView {
    let plane = source_plane(segs, w, paint, fitting_prefix(segs, w, len));
    EntryView { rows: plane.0, data: PlaneSeq::Src(plane.1) }
}

/// Replays a row plane under a gradient and captures its sources.
fn capture_rows(
    pixels: &mut [u32],
    dirty_box: &mut DirtyBox,
    w: usize,
    rows: &[(u32, u32, u32)],
    data: &[u8],
    lut: &[u32],
    index: &[u32],
) -> (entry: CovEntry)
    requires
        (Paint::Gradient { lut, index }).wf(old(pixels)@.len()),
    ensures
        ({
            let segs = canvas::row_segments(rows@, data@, 0, 0);
            let paint = Paint::Gradient { lut, index };
            &&& final(pixels)@ == canvas::paint_segments(old(pixels)@, segs, w as int, paint)
            &&& *final(dirty_box) == canvas::mark_segments(*old(dirty_box), segs, w as int, old(pixels)@.len())
            &&& entry@ == captured_sources(segs, w as int, paint, old(pixels)@.len())
        }),
{
    let ghost before = pixels@;
    let ghost box0 = *dirty_box;
    let ghost paint = Paint::Gradient { lut, index };
    let ghost segs = canvas::row_segments(rows@, data@, 0, 0);
    let len: usize = pixels.len();
    let total: usize = data.len();
    let mut kept: Vec<(u32, u32, u32)> = Vec::new();
    let mut out: Vec<u32> = Vec::new();
    let mut off: usize = 0;
    let mut k: usize = 0;
    assert(segs.skip(0) =~= segs);
    while k < rows.len()
        invariant_except_break
            segs.skip(k as int) == canvas::row_segments(rows@, data@, k as int, off as int),
            canvas::paint_segments(pixels@, segs.skip(k as int), w as int, paint) == canvas::paint_segments(
                before,
                segs,
                w as int,
                paint,
            ),
            canvas::mark_segments(*dirty_box, segs.skip(k as int), w as int, len as nat) == canvas::mark_segments(
                box0,
                segs,
                w as int,
                len as nat,
            ),
            k + fitting_prefix(segs.skip(k as int), w as int, len as nat) == fitting_prefix(segs, w as int, len as nat),
        invariant
            k <= rows@.len(),
            k <= segs.len(),
            off <= total,
            total == data@.len(),
            len == before.len(),
            pixels@.len() == len,
            paint == (Paint::Gradient { lut, index }),
            paint.wf(len as nat),
            (kept@, out@) == source_plane(segs, w as int, paint, k as int),
            out@.len() == off,
        ensures
            pixels@ == canvas::paint_segments(before, segs, w as int, paint),
            *dirty_box == canvas::mark_segments(box0, segs, w as int, len as nat),
            k == fitting_prefix(segs, w as int, len as nat),
        decreases rows@.len() - k,
    {
        let (y, x0, n) = rows[k];
        let ghost here = segs.skip(k as int);
        if total - off < n as usize {
            assert(here.len() == 0);
            break;
        }
        assert(here[0] == segs[k as int]);
        assert(here.skip(1) =~= segs.skip(k + 1));
        assert(here.skip(1) =~= canvas::row_segments(rows@, data@, k + 1, off + n));
        match row_bounds(y as usize, x0 as usize, n as usize, w, len) {
            None => {
                break;
            },
            Some((lo, _hi)) => {
                dirty_box.mark_row(y as usize, x0 as usize, x0 as usize + n as usize);
                kept.push((y, x0, n));
                capture_row(pixels, lo, vstd::slice::slice_subrange(data, off, off + n as usize), lut, index, &mut out);
            },
        }
        off = off + n as usize;
        k = k + 1;
    }
    CovEntry { rows: kept, data: PlaneData::Src(out) }
}

/// Replays a span list under a gradient and captures its sources.
fn capture_spans(
    pixels: &mut [u32],
    dirty_box: &mut DirtyBox,
    w: usize,
    list: &[u64],
    lut: &[u32],
    index: &[u32],
) -> (entry: CovEntry)
    requires
        (Paint::Gradient { lut, index }).wf(old(pixels)@.len()),
        span_pixels(list@) <= usize::MAX,
    ensures
        ({
            let segs = canvas::span_segments(list@);
            let paint = Paint::Gradient { lut, index };
            &&& final(pixels)@ == canvas::paint_segments(old(pixels)@, segs, w as int, paint)
            &&& *final(dirty_box) == canvas::mark_segments(*old(dirty_box), segs, w as int, old(pixels)@.len())
            &&& entry@ == captured_sources(segs, w as int, paint, old(pixels)@.len())
        }),
{
    let ghost before = pixels@;
    let ghost box0 = *dirty_box;
    let ghost paint = Paint::Gradient { lut, index };
    let ghost segs = canvas::span_segments(list@);
    let len: usize = pixels.len();
    let mut kept: Vec<(u32, u32, u32)> = Vec::new();
    let mut out: Vec<u32> = Vec::new();
    let mut k: usize = 0;
    assert(segs.skip(0) =~= segs);
    while k < list.len()
        invariant_except_break
            canvas::paint_segments(pixels@, segs.skip(k as int), w as int, paint) == canvas::paint_segments(
                before,
                segs,
                w as int,
                paint,
            ),
            canvas::mark_segments(*dirty_box, segs.skip(k as int), w as int, len as nat) == canvas::mark_segments(
                box0,
                segs,
                w as int,
                len as nat,
            ),
            k + fitting_prefix(segs.skip(k as int), w as int, len as nat) == fitting_prefix(segs, w as int, len as nat),
        invariant
            k <= list@.len(),
            segs == canvas::span_segments(list@),
            len == before.len(),
            pixels@.len() == len,
            paint == (Paint::Gradient { lut, index }),
            paint.wf(len as nat),
            (kept@, out@) == source_plane(segs, w as int, paint, k as int),
            out@.len() == span_pixels(list@.take(k as int)),
            span_pixels(list@) <= usize::MAX,
        ensures
            pixels@ == canvas::paint_segments(before, segs, w as int, paint),
            *dirty_box == canvas::mark_segments(box0, segs, w as int, len as nat),
            k == fitting_prefix(segs, w as int, len as nat),
        decreases list@.len() - k,
    {
        let (y, x0, n, cov) = unpack_span(list[k]);
        let ghost here = segs.skip(k as int);
        proof {
            assert(here[0] == canvas::span_segment(list@[k as int]));
            assert(segs[k as int] == canvas::span_segment(list@[k as int]));
            assert(here.skip(1) =~= segs.skip(k + 1));
            assert(list@.take(k + 1).drop_last() =~= list@.take(k as int));
            assert(list@.take(k + 1).last() == list@[k as int]);
            lemma_span_pixels_take(list@, k + 1);
        }
        match row_bounds(y, x0, n, w, len) {
            None => {
                break;
            },
            Some((lo, _hi)) => {
                dirty_box.mark_row(y, x0, x0 + n);
                kept.push((y as u32, x0 as u32, n as u32));
                let mut cov_row: Vec<u8> = Vec::new();
                cov_row.resize(n, cov);
                assert(cov_row@ =~= dirty::constant(n as nat, cov));
                capture_row(pixels, lo, cov_row.as_slice(), lut, index, &mut out);
            },
        }
        k = k + 1;
    }
    CovEntry { rows: kept, data: PlaneData::Src(out) }
}

proof fn lemma_span_pixels_take(list: Seq<u64>, k: int)
    requires
        0 <= k <= list.len(),
    ensures
        0 <= span_pixels(list.take(k)) <= span_pixels(list),
    decreases list.len() - k, k,
{
    if k == list.len() {
        assert(list.take(k) =~= list);
        lemma_span_pixels_nonnegative(list);
    } else {
        lemma_span_pixels_take(list, k + 1);
        assert(list.take(k + 1).drop_last() =~= list.take(k));
        assert(list.take(k + 1).last() == list[k]);
        lemma_span_pixels_nonnegative(list.take(k));
    }
}

proof fn lemma_span_pixels_nonnegative(list: Seq<u64>)
    ensures
        span_pixels(list) >= 0,
    decreases list.len(),
{
    if list.len() > 0 {
        lemma_span_pixels_nonnegative(list.drop_last());
    }
}

/// The bytes that the source plane of a cached coverage plane is accounted with.
pub open spec fn sources_bytes(e: EntryView) -> int {
    match e.data {
        PlaneSeq::Cov(data) => source_plane_bytes(data.len() as int, e.rows.len() as int),
        PlaneSeq::Spans(list) => source_plane_bytes(span_pixels(list), list.len() as int),
        PlaneSeq::Src(data) => 0,
    }
}

/// The pixels and the rectangle that painting a gradient from cached planes leaves: from its source plane
/// under `src_key`, or else from its coverage under `key`.
pub open spec fn gradient_from(
    resident: Map<u128, EntryView>,
    key: u128,
    src_key: u128,
    pixels: Seq<u32>,
    b: DirtyBox,
    w: int,
    paint: Paint,
) -> (Seq<u32>, DirtyBox) {
    if resident.contains_key(src_key) {
        let e = resident[src_key];
        match e.data {
            PlaneSeq::Src(data) => (
                over_rows(pixels, e.rows, data, w, 0, 0),
                mark_rows(b, e.rows, data.len(), w, pixels.len(), 0, 0),
            ),
            _ => (pixels, b),
        }
    } else if resident.contains_key(key) {
        let segs = plane_segments(resident[key]);
        (
            canvas::paint_segments(pixels, segs, w, paint),
            canvas::mark_segments(b, segs, w, pixels.len()),
        )
    } else {
        (pixels, b)
    }
}

/// Paints a gradient from the cache, if it holds the gradient's source plane under `src_key` or its
/// coverage under `key`. Coverage that is hit while the cache learns has its sources offered under
/// `src_key`, if they could be admitted.
pub fn fill_gradient_cached(
    cache: &mut CovCache,
    key: u128,
    src_key: u128,
    pixels: &mut [u32],
    dirty_box: &mut DirtyBox,
    w: usize,
    lut: &[u32],
    index: &[u32],
) -> (hit: bool)
    requires
        old(cache).wf(),
        (Paint::Gradient { lut, index }).wf(old(pixels)@.len()),
    ensures
        final(cache).wf(),
        hit == (old(cache).resident().contains_key(src_key) || old(cache).resident().contains_key(key)),
        (final(pixels)@, *final(dirty_box)) == gradient_from(
            old(cache).resident(),
            key,
            src_key,
            old(pixels)@,
            *old(dirty_box),
            w as int,
            Paint::Gradient { lut, index },
        ),
        !hit ==> *final(cache) == *old(cache),
        old(cache).resident().contains_key(src_key) ==> *final(cache) == old(cache).with_hit(),
        !old(cache).resident().contains_key(src_key) && old(cache).resident().contains_key(key) ==> {
            let e = old(cache).resident()[key];
            let segs = plane_segments(e);
            let paint = Paint::Gradient { lut, index };
            if e.data is Src || old(cache).frozen || sources_bytes(e) > COV_ENTRY_MAX {
                *final(cache) == old(cache).with_hit()
            } else {
                final(cache).offered_from(
                    old(cache).with_hit(),
                    src_key,
                    captured_sources(segs, w as int, paint, old(pixels)@.len()),
                )
            }
        },
{
    let paint = Paint::Gradient { lut, index };
    if let Some(e) = cache.get(src_key) {
        if let PlaneData::Src(data) = &e.data {
            replay_sources(pixels, dirty_box, w, e.rows.as_slice(), data.as_slice());
        }
        return true;
    }
    let learning: bool = cache.capture_enabled();
    let sources: Option<CovEntry> = match cache.get(key) {
        None => {
            return false;
        },
        Some(e) => match &e.data {
            PlaneData::Spans(list) => {
                let px_total: usize = count_pixels(list.as_slice());
                if learning && source_plane_fits(px_total, list.len()) {
                    Some(capture_spans(pixels, dirty_box, w, list.as_slice(), lut, index))
                } else {
                    replay_spans(pixels, dirty_box, w, list.as_slice(), &paint);
                    None
                }
            },
            PlaneData::Cov(data) => {
                if learning && source_plane_fits(data.len(), e.rows.len()) {
                    Some(capture_rows(pixels, dirty_box, w, e.rows.as_slice(), data.as_slice(), lut, index))
                } else {
                    replay_rows(pixels, dirty_box, w, e.rows.as_slice(), data.as_slice(), &paint);
                    None
                }
            },
            PlaneData::Src(_) => None,
        },
    };
    if let Some(entry) = sources {
        cache.insert(src_key, entry);
    }
    true
}

/// A list of spans keeps exactly those that end inside the plane, in their order.
pub proof fn law_spans_that_fit_are_kept(list: Seq<u64>, w: int, len: nat, n: int, s: u64)
    requires
        0 <= n <= list.len(),
    ensures
        fitting_spans(list, w, len, n).contains(s) <==> exists|k: int|
            0 <= k < n && #[trigger] list[k] == s && spans::span_y(s) * w + spans::span_x(s)
                + spans::span_len(s) <= len,
        (forall|k: int|
            0 <= k < n ==> spans::span_y(#[trigger] list[k]) * w + spans::span_x(list[k])
                + spans::span_len(list[k]) <= len) ==> fitting_spans(list, w, len, n)
            == list.take(n),
    decreases n,
{
    let fit = fitting_spans(list, w, len, n);
    if n > 0 {
        law_spans_that_fit_are_kept(list, w, len, n - 1, s);
        let before = fitting_spans(list, w, len, n - 1);
        assert(list.take(n) =~= list.take(n - 1).push(list[n - 1]));
        if fit.contains(s) && !before.contains(s) {
            let k = choose|k: int| 0 <= k < fit.len() && fit[k] == s;
            if k < before.len() {
                assert(before[k] == s);
            }
            assert(list[n - 1] == s);
        }
        if before.contains(s) {
            let k = choose|k: int| 0 <= k < before.len() && before[k] == s;
            assert(fit[k] == s);
        }
        if list[n - 1] == s && span_in(s, w, len) {
            assert(fit[fit.len() - 1] == s);
        }
    } else {
        assert(list.take(0) =~= Seq::empty());
    }
}

/// Rows that all end inside the plane are kept as they are, with all of their bytes; a row that does
/// not is left out together with its bytes.
pub proof fn law_rows_that_fit_are_kept(
    rows: Seq<(u32, u32, u32)>,
    data: Seq<u8>,
    w: int,
    len: nat,
    n: int,
)
    requires
        0 <= n <= rows.len(),
        row_offset(rows, rows.len() as int) == data.len(),
    ensures
        (forall|k: int|
            0 <= k < n ==> (#[trigger] rows[k]).0 * w + rows[k].1 + rows[k].2 <= len) ==> {
            &&& fitting_rows(rows, data, w, len, n).0 == rows.take(n)
            &&& fitting_rows(rows, data, w, len, n).1 == data.take(row_offset(rows, n))
        },
        n > 0 && rows[n - 1].0 * w + rows[n - 1].1 + rows[n - 1].2 > len ==> fitting_rows(
            rows,
            data,
            w,
            len,
            n,
        ) == fitting_rows(rows, data, w, len, n - 1),
    decreases n,
{
    lemma_row_offset_monotone(rows, n, rows.len() as int);
    if n > 0 {
        lemma_row_offset_monotone(rows, n - 1, n);
        law_rows_that_fit_are_kept(rows, data, w, len, n - 1);
        assert(rows.take(n) =~= rows.take(n - 1).push(rows[n - 1]));
        let (a, b) = (row_offset(rows, n - 1), row_offset(rows, n));
        assert(data.take(b) =~= data.take(a) + data.subrange(a, b));
    } else {
        assert(rows.take(0) =~= Seq::empty());
        assert(data.take(0) =~= Seq::empty());
    }
}

proof fn lemma_span_pixels_bounds(list: Seq<u64>, least_len: int, most_len: int)
    requires
        forall|k: int| 0 <= k < list.len() ==> least_len <= spans::span_len(#[trigger] list[k]) <= most_len,
    ensures
        least_len * list.len() <= span_pixels(list) <= most_len * list.len(),
    decreases list.len(),
{
    if list.len() > 0 {
        let before = list.drop_last();
        assert forall|k: int| 0 <= k < before.len() implies least_len <= spans::span_len(
            #[trigger] before[k],
        ) <= most_len by {
            assert(before[k] == list[k]);
        }
        lemma_span_pixels_bounds(before, least_len, most_len);
        let n = list.len() as int;
        assert(list[n - 1] == list.last());
        assert(least_len * (n - 1) + least_len == least_len * n) by (nonlinear_arith);
        assert(most_len * (n - 1) + most_len == most_len * n) by (nonlinear_arith);
    } else {
        let n = list.len() as int;
        assert(least_len * n == 0 && most_len * n == 0) by (nonlinear_arith)
            requires
                n == 0,
        ;
    }
}

/// Spans of at least four pixels each are cached as spans, shorter ones as rows of bytes.
pub proof fn law_long_spans_are_cached_as_spans(list: Seq<u64>)
    requires
        list.len() > 0,
    ensures
        (forall|k: int| 0 <= k < list.len() ==> spans::span_len(#[trigger] list[k]) >= 4)
            ==> captured_plane(list).data == PlaneSeq::Spans(list) && captured_plane(
            list,
        ).rows.len() == 0,
        (forall|k: int| 0 <= k < list.len() ==> spans::span_len(#[trigger] list[k]) <= 3)
            ==> captured_plane(list).data is Cov,
{
    if forall|k: int| 0 <= k < list.len() ==> spans::span_len(#[trigger] list[k]) >= 4 {
        assert forall|k: int| 0 <= k < list.len() implies 4 <= spans::span_len(#[trigger] list[k])
            <= 0x1_0000 by {
            spans::law_spans_are_packed_by_field(list[k]);
        }
        lemma_span_pixels_bounds(list, 4, 0x1_0000);
    }
    if forall|k: int| 0 <= k < list.len() ==> spans::span_len(#[trigger] list[k]) <= 3 {
        assert forall|k: int| 0 <= k < list.len() implies 0 <= spans::span_len(#[trigger] list[k])
            <= 3 by {
            spans::law_spans_are_packed_by_field(list[k]);
        }
        lemma_span_pixels_bounds(list, 0, 3);
    }
}

/// A row of sources is put over the pixels that it lies on, and changes no other.
pub proof fn law_sources_are_put_in_place(pixels: Seq<u32>, lo: int, srcs: Seq<u32>, i: int)
    requires
        0 <= i < pixels.len(),
    ensures
        over_at(pixels, lo, srcs).len() == pixels.len(),
        lo <= i < lo + srcs.len() ==> over_at(pixels, lo, srcs)[i] == blend::over_px(
            pixels[i],
            srcs[i - lo],
        ),
        i < lo || i >= lo + srcs.len() ==> over_at(pixels, lo, srcs)[i] == pixels[i],
{
}

/// Rows of sources take their pixels one after another; a row that does not fit, or that lacks
/// pixels, ends the plane. What is noted goes along with what is put.
pub proof fn law_source_rows_are_put_in_turn(
    pixels: Seq<u32>,
    rows: Seq<(u32, u32, u32)>,
    data: Seq<u32>,
    w: int,
    b: DirtyBox,
    k: int,
    off: int,
)
    requires
        0 <= k < rows.len(),
        0 <= off,
    ensures
        ({
            let (y, x, n) = (rows[k].0, rows[k].1, rows[k].2);
            let fits = off + n <= data.len() && y * w + x + n <= pixels.len();
            &&& !fits ==> over_rows(pixels, rows, data, w, k, off) == pixels && mark_rows(
                b,
                rows,
                data.len(),
                w,
                pixels.len(),
                k,
                off,
            ) == b
            &&& fits ==> over_rows(pixels, rows, data, w, k, off) == over_rows(
                over_at(pixels, y * w + x, data.subrange(off, off + n)),
                rows,
                data,
                w,
                k + 1,
                off + n,
            ) && mark_rows(b, rows, data.len(), w, pixels.len(), k, off) == mark_rows(
                b.marked(y as usize, x as usize, (x + n) as usize),
                rows,
                data.len(),
                w,
                pixels.len(),
                k + 1,
                off + n,
            )
        }),
        over_rows(pixels, rows, data, w, rows.len() as int, off) == pixels,
        mark_rows(b, rows, data.len(), w, pixels.len(), rows.len() as int, off) == b,
{
}

/// A source plane costs four bytes for each pixel, twelve for each row, and 64 more.
pub proof fn law_source_planes_cost(px: int, rows: int)
    ensures
        source_plane_bytes(0, 0) == 64,
        source_plane_bytes(px + 1, rows) == source_plane_bytes(px, rows) + 4,
        source_plane_bytes(px, rows + 1) == source_plane_bytes(px, rows) + 12,
{
}

/// What is cached as sources is what the paint puts on each pixel of each segment.
pub proof fn law_sources_are_those_of_the_paint(segs: Seq<Segment>, w: int, paint: Paint, n: int, c: int)
    requires
        0 < n <= segs.len(),
        0 <= c < segs[n - 1].cov.len(),
        0 <= segs[n - 1].y <= u32::MAX,
        0 <= segs[n - 1].x <= u32::MAX,
        segs[n - 1].cov.len() <= u32::MAX,
    ensures
        ({
            let s = segs[n - 1];
            let plane = source_plane(segs, w, paint, n);
            let before = source_plane(segs, w, paint, n - 1);
            &&& plane.0.len() == before.0.len() + 1
            &&& plane.0.last().0 == s.y && plane.0.last().1 == s.x && plane.0.last().2
                == s.cov.len()
            &&& plane.1.len() == before.1.len() + s.cov.len()
            &&& plane.1[before.1.len() + c] == paint.source(s.y * w + s.x + c, s.cov[c])
        }),
{
}

} // verus!
