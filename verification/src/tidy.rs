//! Planes are clear wherever nothing is noted as written.
//!
//! Masks, mattes and composites are limited to what is noted as written, so all of them rest on
//! this: every operation of the renderer keeps it.

use crate::blend;
use crate::canvas;
use crate::canvas::{Paint, Segment};
use crate::compose;
use crate::dirty;
use crate::dirty::DirtyBox;
use crate::fill;
use crate::renderer;
use crate::renderer::RendererView;
use vstd::prelude::*;

verus! {

/// True where every plane is clear outside what is noted as written to it.
pub open spec fn tidy(v: RendererView) -> bool {
    &&& v.planes.len() == v.dirty.len()
    &&& forall|k: int|
        0 <= k < v.planes.len() ==> #[trigger] compose::clear_outside(
            v.planes[k],
            v.width as int,
            v.dirty[k],
        )
}

/// True where a segment's place can be noted.
pub open spec fn placed(s: Segment) -> bool {
    0 <= s.y <= usize::MAX && 0 <= s.x && s.x + s.cov.len() <= usize::MAX
}

proof fn lemma_joined_covers(a: DirtyBox, b: DirtyBox, w: int, i: int)
    requires
        a.covers(w, i) || (!b.is_empty_spec() && b.covers(w, i)),
    ensures
        a.joined(b).covers(w, i),
{
    let j = a.joined(b);
    if a.covers(w, i) {
        let y = choose|y: int| a.y0 <= y <= a.y1 && #[trigger] a.row_covers(w, y, i);
        assert(j.row_covers(w, y, i));
    } else {
        let y = choose|y: int| b.y0 <= y <= b.y1 && #[trigger] b.row_covers(w, y, i);
        assert(j.row_covers(w, y, i));
    }
}

proof fn lemma_marked_covers(b: DirtyBox, y: usize, x0: usize, x1: usize, w: int, i: int)
    requires
        b.covers(w, i) || y * w + x0 <= i < y * w + x1,
    ensures
        b.marked(y, x0, x1).covers(w, i),
{
    let m = b.marked(y, x0, x1);
    if b.covers(w, i) {
        let v = choose|v: int| b.y0 <= v <= b.y1 && #[trigger] b.row_covers(w, v, i);
        assert(m.row_covers(w, v, i));
    } else {
        assert(m.row_covers(w, y as int, i));
    }
}

proof fn lemma_mark_segments_covers(b: DirtyBox, segs: Seq<Segment>, w: int, len: nat, i: int)
    requires
        b.covers(w, i),
    ensures
        canvas::mark_segments(b, segs, w, len).covers(w, i),
    decreases segs.len(),
{
    if segs.len() > 0 && segs[0].hi(w) <= len {
        let (y, x0, x1) = (
            segs[0].y as usize,
            segs[0].x as usize,
            (segs[0].x + segs[0].cov.len()) as usize,
        );
        lemma_marked_covers(b, y, x0, x1, w, i);
        lemma_mark_segments_covers(b.marked(y, x0, x1), segs.skip(1), w, len, i);
    }
}

/// A pixel that is not noted as written by painting segments keeps its value.
pub proof fn law_painting_is_noted(
    pixels: Seq<u32>,
    segs: Seq<Segment>,
    w: int,
    paint: Paint,
    b: DirtyBox,
    i: int,
)
    requires
        0 <= i < pixels.len(),
        forall|k: int| 0 <= k < segs.len() ==> placed(#[trigger] segs[k]),
        !canvas::mark_segments(b, segs, w, pixels.len()).covers(w, i),
    ensures
        canvas::paint_segments(pixels, segs, w, paint)[i] == pixels[i],
    decreases segs.len(),
{
    if segs.len() > 0 && segs[0].hi(w) <= pixels.len() {
        let seg = segs[0];
        let (y, x0, x1) = (seg.y as usize, seg.x as usize, (seg.x + seg.cov.len()) as usize);
        let next = canvas::paint_at(pixels, seg.lo(w), seg.cov, paint);
        assert(placed(seg));
        assert forall|k: int| 0 <= k < segs.skip(1).len() implies placed(
            #[trigger] segs.skip(1)[k],
        ) by {
            assert(segs.skip(1)[k] == segs[k + 1]);
        }
        law_painting_is_noted(next, segs.skip(1), w, paint, b.marked(y, x0, x1), i);
        if seg.lo(w) <= i < seg.lo(w) + seg.cov.len() {
            lemma_marked_covers(b, y, x0, x1, w, i);
            lemma_mark_segments_covers(b.marked(y, x0, x1), segs.skip(1), w, pixels.len(), i);
        }
    }
}

proof fn lemma_mark_rows_covers(
    b: DirtyBox,
    rows: Seq<(u32, u32, u32)>,
    have: nat,
    w: int,
    len: nat,
    k: int,
    off: int,
    i: int,
)
    requires
        b.covers(w, i),
    ensures
        fill::mark_rows(b, rows, have, w, len, k, off).covers(w, i),
    decreases rows.len() - k,
{
    if !(k < 0 || k >= rows.len() || off + rows[k].2 > have || rows[k].0 * w + rows[k].1 + rows[k].2
        > len) {
        let (y, x0, x1) = (
            rows[k].0 as usize,
            rows[k].1 as usize,
            (rows[k].1 + rows[k].2) as usize,
        );
        lemma_marked_covers(b, y, x0, x1, w, i);
        lemma_mark_rows_covers(
            b.marked(y, x0, x1),
            rows,
            have,
            w,
            len,
            k + 1,
            off + rows[k].2,
            i,
        );
    }
}

/// A pixel that is not noted as written by putting painted rows over a plane keeps its value.
pub proof fn law_sourcing_is_noted(
    pixels: Seq<u32>,
    rows: Seq<(u32, u32, u32)>,
    data: Seq<u32>,
    w: int,
    b: DirtyBox,
    k: int,
    off: int,
    i: int,
)
    requires
        0 <= i < pixels.len(),
        0 <= off,
        forall|j: int|
            0 <= j < rows.len() ==> (#[trigger] rows[j]).1 + rows[j].2 <= usize::MAX,
        !fill::mark_rows(b, rows, data.len(), w, pixels.len(), k, off).covers(w, i),
    ensures
        fill::over_rows(pixels, rows, data, w, k, off)[i] == pixels[i],
    decreases rows.len() - k,
{
    if !(k < 0 || k >= rows.len() || off + rows[k].2 > data.len() || rows[k].0 * w + rows[k].1
        + rows[k].2 > pixels.len()) {
        let (y, x0, x1) = (
            rows[k].0 as usize,
            rows[k].1 as usize,
            (rows[k].1 + rows[k].2) as usize,
        );
        let srcs = data.subrange(off, off + rows[k].2);
        let next = fill::over_at(pixels, rows[k].0 * w + rows[k].1, srcs);
        law_sourcing_is_noted(
            next,
            rows,
            data,
            w,
            b.marked(y, x0, x1),
            k + 1,
            off + rows[k].2,
            i,
        );
        let lo = rows[k].0 * w + rows[k].1;
        if lo <= i < lo + rows[k].2 {
            lemma_marked_covers(b, y, x0, x1, w, i);
            lemma_mark_rows_covers(
                b.marked(y, x0, x1),
                rows,
                data.len(),
                w,
                pixels.len(),
                k + 1,
                off + rows[k].2,
                i,
            );
        }
    }
}

/// Replacing the topmost plane and its rectangle keeps the rest tidy.
proof fn lemma_tidy_top(v: RendererView, plane: Seq<u32>, b: DirtyBox)
    requires
        tidy(v),
        v.planes.len() > 0,
        compose::clear_outside(plane, v.width as int, b),
    ensures
        tidy(
            RendererView {
                planes: v.planes.drop_last().push(plane),
                dirty: v.dirty.drop_last().push(b),
                ..v
            },
        ),
{
    let after = RendererView {
        planes: v.planes.drop_last().push(plane),
        dirty: v.dirty.drop_last().push(b),
        ..v
    };
    assert forall|k: int| 0 <= k < after.planes.len() implies #[trigger] compose::clear_outside(
        after.planes[k],
        after.width as int,
        after.dirty[k],
    ) by {
        if k < after.planes.len() - 1 {
            assert(compose::clear_outside(v.planes[k], v.width as int, v.dirty[k]));
        }
    }
}

/// Painting keeps planes tidy.
pub proof fn law_painting_keeps_tidy(v: RendererView, segs: Seq<Segment>, paint: Paint)
    requires
        tidy(v),
        v.planes.len() > 0,
        forall|k: int| 0 <= k < segs.len() ==> placed(#[trigger] segs[k]),
    ensures
        tidy(v.painted(segs, paint)),
{
    let w = v.width as int;
    let plane = v.active();
    let noted = canvas::mark_segments(v.first_box(), segs, w, plane.len());
    let b = v.dirty.last().joined(noted);
    let after = canvas::paint_segments(plane, segs, w, paint);
    canvas::lemma_paint_len(plane, segs, w, paint);
    assert(compose::clear_outside(v.planes[v.planes.len() - 1], w, v.dirty[v.dirty.len() - 1]));
    assert forall|i: int| 0 <= i < after.len() && !b.covers(w, i) implies #[trigger] after[i]
        == 0 by {
        if v.dirty.last().covers(w, i) {
            lemma_joined_covers(v.dirty.last(), noted, w, i);
        }
        if noted.covers(w, i) {
            lemma_covers_not_empty(noted, w, i);
            lemma_joined_covers(v.dirty.last(), noted, w, i);
        }
        law_painting_is_noted(plane, segs, w, paint, v.first_box(), i);
        assert(plane[i] == 0);
    }
    lemma_tidy_top(v, after, b);
    assert(v.painted(segs, paint) =~= (RendererView {
        planes: v.planes.drop_last().push(after),
        dirty: v.dirty.drop_last().push(b),
        ..v
    }));
}

/// Only a rectangle with pixels takes in an index.
proof fn lemma_covers_not_empty(b: DirtyBox, w: int, i: int)
    requires
        b.covers(w, i),
    ensures
        !b.is_empty_spec(),
{
    let y = choose|y: int| b.y0 <= y <= b.y1 && #[trigger] b.row_covers(w, y, i);
}

/// Putting painted rows over a plane keeps planes tidy.
pub proof fn law_sourcing_keeps_tidy(v: RendererView, rows: Seq<(u32, u32, u32)>, data: Seq<u32>)
    requires
        tidy(v),
        v.planes.len() > 0,
        forall|j: int|
            0 <= j < rows.len() ==> (#[trigger] rows[j]).1 + rows[j].2 <= usize::MAX,
    ensures
        tidy(v.sourced(rows, data)),
{
    let w = v.width as int;
    let plane = v.active();
    let noted = fill::mark_rows(v.first_box(), rows, data.len(), w, plane.len(), 0, 0);
    let b = v.dirty.last().joined(noted);
    let after = fill::over_rows(plane, rows, data, w, 0, 0);
    fill::lemma_over_len(plane, rows, data, w, 0, 0);
    assert(compose::clear_outside(v.planes[v.planes.len() - 1], w, v.dirty[v.dirty.len() - 1]));
    assert forall|i: int| 0 <= i < after.len() && !b.covers(w, i) implies #[trigger] after[i]
        == 0 by {
        if v.dirty.last().covers(w, i) {
            lemma_joined_covers(v.dirty.last(), noted, w, i);
        }
        if noted.covers(w, i) {
            lemma_covers_not_empty(noted, w, i);
            lemma_joined_covers(v.dirty.last(), noted, w, i);
        }
        law_sourcing_is_noted(plane, rows, data, w, v.first_box(), 0, 0, i);
        assert(plane[i] == 0);
    }
    lemma_tidy_top(v, after, b);
    assert(v.sourced(rows, data) =~= (RendererView {
        planes: v.planes.drop_last().push(after),
        dirty: v.dirty.drop_last().push(b),
        ..v
    }));
}

/// Opening a surface keeps planes tidy.
pub proof fn law_saving_keeps_tidy(v: RendererView)
    requires
        tidy(v),
    ensures
        tidy(v.saved()),
{
    let after = v.saved();
    assert forall|k: int| 0 <= k < after.planes.len() implies #[trigger] compose::clear_outside(
        after.planes[k],
        after.width as int,
        after.dirty[k],
    ) by {
        if k < v.planes.len() {
            assert(compose::clear_outside(v.planes[k], v.width as int, v.dirty[k]));
        }
    }
}

proof fn lemma_clipped_covers(b: DirtyBox, width: usize, height: usize, i: int)
    requires
        compose::clipped(b, width, height).covers(width as int, i),
    ensures
        b.covers(width as int, i),
        !b.is_empty_spec(),
{
    let c = compose::clipped(b, width, height);
    let y = choose|y: int| c.y0 <= y <= c.y1 && #[trigger] c.row_covers(width as int, y, i);
    assert(b.row_covers(width as int, y, i));
}

proof fn lemma_over_keeps_tidy(v: RendererView, source: Seq<u32>, written: DirtyBox, opacity: u8)
    requires
        tidy(v),
        v.planes.len() > 0,
    ensures
        tidy(v.over(source, written, opacity)),
{
    let w = v.width as int;
    let plane = v.active();
    let after = renderer::put_over(plane, source, v.width, written, opacity);
    let b = if written.is_empty_spec() {
        v.dirty.last()
    } else {
        v.dirty.last().joined(written)
    };
    assert(compose::clear_outside(v.planes[v.planes.len() - 1], w, v.dirty[v.dirty.len() - 1]));
    assert forall|i: int| 0 <= i < after.len() && !b.covers(w, i) implies #[trigger] after[i]
        == 0 by {
        if v.dirty.last().covers(w, i) && !written.is_empty_spec() {
            lemma_joined_covers(v.dirty.last(), written, w, i);
        }
        assert(plane[i] == 0);
        if v.width > 0 {
            let clip = compose::clipped(
                written,
                v.width,
                compose::shared_rows(plane.len(), source.len(), v.width),
            );
            if clip.covers(w, i) {
                lemma_clipped_covers(
                    written,
                    v.width,
                    compose::shared_rows(plane.len(), source.len(), v.width),
                    i,
                );
                lemma_joined_covers(v.dirty.last(), written, w, i);
            }
        }
    }
    lemma_tidy_top(v, after, b);
    assert(v.dirty.drop_last().push(v.dirty.last()) =~= v.dirty);
    assert(v.over(source, written, opacity) =~= (RendererView {
        planes: v.planes.drop_last().push(after),
        dirty: v.dirty.drop_last().push(b),
        ..v
    }));
}

proof fn lemma_popped_tidy(v: RendererView)
    requires
        tidy(v),
        v.planes.len() > 0,
    ensures
        tidy(v.popped()),
{
    let after = v.popped();
    assert forall|k: int| 0 <= k < after.planes.len() implies #[trigger] compose::clear_outside(
        after.planes[k],
        after.width as int,
        after.dirty[k],
    ) by {
        assert(compose::clear_outside(v.planes[k], v.width as int, v.dirty[k]));
    }
}

/// Closing surfaces keeps planes tidy.
pub proof fn law_closing_keeps_tidy(v: RendererView, kind: u8, opacity: u8, source_opacity: u8)
    requires
        tidy(v),
        v.planes.len() > 0,
    ensures
        tidy(v.ended_over(opacity)),
        tidy(v.ended_matte(kind, opacity, source_opacity)),
{
    if v.planes.len() >= 2 {
        lemma_popped_tidy(v);
        lemma_over_keeps_tidy(v.popped(), v.active(), v.dirty.last(), opacity);
        if v.planes.len() > 2 {
            let below = v.popped();
            lemma_popped_tidy(below);
            let source = compose::modulated(
                below.active(),
                dirty::constant(below.active().len(), source_opacity),
            );
            lemma_over_keeps_tidy(
                below.popped(),
                compose::matted(v.active(), source, kind),
                v.dirty.last(),
                opacity,
            );
        }
    }
}

/// Masking keeps planes tidy.
pub proof fn law_masking_keeps_tidy(
    v: RendererView,
    coverage: Seq<u8>,
    mode: u8,
    inverted: bool,
    opacity: u8,
    first: bool,
    last: bool,
)
    requires
        tidy(v),
        v.planes.len() > 0,
    ensures
        tidy(v.masked(coverage, mode, inverted, opacity, first, last)),
{
    let after = v.masked(coverage, mode, inverted, opacity, first, last);
    let w = v.width as int;
    let start = if first || v.mask is None {
        dirty::constant((v.width * v.height) as nat, renderer::mask_start(mode))
    } else {
        v.mask->0
    };
    let next = renderer::folded(start, coverage, mode, inverted, opacity);
    assert(compose::clear_outside(v.planes[v.planes.len() - 1], w, v.dirty[v.dirty.len() - 1]));
    assert forall|k: int| 0 <= k < after.planes.len() implies #[trigger] compose::clear_outside(
        after.planes[k],
        after.width as int,
        after.dirty[k],
    ) by {
        assert(compose::clear_outside(v.planes[k], w, v.dirty[k]));
        if last && k == after.planes.len() - 1 {
            assert forall|i: int|
                0 <= i < after.planes[k].len() && !after.dirty[k].covers(w, i) implies #[trigger]
                after.planes[k][i] == 0 by {
                assert(v.planes[k][i] == 0);
                if i < next.len() {
                    blend::law_scale_clear(next[i] as int);
                }
            }
        }
    }
}

/// A surface that is closed with nothing drawn on it leaves no trace.
pub proof fn law_empty_surface_leaves_no_trace(v: RendererView, opacity: u8)
    requires
        v.planes.len() > 0,
        v.planes.len() == v.dirty.len(),
    ensures
        v.saved().ended_over(opacity) == v,
{
    let s = v.saved();
    assert(s.popped() =~= v);
    let plane = v.active();
    let w = v.width as int;
    let none = renderer::no_box();
    assert(s.dirty.last() == none);
    let after = renderer::put_over(plane, s.active(), v.width, none, opacity);
    assert(after =~= plane) by {
        assert forall|i: int| 0 <= i < plane.len() implies !none.covers(w, i) by {
            if none.covers(w, i) {
                lemma_covers_not_empty(none, w, i);
            }
        }
    }
    assert(v.planes.drop_last().push(plane) =~= v.planes);
}

} // verus!
