//! The renderer: a bitmap, the surfaces stacked on it, and the masks that are being put together.

use crate::argb;
use crate::blend;
use crate::canvas;
use crate::canvas::Paint;
use crate::compose;
use crate::compose::{apply_matte, composite_over_box, modulate};
use crate::cov_cache;
use crate::cov_cache::{CovCache, COV_ENTRY_MAX, SMALL_CANVAS_PX};
use crate::dirty;
use crate::dirty::DirtyBox;
use crate::error::Error;
use crate::fill;
use crate::fill::{fill_cached, fill_gradient_cached, fill_rows, fill_spans};
use crate::mask;
use crate::mask::fold_mask;
use crate::plane::{EntryView, PlaneSeq};
use crate::scratch::RenderScratch;
use crate::spans;
use vstd::prelude::*;

verus! {

/// A renderer. While a bitmap is bound, it is the lowest plane.
pub struct CPURenderer {
    /// The width of the canvas.
    pub width: usize,
    /// The height of the canvas.
    pub height: usize,
    /// The bitmap, and the open surfaces on it.
    pub planes: Vec<Vec<u32>>,
    /// What has been written to each plane.
    pub dirty: Vec<DirtyBox>,
    /// What the bound buffer holds behind the bitmap.
    pub rest: Vec<u32>,
    /// The mask that is being put together.
    pub mask_accumulator: Option<Vec<u8>>,
    /// Buffers and caches.
    pub state: RenderScratch,
}

/// What a [`CPURenderer`] shows.
#[verifier::ext_equal]
pub struct RendererView {
    pub width: usize,
    pub height: usize,
    pub planes: Seq<Seq<u32>>,
    pub dirty: Seq<DirtyBox>,
    pub rest: Seq<u32>,
    pub mask: Option<Seq<u8>>,
}

/// The contents of planes.
pub open spec fn plane_views(planes: Seq<Vec<u32>>) -> Seq<Seq<u32>> {
    planes.map_values(|p: Vec<u32>| p@)
}

/// The rectangle without a pixel.
pub open spec fn no_box() -> DirtyBox {
    DirtyBox { x0: usize::MAX, y0: usize::MAX, x1: 0, y1: 0 }
}

/// A plane after another was put over it inside a rectangle.
pub open spec fn put_over(
    plane: Seq<u32>,
    source: Seq<u32>,
    width: usize,
    bounds: DirtyBox,
    opacity: u8,
) -> Seq<u32> {
    if width == 0 {
        plane
    } else {
        dirty::boxed(
            compose::clipped(
                bounds,
                width,
                compose::shared_rows(plane.len(), source.len(), width),
            ),
            width as int,
            plane,
            blend::composited(plane, source, opacity as int),
        )
    }
}

/// The mask bytes after one more mask.
pub open spec fn folded(
    acc: Seq<u8>,
    coverage: Seq<u8>,
    mode: u8,
    inverted: bool,
    opacity: u8,
) -> Seq<u8> {
    Seq::new(
        acc.len(),
        |i: int|
            mask::mask_step(
                mode,
                acc[i] as int,
                mask::contribution(inverted, opacity, coverage[i]),
            ) as u8,
    )
}

/// The value that a mask of that mode starts from.
pub open spec fn mask_start(mode: u8) -> u8 {
    if mask::is_additive(mode) {
        0
    } else {
        255
    }
}

impl RendererView {
    /// The plane that is drawn on.
    pub open spec fn active(self) -> Seq<u32> {
        self.planes.last()
    }

    /// The same with another plane to draw on.
    pub open spec fn with_active(self, plane: Seq<u32>) -> RendererView {
        RendererView { planes: self.planes.drop_last().push(plane), ..self }
    }

    /// The same with a rectangle noted as written.
    pub open spec fn with_written(self, b: DirtyBox) -> RendererView {
        RendererView { dirty: self.dirty.drop_last().push(self.dirty.last().joined(b)), ..self }
    }

    /// The same without the topmost surface.
    pub open spec fn popped(self) -> RendererView {
        RendererView { planes: self.planes.drop_last(), dirty: self.dirty.drop_last(), ..self }
    }

    /// The same with a surface put over the plane that is drawn on.
    pub open spec fn over(self, source: Seq<u32>, written: DirtyBox, opacity: u8) -> RendererView {
        let drawn = self.with_active(put_over(self.active(), source, self.width, written, opacity));
        if written.is_empty_spec() {
            drawn
        } else {
            drawn.with_written(written)
        }
    }

    /// After a surface was opened.
    pub open spec fn saved(self) -> RendererView {
        RendererView {
            planes: self.planes.push(
                dirty::constant((self.width * self.height) as nat, 0u32),
            ),
            dirty: self.dirty.push(no_box()),
            ..self
        }
    }

    /// After the topmost surface was closed over the one below.
    pub open spec fn ended_over(self, opacity: u8) -> RendererView {
        if self.planes.len() < 2 {
            self
        } else {
            self.popped().over(self.active(), self.dirty.last(), opacity)
        }
    }

    /// After the two topmost surfaces were closed, the lower as the matte of the upper.
    pub open spec fn ended_matte(self, kind: u8, opacity: u8, source_opacity: u8) -> RendererView {
        if self.planes.len() < 2 {
            self
        } else if self.planes.len() == 2 {
            self.popped()
        } else {
            let below = self.popped();
            let source = compose::modulated(
                below.active(),
                dirty::constant(below.active().len(), source_opacity),
            );
            below.popped().over(
                compose::matted(self.active(), source, kind),
                self.dirty.last(),
                opacity,
            )
        }
    }

    /// After one more mask, which is the first or the last of a layer's.
    pub open spec fn masked(
        self,
        coverage: Seq<u8>,
        mode: u8,
        inverted: bool,
        opacity: u8,
        first: bool,
        last: bool,
    ) -> RendererView {
        let start = if first || self.mask is None {
            dirty::constant((self.width * self.height) as nat, mask_start(mode))
        } else {
            self.mask->0
        };
        let next = folded(start, coverage, mode, inverted, opacity);
        if last {
            RendererView {
                mask: None,
                ..self.with_active(compose::modulated(self.active(), next))
            }
        } else {
            RendererView { mask: Some(next), ..self }
        }
    }
}

impl View for CPURenderer {
    type V = RendererView;

    open spec fn view(&self) -> RendererView {
        RendererView {
            width: self.width,
            height: self.height,
            planes: plane_views(self.planes@),
            dirty: self.dirty@,
            rest: self.rest@,
            mask: match self.mask_accumulator {
                Some(m) => Some(m@),
                None => None,
            },
        }
    }
}

impl CPURenderer {
    /// True where every plane has the size of the canvas and every rectangle lies on it.
    pub open spec fn wf(self) -> bool {
        &&& self.state.wf()
        &&& self.width * self.height <= usize::MAX
        &&& self.planes@.len() == self.dirty@.len()
        &&& forall|i: int|
            0 <= i < self.planes@.len() ==> (#[trigger] self.planes@[i])@.len() == self.width
                * self.height
        &&& self.mask_accumulator matches Some(m) ==> m@.len() == self.width * self.height
    }

    /// True while a bitmap is bound.
    pub open spec fn bound(self) -> bool {
        self.planes@.len() > 0
    }

    /// A renderer without a bitmap.
    pub fn new() -> (r: CPURenderer)
        ensures
            r.wf(),
            !r.bound(),
            r@ == (RendererView {
                width: 0,
                height: 0,
                planes: Seq::empty(),
                dirty: Seq::empty(),
                rest: Seq::empty(),
                mask: None,
            }),
            r.state.cov_cache.resident() == Map::<u128, EntryView>::empty(),
            !r.state.cov_cache.frozen,
    {
        let r = CPURenderer {
            width: 0,
            height: 0,
            planes: Vec::new(),
            dirty: Vec::new(),
            rest: Vec::new(),
            mask_accumulator: None,
            state: RenderScratch::new(),
        };
        assert(r@.planes =~= Seq::empty());
        r
    }

    /// Binds a buffer. Its first `width * height` pixels are the bitmap and are cleared; what is
    /// behind them stays. A buffer that cannot be bound is handed back.
    pub fn bind(&mut self, pixels: Vec<u32>, width: u32, height: u32) -> (r: core::result::Result<
        (),
        (Error, Vec<u32>),
    >)
        requires
            old(self).wf(),
        ensures
            final(self).wf(),
            ({
                let n = width * height;
                let refusal = if old(self).bound() {
                    Some("CPU renderer already has a bound bitmap")
                } else if n > usize::MAX {
                    Some("render size overflow")
                } else if n > pixels@.len() {
                    Some("pixel buffer too small")
                } else {
                    None
                };
                match refusal {
                    Some(what) => {
                        &&& *final(self) == *old(self)
                        &&& r is Err
                        &&& r->Err_0.0 == Error::InvalidLottie { offset: 0, what }
                        &&& r->Err_0.1 == pixels
                    },
                    None => {
                        &&& r is Ok
                        &&& final(self)@ == (RendererView {
                            width: width as usize,
                            height: height as usize,
                            planes: seq![dirty::constant(n as nat, 0u32)],
                            dirty: seq![no_box()],
                            rest: pixels@.skip(n as int),
                            mask: None,
                        })
                        &&& final(self).state.cov_cache.ticked_from(
                            CovCache {
                                budget: cov_cache::canvas_budget(n),
                                shrink_entries: n > SMALL_CANVAS_PX,
                                ..old(self).state.cov_cache
                            },
                        )
                    },
                }
            }),
    {
        if self.planes.len() > 0 {
            return Err(
                (
                    Error::InvalidLottie {
                        offset: 0,
                        what: "CPU renderer already has a bound bitmap",
                    },
                    pixels,
                ),
            );
        }
        let n: usize = match (width as usize).checked_mul(height as usize) {
            Some(n) => n,
            None => {
                return Err(
                    (Error::InvalidLottie { offset: 0, what: "render size overflow" }, pixels),
                );
            },
        };
        if n > pixels.len() {
            return Err(
                (Error::InvalidLottie { offset: 0, what: "pixel buffer too small" }, pixels),
            );
        }
        let mut target = pixels;
        let rest = target.split_off(n);
        target.clear();
        target.resize(n, 0);
        assert(target@ =~= dirty::constant(n as nat, 0u32));
        self.rest = rest;
        self.width = width as usize;
        self.height = height as usize;
        self.mask_accumulator = None;
        self.state.cov_cache.set_budget_for_canvas(self.width, self.height);
        self.state.cov_cache.frame_tick();
        self.planes.clear();
        self.dirty.clear();
        self.planes.push(target);
        self.dirty.push(DirtyBox::empty());
        assert(self@.planes =~= seq![dirty::constant(n as nat, 0u32)]);
        assert(self@.dirty =~= seq![no_box()]);
        Ok(())
    }

    /// Gives the buffer back, and every surface to the pool.
    pub fn release(&mut self) -> (pixels: Vec<u32>)
        requires
            old(self).wf(),
            old(self).bound(),
        ensures
            final(self).wf(),
            !final(self).bound(),
            final(self).mask_accumulator is None,
            pixels@ == old(self)@.planes[0] + old(self)@.rest,
            final(self).state.cov_cache == old(self).state.cov_cache,
    {
        let ghost before = self.planes@;
        while self.planes.len() > 1
            invariant
                self.wf(),
                self.planes@.len() >= 1,
                self.planes@ == before.take(self.planes@.len() as int),
                self.planes@.len() <= before.len(),
                self.rest@ == old(self).rest@,
                self.state.cov_cache == old(self).state.cov_cache,
            decreases self.planes@.len(),
        {
            let ghost n = self.planes@.len() as int;
            let _ = self.dirty.pop();
            match self.planes.pop() {
                Some(surface) => self.state.put_u32(surface),
                None => {},
            }
            assert(self.planes@ =~= before.take(n - 1));
        }
        if self.mask_accumulator.is_some() {
            let mut held: Option<Vec<u8>> = None;
            core::mem::swap(&mut held, &mut self.mask_accumulator);
            match held {
                Some(mask) => self.state.put_u8(mask),
                None => {},
            }
        }
        let _ = self.dirty.pop();
        let mut pixels: Vec<u32> = match self.planes.pop() {
            Some(bitmap) => bitmap,
            None => Vec::new(),
        };
        let mut rest: Vec<u32> = Vec::new();
        core::mem::swap(&mut rest, &mut self.rest);
        pixels.append(&mut rest);
        assert(before[0]@ == old(self)@.planes[0]);
        pixels
    }

    /// Opens a surface.
    pub fn save_layer(&mut self)
        requires
            old(self).wf(),
            old(self).bound(),
        ensures
            final(self).wf(),
            final(self)@ == old(self)@.saved(),
            final(self).state.cov_cache == old(self).state.cov_cache,
    {
        let n: usize = self.width * self.height;
        let layer = self.state.take_u32(n);
        self.planes.push(layer);
        self.dirty.push(DirtyBox::empty());
        assert(self@ =~= old(self)@.saved());
    }

    /// Puts a surface over the plane that is drawn on.
    fn put_over(&mut self, source: Vec<u32>, written: DirtyBox, opacity: u8)
        requires
            old(self).wf(),
            old(self).bound(),
            source@.len() == old(self).width * old(self).height,
        ensures
            final(self).wf(),
            final(self)@ == old(self)@.over(source@, written, opacity),
            final(self).state.cov_cache == old(self).state.cov_cache,
    {
        let width: usize = self.width;
        let mut active: Vec<u32> = match self.planes.pop() {
            Some(plane) => plane,
            None => Vec::new(),
        };
        composite_over_box(active.as_mut_slice(), source.as_slice(), width, written, opacity);
        proof {
            dirty::lemma_boxed_len(
                compose::clipped(
                    written,
                    width,
                    compose::shared_rows(old(self)@.active().len(), source@.len(), width),
                ),
                width as int,
                old(self)@.active(),
                blend::composited(old(self)@.active(), source@, opacity as int),
            );
        }
        self.planes.push(active);
        if !written.is_empty() {
            let last: usize = self.dirty.len() - 1;
            let mut b = self.dirty[last];
            b.union(written);
            self.dirty.set(last, b);
        }
        self.state.put_u32(source);
        assert(self@ =~= old(self)@.over(source@, written, opacity));
    }

    /// Closes the topmost surface over the one below. Without a surface nothing happens.
    pub fn end_layer_over(&mut self, opacity: u8)
        requires
            old(self).wf(),
            old(self).bound(),
        ensures
            final(self).wf(),
            final(self).bound(),
            final(self)@ == old(self)@.ended_over(opacity),
            final(self).state.cov_cache == old(self).state.cov_cache,
    {
        if self.planes.len() < 2 {
            return;
        }
        let last: usize = self.planes.len() - 1;
        let written = self.dirty[last];
        let _ = self.dirty.pop();
        match self.planes.pop() {
            Some(source) => {
                assert(self@ =~= old(self)@.popped());
                self.put_over(source, written, opacity);
            },
            None => {},
        }
    }

    /// Closes the two topmost surfaces: the lower, scaled by its opacity, is the matte of the upper,
    /// which is put over the plane below. Where there is only one, it is dropped.
    pub fn end_layer_matte(&mut self, kind: u8, opacity: u8, source_opacity: u8)
        requires
            old(self).wf(),
            old(self).bound(),
        ensures
            final(self).wf(),
            final(self).bound(),
            final(self)@ == old(self)@.ended_matte(kind, opacity, source_opacity),
            final(self).state.cov_cache == old(self).state.cov_cache,
    {
        let count: usize = self.planes.len();
        if count < 2 {
            return;
        }
        let written = self.dirty[count - 1];
        let _ = self.dirty.pop();
        let mut target: Vec<u32> = match self.planes.pop() {
            Some(plane) => plane,
            None => Vec::new(),
        };
        assert(self@ =~= old(self)@.popped());
        if count == 2 {
            return;
        }
        let ghost below = self@;
        let _ = self.dirty.pop();
        let mut source: Vec<u32> = match self.planes.pop() {
            Some(plane) => plane,
            None => Vec::new(),
        };
        assert(self@ =~= below.popped());
        let n: usize = source.len();
        let level = self.state.take_u8(n, source_opacity);
        modulate(source.as_mut_slice(), level.as_slice());
        self.state.put_u8(level);
        apply_matte(target.as_mut_slice(), source.as_slice(), kind);
        self.state.put_u32(source);
        self.put_over(target, written, opacity);
    }

    /// Puts one more mask into the accumulator. The first starts it anew, and the last one scales
    /// the plane that is drawn on by what has come together.
    pub fn apply_mask(
        &mut self,
        coverage: &[u8],
        mode: u8,
        inverted: bool,
        opacity: u8,
        first: bool,
        last: bool,
    )
        requires
            old(self).wf(),
            old(self).bound(),
            coverage@.len() == old(self).width * old(self).height,
        ensures
            final(self).wf(),
            final(self).bound(),
            final(self)@ == old(self)@.masked(coverage@, mode, inverted, opacity, first, last),
            final(self).state.cov_cache == old(self).state.cov_cache,
    {
        let n: usize = self.width * self.height;
        let mut held: Option<Vec<u8>> = None;
        core::mem::swap(&mut held, &mut self.mask_accumulator);
        let mut acc: Vec<u8> = match held {
            Some(mask) => {
                if first {
                    self.state.put_u8(mask);
                    self.state.take_u8(n, start_of(mode))
                } else {
                    mask
                }
            },
            None => self.state.take_u8(n, start_of(mode)),
        };
        let ghost start = acc@;
        let mut i: usize = 0;
        while i < n
            invariant
                n == acc@.len() == start.len() == coverage@.len(),
                i <= n,
                forall|j: int|
                    0 <= j < n ==> #[trigger] acc@[j] == (if j < i {
                        folded(start, coverage@, mode, inverted, opacity)[j]
                    } else {
                        start[j]
                    }),
            decreases n - i,
        {
            let v = fold_mask(mode, inverted, opacity, coverage[i], acc[i]);
            acc.set(i, v);
            i += 1;
        }
        assert(acc@ =~= folded(start, coverage@, mode, inverted, opacity));
        if last {
            let mut active: Vec<u32> = match self.planes.pop() {
                Some(plane) => plane,
                None => Vec::new(),
            };
            modulate(active.as_mut_slice(), acc.as_slice());
            self.planes.push(active);
            self.state.put_u8(acc);
        } else {
            self.mask_accumulator = Some(acc);
        }
        assert(self@ =~= old(self)@.masked(coverage@, mode, inverted, opacity, first, last));
    }
}

/// The value that a mask of that mode starts from.
fn start_of(mode: u8) -> (v: u8)
    ensures
        v == mask_start(mode),
{
    if mode == 0x61 || mode == 0x66 {
        0
    } else {
        255
    }
}

/// The coverage of an outline that was rasterized just now.
#[derive(Clone, Copy)]
pub enum Coverage<'a> {
    /// Spans, in the order of their rows and columns.
    Spans(&'a [u64]),
    /// Rows, each with its place and length, and their bytes one after another.
    Rows {
        /// Row, first column and length.
        rows: &'a [(u32, u32, u32)],
        /// The bytes.
        data: &'a [u8],
    },
}

impl<'a> Coverage<'a> {
    /// True where spans are sorted, and rows have all their bytes.
    pub open spec fn wf(self) -> bool {
        match self {
            Coverage::Spans(list) => spans::spans_sorted(list@),
            Coverage::Rows { rows, data } => fill::row_offset(rows@, rows@.len() as int)
                == data@.len(),
        }
    }

    /// The segments that lie on a canvas of `len` pixels.
    pub open spec fn segments(self, w: int, len: nat) -> Seq<canvas::Segment> {
        match self {
            Coverage::Spans(list) => canvas::span_segments(
                fill::fitting_spans(list@, w, len, list@.len() as int),
            ),
            Coverage::Rows { rows, data } => fill::fitting_rows(
                rows@,
                data@,
                w,
                len,
                rows@.len() as int,
            ).2,
        }
    }
}

impl RendererView {
    /// What is noted as written before a paint is drawn: something, where the plane has content.
    pub open spec fn first_box(self) -> DirtyBox {
        if self.dirty.last().is_empty_spec() {
            no_box()
        } else {
            no_box().marked(0, 0, 1)
        }
    }

    /// After segments were painted.
    pub open spec fn painted(self, segs: Seq<canvas::Segment>, paint: Paint) -> RendererView {
        let w = self.width as int;
        self.with_active(canvas::paint_segments(self.active(), segs, w, paint)).with_written(
            canvas::mark_segments(self.first_box(), segs, w, self.active().len()),
        )
    }

    /// After a plane of painted pixels was put over the one that is drawn on.
    pub open spec fn sourced(self, rows: Seq<(u32, u32, u32)>, data: Seq<u32>) -> RendererView {
        let w = self.width as int;
        self.with_active(fill::over_rows(self.active(), rows, data, w, 0, 0)).with_written(
            fill::mark_rows(self.first_box(), rows, data.len(), w, self.active().len(), 0, 0),
        )
    }
}

impl CPURenderer {
    /// Whether an outline can be drawn without its points.
    pub fn retains_geometry(&self, key: u128) -> (r: bool)
        ensures
            r == self.state.cov_cache.resident().contains_key(key),
    {
        self.state.cov_cache.contains(key)
    }

    /// The plane that is drawn on, taken out, and what is noted as written before a paint.
    fn lift(&mut self) -> (r: (Vec<u32>, DirtyBox))
        requires
            old(self).wf(),
            old(self).bound(),
        ensures
            r.0@ == old(self)@.active(),
            r.1 == old(self)@.first_box(),
            final(self).planes@ == old(self).planes@.drop_last(),
            final(self).width == old(self).width,
            final(self).height == old(self).height,
            final(self).dirty == old(self).dirty,
            final(self).rest == old(self).rest,
            final(self).mask_accumulator == old(self).mask_accumulator,
            final(self).state == old(self).state,
    {
        let last: usize = self.dirty.len() - 1;
        let mut b = DirtyBox::empty();
        if !self.dirty[last].is_empty() {
            b.mark_row(0, 0, 1);
        }
        match self.planes.pop() {
            Some(plane) => (plane, b),
            None => (Vec::new(), b),
        }
    }

    /// Puts the plane that is drawn on back, and notes what was written.
    fn lower(&mut self, plane: Vec<u32>, written: DirtyBox)
        requires
            old(self).dirty@.len() == old(self).planes@.len() + 1,
        ensures
            final(self).planes@ == old(self).planes@.push(plane),
            final(self).dirty@ == old(self).dirty@.drop_last().push(
                old(self).dirty@.last().joined(written),
            ),
            final(self).width == old(self).width,
            final(self).height == old(self).height,
            final(self).rest == old(self).rest,
            final(self).mask_accumulator == old(self).mask_accumulator,
            final(self).state == old(self).state,
    {
        self.planes.push(plane);
        let last: usize = self.dirty.len() - 1;
        let mut b = self.dirty[last];
        b.union(written);
        self.dirty.set(last, b);
        assert(self.dirty@ =~= old(self).dirty@.drop_last().push(b));
    }

    /// Draws an outline whose coverage is cached under `key`, where there is one.
    pub fn draw_cached(&mut self, key: u128, paint: &Paint) -> (hit: bool)
        requires
            old(self).wf(),
            old(self).bound(),
            paint.wf((old(self).width * old(self).height) as nat),
        ensures
            final(self).wf(),
            final(self).bound(),
            hit == old(self).state.cov_cache.resident().contains_key(key),
            hit ==> {
                let segs = fill::plane_segments(old(self).state.cov_cache.resident()[key]);
                &&& final(self)@ == old(self)@.painted(segs, *paint)
                &&& final(self).state.cov_cache == old(self).state.cov_cache.with_hit()
            },
            !hit ==> final(self)@ == old(self)@ && final(self).state.cov_cache == old(
                self,
            ).state.cov_cache,
    {
        if !self.state.cov_cache.contains(key) {
            return false;
        }
        let w: usize = self.width;
        let ghost view = self@;
        let ghost segs = fill::plane_segments(self.state.cov_cache.resident()[key]);
        let (mut plane, mut b) = self.lift();
        let hit = fill_cached(
            &mut self.state.cov_cache,
            key,
            plane.as_mut_slice(),
            &mut b,
            w,
            paint,
        );
        proof {
            canvas::lemma_paint_len(view.active(), segs, w as int, *paint);
        }
        self.lower(plane, b);
        assert(self@ =~= view.painted(segs, *paint));
        hit
    }

    /// Draws an outline that was rasterized just now, and offers its coverage to the cache.
    pub fn draw_fresh(&mut self, key: u128, coverage: &Coverage, paint: &Paint)
        requires
            old(self).wf(),
            old(self).bound(),
            coverage.wf(),
            paint.wf((old(self).width * old(self).height) as nat),
        ensures
            final(self).wf(),
            final(self).bound(),
            ({
                let w = old(self).width as int;
                let len = old(self)@.active().len();
                let before = old(self).state.cov_cache;
                let after = final(self).state.cov_cache;
                &&& final(self)@ == old(self)@.painted(coverage.segments(w, len), *paint)
                &&& match *coverage {
                    Coverage::Spans(list) => {
                        let fit = fill::fitting_spans(list@, w, len, list@.len() as int);
                        if fit.len() > fill::SPAN_CAPTURE_MAX {
                            after == before
                        } else {
                            after.offered_from(before, key, fill::captured_plane(fit))
                        }
                    },
                    Coverage::Rows { rows, data } => {
                        let fit = fill::fitting_rows(rows@, data@, w, len, rows@.len() as int);
                        after.offered_from(
                            before,
                            key,
                            EntryView { rows: fit.0, data: PlaneSeq::Cov(fit.1) },
                        )
                    },
                }
            }),
    {
        let w: usize = self.width;
        let ghost view = self@;
        let ghost segs = coverage.segments(w as int, view.active().len());
        let (mut plane, mut b) = self.lift();
        match coverage {
            Coverage::Spans(list) => fill_spans(
                &mut self.state.cov_cache,
                key,
                plane.as_mut_slice(),
                &mut b,
                w,
                *list,
                paint,
            ),
            Coverage::Rows { rows, data } => fill_rows(
                &mut self.state.cov_cache,
                key,
                plane.as_mut_slice(),
                &mut b,
                w,
                *rows,
                *data,
                paint,
            ),
        }
        proof {
            canvas::lemma_paint_len(view.active(), segs, w as int, *paint);
        }
        self.lower(plane, b);
        assert(self@ =~= view.painted(segs, *paint));
    }

    /// Draws a gradient from the cache: its painted pixels under `src_key`, or else its coverage
    /// under `key`.
    pub fn draw_gradient_cached(
        &mut self,
        key: u128,
        src_key: u128,
        lut: &[u32],
        index: &[u32],
    ) -> (hit: bool)
        requires
            old(self).wf(),
            old(self).bound(),
            (Paint::Gradient { lut, index }).wf((old(self).width * old(self).height) as nat),
        ensures
            final(self).wf(),
            final(self).bound(),
            ({
                let before = old(self).state.cov_cache;
                let resident = before.resident();
                let paint = Paint::Gradient { lut, index };
                &&& hit == (resident.contains_key(src_key) || resident.contains_key(key))
                &&& !hit ==> final(self)@ == old(self)@ && final(self).state.cov_cache == before
                &&& resident.contains_key(src_key) ==> match resident[src_key].data {
                    PlaneSeq::Src(data) => final(self)@ == old(self)@.sourced(
                        resident[src_key].rows,
                        data,
                    ),
                    _ => final(self)@ == old(self)@.painted(Seq::empty(), paint),
                }
                &&& resident.contains_key(src_key) ==> final(self).state.cov_cache == before.with_hit()
                &&& !resident.contains_key(src_key) && resident.contains_key(key) ==> {
                    let e = resident[key];
                    let segs = fill::plane_segments(e);
                    &&& final(self)@ == old(self)@.painted(segs, paint)
                    &&& if e.data is Src || before.frozen || fill::sources_bytes(e) > COV_ENTRY_MAX {
                        final(self).state.cov_cache == before.with_hit()
                    } else {
                        final(self).state.cov_cache.offered_from(
                            before.with_hit(),
                            src_key,
                            fill::captured_sources(
                                segs,
                                old(self).width as int,
                                paint,
                                old(self)@.active().len(),
                            ),
                        )
                    }
                }
            }),
    {
        let w: usize = self.width;
        let ghost view = self@;
        let ghost resident = self.state.cov_cache.resident();
        let ghost paint = Paint::Gradient { lut, index };
        if !self.state.cov_cache.contains(src_key) && !self.state.cov_cache.contains(key) {
            return false;
        }
        let (mut plane, mut b) = self.lift();
        let hit = fill_gradient_cached(
            &mut self.state.cov_cache,
            key,
            src_key,
            plane.as_mut_slice(),
            &mut b,
            w,
            lut,
            index,
        );
        proof {
            canvas::lemma_paint_len(
                view.active(),
                fill::plane_segments(resident[key]),
                w as int,
                paint,
            );
            if resident.contains_key(src_key) {
                match resident[src_key].data {
                    PlaneSeq::Src(data) => {
                        fill::lemma_over_len(
                            view.active(),
                            resident[src_key].rows,
                            data,
                            w as int,
                            0,
                            0,
                        );
                    },
                    _ => {},
                }
            }
        }
        self.lower(plane, b);
        proof {
            if resident.contains_key(src_key) {
                match resident[src_key].data {
                    PlaneSeq::Src(data) => {
                        assert(self@ =~= view.sourced(resident[src_key].rows, data));
                    },
                    _ => {
                        assert(self@ =~= view.painted(Seq::empty(), paint));
                    },
                }
            } else {
                assert(self@ =~= view.painted(fill::plane_segments(resident[key]), paint));
            }
        }
        hit
    }
}

/// True where every plane has the size of the canvas and has its own rectangle.
pub open spec fn sized(v: RendererView) -> bool {
    &&& v.planes.len() == v.dirty.len()
    &&& v.width > 0
    &&& v.width * v.height <= usize::MAX
    &&& forall|k: int|
        0 <= k < v.planes.len() ==> (#[trigger] v.planes[k]).len() == v.width * v.height
}

proof fn lemma_put_over_at(
    plane: Seq<u32>,
    source: Seq<u32>,
    w: usize,
    h: usize,
    b: DirtyBox,
    opacity: u8,
    x: int,
    y: int,
)
    requires
        w > 0,
        w * h <= usize::MAX,
        plane.len() == w * h,
        source.len() == w * h,
        0 <= x < w,
        0 <= y < h,
    ensures
        0 <= y * w + x < w * h,
        put_over(plane, source, w, b, opacity).len() == w * h,
        put_over(plane, source, w, b, opacity)[y * w + x] == (if b.x0 <= x <= b.x1 && b.y0 <= y
            <= b.y1 {
            blend::over_px(
                plane[y * w + x],
                blend::scale_px(source[y * w + x], opacity as int),
            )
        } else {
            plane[y * w + x]
        }),
{
    let rows = compose::shared_rows(plane.len(), source.len(), w);
    assert((w * h) / w as int == h) by (nonlinear_arith)
        requires
            w > 0,
    ;
    assert(rows == h);
    let c = compose::clipped(b, w, h);
    assert(c.within(w as int, h as int));
    dirty::law_replacing_stays_inside(
        c,
        w as int,
        h as int,
        plane,
        blend::composited(plane, source, opacity as int),
        x,
        y,
    );
    assert(c.holds(x, y) == b.holds(x, y));
    assert(y * w + x == y * (w as int) + x);
}

/// Opening a surface puts a clear plane with nothing noted on top; the planes below and all that is
/// noted of them stay.
pub proof fn law_surfaces_open_clear(v: RendererView, k: int, i: int)
    requires
        sized(v),
        0 <= k < v.planes.len(),
        0 <= i < v.width * v.height,
    ensures
        v.saved().planes.len() == v.planes.len() + 1,
        v.saved().dirty.len() == v.dirty.len() + 1,
        v.saved().planes[k] == v.planes[k],
        v.saved().dirty[k] == v.dirty[k],
        v.saved().active().len() == v.width * v.height,
        v.saved().active()[i] == 0,
        v.saved().dirty.last().x0 > v.saved().dirty.last().x1,
        v.saved().mask == v.mask,
        v.saved().rest == v.rest,
{
}

/// Closing a surface removes it and puts it, faded by the opacity, over the plane below wherever
/// something was noted on it. Nothing else changes: not the other pixels, not the planes further
/// down, not the mask. What was noted of it is noted of the plane below.
pub proof fn law_surfaces_close_over_the_one_below(
    v: RendererView,
    opacity: u8,
    k: int,
    x: int,
    y: int,
)
    requires
        sized(v),
        v.planes.len() >= 2,
        0 <= k < v.planes.len() - 2,
        0 <= x < v.width,
        0 <= y < v.height,
    ensures
        ({
            let after = v.ended_over(opacity);
            let n = v.planes.len() as int;
            let i = y * v.width + x;
            let b = v.dirty[n - 1];
            &&& after.planes.len() == n - 1
            &&& after.dirty.len() == n - 1
            &&& after.planes[k] == v.planes[k]
            &&& after.dirty[k] == v.dirty[k]
            &&& after.mask == v.mask
            &&& after.rest == v.rest
            &&& after.active()[i] == (if b.x0 <= x <= b.x1 && b.y0 <= y <= b.y1 {
                blend::over_px(
                    v.planes[n - 2][i],
                    blend::scale_px(v.planes[n - 1][i], opacity as int),
                )
            } else {
                v.planes[n - 2][i]
            })
            &&& after.dirty[n - 2].holds(x, y) <== b.holds(x, y) || v.dirty[n - 2].holds(x, y)
        }),
{
    lemma_surface_closes(v, opacity, x, y);
}

proof fn lemma_surface_closes(v: RendererView, opacity: u8, x: int, y: int)
    requires
        sized(v),
        v.planes.len() >= 2,
        0 <= x < v.width,
        0 <= y < v.height,
    ensures
        ({
            let after = v.ended_over(opacity);
            let n = v.planes.len() as int;
            let i = y * v.width + x;
            let b = v.dirty[n - 1];
            &&& after.active()[i] == (if b.x0 <= x <= b.x1 && b.y0 <= y <= b.y1 {
                blend::over_px(
                    v.planes[n - 2][i],
                    blend::scale_px(v.planes[n - 1][i], opacity as int),
                )
            } else {
                v.planes[n - 2][i]
            })
            &&& after.dirty[n - 2].holds(x, y) <== b.holds(x, y) || v.dirty[n - 2].holds(x, y)
        }),
{
    let n = v.planes.len() as int;
    let b = v.dirty[n - 1];
    assert(v.planes[n - 1].len() == v.width * v.height);
    assert(v.planes[n - 2].len() == v.width * v.height);
    assert(v.popped().active() == v.planes[n - 2]);
    lemma_put_over_at(v.planes[n - 2], v.planes[n - 1], v.width, v.height, b, opacity, x, y);
    dirty::law_union_holds(v.dirty[n - 2], b);
}

/// Closing the one surface of a bitmap puts it over the bitmap in the same way.
pub proof fn law_the_last_surface_closes_over_the_bitmap(
    v: RendererView,
    opacity: u8,
    x: int,
    y: int,
)
    requires
        sized(v),
        v.planes.len() == 2,
        0 <= x < v.width,
        0 <= y < v.height,
    ensures
        ({
            let after = v.ended_over(opacity);
            let i = y * v.width + x;
            let b = v.dirty[1];
            &&& after.planes.len() == 1
            &&& after.planes[0][i] == (if b.x0 <= x <= b.x1 && b.y0 <= y <= b.y1 {
                blend::over_px(
                    v.planes[0][i],
                    blend::scale_px(v.planes[1][i], opacity as int),
                )
            } else {
                v.planes[0][i]
            })
        }),
{
    lemma_surface_closes(v, opacity, x, y);
}

/// A bitmap without surfaces is not closed, and a surface that should be matted by one that is not
/// there is dropped.
pub proof fn law_missing_surfaces_are_not_closed(
    v: RendererView,
    kind: u8,
    opacity: u8,
    source_opacity: u8,
)
    requires
        sized(v),
        0 < v.planes.len() <= 2,
    ensures
        v.planes.len() == 1 ==> v.ended_over(opacity) == v && v.ended_matte(
            kind,
            opacity,
            source_opacity,
        ) == v,
        v.planes.len() == 2 ==> v.ended_matte(kind, opacity, source_opacity).planes
            == seq![v.planes[0]] && v.ended_matte(kind, opacity, source_opacity).dirty
            == seq![v.dirty[0]],
{
    if v.planes.len() == 2 {
        assert(v.planes.drop_last() =~= seq![v.planes[0]]);
        assert(v.dirty.drop_last() =~= seq![v.dirty[0]]);
    }
}

/// A matte closes two surfaces: the upper is scaled by what the lower, faded by its own opacity, lets
/// through, and is then put over the plane below both with its opacity. The lower one is never drawn.
pub proof fn law_mattes_close_two_surfaces(
    v: RendererView,
    kind: u8,
    opacity: u8,
    source_opacity: u8,
    x: int,
    y: int,
)
    requires
        sized(v),
        v.planes.len() >= 3,
        0 <= x < v.width,
        0 <= y < v.height,
    ensures
        ({
            let after = v.ended_matte(kind, opacity, source_opacity);
            let n = v.planes.len() as int;
            let i = y * v.width + x;
            let b = v.dirty[n - 1];
            let source = blend::scale_px(v.planes[n - 2][i], source_opacity as int);
            &&& after.planes.len() == n - 2
            &&& after.dirty.len() == n - 2
            &&& after.mask == v.mask
            &&& forall|k: int| 0 <= k < n - 3 ==> #[trigger] after.planes[k] == v.planes[k]
            &&& !(b.x0 <= x <= b.x1 && b.y0 <= y <= b.y1) ==> after.active()[i] == v.planes[n
                - 3][i]
            &&& b.x0 <= x <= b.x1 && b.y0 <= y <= b.y1 ==> after.active()[i] == blend::over_px(
                v.planes[n - 3][i],
                blend::scale_px(
                    blend::scale_px(
                        v.planes[n - 1][i],
                        if kind == 1 {
                            argb::alpha_of(source)
                        } else if kind == 2 {
                            255 - argb::alpha_of(source)
                        } else if kind == 3 {
                            compose::luma_of(source)
                        } else {
                            255 - compose::luma_of(source)
                        },
                    ),
                    opacity as int,
                ),
            )
        }),
{
    let n = v.planes.len() as int;
    let b = v.dirty[n - 1];
    let below = v.popped();
    let i = y * v.width + x;
    assert(v.planes[n - 1].len() == v.width * v.height);
    assert(v.planes[n - 2].len() == v.width * v.height);
    assert(v.planes[n - 3].len() == v.width * v.height);
    assert(below.active() == v.planes[n - 2]);
    assert(below.popped().active() == v.planes[n - 3]);
    let source = compose::modulated(
        below.active(),
        dirty::constant(below.active().len(), source_opacity),
    );
    let top = compose::matted(v.active(), source, kind);
    lemma_put_over_at(v.planes[n - 3], top, v.width, v.height, b, opacity, x, y);
}

/// A matte that lets everything through is as if the lower surface had not been there, and one that
/// is faded out hides all of an alpha matte's layer and shows all of an inverted one's.
pub proof fn law_faded_mattes_hide_or_show(
    v: RendererView,
    opacity: u8,
    x: int,
    y: int,
)
    requires
        sized(v),
        v.planes.len() >= 3,
        0 <= x < v.width,
        0 <= y < v.height,
    ensures
        ({
            let n = v.planes.len() as int;
            let i = y * v.width + x;
            let b = v.dirty[n - 1];
            let alone = if b.x0 <= x <= b.x1 && b.y0 <= y <= b.y1 {
                blend::over_px(
                    v.planes[n - 3][i],
                    blend::scale_px(v.planes[n - 1][i], opacity as int),
                )
            } else {
                v.planes[n - 3][i]
            };
            &&& v.ended_matte(1, opacity, 0).active()[i] == v.planes[n - 3][i]
            &&& v.ended_matte(3, opacity, 0).active()[i] == v.planes[n - 3][i]
            &&& v.ended_matte(2, opacity, 0).active()[i] == alone
            &&& v.ended_matte(4, opacity, 0).active()[i] == alone
            &&& argb::alpha_of(v.planes[n - 2][i]) == 255 ==> v.ended_matte(
                1,
                opacity,
                255,
            ).active()[i] == alone
        }),
{
    let n = v.planes.len() as int;
    let i = y * v.width + x;
    law_mattes_close_two_surfaces(v, 1, opacity, 0, x, y);
    law_mattes_close_two_surfaces(v, 2, opacity, 0, x, y);
    law_mattes_close_two_surfaces(v, 3, opacity, 0, x, y);
    law_mattes_close_two_surfaces(v, 4, opacity, 0, x, y);
    law_mattes_close_two_surfaces(v, 1, opacity, 255, x, y);
    let (source, top, base) = (v.planes[n - 2][i], v.planes[n - 1][i], v.planes[n - 3][i]);
    blend::law_scale_by_255(source);
    blend::law_scale_by_255(top);
    blend::law_scale_clear(opacity as int);
    blend::law_over_clear_source(base);
    blend::law_compositing_fades_the_source(0, source, 0);
    blend::law_compositing_fades_the_source(0, top, 0);
    argb::law_channels_are_bytes(0);
}

/// The first mask of a layer starts afresh, whatever was put together before: the mask is what it
/// contributes, or the rest where it subtracts.
pub proof fn law_first_masks_start_afresh(
    v: RendererView,
    coverage: Seq<u8>,
    mode: u8,
    inverted: bool,
    opacity: u8,
    i: int,
)
    requires
        mode == 0x61 || mode == 0x73 || mode == 0x69 || mode == 0x66,
        0 <= i < v.width * v.height,
    ensures
        ({
            let after = v.masked(coverage, mode, inverted, opacity, true, false);
            let c = mask::contribution(inverted, opacity, coverage[i]);
            &&& after.planes == v.planes
            &&& after.mask is Some
            &&& after.mask->0.len() == v.width * v.height
            &&& after.mask->0[i] == (if mode == 0x73 {
                255 - c
            } else {
                c
            })
        }),
{
    let c = mask::contribution(inverted, opacity, coverage[i]);
    mask::law_contribution_is_rounded(inverted, opacity, coverage[i]);
    mask::law_folds_go_one_way(0, c);
    mask::law_folds_go_one_way(255, c);
}

/// A later mask is folded into what was put together before it, and leaves the planes alone.
pub proof fn law_later_masks_are_folded_in(
    v: RendererView,
    coverage: Seq<u8>,
    mode: u8,
    inverted: bool,
    opacity: u8,
    i: int,
)
    requires
        mode == 0x61 || mode == 0x73 || mode == 0x69 || mode == 0x66,
        v.mask is Some,
        0 <= i < v.mask->0.len(),
    ensures
        ({
            let after = v.masked(coverage, mode, inverted, opacity, false, false);
            let c = mask::contribution(inverted, opacity, coverage[i]);
            let (old_value, new_value) = (v.mask->0[i] as int, after.mask->0[i] as int);
            &&& after.planes == v.planes
            &&& after.mask is Some
            &&& after.mask->0.len() == v.mask->0.len()
            &&& mode == 0x61 ==> argb::nearest(255 - new_value, (255 - old_value) * (255 - c))
            &&& mode == 0x73 ==> argb::nearest(new_value, old_value * (255 - c))
            &&& mode == 0x69 ==> argb::nearest(new_value, old_value * c)
            &&& mode == 0x66 ==> new_value == old_value - c || new_value == c - old_value
        }),
{
    let c = mask::contribution(inverted, opacity, coverage[i]);
    let cur = v.mask->0[i] as int;
    mask::law_contribution_is_rounded(inverted, opacity, coverage[i]);
    mask::law_each_mode_has_its_own_fold(cur, c);
    mask::law_folds_go_one_way(cur, c);
}

/// The last mask of a layer ends the mask: the plane that is drawn on is scaled by what the same mask
/// would have left to put together further, and the planes below stay.
pub proof fn law_last_masks_are_applied(
    v: RendererView,
    coverage: Seq<u8>,
    mode: u8,
    inverted: bool,
    opacity: u8,
    first: bool,
    i: int,
)
    requires
        sized(v),
        v.planes.len() > 0,
        v.mask is Some ==> v.mask->0.len() == v.width * v.height,
        0 <= i < v.width * v.height,
    ensures
        ({
            let put_together = v.masked(coverage, mode, inverted, opacity, first, false);
            let after = v.masked(coverage, mode, inverted, opacity, first, true);
            &&& after.mask is None
            &&& after.planes.len() == v.planes.len()
            &&& after.dirty == v.dirty
            &&& forall|k: int| 0 <= k < v.planes.len() - 1 ==> #[trigger] after.planes[k]
                == v.planes[k]
            &&& after.active()[i] == blend::scale_px(
                v.active()[i],
                put_together.mask->0[i] as int,
            )
        }),
{
    assert(v.planes[v.planes.len() - 1].len() == v.width * v.height);
}

/// Drawing changes the plane that is drawn on, and no other; it leaves masks alone.
pub proof fn law_drawing_changes_one_plane(
    v: RendererView,
    segs: Seq<canvas::Segment>,
    paint: Paint,
    rows: Seq<(u32, u32, u32)>,
    data: Seq<u32>,
    k: int,
)
    requires
        sized(v),
        0 <= k < v.planes.len() - 1,
    ensures
        v.painted(segs, paint).planes[k] == v.planes[k],
        v.painted(segs, paint).planes.len() == v.planes.len(),
        v.painted(segs, paint).dirty[k] == v.dirty[k],
        v.painted(segs, paint).mask == v.mask,
        v.sourced(rows, data).planes[k] == v.planes[k],
        v.sourced(rows, data).planes.len() == v.planes.len(),
        v.sourced(rows, data).dirty[k] == v.dirty[k],
        v.sourced(rows, data).mask == v.mask,
{
}

/// Drawing one run paints its pixels and no other, and notes the run.
pub proof fn law_runs_are_drawn_in_place(
    v: RendererView,
    s: canvas::Segment,
    paint: Paint,
    x: int,
    y: int,
)
    requires
        sized(v),
        v.planes.len() > 0,
        0 <= s.x,
        0 < s.cov.len(),
        s.x + s.cov.len() <= v.width,
        0 <= s.y < v.height,
        0 <= x < v.width,
        0 <= y < v.height,
    ensures
        ({
            let after = v.painted(seq![s], paint);
            let i = y * v.width + x;
            let inside = y == s.y && s.x <= x < s.x + s.cov.len();
            &&& after.active()[i] == (if inside {
                blend::over_px(v.active()[i], paint.source(i, s.cov[x - s.x]))
            } else {
                v.active()[i]
            })
            &&& inside || v.dirty.last().holds(x, y) ==> after.dirty.last().holds(x, y)
        }),
{
    let n = v.planes.len() as int;
    let (w, h) = (v.width as int, v.height as int);
    assert(v.planes[n - 1].len() == v.width * v.height);
    assert(v.width * v.height == w * h);
    assert(y * v.width + x == y * w + x);
    canvas::law_painting_stays_in_its_run(v.active(), s, w, h, paint, x, y);
    let (sx, sy, m) = (s.x, s.y, s.cov.len() as int);
    assert(sy * w + sx + m <= w * h) by (nonlinear_arith)
        requires
            sx + m <= w,
            0 <= sy < h,
            w > 0,
    ;
    assert(seq![s] + Seq::<canvas::Segment>::empty() =~= seq![s]);
    canvas::law_segments_are_noted_in_turn(
        v.first_box(),
        s,
        Seq::empty(),
        w,
        v.active().len(),
    );
    let marked = v.first_box().marked(s.y as usize, s.x as usize, (s.x + s.cov.len()) as usize);
    dirty::law_mark_row_holds(
        v.first_box(),
        s.y as usize,
        s.x as usize,
        (s.x + s.cov.len()) as usize,
    );
    dirty::law_union_holds(v.dirty.last(), marked);
}

/// A row of painted pixels is put over the plane that is drawn on, each over the pixel it lies on, and
/// changes no other.
pub proof fn law_painted_rows_are_put_in_place(v: RendererView, row: (u32, u32, u32), data: Seq<u32>, i: int)
    requires
        sized(v),
        v.planes.len() > 0,
        data.len() == row.2,
        row.0 * v.width + row.1 + row.2 <= v.width * v.height,
        0 <= i < v.width * v.height,
    ensures
        ({
            let lo = row.0 * v.width + row.1;
            v.sourced(seq![row], data).active()[i] == (if lo <= i < lo + row.2 {
                blend::over_px(v.active()[i], data[i - lo])
            } else {
                v.active()[i]
            })
        }),
{
    let n = v.planes.len() as int;
    let w = v.width as int;
    assert(v.planes[n - 1].len() == v.width * v.height);
    let lo = row.0 * v.width + row.1;
    assert(data.subrange(0, row.2 as int) =~= data);
    fill::law_source_rows_are_put_in_turn(v.active(), seq![row], data, w, v.first_box(), 0, 0);
    let after = fill::over_at(v.active(), lo, data);
    fill::law_sources_are_put_in_place(v.active(), lo, data, i);
    assert(fill::over_rows(after, seq![row], data, w, 1, row.2 as int) == after);
    assert(v.sourced(seq![row], data).active() == after);
}

} // verus!
