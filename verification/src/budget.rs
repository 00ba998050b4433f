//! Deterministic limits on the work of one frame.
//!
//! Work is charged before geometry is expanded or a backend is called, and also where commands are
//! replayed from a cache.

use crate::decode::Values;
use crate::error::{Error, Limit, Result};
use crate::layer::Layer;
use crate::limits::Limits;
use crate::property::{Property, Timeline};
use crate::shape::{
    DashElement, Group, PathData, Position, RepeaterTransform, Shape, Stops, Transform,
};
use std::collections::HashMap;
use vstd::prelude::*;

verus! {

broadcast use vstd::std_specs::hash::group_hash_axioms;

/// What has been used up in this frame.
pub struct Budget {
    /// Evaluated points.
    pub points: usize,
    /// Work units.
    pub work: usize,
    /// Expanded layers.
    pub layers: usize,
}

/// What is left below `maximum`.
pub open spec fn remaining(used: int, maximum: int) -> int {
    if used < maximum {
        maximum - used
    } else {
        0
    }
}

/// Adds `amount` to a counter where that does not take it past `maximum`.
pub fn charge(counter: &mut usize, amount: usize, maximum: usize, limit: Limit) -> (r: Result<()>)
    ensures
        if amount <= remaining(*old(counter) as int, maximum as int) {
            r is Ok && *final(counter) == *old(counter) + amount
        } else {
            r == Err::<(), Error>(Error::LimitExceeded(limit)) && *final(counter) == *old(counter)
        },
{
    let left: usize = maximum.saturating_sub(*counter);
    if amount > left {
        return Err(Error::LimitExceeded(limit));
    }
    if amount > 0 {
        *counter = *counter + amount;
    }
    Ok(())
}

/// A product that stops at the largest machine word.
pub open spec fn capped_product(a: int, b: int) -> int {
    if a * b > usize::MAX {
        usize::MAX as int
    } else {
        a * b
    }
}

/// Multiplies, stopping at the largest machine word.
pub fn capped_mul(a: usize, b: usize) -> (p: usize)
    ensures
        p == capped_product(a as int, b as int),
{
    match a.checked_mul(b) {
        Some(p) => p,
        None => usize::MAX,
    }
}

impl Budget {
    /// A budget of which nothing has been used.
    pub fn new() -> (b: Budget)
        ensures
            b.points == 0,
            b.work == 0,
            b.layers == 0,
    {
        Budget { points: 0, work: 0, layers: 0 }
    }

    /// Charges evaluated points.
    pub fn points(&mut self, amount: usize) -> (r: Result<()>)
        ensures
            final(self).work == old(self).work,
            final(self).layers == old(self).layers,
            if amount <= remaining(
                old(self).points as int,
                Limits::defaults().max_render_points as int,
            ) {
                r is Ok && final(self).points == old(self).points + amount
            } else {
                r == Err::<(), Error>(Error::LimitExceeded(Limit::RenderGeometry))
                    && final(self).points == old(self).points
            },
    {
        charge(
            &mut self.points,
            amount,
            Limits::default().max_render_points,
            Limit::RenderGeometry,
        )
    }

    /// Charges work units.
    pub fn work(&mut self, amount: usize) -> (r: Result<()>)
        ensures
            final(self).points == old(self).points,
            final(self).layers == old(self).layers,
            if amount <= remaining(
                old(self).work as int,
                Limits::defaults().max_render_work as int,
            ) {
                r is Ok && final(self).work == old(self).work + amount
            } else {
                r == Err::<(), Error>(Error::LimitExceeded(Limit::RenderWork)) && final(self).work
                    == old(self).work
            },
    {
        charge(&mut self.work, amount, Limits::default().max_render_work, Limit::RenderWork)
    }

    /// Charges expanded layers.
    pub fn layers(&mut self, amount: usize) -> (r: Result<()>)
        ensures
            final(self).points == old(self).points,
            final(self).work == old(self).work,
            if amount <= remaining(
                old(self).layers as int,
                Limits::defaults().max_precomp_expansion as int,
            ) {
                r is Ok && final(self).layers == old(self).layers + amount
            } else {
                r == Err::<(), Error>(Error::LimitExceeded(Limit::PrecompExpansion))
                    && final(self).layers == old(self).layers
            },
    {
        charge(
            &mut self.layers,
            amount,
            Limits::default().max_precomp_expansion,
            Limit::PrecompExpansion,
        )
    }
}

/// How many segments a path of `n` vertices has.
pub fn segment_count(n: usize, closed: bool) -> (k: usize)
    ensures
        k == (if closed {
            n as int
        } else if n > 0 {
            n - 1
        } else {
            0
        }),
{
    if closed {
        n
    } else {
        n.saturating_sub(1)
    }
}

/// The vertex that the `i`th segment of a path of `n` vertices leads to.
pub fn segment_end(i: usize, n: usize) -> (j: usize)
    requires
        i < n,
    ensures
        j == (if i + 1 == n {
            0int
        } else {
            i + 1
        }),
{
    if i + 1 == n {
        0
    } else {
        i + 1
    }
}

/// The points that segments expand to, together, up to the largest machine word; nothing where one
/// of them leaves the finite plane.
pub open spec fn expanded(counts: Seq<Option<usize>>) -> Option<int>
    decreases counts.len(),
{
    if counts.len() == 0 {
        Some(1int)
    } else {
        match (expanded(counts.drop_last()), counts.last()) {
            (Some(before), Some(n)) => if before + n > usize::MAX {
                Some(usize::MAX as int)
            } else {
                Some(before + n)
            },
            _ => None,
        }
    }
}

proof fn lemma_expanded_stays_lost(counts: Seq<Option<usize>>, i: int)
    requires
        0 <= i < counts.len(),
        counts[i] is None,
    ensures
        expanded(counts) is None,
    decreases counts.len(),
{
    if i + 1 < counts.len() {
        lemma_expanded_stays_lost(counts.drop_last(), i);
    }
}

/// The largest of three lengths.
pub open spec fn longest(a: int, b: int, c: int) -> int {
    if a >= b && a >= c {
        a
    } else if b >= c {
        b
    } else {
        c
    }
}

fn longest_of(a: usize, b: usize, c: usize) -> (n: usize)
    ensures
        n == longest(a as int, b as int, c as int),
{
    if a >= b && a >= c {
        a
    } else if b >= c {
        b
    } else {
        c
    }
}

impl Budget {
    /// Charges the points that a path expands to: how many each of its segments needs, or nothing
    /// for a segment that leaves the finite plane.
    pub fn path(
        &mut self,
        vertices: usize,
        in_tangents: usize,
        out_tangents: usize,
        counts: &[Option<usize>],
    ) -> (r: Result<()>)
        ensures
            final(self).work == old(self).work,
            final(self).layers == old(self).layers,
            ({
                let used = old(self).points as int;
                let total = expanded(counts@);
                let limits = Limits::defaults();
                let fault = if longest(
                    vertices as int,
                    in_tangents as int,
                    out_tangents as int,
                ) > limits.max_path_points {
                    Some(Limit::PathPoints)
                } else if total is None {
                    Some(Limit::PathCoordinate)
                } else if total->0 > remaining(used, limits.max_render_points as int) {
                    Some(Limit::RenderGeometry)
                } else {
                    None
                };
                match fault {
                    Some(limit) => {
                        &&& r == Err::<(), Error>(Error::LimitExceeded(limit))
                        &&& final(self).points == used
                    },
                    None => r is Ok && final(self).points == used + total->0,
                }
            }),
    {
        let limits = Limits::default();
        if longest_of(vertices, in_tangents, out_tangents) > limits.max_path_points {
            return Err(Error::LimitExceeded(Limit::PathPoints));
        }
        let n: usize = counts.len();
        let mut total: usize = 1;
        let mut i: usize = 0;
        assert(counts@.take(0) =~= Seq::<Option<usize>>::empty());
        while i < n
            invariant
                n == counts@.len(),
                i <= n,
                expanded(counts@.take(i as int)) == Some(total as int),
                *self == *old(self),
                longest(vertices as int, in_tangents as int, out_tangents as int)
                    <= Limits::defaults().max_path_points,
            decreases n - i,
        {
            assert(counts@.take(i + 1).drop_last() =~= counts@.take(i as int));
            match counts[i] {
                Some(k) => {
                    total = total.saturating_add(k);
                },
                None => {
                    proof {
                        lemma_expanded_stays_lost(counts@, i as int);
                    }
                    return Err(Error::LimitExceeded(Limit::PathCoordinate));
                },
            }
            i += 1;
        }
        assert(counts@.take(n as int) =~= counts@);
        self.points(total)
    }
}

/// The number of pixels of a canvas, where its size is within the limits.
pub fn canvas_size(width: u32, height: u32) -> (r: Result<usize>)
    ensures
        ({
            let most = Limits::defaults().max_dimension;
            if width == 0 || height == 0 || width > most || height > most {
                r == Err::<usize, Error>(Error::LimitExceeded(Limit::CompositionSize))
            } else if width * height > Limits::defaults().max_render_bytes as int / 32 {
                r == Err::<usize, Error>(Error::LimitExceeded(Limit::RenderMemory))
            } else {
                r is Ok && r->Ok_0 == width * height
            }
        }),
{
    let limits = Limits::default();
    if width == 0 || height == 0 || width > limits.max_dimension || height > limits.max_dimension {
        return Err(Error::LimitExceeded(Limit::CompositionSize));
    }
    proof {
        let (w, h) = (width as int, height as int);
        assert(w * h <= 8192 * 8192) by (nonlinear_arith)
            requires
                0 <= w <= 8192,
                0 <= h <= 8192,
        ;
    }
    match (width as usize).checked_mul(height as usize) {
        Some(pixels) => {
            if pixels > limits.max_render_bytes / 32 {
                Err(Error::LimitExceeded(Limit::RenderMemory))
            } else {
                Ok(pixels)
            }
        },
        None => Err(Error::LimitExceeded(Limit::RenderMemory)),
    }
}

/// What is known of an outline before it is drawn.
#[derive(Clone, Copy, Debug, PartialEq, Eq)]
pub enum Outline {
    /// A point lies outside the finite plane.
    NotFinite,
    /// The outline's cell deposits, and its bounding box clipped to the canvas, where it has points.
    Measured {
        /// An upper bound on cell deposits.
        work: usize,
        /// Width and height of the box.
        area: Option<(usize, usize)>,
    },
}

/// How dear a paint is.
#[derive(Clone, Copy, Debug, PartialEq, Eq, Structural)]
pub enum PaintKind {
    /// One colour.
    Solid,
    /// A gradient along a line.
    Linear,
    /// A gradient around a point.
    Radial,
    /// A gradient around a point, seen from another.
    Focal,
}

impl PaintKind {
    /// Work units for each pixel.
    pub open spec fn weight(self) -> usize {
        match self {
            PaintKind::Solid => 1,
            PaintKind::Linear => 8,
            PaintKind::Radial => 16,
            PaintKind::Focal => 32,
        }
    }

    /// Work units for each pixel: mapping, table lookup and blending of a gradient cost more than a
    /// solid fill, and a focal one also solves a quadratic.
    pub fn pixel_weight(self) -> (w: usize)
        ensures
            w == self.weight(),
    {
        match self {
            PaintKind::Solid => 1,
            PaintKind::Linear => 8,
            PaintKind::Radial => 16,
            PaintKind::Focal => 32,
        }
    }
}

/// How many outlines' sizes are remembered.
pub const MAX_PIXEL_COSTS: usize = 512;

/// Stands in front of a renderer and lets through what the budget allows. The first error stays,
/// and nothing is let through after it.
pub struct Guard {
    /// The width of the canvas.
    pub width: usize,
    /// The height of the canvas.
    pub height: usize,
    /// How many surfaces are open.
    pub depth: usize,
    /// Painted pixels so far.
    pub pixels: usize,
    /// What else has been used.
    pub budget: Budget,
    /// The first error.
    pub error: Option<Error>,
    /// The sizes of outlines by their keys, for outlines that come back without points.
    pub pixel_costs: HashMap<u128, usize>,
}

impl Guard {
    /// The pixels of the canvas.
    pub open spec fn area(self) -> int {
        capped_product(self.width as int, self.height as int)
    }

    /// True where `amount` more pixels may be painted.
    pub open spec fn affords(self, amount: int) -> bool {
        amount <= remaining(self.pixels as int, Limits::defaults().max_render_pixels as int)
    }

    /// The bytes of the surfaces with one more open.
    pub open spec fn surface_bytes(self) -> int {
        capped_product(self.area(), 32 + 4 * (self.depth + 1))
    }

    /// The pixels that an outline is charged for: its box, or what it was charged for before, or
    /// the whole canvas.
    pub open spec fn outline_pixels(self, key: u128, outline: Outline) -> int {
        match outline {
            Outline::Measured { work, area: Some(size) } => capped_product(
                size.0 as int,
                size.1 as int,
            ),
            _ => if self.pixel_costs@.contains_key(key) {
                self.pixel_costs@[key] as int
            } else {
                self.area()
            },
        }
    }

    /// The limit that an outline painted at `weight` units for each pixel breaks, if any.
    pub open spec fn outline_fault(self, key: u128, outline: Outline, weight: int) -> Option<Limit> {
        match outline {
            Outline::NotFinite => Some(Limit::PathCoordinate),
            Outline::Measured { work, area } => if work
                > Limits::defaults().max_render_points {
                Some(Limit::RenderGeometry)
            } else if work > remaining(
                self.budget.work as int,
                Limits::defaults().max_render_work as int,
            ) {
                Some(Limit::RenderWork)
            } else if !self.affords(capped_product(self.outline_pixels(key, outline), weight)) {
                Some(Limit::RenderWork)
            } else {
                None
            },
        }
    }

    /// True where an outline can be measured and its work is allowed. Its work is then used up and its
    /// size remembered, whether or not its pixels are allowed too.
    pub open spec fn work_allowed(self, outline: Outline) -> bool {
        match outline {
            Outline::NotFinite => false,
            Outline::Measured { work, area } => work <= Limits::defaults().max_render_points && work
                <= remaining(
                self.budget.work as int,
                Limits::defaults().max_render_work as int,
            ),
        }
    }

    /// What has been used after an outline was charged.
    pub open spec fn budget_after(self, outline: Outline) -> Budget {
        if self.work_allowed(outline) {
            Budget { work: (self.budget.work + outline->work) as usize, ..self.budget }
        } else {
            self.budget
        }
    }

    /// The remembered sizes after an outline was charged.
    pub open spec fn costs_charged(self, key: u128, outline: Outline) -> Map<u128, usize> {
        if self.work_allowed(outline) {
            self.costs_after(key, outline)
        } else {
            self.pixel_costs@
        }
    }

    /// The remembered sizes after an outline has passed.
    pub open spec fn costs_after(self, key: u128, outline: Outline) -> Map<u128, usize> {
        match outline {
            Outline::Measured { work, area: Some(size) } => {
                let kept = if self.pixel_costs@.len() >= MAX_PIXEL_COSTS {
                    Map::empty()
                } else {
                    self.pixel_costs@
                };
                kept.insert(key, self.outline_pixels(key, outline) as usize)
            },
            _ => self.pixel_costs@,
        }
    }

    /// True where nothing but the pixel count differs.
    pub open spec fn same_but_pixels(self, other: Guard) -> bool {
        &&& self.width == other.width
        &&& self.height == other.height
        &&& self.depth == other.depth
        &&& self.budget == other.budget
        &&& self.error == other.error
        &&& self.pixel_costs@ == other.pixel_costs@
    }

    /// True where the canvas is the same.
    pub open spec fn same_canvas(self, other: Guard) -> bool {
        self.width == other.width && self.height == other.height
    }

    /// What a guard reports: the error that it holds, if it holds one.
    pub open spec fn standing(self) -> Result<()> {
        match self.error {
            Some(e) => Err(e),
            None => Ok(()),
        }
    }

    /// True where this guard is what `before` became by a call that answered `go`: a call that is let
    /// through leaves no error, one that is refused leaves one, and an error that was there stays.
    pub open spec fn follows(self, before: Guard, go: bool) -> bool {
        &&& go == (self.error is None)
        &&& before.error is Some ==> self.error == before.error
    }

    /// A guard for a canvas, with sizes remembered from earlier frames.
    pub fn new(width: u32, height: u32, pixel_costs: HashMap<u128, usize>) -> (g: Guard)
        ensures
            g.width == width,
            g.height == height,
            g.depth == 0,
            g.pixels == 0,
            g.budget.points == 0 && g.budget.work == 0 && g.budget.layers == 0,
            g.error is None,
            g.pixel_costs@ == pixel_costs@,
    {
        Guard {
            width: width as usize,
            height: height as usize,
            depth: 0,
            pixels: 0,
            budget: Budget::new(),
            error: None,
            pixel_costs,
        }
    }

    /// Keeps the first error; tells whether a call may go on.
    pub fn accept(&mut self, result: Result<()>) -> (go: bool)
        ensures
            final(self).follows(*old(self), go),
            final(self).same_canvas(*old(self)),
            final(self).depth == old(self).depth,
            final(self).pixels == old(self).pixels,
            final(self).budget == old(self).budget,
            final(self).pixel_costs@ == old(self).pixel_costs@,
            go == (old(self).error is None && result is Ok),
            final(self).error == (if old(self).error is Some {
                old(self).error
            } else {
                match result {
                    Ok(_) => None,
                    Err(e) => Some(e),
                }
            }),
    {
        if self.error.is_some() {
            return false;
        }
        match result {
            Ok(_) => true,
            Err(e) => {
                self.error = Some(e);
                false
            },
        }
    }

    /// Charges the whole canvas so many times over.
    fn canvas_passes(&mut self, times: usize) -> (r: Result<()>)
        ensures
            final(self).same_but_pixels(*old(self)),
            ({
                let amount = capped_product(old(self).area(), times as int);
                if old(self).affords(amount) {
                    r is Ok && final(self).pixels == old(self).pixels + amount
                } else {
                    r == Err::<(), Error>(Error::LimitExceeded(Limit::RenderWork))
                        && final(self).pixels == old(self).pixels
                }
            }),
    {
        let amount = capped_mul(capped_mul(self.width, self.height), times);
        charge(&mut self.pixels, amount, Limits::default().max_render_pixels, Limit::RenderWork)
    }

    /// Charges an outline.
    fn geometry(&mut self, key: u128, outline: Outline, weight: usize) -> (r: Result<()>)
        ensures
            final(self).same_canvas(*old(self)),
            final(self).depth == old(self).depth,
            final(self).error == old(self).error,
            final(self).budget == old(self).budget_after(outline),
            final(self).pixel_costs@ == old(self).costs_charged(key, outline),
            match old(self).outline_fault(key, outline, weight as int) {
                Some(limit) => r == Err::<(), Error>(Error::LimitExceeded(limit))
                    && final(self).pixels == old(self).pixels,
                None => {
                    &&& r is Ok
                    &&& final(self).pixels == old(self).pixels + capped_product(
                        old(self).outline_pixels(key, outline),
                        weight as int,
                    )
                },
            },
    {
        match outline {
            Outline::NotFinite => Err(Error::LimitExceeded(Limit::PathCoordinate)),
            Outline::Measured { work, area } => {
                if work > Limits::default().max_render_points {
                    return Err(Error::LimitExceeded(Limit::RenderGeometry));
                }
                match self.budget.work(work) {
                    Ok(_) => {},
                    Err(e) => {
                        return Err(e);
                    },
                }
                let pixels: usize = match area {
                    Some((w, h)) => {
                        let pixels = capped_mul(w, h);
                        if self.pixel_costs.len() >= MAX_PIXEL_COSTS {
                            self.pixel_costs.clear();
                        }
                        self.pixel_costs.insert(key, pixels);
                        pixels
                    },
                    None => match self.pixel_costs.get(&key) {
                        Some(pixels) => *pixels,
                        None => capped_mul(self.width, self.height),
                    },
                };
                charge(
                    &mut self.pixels,
                    capped_mul(pixels, weight),
                    Limits::default().max_render_pixels,
                    Limit::RenderWork,
                )
            },
        }
    }

    /// The first error, if there was one.
    pub fn status(&self) -> (r: Result<()>)
        ensures
            r == self.standing(),
    {
        match &self.error {
            Some(e) => Err(copy_error(e)),
            None => Ok(()),
        }
    }

    /// Whether another surface may be opened.
    pub fn save_layer(&mut self) -> (go: bool)
        requires
            32 + 4 * (old(self).depth + 1) <= usize::MAX,
        ensures
            final(self).follows(*old(self), go),
            final(self).same_canvas(*old(self)),
            final(self).budget == old(self).budget,
            final(self).pixel_costs@ == old(self).pixel_costs@,
            ({
                let fault = if old(self).surface_bytes() > Limits::defaults().max_render_bytes {
                    Some(Limit::RenderMemory)
                } else if !old(self).affords(old(self).area()) {
                    Some(Limit::RenderWork)
                } else {
                    None
                };
                &&& go == (old(self).error is None && fault is None)
                &&& final(self).depth == old(self).depth + (if go {
                    1int
                } else {
                    0
                })
                &&& final(self).pixels == old(self).pixels + (if fault is None {
                    old(self).area()
                } else {
                    0
                })
                &&& final(self).error == first_error(old(self).error, fault)
            }),
    {
        proof {
            assert(self.area() * 1 == self.area());
        }
        let canvas = capped_mul(self.width, self.height);
        let bytes = capped_mul(canvas, 32 + 4 * (self.depth + 1));
        let result = if bytes > Limits::default().max_render_bytes {
            Err(Error::LimitExceeded(Limit::RenderMemory))
        } else {
            self.canvas_passes(1)
        };
        let go = self.accept(result);
        if go {
            self.depth = self.depth + 1;
        }
        go
    }

    /// Whether an outline may be drawn.
    pub fn draw(&mut self, key: u128, outline: Outline, paint: PaintKind) -> (go: bool)
        ensures
            final(self).follows(*old(self), go),
            final(self).same_canvas(*old(self)),
            final(self).depth == old(self).depth,
            ({
                let weight = paint.weight() as int;
                let fault = old(self).outline_fault(key, outline, weight);
                &&& go == (old(self).error is None && fault is None)
                &&& final(self).pixels == old(self).pixels + (if go {
                    capped_product(old(self).outline_pixels(key, outline), weight)
                } else {
                    0
                })
                &&& final(self).pixel_costs@ == (if old(self).error is None {
                    old(self).costs_charged(key, outline)
                } else {
                    old(self).pixel_costs@
                })
                &&& final(self).budget == (if old(self).error is None {
                    old(self).budget_after(outline)
                } else {
                    old(self).budget
                })
                &&& final(self).error == first_error(old(self).error, fault)
            }),
    {
        if self.error.is_some() {
            return false;
        }
        let result = self.geometry(key, outline, paint.pixel_weight());
        self.accept(result)
    }

    /// Whether a mask may be applied.
    pub fn apply_mask(&mut self, key: u128, outline: Outline) -> (go: bool)
        ensures
            final(self).follows(*old(self), go),
            final(self).same_canvas(*old(self)),
            final(self).depth == old(self).depth,
            ({
                let fault = old(self).outline_fault(key, outline, 1);
                let own = old(self).outline_pixels(key, outline);
                let passes = capped_product(old(self).area(), 3);
                let whole = if fault is None && passes > remaining(
                    old(self).pixels + own,
                    Limits::defaults().max_render_pixels as int,
                ) {
                    Some(Limit::RenderWork)
                } else {
                    fault
                };
                &&& go == (old(self).error is None && whole is None)
                &&& final(self).pixels == old(self).pixels + (if old(self).error is Some || fault
                    is Some {
                    0
                } else if go {
                    own + passes
                } else {
                    own
                })
                &&& final(self).pixel_costs@ == (if old(self).error is None {
                    old(self).costs_charged(key, outline)
                } else {
                    old(self).pixel_costs@
                })
                &&& final(self).budget == (if old(self).error is None {
                    old(self).budget_after(outline)
                } else {
                    old(self).budget
                })
                &&& final(self).error == first_error(old(self).error, whole)
            }),
    {
        if self.error.is_some() {
            return false;
        }
        proof {
            let own = self.outline_pixels(key, outline);
            assert(own * 1 == own);
        }
        let result = match self.geometry(key, outline, 1) {
            Ok(_) => self.canvas_passes(3),
            Err(e) => Err(e),
        };
        self.accept(result)
    }

    /// Whether a surface may be closed, over the one below it or as the matte of another.
    pub fn end_layer(&mut self, matte: bool) -> (go: bool)
        ensures
            final(self).follows(*old(self), go),
            final(self).same_canvas(*old(self)),
            final(self).budget == old(self).budget,
            final(self).pixel_costs@ == old(self).pixel_costs@,
            ({
                let passes = capped_product(old(self).area(), 3);
                let fault = if old(self).affords(passes) {
                    None
                } else {
                    Some(Limit::RenderWork)
                };
                let closed = if matte {
                    2int
                } else {
                    1
                };
                &&& go == (old(self).error is None && fault is None)
                &&& final(self).depth == (if go {
                    remaining(closed, old(self).depth as int)
                } else {
                    old(self).depth as int
                })
                &&& final(self).pixels == old(self).pixels + (if fault is None {
                    passes
                } else {
                    0
                })
                &&& final(self).error == first_error(old(self).error, fault)
            }),
    {
        let result = self.canvas_passes(3);
        let go = self.accept(result);
        if go {
            self.depth = self.depth.saturating_sub(if matte {
                2
            } else {
                1
            });
        }
        go
    }
}

/// True where `states` are the states of a guard through calls that answered `answers`.
pub open spec fn guard_run(states: Seq<Guard>, answers: Seq<bool>) -> bool {
    &&& states.len() == answers.len() + 1
    &&& forall|i: int|
        0 <= i < answers.len() ==> (#[trigger] states[i + 1]).follows(states[i], answers[i])
}

/// The first error stays: once a guard holds one, it reports that one after whatever is asked of it,
/// and nothing is let through.
pub proof fn law_first_error_stays(states: Seq<Guard>, answers: Seq<bool>, i: int, n: int)
    requires
        guard_run(states, answers),
        0 <= i <= n < states.len(),
        states[i].error is Some,
    ensures
        states[n].error == states[i].error,
        states[n].standing() == states[i].standing(),
        states[n].standing() is Err,
        forall|k: int| i <= k < n ==> !(#[trigger] answers[k]),
    decreases n - i,
{
    if i < n {
        law_first_error_stays(states, answers, i, n - 1);
        assert(states[n - 1 + 1].follows(states[n - 1], answers[n - 1]));
    }
}

/// A guard that reports no error has let through everything that was asked of it.
pub proof fn law_no_error_nothing_refused(states: Seq<Guard>, answers: Seq<bool>, n: int)
    requires
        guard_run(states, answers),
        0 <= n < states.len(),
        states[n].standing() is Ok,
    ensures
        forall|k: int| 0 <= k < n ==> #[trigger] answers[k],
{
    assert forall|k: int| 0 <= k < n implies #[trigger] answers[k] by {
        assert(states[k + 1].follows(states[k], answers[k]));
        if states[k + 1].error is Some {
            law_first_error_stays(states, answers, k + 1, n);
        }
    }
}

/// The error that stays: the one before, or the limit that is broken now.
pub open spec fn first_error(before: Option<Error>, fault: Option<Limit>) -> Option<Error> {
    if before is Some {
        before
    } else {
        match fault {
            Some(limit) => Some(Error::LimitExceeded(limit)),
            None => None,
        }
    }
}

/// A copy of an error.
fn copy_error(e: &Error) -> (c: Error)
    ensures
        c == *e,
{
    match e {
        Error::Json { offset, kind } => Error::Json { offset: *offset, kind: *kind },
        Error::InvalidLottie { offset, what } => Error::InvalidLottie {
            offset: *offset,
            what: *what,
        },
        Error::LimitExceeded(limit) => Error::LimitExceeded(*limit),
        Error::Empty => Error::Empty,
    }
}

/// A running total of work, and the first limit that was broken.
#[derive(Clone, Copy, Debug, PartialEq, Eq, Structural)]
pub struct Tally {
    /// Work units used in this frame.
    pub work: usize,
    /// The first broken limit.
    pub fault: Option<Limit>,
}

/// The tally after `amount` more work units.
pub open spec fn worked(t: Tally, amount: int) -> Tally {
    if t.fault is Some {
        t
    } else if amount > remaining(t.work as int, Limits::defaults().max_render_work as int) {
        Tally { fault: Some(Limit::RenderWork), ..t }
    } else {
        Tally { work: (t.work + amount) as usize, ..t }
    }
}

/// The tally after a check that must hold.
pub open spec fn checked(t: Tally, holds: bool, limit: Limit) -> Tally {
    if t.fault is None && !holds {
        Tally { fault: Some(limit), ..t }
    } else {
        t
    }
}

/// The tally after a property's keyframes.
pub open spec fn property_tally<T>(t: Tally, p: Property<T>) -> Tally {
    match p {
        Property::Static(_) => t,
        Property::Animated(keys) => worked(
            checked(t, keys.count() <= Limits::defaults().max_keyframes, Limit::Keyframes),
            keys.count() as int,
        ),
    }
}

/// The tally after a property that may be missing.
pub open spec fn optional_tally<T>(t: Tally, p: Option<Property<T>>) -> Tally {
    match p {
        Some(p) => property_tally(t, p),
        None => t,
    }
}

/// The tally after a path's points.
pub open spec fn path_tally(t: Tally, p: Option<PathData>) -> Tally {
    match p {
        Some(p) => {
            let n = longest(
                p.vertices@.len() as int,
                p.in_tangents@.len() as int,
                p.out_tangents@.len() as int,
            );
            worked(checked(t, n <= Limits::defaults().max_path_points, Limit::PathPoints), n)
        },
        None => t,
    }
}

/// The tally after the numbers of a gradient's stops.
pub open spec fn stops_tally(t: Tally, v: Option<Values>) -> Tally {
    match v {
        Some(v) => {
            let n = v.items@.len() as int;
            worked(
                checked(
                    t,
                    n <= Limits::defaults().max_gradient_stop_values,
                    Limit::GradientStopValues,
                ),
                n,
            )
        },
        None => t,
    }
}

/// The tally after the paths of the first `n` keyframes.
pub open spec fn path_keys_tally(t: Tally, keys: Timeline<PathData>, n: nat) -> Tally
    decreases n,
{
    if n == 0 {
        t
    } else {
        let k = keys.key(n - 1);
        path_tally(path_tally(path_keys_tally(t, keys, (n - 1) as nat), k.value), k.end)
    }
}

/// The tally after the stops of the first `n` keyframes.
pub open spec fn stop_keys_tally(t: Tally, keys: Timeline<Values>, n: nat) -> Tally
    decreases n,
{
    if n == 0 {
        t
    } else {
        let k = keys.key(n - 1);
        stops_tally(stops_tally(stop_keys_tally(t, keys, (n - 1) as nat), k.value), k.end)
    }
}

/// The tally after a property that holds paths.
pub open spec fn path_property_tally(t: Tally, p: Option<Property<PathData>>) -> Tally {
    match p {
        Some(Property::Static(v)) => path_tally(t, Some(v)),
        Some(Property::Animated(keys)) => path_keys_tally(
            property_tally(t, p->0),
            keys,
            keys.count(),
        ),
        None => t,
    }
}

/// The tally after a gradient's stops.
pub open spec fn gradient_tally(t: Tally, g: Option<Stops>) -> Tally {
    match g {
        Some(Stops { values: Some(Property::Static(v)), .. }) => stops_tally(t, Some(v)),
        Some(Stops { values: Some(Property::Animated(keys)), .. }) => stop_keys_tally(
            property_tally(t, g->0.values->0),
            keys,
            keys.count(),
        ),
        _ => t,
    }
}

/// The tally after a position.
pub open spec fn position_tally(t: Tally, p: Option<Position>) -> Tally {
    match p {
        Some(Position::Combined(v)) => property_tally(t, v),
        Some(Position::Split { x, y }) => optional_tally(optional_tally(t, x), y),
        None => t,
    }
}

/// The tally after the first `n` elements of a dash pattern.
pub open spec fn dash_values_tally(t: Tally, d: Seq<DashElement>, n: nat) -> Tally
    decreases n,
{
    if n == 0 {
        t
    } else {
        optional_tally(dash_values_tally(t, d, (n - 1) as nat), d[n - 1].value)
    }
}

/// The tally after a dash pattern.
pub open spec fn dashes_tally(t: Tally, d: Seq<DashElement>) -> Tally {
    dash_values_tally(
        checked(t, d.len() <= Limits::defaults().max_dash_elements, Limit::DashElements),
        d,
        d.len(),
    )
}

/// The tally after a transform.
pub open spec fn transform_tally(t: Tally, v: Transform) -> Tally {
    let t = optional_tally(t, v.anchor);
    let t = optional_tally(t, v.scale);
    let t = optional_tally(t, v.rotation);
    let t = optional_tally(t, v.opacity);
    let t = optional_tally(t, v.skew);
    let t = optional_tally(t, v.skew_axis);
    let t = position_tally(t, v.position);
    t
}

/// The tally after what changes from copy to copy.
pub open spec fn repeater_tally(t: Tally, v: RepeaterTransform) -> Tally {
    let t = optional_tally(t, v.start_opacity);
    let t = optional_tally(t, v.end_opacity);
    let t = optional_tally(t, v.anchor);
    let t = optional_tally(t, v.scale);
    let t = optional_tally(t, v.rotation);
    let t = optional_tally(t, v.opacity);
    let t = optional_tally(t, v.skew);
    let t = optional_tally(t, v.skew_axis);
    let t = position_tally(t, v.position);
    t
}

/// The tally after one shape, but not what a group holds.
pub open spec fn shape_tally(t: Tally, shape: Shape) -> Tally {
    match shape {
        Shape::Group(g) => match g.transform {
            Some(v) => transform_tally(t, v),
            None => t,
        },
        Shape::Path(x) => {
            let t = path_property_tally(t, x.path);
            t
        },
        Shape::Rect(x) => {
            let t = optional_tally(t, x.position);
            let t = optional_tally(t, x.size);
            let t = optional_tally(t, x.radius);
            t
        },
        Shape::Ellipse(x) => {
            let t = optional_tally(t, x.position);
            let t = optional_tally(t, x.size);
            t
        },
        Shape::Polystar(x) => {
            let t = optional_tally(t, x.points);
            let t = optional_tally(t, x.position);
            let t = optional_tally(t, x.rotation);
            let t = optional_tally(t, x.inner_radius);
            let t = optional_tally(t, x.outer_radius);
            let t = optional_tally(t, x.inner_roundness);
            let t = optional_tally(t, x.outer_roundness);
            t
        },
        Shape::RoundCorners(x) => {
            let t = optional_tally(t, x.radius);
            t
        },
        Shape::Trim(x) => {
            let t = optional_tally(t, x.start);
            let t = optional_tally(t, x.end);
            let t = optional_tally(t, x.offset);
            t
        },
        Shape::Fill(x) => {
            let t = optional_tally(t, x.color);
            let t = optional_tally(t, x.opacity);
            t
        },
        Shape::Stroke(x) => {
            let t = optional_tally(t, x.color);
            let t = optional_tally(t, x.opacity);
            let t = optional_tally(t, x.width);
            let t = dashes_tally(t, x.dashes@);
            t
        },
        Shape::GradientFill(x) => {
            let t = optional_tally(t, x.start);
            let t = optional_tally(t, x.end);
            let t = optional_tally(t, x.opacity);
            let t = optional_tally(t, x.highlight_len);
            let t = optional_tally(t, x.highlight_angle);
            let t = gradient_tally(t, x.stops);
            t
        },
        Shape::GradientStroke(x) => {
            let t = optional_tally(t, x.start);
            let t = optional_tally(t, x.end);
            let t = optional_tally(t, x.opacity);
            let t = optional_tally(t, x.highlight_len);
            let t = optional_tally(t, x.highlight_angle);
            let t = optional_tally(t, x.width);
            let t = gradient_tally(t, x.stops);
            let t = dashes_tally(t, x.dashes@);
            t
        },
        Shape::Repeater(x) => {
            let t = optional_tally(t, x.copies);
            let t = optional_tally(t, x.offset);
            match x.transform {
                Some(v) => repeater_tally(t, v),
                None => t,
            }
        },
    }
}

/// How deep groups may be nested.
pub const MAX_SHAPE_DEPTH: usize = 40;

/// The tally after shapes at a depth, and all that their groups hold.
pub open spec fn tree_tally(t: Tally, shapes: Seq<Shape>, depth: int) -> Tally
    decreases MAX_SHAPE_DEPTH + 1 - depth, shapes.len() + 1,
{
    if depth > MAX_SHAPE_DEPTH {
        checked(t, false, Limit::NestingDepth)
    } else {
        tree_items_tally(worked(t, shapes.len() as int), shapes, shapes.len(), depth)
    }
}

/// The tally after the first `n` of the shapes at a depth, and all that their groups hold.
pub open spec fn tree_items_tally(t: Tally, shapes: Seq<Shape>, n: nat, depth: int) -> Tally
    decreases MAX_SHAPE_DEPTH + 1 - depth, n,
{
    if n == 0 || n > shapes.len() || depth > MAX_SHAPE_DEPTH {
        t
    } else {
        let before = tree_items_tally(t, shapes, (n - 1) as nat, depth);
        let own = shape_tally(before, shapes[n - 1]);
        match shapes[n - 1] {
            Shape::Group(g) => tree_tally(own, g.shapes@, depth + 1),
            _ => own,
        }
    }
}

impl Tally {
    /// Charges work units.
    fn add(&mut self, amount: usize)
        ensures
            *final(self) == worked(*old(self), amount as int),
    {
        if self.fault.is_none() {
            match charge(
                &mut self.work,
                amount,
                Limits::default().max_render_work,
                Limit::RenderWork,
            ) {
                Ok(_) => {},
                Err(_) => {
                    self.fault = Some(Limit::RenderWork);
                },
            }
        }
    }

    /// Notes a limit where it is broken.
    fn check(&mut self, holds: bool, limit: Limit)
        ensures
            *final(self) == checked(*old(self), holds, limit),
    {
        if self.fault.is_none() && !holds {
            self.fault = Some(limit);
        }
    }

    /// Counts a property's keyframes.
    pub fn property<T>(&mut self, p: &Property<T>)
        ensures
            *final(self) == property_tally(*old(self), *p),
    {
        match p {
            Property::Static(_) => {},
            Property::Animated(keys) => {
                let n = keys.rest.len().saturating_add(1);
                self.check(
                    n <= Limits::default().max_keyframes && keys.rest.len() < usize::MAX,
                    Limit::Keyframes,
                );
                self.add(n);
            },
        }
    }

    fn optional<T>(&mut self, p: &Option<Property<T>>)
        ensures
            *final(self) == optional_tally(*old(self), *p),
    {
        match p {
            Some(p) => self.property(p),
            None => {},
        }
    }

    fn path(&mut self, p: &Option<PathData>)
        ensures
            *final(self) == path_tally(*old(self), *p),
    {
        match p {
            Some(p) => self.path_points(p),
            None => {},
        }
    }

    fn path_points(&mut self, p: &PathData)
        ensures
            *final(self) == path_tally(*old(self), Some(*p)),
    {
        let n = longest_of(p.vertices.len(), p.in_tangents.len(), p.out_tangents.len());
        self.check(n <= Limits::default().max_path_points, Limit::PathPoints);
        self.add(n);
    }

    fn stop_values(&mut self, v: &Values)
        ensures
            *final(self) == stops_tally(*old(self), Some(*v)),
    {
        let n = v.items.len();
        self.check(
            n <= Limits::default().max_gradient_stop_values,
            Limit::GradientStopValues,
        );
        self.add(n);
    }

    fn stops(&mut self, v: &Option<Values>)
        ensures
            *final(self) == stops_tally(*old(self), *v),
    {
        match v {
            Some(v) => self.stop_values(v),
            None => {},
        }
    }

    /// Counts a property that holds paths.
    pub fn path_property(&mut self, p: &Option<Property<PathData>>)
        ensures
            *final(self) == path_property_tally(*old(self), *p),
    {
        let p = match p {
            Some(p) => p,
            None => {
                return;
            },
        };
        self.property(p);
        match p {
            Property::Static(v) => self.path_points(v),
            Property::Animated(keys) => {
                let ghost start = *self;
                let n: usize = keys.rest.len();
                self.path(&keys.first.value);
                self.path(&keys.first.end);
                let mut i: usize = 0;
                assert(*self == path_keys_tally(start, *keys, 1)) by {
                    reveal_with_fuel(path_keys_tally, 2);
                }
                while i < n
                    invariant
                        n == keys.rest@.len(),
                        i <= n,
                        *self == path_keys_tally(start, *keys, (i + 1) as nat),
                    decreases n - i,
                {
                    assert(keys.key(i + 1) == keys.rest@[i as int]);
                    self.path(&keys.rest[i].value);
                    self.path(&keys.rest[i].end);
                    i += 1;
                }
            },
        }
    }

    fn gradient(&mut self, g: &Option<Stops>)
        ensures
            *final(self) == gradient_tally(*old(self), *g),
    {
        let p = match g {
            Some(Stops { values: Some(p), .. }) => p,
            _ => {
                return;
            },
        };
        self.property(p);
        match p {
            Property::Static(v) => self.stop_values(v),
            Property::Animated(keys) => {
                let ghost start = *self;
                let n: usize = keys.rest.len();
                self.stops(&keys.first.value);
                self.stops(&keys.first.end);
                let mut i: usize = 0;
                assert(*self == stop_keys_tally(start, *keys, 1)) by {
                    reveal_with_fuel(stop_keys_tally, 2);
                }
                while i < n
                    invariant
                        n == keys.rest@.len(),
                        i <= n,
                        *self == stop_keys_tally(start, *keys, (i + 1) as nat),
                    decreases n - i,
                {
                    assert(keys.key(i + 1) == keys.rest@[i as int]);
                    self.stops(&keys.rest[i].value);
                    self.stops(&keys.rest[i].end);
                    i += 1;
                }
            },
        }
    }

    fn position(&mut self, p: &Option<Position>)
        ensures
            *final(self) == position_tally(*old(self), *p),
    {
        match p {
            Some(Position::Combined(v)) => self.property(v),
            Some(Position::Split { x, y }) => {
                self.optional(x);
                self.optional(y);
            },
            None => {},
        }
    }

    fn dashes(&mut self, d: &Vec<DashElement>)
        ensures
            *final(self) == dashes_tally(*old(self), d@),
    {
        let n: usize = d.len();
        self.check(n <= Limits::default().max_dash_elements, Limit::DashElements);
        let ghost start = *self;
        let mut i: usize = 0;
        while i < n
            invariant
                n == d@.len(),
                i <= n,
                *self == dash_values_tally(start, d@, i as nat),
            decreases n - i,
        {
            self.optional(&d[i].value);
            i += 1;
        }
    }

    /// Counts a transform.
    pub fn transform(&mut self, v: &Transform)
        ensures
            *final(self) == transform_tally(*old(self), *v),
    {
        self.optional(&v.anchor);
        self.optional(&v.scale);
        self.optional(&v.rotation);
        self.optional(&v.opacity);
        self.optional(&v.skew);
        self.optional(&v.skew_axis);
        self.position(&v.position);
    }

    fn repeater(&mut self, v: &RepeaterTransform)
        ensures
            *final(self) == repeater_tally(*old(self), *v),
    {
        self.optional(&v.start_opacity);
        self.optional(&v.end_opacity);
        self.optional(&v.anchor);
        self.optional(&v.scale);
        self.optional(&v.rotation);
        self.optional(&v.opacity);
        self.optional(&v.skew);
        self.optional(&v.skew_axis);
        self.position(&v.position);
    }

    /// Counts one shape, but not what a group holds.
    pub fn shape(&mut self, shape: &Shape)
        ensures
            *final(self) == shape_tally(*old(self), *shape),
    {
        match shape {
            Shape::Group(g) => {
                match &g.transform {
                    Some(v) => self.transform(v),
                    None => {},
                }
            },
            Shape::Path(x) => {
                self.path_property(&x.path);
            },
            Shape::Rect(x) => {
                self.optional(&x.position);
                self.optional(&x.size);
                self.optional(&x.radius);
            },
            Shape::Ellipse(x) => {
                self.optional(&x.position);
                self.optional(&x.size);
            },
            Shape::Polystar(x) => {
                self.optional(&x.points);
                self.optional(&x.position);
                self.optional(&x.rotation);
                self.optional(&x.inner_radius);
                self.optional(&x.outer_radius);
                self.optional(&x.inner_roundness);
                self.optional(&x.outer_roundness);
            },
            Shape::RoundCorners(x) => {
                self.optional(&x.radius);
            },
            Shape::Trim(x) => {
                self.optional(&x.start);
                self.optional(&x.end);
                self.optional(&x.offset);
            },
            Shape::Fill(x) => {
                self.optional(&x.color);
                self.optional(&x.opacity);
            },
            Shape::Stroke(x) => {
                self.optional(&x.color);
                self.optional(&x.opacity);
                self.optional(&x.width);
                self.dashes(&x.dashes);
            },
            Shape::GradientFill(x) => {
                self.optional(&x.start);
                self.optional(&x.end);
                self.optional(&x.opacity);
                self.optional(&x.highlight_len);
                self.optional(&x.highlight_angle);
                self.gradient(&x.stops);
            },
            Shape::GradientStroke(x) => {
                self.optional(&x.start);
                self.optional(&x.end);
                self.optional(&x.opacity);
                self.optional(&x.highlight_len);
                self.optional(&x.highlight_angle);
                self.optional(&x.width);
                self.gradient(&x.stops);
                self.dashes(&x.dashes);
            },
            Shape::Repeater(x) => {
                self.optional(&x.copies);
                self.optional(&x.offset);
                match &x.transform {
                    Some(v) => self.repeater(v),
                    None => {},
                }
            },
        }
    }

    /// Counts shapes and all that their groups hold.
    pub fn shape_tree(&mut self, shapes: &Vec<Shape>, depth: usize)
        ensures
            *final(self) == tree_tally(*old(self), shapes@, depth as int),
        decreases MAX_SHAPE_DEPTH + 1 - depth,
    {
        if depth > MAX_SHAPE_DEPTH {
            self.check(false, Limit::NestingDepth);
            return;
        }
        let n: usize = shapes.len();
        self.add(n);
        let ghost start = *self;
        let mut i: usize = 0;
        while i < n
            invariant
                n == shapes@.len(),
                i <= n,
                depth <= MAX_SHAPE_DEPTH,
                *self == tree_items_tally(start, shapes@, i as nat, depth as int),
            decreases n - i,
        {
            self.shape(&shapes[i]);
            match &shapes[i] {
                Shape::Group(g) => self.shape_tree(&g.shapes, depth + 1),
                _ => {},
            }
            i += 1;
        }
    }
}

/// What a tally means for the caller: the work it used, or the limit it broke.
pub open spec fn settles(before: Budget, after: Budget, t: Tally, r: Result<()>) -> bool {
    &&& after.points == before.points
    &&& after.layers == before.layers
    &&& after.work == t.work
    &&& match t.fault {
        None => r is Ok,
        Some(limit) => r == Err::<(), Error>(Error::LimitExceeded(limit)),
    }
}

impl Budget {
    /// The tally that goes on from here.
    pub open spec fn tally(self) -> Tally {
        Tally { work: self.work, fault: None }
    }

    fn settle(&mut self, t: Tally) -> (r: Result<()>)
        ensures
            settles(*old(self), *final(self), t, r),
    {
        self.work = t.work;
        match t.fault {
            Some(limit) => Err(Error::LimitExceeded(limit)),
            None => Ok(()),
        }
    }

    /// Charges one property.
    pub fn property<T>(&mut self, p: &Property<T>) -> (r: Result<()>)
        ensures
            settles(*old(self), *final(self), property_tally(old(self).tally(), *p), r),
    {
        let mut t = Tally { work: self.work, fault: None };
        t.property(p);
        self.settle(t)
    }

    /// Charges a property that holds paths.
    pub fn path_property(&mut self, p: &Option<Property<PathData>>) -> (r: Result<()>)
        ensures
            settles(*old(self), *final(self), path_property_tally(old(self).tally(), *p), r),
    {
        let mut t = Tally { work: self.work, fault: None };
        t.path_property(p);
        self.settle(t)
    }

    /// Charges a transform.
    pub fn transform(&mut self, v: &Transform) -> (r: Result<()>)
        ensures
            settles(*old(self), *final(self), transform_tally(old(self).tally(), *v), r),
    {
        let mut t = Tally { work: self.work, fault: None };
        t.transform(v);
        self.settle(t)
    }

    /// Charges one shape.
    pub fn shape(&mut self, shape: &Shape) -> (r: Result<()>)
        ensures
            settles(*old(self), *final(self), shape_tally(old(self).tally(), *shape), r),
    {
        let mut t = Tally { work: self.work, fault: None };
        t.shape(shape);
        self.settle(t)
    }

    /// Charges shapes and all that their groups hold.
    pub fn shape_tree(&mut self, shapes: &Vec<Shape>, depth: usize) -> (r: Result<()>)
        ensures
            settles(
                *old(self),
                *final(self),
                tree_tally(old(self).tally(), shapes@, depth as int),
                r,
            ),
    {
        let mut t = Tally { work: self.work, fault: None };
        t.shape_tree(shapes, depth);
        self.settle(t)
    }
}

/// How many ancestors a layer may have.
pub const MAX_PARENTS: usize = 128;

/// Where the first layer of that number stands.
pub open spec fn layer_numbered(layers: Seq<Layer>, number: u32, from: int) -> Option<int>
    decreases layers.len() - from,
{
    if from < 0 || from >= layers.len() {
        None
    } else if layers[from].number() == Some(number) {
        Some(from)
    } else {
        layer_numbered(layers, number, from + 1)
    }
}

/// Finds the first layer of that number.
pub fn find_layer(layers: &Vec<Layer>, number: u32) -> (at: Option<usize>)
    ensures
        match at {
            Some(i) => layer_numbered(layers@, number, 0) == Some(i as int) && i < layers@.len(),
            None => layer_numbered(layers@, number, 0) is None,
        },
{
    let n: usize = layers.len();
    let mut i: usize = 0;
    while i < n
        invariant
            n == layers@.len(),
            i <= n,
            layer_numbered(layers@, number, i as int) == layer_numbered(layers@, number, 0),
        decreases n - i,
    {
        match &layers[i].fields.index {
            Some(code) => {
                if code.value == number {
                    return Some(i);
                }
            },
            None => {},
        }
        i += 1;
    }
    None
}

/// The ancestors of a layer, the nearest first, by the layers' own numbers; at most `steps` of them.
pub open spec fn ancestors(layers: Seq<Layer>, parent: Option<u32>, steps: nat) -> Seq<int>
    decreases steps,
{
    match parent {
        None => Seq::empty(),
        Some(number) => match layer_numbered(layers, number, 0) {
            Some(i) => if steps == 0 {
                Seq::empty()
            } else {
                seq![i] + ancestors(layers, layers[i].parent_number(), (steps - 1) as nat)
            },
            None => Seq::empty(),
        },
    }
}

/// The ancestors of a layer, the nearest first. A cycle ends after as many as there are layers.
pub fn parent_chain(layers: &Vec<Layer>, layer: &Layer) -> (chain: Vec<usize>)
    ensures
        chain@.map_values(|i: usize| i as int) == ancestors(
            layers@,
            layer.parent_number(),
            layers@.len(),
        ),
        forall|k: int| 0 <= k < chain@.len() ==> (#[trigger] chain@[k]) < layers@.len(),
{
    let ghost whole = ancestors(layers@, layer.parent_number(), layers@.len());
    let mut chain: Vec<usize> = Vec::new();
    let mut steps: usize = layers.len();
    let mut current: Option<u32> = layer.parent();
    assert(Seq::<int>::empty() + whole =~= whole);
    assert(chain@.map_values(|i: usize| i as int) =~= Seq::<int>::empty());
    while steps > 0
        invariant_except_break
            whole == chain@.map_values(|i: usize| i as int) + ancestors(
                layers@,
                current,
                steps as nat,
            ),
        invariant
            forall|k: int| 0 <= k < chain@.len() ==> (#[trigger] chain@[k]) < layers@.len(),
        ensures
            whole == chain@.map_values(|i: usize| i as int),
        decreases steps,
    {
        let number = match current {
            Some(number) => number,
            None => {
                assert(chain@.map_values(|i: usize| i as int) + Seq::<int>::empty()
                    =~= chain@.map_values(|i: usize| i as int));
                break;
            },
        };
        let at = match find_layer(layers, number) {
            Some(at) => at,
            None => {
                assert(chain@.map_values(|i: usize| i as int) + Seq::<int>::empty()
                    =~= chain@.map_values(|i: usize| i as int));
                break;
            },
        };
        let ghost before = chain@;
        chain.push(at);
        current = layers[at].parent();
        steps -= 1;
        proof {
            let rest = ancestors(layers@, current, steps as nat);
            assert(before.map_values(|i: usize| i as int) + (seq![at as int] + rest)
                =~= chain@.map_values(|i: usize| i as int) + rest);
            if steps == 0 {
                assert(rest =~= Seq::<int>::empty()) by {
                    lemma_no_steps(layers@, current);
                }
                assert(chain@.map_values(|i: usize| i as int) + rest
                    =~= chain@.map_values(|i: usize| i as int));
            }
        }
    }
    chain
}

proof fn lemma_no_steps(layers: Seq<Layer>, parent: Option<u32>)
    ensures
        ancestors(layers, parent, 0) == Seq::<int>::empty(),
{
}

/// What a walk up the parents comes to.
pub struct Climb {
    /// The tally after it.
    pub tally: Tally,
    /// The ancestors, the nearest first.
    pub chain: Seq<int>,
}

/// The walk up the parents of a layer, each step of which is charged, after the ancestors in `seen`.
pub open spec fn climb(t: Tally, layers: Seq<Layer>, parent: Option<u32>, seen: Seq<int>) -> Climb
    decreases MAX_PARENTS + 1 - seen.len(),
{
    match parent {
        None => Climb { tally: t, chain: seen },
        Some(number) => {
            let searched = worked(t, layers.len() as int);
            if searched.fault is Some {
                Climb { tally: searched, chain: seen }
            } else {
                match layer_numbered(layers, number, 0) {
                    None => Climb { tally: searched, chain: seen },
                    Some(i) => if seen.len() >= MAX_PARENTS {
                        Climb {
                            tally: checked(searched, false, Limit::ParentChainDepth),
                            chain: seen,
                        }
                    } else {
                        let placed = match layers[i].fields.transform {
                            Some(v) => transform_tally(searched, v),
                            None => searched,
                        };
                        if placed.fault is Some {
                            Climb { tally: placed, chain: seen }
                        } else {
                            climb(placed, layers, layers[i].parent_number(), seen.push(i))
                        }
                    },
                }
            }
        },
    }
}

impl Budget {
    /// The ancestors of a layer, the nearest first, each step charged.
    pub fn parents(&mut self, layers: &Vec<Layer>, layer: &Layer) -> (r: Result<Vec<usize>>)
        ensures
            final(self).points == old(self).points,
            final(self).layers == old(self).layers,
            ({
                let c = climb(old(self).tally(), layers@, layer.parent_number(), Seq::empty());
                &&& final(self).work == c.tally.work
                &&& match r {
                    Ok(chain) => {
                        &&& c.tally.fault is None
                        &&& chain@.map_values(|i: usize| i as int) == c.chain
                        &&& forall|k: int|
                            0 <= k < chain@.len() ==> (#[trigger] chain@[k]) < layers@.len()
                    },
                    Err(e) => c.tally.fault is Some && e == Error::LimitExceeded(
                        c.tally.fault->0,
                    ),
                }
            }),
    {
        let mut t = Tally { work: self.work, fault: None };
        let mut chain: Vec<usize> = Vec::new();
        let mut current: Option<u32> = layer.parent();
        let ghost whole = climb(t, layers@, current, Seq::empty());
        assert(chain@.map_values(|i: usize| i as int) =~= Seq::<int>::empty());
        loop
            invariant_except_break
                t.fault is None,
                chain@.len() <= MAX_PARENTS,
                whole == climb(t, layers@, current, chain@.map_values(|i: usize| i as int)),
            invariant
                forall|k: int| 0 <= k < chain@.len() ==> (#[trigger] chain@[k]) < layers@.len(),
            ensures
                whole == (Climb { tally: t, chain: chain@.map_values(|i: usize| i as int) }),
            decreases MAX_PARENTS + 1 - chain@.len(),
        {
            let number = match current {
                Some(number) => number,
                None => {
                    break;
                },
            };
            t.add(layers.len());
            if t.fault.is_some() {
                break;
            }
            let at = match find_layer(layers, number) {
                Some(at) => at,
                None => {
                    break;
                },
            };
            if chain.len() >= MAX_PARENTS {
                t.check(false, Limit::ParentChainDepth);
                break;
            }
            match &layers[at].fields.transform {
                Some(v) => t.transform(v),
                None => {},
            }
            if t.fault.is_some() {
                break;
            }
            let ghost before = chain@;
            chain.push(at);
            current = layers[at].parent();
            proof {
                assert(before.map_values(|i: usize| i as int).push(at as int)
                    =~= chain@.map_values(|i: usize| i as int));
            }
        }
        match self.settle(t) {
            Ok(_) => Ok(chain),
            Err(e) => Err(e),
        }
    }
}

/// Where walking up costs no more than is left, the ancestors are those of the plain walk.
pub proof fn law_climb_finds_ancestors(t: Tally, layers: Seq<Layer>, parent: Option<u32>, seen: Seq<int>)
    requires
        climb(t, layers, parent, seen).tally.fault is None,
        seen.len() <= MAX_PARENTS,
        t.fault is None,
    ensures
        climb(t, layers, parent, seen).chain == seen + ancestors(
            layers,
            parent,
            (MAX_PARENTS - seen.len()) as nat,
        ),
    decreases MAX_PARENTS + 1 - seen.len(),
{
    match parent {
        None => {
            assert(seen + Seq::<int>::empty() =~= seen);
        },
        Some(number) => {
            let searched = worked(t, layers.len() as int);
            match layer_numbered(layers, number, 0) {
                None => {
                    assert(seen + Seq::<int>::empty() =~= seen);
                },
                Some(i) => {
                    let placed = match layers[i].fields.transform {
                        Some(v) => transform_tally(searched, v),
                        None => searched,
                    };
                    if seen.len() < MAX_PARENTS && placed.fault is None {
                        law_climb_finds_ancestors(
                            placed,
                            layers,
                            layers[i].parent_number(),
                            seen.push(i),
                        );
                        let rest = ancestors(
                            layers,
                            layers[i].parent_number(),
                            (MAX_PARENTS - seen.len() - 1) as nat,
                        );
                        assert(seen + (seq![i] + rest) =~= seen.push(i) + rest);
                    }
                },
            }
        },
    }
}

/// What is left and what was used make up the maximum, and nothing is left beyond it.
pub proof fn law_what_is_left_makes_up_the_maximum(used: int, maximum: int)
    requires
        0 <= used,
        0 <= maximum,
    ensures
        used <= maximum ==> used + remaining(used, maximum) == maximum,
        used >= maximum ==> remaining(used, maximum) == 0,
{
}

/// A product is exact as long as it fits.
pub proof fn law_products_are_exact_where_they_fit(a: int, b: int)
    ensures
        a * b <= usize::MAX ==> capped_product(a, b) == a * b,
        a * b >= usize::MAX ==> capped_product(a, b) == usize::MAX,
{
}

/// A path of `n` vertices has a segment from each vertex to the next; a closed one has one more, back
/// to the first.
pub proof fn law_segments_join_neighbours(n: usize, open_count: usize, closed_count: usize, i: usize, j: usize)
    requires
        i < n,
        call_ensures(segment_count, (n, false), open_count),
        call_ensures(segment_count, (n, true), closed_count),
        call_ensures(segment_end, (i, n), j),
    ensures
        open_count + 1 == n,
        closed_count == n,
        j == (i + 1) % n as int,
{
    if i + 1 == n {
        assert((i + 1) % n as int == 0) by (nonlinear_arith)
            requires
                i + 1 == n,
                n > 0,
        ;
    } else {
        vstd::arithmetic::div_mod::lemma_small_mod((i + 1) as nat, n as nat);
    }
}

/// The longest of three is one of them, and none is longer.
pub proof fn law_the_longest_is_not_exceeded(a: int, b: int, c: int)
    ensures
        longest(a, b, c) >= a && longest(a, b, c) >= b && longest(a, b, c) >= c,
        longest(a, b, c) == a || longest(a, b, c) == b || longest(a, b, c) == c,
{
}

/// A path expands to one point and those of its segments; one segment without a count leaves none.
pub proof fn law_segments_add_their_points(counts: Seq<Option<usize>>, n: usize)
    ensures
        expanded(Seq::empty()) == Some(1int),
        expanded(counts) is None ==> expanded(counts.push(Some(n))) is None,
        expanded(counts) is Some && expanded(counts)->0 + n <= usize::MAX ==> expanded(
            counts.push(Some(n)),
        ) == Some(expanded(counts)->0 + n),
        expanded(counts.push(None)) is None,
{
    assert(counts.push(Some(n)).drop_last() =~= counts);
    assert(counts.push(None).drop_last() =~= counts);
}

/// A canvas has at least one and at most 8192 pixels either way, and at most eight million in all.
pub proof fn law_canvases_are_bounded(width: u32, height: u32, r: Result<usize>)
    requires
        call_ensures(canvas_size, (width, height), r),
    ensures
        r is Ok <==> 1 <= width <= 8192 && 1 <= height <= 8192 && width * height <= 8388608,
        r is Ok ==> r->Ok_0 == width * height,
        !(1 <= width <= 8192 && 1 <= height <= 8192) ==> r == Err::<usize, Error>(
            Error::LimitExceeded(Limit::CompositionSize),
        ),
        1 <= width <= 8192 && 1 <= height <= 8192 && width * height > 8388608 ==> r == Err::<
            usize,
            Error,
        >(Error::LimitExceeded(Limit::RenderMemory)),
{
}

/// A linear gradient costs eight times a solid paint, a radial one twice that, and a focal one twice
/// that again.
pub proof fn law_gradients_cost_more(p: PaintKind)
    ensures
        PaintKind::Solid.weight() == 1,
        PaintKind::Linear.weight() == 8 * PaintKind::Solid.weight(),
        PaintKind::Radial.weight() == 2 * PaintKind::Linear.weight(),
        PaintKind::Focal.weight() == 2 * PaintKind::Radial.weight(),
{
}

/// A surface takes four bytes for each pixel, on top of 32 that every canvas takes.
pub proof fn law_surfaces_take_four_bytes_a_pixel(g: Guard)
    requires
        g.width * g.height * (36 + 4 * g.depth) <= usize::MAX,
    ensures
        g.surface_bytes() == g.width * g.height * 32 + g.width * g.height * 4 * (g.depth + 1),
        g.area() == g.width * g.height,
{
    let (a, d) = (g.width * g.height, g.depth as int);
    assert(g.width * g.height >= 0) by (nonlinear_arith);
    assert(a <= a * (36 + 4 * d)) by (nonlinear_arith)
        requires
            a >= 0,
            d >= 0,
    ;
    assert(a * (32 + 4 * (d + 1)) == a * 32 + a * 4 * (d + 1)) by (nonlinear_arith);
    assert(a * (36 + 4 * d) == a * (32 + 4 * (d + 1))) by (nonlinear_arith);
}

/// An outline is charged for its box; one without points for what it was charged before, or else for
/// the whole canvas.
pub proof fn law_outlines_are_charged_for_their_box(g: Guard, key: u128, work: usize, w: usize, h: usize)
    requires
        w * h <= usize::MAX,
        g.width * g.height <= usize::MAX,
    ensures
        g.outline_pixels(key, Outline::Measured { work, area: Some((w, h)) }) == w * h,
        g.pixel_costs@.contains_key(key) ==> g.outline_pixels(
            key,
            Outline::Measured { work, area: None },
        ) == g.pixel_costs@[key],
        !g.pixel_costs@.contains_key(key) ==> g.outline_pixels(
            key,
            Outline::Measured { work, area: None },
        ) == g.width * g.height,
{
}

/// What an outline was charged for is remembered under its key, and up to 512 others with it.
pub proof fn law_sizes_are_remembered(g: Guard, key: u128, other: u128, work: usize, w: usize, h: usize)
    requires
        w * h <= usize::MAX,
        other != key,
    ensures
        ({
            let after = g.costs_after(key, Outline::Measured { work, area: Some((w, h)) });
            &&& after.contains_key(key)
            &&& after[key] == w * h
            &&& g.pixel_costs@.len() < 512 ==> after.contains_key(other)
                == g.pixel_costs@.contains_key(other)
            &&& g.pixel_costs@.len() < 512 && g.pixel_costs@.contains_key(other) ==> after[other]
                == g.pixel_costs@[other]
            &&& g.pixel_costs@.len() >= 512 ==> !after.contains_key(other)
        }),
        g.costs_after(key, Outline::Measured { work, area: None }) == g.pixel_costs@,
{
}

/// An outline is let through exactly where it is finite, has no more than a million deposits, and
/// neither the work that is left nor the pixels that are left are exceeded.
pub proof fn law_outlines_are_let_through(g: Guard, key: u128, work: usize, w: usize, h: usize, weight: int)
    requires
        0 <= weight,
        w * h * weight <= usize::MAX,
        w * h <= usize::MAX,
    ensures
        g.outline_fault(key, Outline::NotFinite, weight) == Some(Limit::PathCoordinate),
        ({
            let fault = g.outline_fault(
                key,
                Outline::Measured { work, area: Some((w, h)) },
                weight,
            );
            &&& work > 1048576 <==> fault == Some(Limit::RenderGeometry)
            &&& fault is None <==> work <= 1048576 && (work == 0 || g.budget.work + work <= 16777216)
                && (w * h * weight == 0 || g.pixels + w * h * weight <= 67108864)
            &&& fault is None || fault == Some(Limit::RenderGeometry) || fault == Some(
                Limit::RenderWork,
            )
        }),
{
    let n = w * h * weight;
    assert(n >= 0) by (nonlinear_arith)
        requires
            n == w * h * weight,
            weight >= 0,
    ;
}

/// The work of one outline is used up where it is allowed, and only there.
pub proof fn law_allowed_work_is_used_up(g: Guard, work: usize, area: Option<(usize, usize)>)
    ensures
        g.budget_after(Outline::NotFinite) == g.budget,
        work <= 1048576 && g.budget.work + work <= 16777216 ==> g.budget_after(
            Outline::Measured { work, area },
        ).work == g.budget.work + work,
        work > 1048576 ==> g.budget_after(Outline::Measured { work, area }) == g.budget,
        g.budget_after(Outline::Measured { work, area }).points == g.budget.points,
        g.budget_after(Outline::Measured { work, area }).layers == g.budget.layers,
{
}

/// How many keyframes a property has; one that stands still, or is missing, has none.
pub open spec fn keyframes_of<T>(p: Option<Property<T>>) -> int {
    if p is Some && p->0 is Animated {
        p->0->Animated_0.count() as int
    } else {
        0
    }
}

/// True where a property has no more keyframes than one may have.
pub open spec fn few<T>(p: Option<Property<T>>) -> bool {
    keyframes_of(p) <= 65536
}

/// Work adds up until there is no more; the first limit that is broken stays, and nothing is counted
/// after it.
pub proof fn law_work_adds_up(t: Tally, a: int, b: int)
    requires
        0 <= a,
        0 <= b,
        t.work <= 16777216,
    ensures
        t.fault is None && t.work + a + b <= 16777216 ==> worked(worked(t, a), b) == worked(t, a + b)
            && worked(t, a + b).work == t.work + a + b && worked(t, a + b).fault is None,
        t.fault is None && t.work + a > 16777216 ==> worked(t, a).fault == Some(Limit::RenderWork)
            && worked(t, a).work == t.work,
        t.fault is Some ==> worked(t, a) == t && checked(t, false, Limit::PathPoints) == t,
{
}

/// Every keyframe of a property costs one unit; one with too many breaks a limit.
pub proof fn law_keyframes_cost_one_unit<T>(t: Tally, p: Option<Property<T>>)
    requires
        t.fault is None,
        t.work + keyframes_of(p) <= 16777216,
    ensures
        few(p) ==> optional_tally(t, p).work == t.work + keyframes_of(p) && optional_tally(
            t,
            p,
        ).fault is None,
        !few(p) ==> optional_tally(t, p).fault == Some(Limit::Keyframes),
{
}

proof fn lemma_counted<T>(t: Tally, p: Option<Property<T>>) -> (after: Tally)
    requires
        t.fault is None,
        few(p),
        t.work <= 16700000,
    ensures
        after == optional_tally(t, p),
        after.fault is None,
        after.work == t.work + keyframes_of(p),
        after.work <= t.work + 65536,
{
    optional_tally(t, p)
}

/// A transform costs as many units as its seven properties have keyframes, a position in two parts
/// those of both.
pub proof fn law_transforms_cost_their_keyframes(t: Tally, v: Transform)
    requires
        t.fault is None,
        t.work <= 16000000,
        few(v.anchor) && few(v.scale) && few(v.rotation) && few(v.opacity) && few(v.skew) && few(
            v.skew_axis,
        ),
        v.position is Some ==> match v.position->0 {
            Position::Combined(p) => few(Some(p)),
            Position::Split { x, y } => few(x) && few(y),
        },
    ensures
        transform_tally(t, v).fault is None,
        transform_tally(t, v).work == t.work + keyframes_of(v.anchor) + keyframes_of(v.scale)
            + keyframes_of(v.rotation) + keyframes_of(v.opacity) + keyframes_of(v.skew)
            + keyframes_of(v.skew_axis) + match v.position {
            None => 0,
            Some(Position::Combined(p)) => keyframes_of(Some(p)),
            Some(Position::Split { x, y }) => keyframes_of(x) + keyframes_of(y),
        },
{
    let t1 = lemma_counted(t, v.anchor);
    let t2 = lemma_counted(t1, v.scale);
    let t3 = lemma_counted(t2, v.rotation);
    let t4 = lemma_counted(t3, v.opacity);
    let t5 = lemma_counted(t4, v.skew);
    let t6 = lemma_counted(t5, v.skew_axis);
    match v.position {
        Some(Position::Combined(p)) => {
            let t7 = lemma_counted(t6, Some(p));
        },
        Some(Position::Split { x, y }) => {
            let t7 = lemma_counted(t6, x);
            let t8 = lemma_counted(t7, y);
        },
        None => {},
    }
}

/// A repeater's transform costs the keyframes of all that changes from copy to copy.
pub proof fn law_repeaters_cost_their_keyframes(t: Tally, v: RepeaterTransform)
    requires
        t.fault is None,
        t.work <= 16000000,
        few(v.start_opacity) && few(v.end_opacity),
        few(v.anchor) && few(v.scale) && few(v.rotation) && few(v.opacity) && few(v.skew) && few(
            v.skew_axis,
        ),
        v.position is None,
    ensures
        repeater_tally(t, v).fault is None,
        repeater_tally(t, v).work == t.work + keyframes_of(v.start_opacity) + keyframes_of(
            v.end_opacity,
        ) + keyframes_of(v.anchor) + keyframes_of(v.scale) + keyframes_of(v.rotation)
            + keyframes_of(v.opacity) + keyframes_of(v.skew) + keyframes_of(v.skew_axis),
{
    let t1 = lemma_counted(t, v.start_opacity);
    let t2 = lemma_counted(t1, v.end_opacity);
    let t3 = lemma_counted(t2, v.anchor);
    let t4 = lemma_counted(t3, v.scale);
    let t5 = lemma_counted(t4, v.rotation);
    let t6 = lemma_counted(t5, v.opacity);
    let t7 = lemma_counted(t6, v.skew);
    let t8 = lemma_counted(t7, v.skew_axis);
}

/// True where every property of a shape, but for paths, stops, dashes and transforms, has no more
/// keyframes than one may have.
pub open spec fn few_keyframes(shape: Shape) -> bool {
    match shape {
        Shape::Rect(x) => few(x.position) && few(x.size) && few(x.radius),
        Shape::Ellipse(x) => few(x.position) && few(x.size),
        Shape::Polystar(x) => few(x.points) && few(x.position) && few(x.rotation) && few(
            x.inner_radius,
        ) && few(x.outer_radius) && few(x.inner_roundness) && few(x.outer_roundness),
        Shape::RoundCorners(x) => few(x.radius),
        Shape::Trim(x) => few(x.start) && few(x.end) && few(x.offset),
        Shape::Fill(x) => few(x.color) && few(x.opacity),
        Shape::Stroke(x) => few(x.color) && few(x.opacity) && few(x.width) && x.dashes@.len() == 0,
        Shape::GradientFill(x) => few(x.start) && few(x.end) && few(x.opacity) && few(
            x.highlight_len,
        ) && few(x.highlight_angle) && x.stops is None,
        Shape::GradientStroke(x) => few(x.start) && few(x.end) && few(x.opacity) && few(
            x.highlight_len,
        ) && few(x.highlight_angle) && few(x.width) && x.stops is None && x.dashes@.len() == 0,
        Shape::Repeater(x) => few(x.copies) && few(x.offset) && x.transform is None,
        Shape::Group(g) => g.transform is None,
        Shape::Path(x) => x.path is None,
    }
}

/// A shape costs as many units as its properties have keyframes.
pub proof fn law_shapes_cost_their_keyframes(t: Tally, shape: Shape)
    requires
        t.fault is None,
        t.work <= 16000000,
        few_keyframes(shape),
    ensures
        shape_tally(t, shape).fault is None,
        shape_tally(t, shape).work == t.work + match shape {
            Shape::Rect(x) => keyframes_of(x.position) + keyframes_of(x.size) + keyframes_of(
                x.radius,
            ),
            Shape::Ellipse(x) => keyframes_of(x.position) + keyframes_of(x.size),
            Shape::Polystar(x) => keyframes_of(x.points) + keyframes_of(x.position) + keyframes_of(
                x.rotation,
            ) + keyframes_of(x.inner_radius) + keyframes_of(x.outer_radius) + keyframes_of(
                x.inner_roundness,
            ) + keyframes_of(x.outer_roundness),
            Shape::RoundCorners(x) => keyframes_of(x.radius),
            Shape::Trim(x) => keyframes_of(x.start) + keyframes_of(x.end) + keyframes_of(x.offset),
            Shape::Fill(x) => keyframes_of(x.color) + keyframes_of(x.opacity),
            Shape::Stroke(x) => keyframes_of(x.color) + keyframes_of(x.opacity) + keyframes_of(
                x.width,
            ),
            Shape::GradientFill(x) => keyframes_of(x.start) + keyframes_of(x.end) + keyframes_of(
                x.opacity,
            ) + keyframes_of(x.highlight_len) + keyframes_of(x.highlight_angle),
            Shape::GradientStroke(x) => keyframes_of(x.start) + keyframes_of(x.end) + keyframes_of(
                x.opacity,
            ) + keyframes_of(x.highlight_len) + keyframes_of(x.highlight_angle) + keyframes_of(
                x.width,
            ),
            Shape::Repeater(x) => keyframes_of(x.copies) + keyframes_of(x.offset),
            Shape::Group(g) => 0,
            Shape::Path(x) => 0,
        },
{
    match shape {
        Shape::Rect(x) => {
            let t1 = lemma_counted(t, x.position);
            let t2 = lemma_counted(t1, x.size);
            let t3 = lemma_counted(t2, x.radius);
        },
        Shape::Ellipse(x) => {
            let t1 = lemma_counted(t, x.position);
            let t2 = lemma_counted(t1, x.size);
        },
        Shape::Polystar(x) => {
            let t1 = lemma_counted(t, x.points);
            let t2 = lemma_counted(t1, x.position);
            let t3 = lemma_counted(t2, x.rotation);
            let t4 = lemma_counted(t3, x.inner_radius);
            let t5 = lemma_counted(t4, x.outer_radius);
            let t6 = lemma_counted(t5, x.inner_roundness);
            let t7 = lemma_counted(t6, x.outer_roundness);
        },
        Shape::RoundCorners(x) => {
            let t1 = lemma_counted(t, x.radius);
        },
        Shape::Trim(x) => {
            let t1 = lemma_counted(t, x.start);
            let t2 = lemma_counted(t1, x.end);
            let t3 = lemma_counted(t2, x.offset);
        },
        Shape::Fill(x) => {
            let t1 = lemma_counted(t, x.color);
            let t2 = lemma_counted(t1, x.opacity);
        },
        Shape::Stroke(x) => {
            let t1 = lemma_counted(t, x.color);
            let t2 = lemma_counted(t1, x.opacity);
            let t3 = lemma_counted(t2, x.width);
        },
        Shape::GradientFill(x) => {
            let t1 = lemma_counted(t, x.start);
            let t2 = lemma_counted(t1, x.end);
            let t3 = lemma_counted(t2, x.opacity);
            let t4 = lemma_counted(t3, x.highlight_len);
            let t5 = lemma_counted(t4, x.highlight_angle);
        },
        Shape::GradientStroke(x) => {
            let t1 = lemma_counted(t, x.start);
            let t2 = lemma_counted(t1, x.end);
            let t3 = lemma_counted(t2, x.opacity);
            let t4 = lemma_counted(t3, x.highlight_len);
            let t5 = lemma_counted(t4, x.highlight_angle);
            let t6 = lemma_counted(t5, x.width);
        },
        Shape::Repeater(x) => {
            let t1 = lemma_counted(t, x.copies);
            let t2 = lemma_counted(t1, x.offset);
        },
        _ => {},
    }
}

/// A path costs a unit for each point of its longest list; one of more than 65536 breaks a limit.
pub proof fn law_paths_cost_their_points(t: Tally, p: PathData)
    requires
        t.fault is None,
        t.work <= 16000000,
    ensures
        ({
            let after = path_tally(t, Some(p));
            let (a, b, c) = (
                p.vertices@.len(),
                p.in_tangents@.len(),
                p.out_tangents@.len(),
            );
            &&& path_tally(t, None) == t
            &&& a > 65536 || b > 65536 || c > 65536 ==> after.fault == Some(Limit::PathPoints)
            &&& a <= 65536 && b <= 65536 && c <= 65536 ==> {
                &&& after.fault is None
                &&& after.work >= t.work + a
                &&& after.work >= t.work + b
                &&& after.work >= t.work + c
                &&& after.work == t.work + a || after.work == t.work + b || after.work == t.work
                    + c
            }
        }),
{
}

/// A gradient's stops cost a unit for each number, up to 4096 of them, and a dash pattern those of its
/// elements, up to 1024 of them.
pub proof fn law_stops_and_dashes_are_bounded(t: Tally, v: Values, d: Seq<DashElement>)
    requires
        t.fault is None,
        t.work <= 16000000,
    ensures
        v.items@.len() <= 4096 ==> stops_tally(t, Some(v)).work == t.work + v.items@.len()
            && stops_tally(t, Some(v)).fault is None,
        v.items@.len() > 4096 ==> stops_tally(t, Some(v)).fault == Some(Limit::GradientStopValues),
        d.len() > 1024 ==> dashes_tally(t, d).fault == Some(Limit::DashElements),
        d.len() == 1 && few(d[0].value) ==> dashes_tally(t, d).work == t.work + keyframes_of(
            d[0].value,
        ) && dashes_tally(t, d).fault is None,
{
    if d.len() > 1024 {
        lemma_dashes_keep_fault(Tally { fault: Some(Limit::DashElements), ..t }, d, d.len());
    }
    reveal_with_fuel(dash_values_tally, 2);
}

proof fn lemma_dashes_keep_fault(t: Tally, d: Seq<DashElement>, n: nat)
    requires
        t.fault is Some,
    ensures
        dash_values_tally(t, d, n) == t,
    decreases n,
{
    if n > 0 {
        lemma_dashes_keep_fault(t, d, (n - 1) as nat);
    }
}

/// Every shape in a list costs one unit besides its own, and groups may be nested 40 deep.
pub proof fn law_shapes_cost_one_unit_each(t: Tally, shapes: Seq<Shape>, depth: int)
    requires
        t.fault is None,
        t.work + shapes.len() <= 16777216,
        0 <= depth,
    ensures
        depth > 40 ==> tree_tally(t, shapes, depth).fault == Some(Limit::NestingDepth),
        depth <= 40 ==> tree_tally(t, shapes, depth) == tree_items_tally(
            Tally { work: (t.work + shapes.len()) as usize, fault: None },
            shapes,
            shapes.len(),
            depth,
        ),
        depth <= 40 && shapes.len() == 0 ==> tree_tally(t, shapes, depth) == t,
{
}

/// A group costs what it is and what it holds, one level deeper.
pub proof fn law_groups_cost_what_they_hold(t: Tally, shapes: Seq<Shape>, n: nat, depth: int)
    requires
        0 < n <= shapes.len(),
        0 <= depth <= 40,
    ensures
        ({
            let before = tree_items_tally(t, shapes, (n - 1) as nat, depth);
            let own = shape_tally(before, shapes[n - 1]);
            &&& shapes[n - 1] is Group ==> tree_items_tally(t, shapes, n, depth) == tree_tally(
                own,
                shapes[n - 1]->Group_0.shapes@,
                depth + 1,
            )
            &&& !(shapes[n - 1] is Group) ==> tree_items_tally(t, shapes, n, depth) == own
        }),
{
}

/// A layer is found by its number, the first one where several have it.
pub proof fn law_the_first_layer_of_a_number_is_found(layers: Seq<Layer>, number: u32, i: int, from: int)
    requires
        0 <= from <= i < layers.len(),
        layers[i].number() == Some(number),
        forall|k: int| from <= k < i ==> (#[trigger] layers[k]).number() != Some(number),
    ensures
        layer_numbered(layers, number, from) == Some(i),
    decreases i - from,
{
    if from < i {
        assert(layers[from].number() != Some(number));
        law_the_first_layer_of_a_number_is_found(layers, number, i, from + 1);
    }
}

/// The ancestors of a layer are its parent and the parent's ancestors; a parent that is not there, or
/// one step too many, ends them.
pub proof fn law_ancestors_are_the_parents_and_theirs(layers: Seq<Layer>, number: u32, steps: nat, i: int)
    requires
        layer_numbered(layers, number, 0) == Some(i),
        steps > 0,
    ensures
        ancestors(layers, None, steps).len() == 0,
        ancestors(layers, Some(number), 0).len() == 0,
        ancestors(layers, Some(number), steps).len() > 0,
        ancestors(layers, Some(number), steps)[0] == i,
        ancestors(layers, Some(number), steps).skip(1) == ancestors(
            layers,
            layers[i].parent_number(),
            (steps - 1) as nat,
        ),
{
    let rest = ancestors(layers, layers[i].parent_number(), (steps - 1) as nat);
    assert(ancestors(layers, Some(number), steps) == seq![i] + rest);
    assert((seq![i] + rest).skip(1) =~= rest);
}

} // verus!
