//! Mask modulation, track mattes and layer composition, whole planes and dirty rectangles.

use vstd::prelude::*;
use crate::argb;
use crate::argb::{alpha, blue, green, min255, red};
use crate::blend;
use crate::blend::{composite_one, composite_over_span, scale};
use crate::dirty;
use crate::dirty::{box_row, DirtyBox};

verus! {

/// A plane whose pixels are scaled by a mask, over the pixels that both have.
pub open spec fn modulated(pixels: Seq<u32>, mask: Seq<u8>) -> Seq<u32> {
    Seq::new(
        pixels.len(),
        |i: int|
            if i < mask.len() {
                blend::scale_px(pixels[i], mask[i] as int)
            } else {
                pixels[i]
            },
    )
}

/// Scales one pixel by a mask byte.
pub fn modulate_one(p: u32, m: u8) -> (o: u32)
    ensures
        o == blend::scale_px(p, m as int),
{
    if m == 255 {
        proof {
            blend::law_scale_by_255(p);
        }
        return p;
    }
    if m == 0 {
        proof {
            lemma_scale_by_zero(p);
        }
        return 0;
    }
    scale(p, m as u32)
}

proof fn lemma_scale_by_zero(p: u32)
    ensures
        blend::scale_px(p, 0) == 0,
{
    argb::lemma_argb_of_channels(p);
    argb::lemma_mul255(argb::alpha_of(p), 0);
    argb::lemma_mul255(argb::red_of(p), 0);
    argb::lemma_mul255(argb::green_of(p), 0);
    argb::lemma_mul255(argb::blue_of(p), 0);
}

/// Multiplies premultiplied pixels by a coverage buffer.
pub fn modulate(pixels: &mut [u32], mask: &[u8])
    ensures
        final(pixels)@ == modulated(old(pixels)@, mask@),
{
    let ghost before = pixels@;
    let mut i: usize = 0;
    while i < pixels.len() && i < mask.len()
        invariant
            i <= pixels@.len(),
            i <= mask@.len(),
            pixels@.len() == before.len(),
            forall|j: int| 0 <= j < i ==> #[trigger] pixels@[j] == blend::scale_px(before[j], mask@[j] as int),
            forall|j: int| i <= j < before.len() ==> #[trigger] pixels@[j] == before[j],
        decreases pixels@.len() - i,
    {
        let p: u32 = pixels[i];
        pixels[i] = modulate_one(p, mask[i]);
        i = i + 1;
    }
    assert(pixels@ =~= modulated(before, mask@));
}

/// The straight value of a premultiplied channel, rounded down.
pub open spec fn unpremultiplied(c: int, a: int) -> int {
    c * 255 / a
}

/// The Rec. 601 luma of a premultiplied pixel's straight color; a transparent pixel has none.
pub open spec fn luma_of(p: u32) -> int {
    let a = argb::alpha_of(p);
    if a == 0 {
        0
    } else {
        argb::clamp255(
            (unpremultiplied(argb::red_of(p), a) * 299 + unpremultiplied(argb::green_of(p), a) * 587 + unpremultiplied(
                argb::blue_of(p),
                a,
            ) * 114) / 1000,
        )
    }
}

/// What a matte source lets through: 1 is its alpha, 2 the inverted alpha, 3 its luma, and any other
/// kind the inverted luma.
pub open spec fn matte_factor(kind: u8, s: u32) -> int {
    if kind == 1 {
        argb::alpha_of(s)
    } else if kind == 2 {
        255 - argb::alpha_of(s)
    } else if kind == 3 {
        luma_of(s)
    } else {
        255 - luma_of(s)
    }
}

/// A plane whose pixels are scaled by a matte source, over the pixels that both have.
pub open spec fn matted(dst: Seq<u32>, src: Seq<u32>, kind: u8) -> Seq<u32> {
    Seq::new(
        dst.len(),
        |i: int|
            if i < src.len() {
                blend::scale_px(dst[i], matte_factor(kind, src[i]))
            } else {
                dst[i]
            },
    )
}

proof fn lemma_quotient_bound(c: int, a: int)
    requires
        argb::is_channel(c),
        1 <= a <= 255,
    ensures
        0 <= c * 255 / a <= 65025,
{
    assert(0 <= c * 255 / a <= c * 255) by (nonlinear_arith)
        requires
            0 <= c <= 255,
            1 <= a,
    ;
}

proof fn lemma_opaque_unpremultiplied(c: int)
    ensures
        unpremultiplied(c, 255) == c,
{
    assert(c * 255 / 255 == c) by (nonlinear_arith);
}

/// The luma of a premultiplied pixel.
pub fn luma_premult(p: u32) -> (l: u32)
    ensures
        l == luma_of(p),
        l <= 255,
{
    let a: u32 = alpha(p);
    if a == 0 {
        return 0;
    }
    let mut r: u32 = red(p);
    let mut g: u32 = green(p);
    let mut b: u32 = blue(p);
    if a != 255 {
        proof {
            lemma_quotient_bound(r as int, a as int);
            lemma_quotient_bound(g as int, a as int);
            lemma_quotient_bound(b as int, a as int);
        }
        r = (r * 255) / a;
        g = (g * 255) / a;
        b = (b * 255) / a;
    } else {
        proof {
            lemma_opaque_unpremultiplied(r as int);
            lemma_opaque_unpremultiplied(g as int);
            lemma_opaque_unpremultiplied(b as int);
        }
    }
    assert(r == unpremultiplied(argb::red_of(p), a as int));
    assert(g == unpremultiplied(argb::green_of(p), a as int));
    assert(b == unpremultiplied(argb::blue_of(p), a as int));
    min255((r * 299 + g * 587 + b * 114) / 1000)
}

/// Scales one pixel by what a matte source lets through.
pub fn matte_one(d: u32, s: u32, kind: u8) -> (o: u32)
    ensures
        o == blend::scale_px(d, matte_factor(kind, s)),
{
    let factor: u32 = if kind == 1 {
        alpha(s)
    } else if kind == 2 {
        255 - alpha(s)
    } else if kind == 3 {
        luma_premult(s)
    } else {
        255 - luma_premult(s)
    };
    modulate_one(d, factor as u8)
}

/// Applies a matte source onto premultiplied pixels.
pub fn apply_matte(dst: &mut [u32], src: &[u32], kind: u8)
    ensures
        final(dst)@ == matted(old(dst)@, src@, kind),
{
    let ghost before = dst@;
    let mut i: usize = 0;
    while i < dst.len() && i < src.len()
        invariant
            i <= dst@.len(),
            i <= src@.len(),
            dst@.len() == before.len(),
            forall|j: int| 0 <= j < i ==> #[trigger] dst@[j] == blend::scale_px(before[j], matte_factor(kind, src@[j])),
            forall|j: int| i <= j < before.len() ==> #[trigger] dst@[j] == before[j],
        decreases dst@.len() - i,
    {
        let d: u32 = dst[i];
        dst[i] = matte_one(d, src[i], kind);
        i = i + 1;
    }
    assert(dst@ =~= matted(before, src@, kind));
}

/// A matte lets at most the whole of a pixel through.
pub proof fn lemma_matte_factor(kind: u8, s: u32)
    ensures
        argb::is_channel(matte_factor(kind, s)),
{
    argb::lemma_argb_of_channels(s);
    let a = argb::alpha_of(s);
    if a > 0 {
        lemma_quotient_bound(argb::red_of(s), a);
        lemma_quotient_bound(argb::green_of(s), a);
        lemma_quotient_bound(argb::blue_of(s), a);
    }
}

/// One pass over a plane: each pixel becomes a function of itself and of what the source plane holds
/// at the same index.
pub enum BoxPass<'a> {
    /// Multiplies by a mask.
    Modulate {
        /// The mask.
        mask: &'a [u8],
    },
    /// Multiplies by what a matte source lets through.
    Matte {
        /// The matte source.
        source: &'a [u32],
        /// The matte kind.
        kind: u8,
    },
    /// Composites a source over the plane.
    Over {
        /// The source.
        source: &'a [u32],
        /// The opacity of the source.
        opacity: u8,
    },
}

impl<'a> BoxPass<'a> {
    /// The number of pixels that the pass has a source for.
    pub open spec fn reach(self) -> nat {
        match self {
            BoxPass::Modulate { mask } => mask@.len(),
            BoxPass::Matte { source, kind } => source@.len(),
            BoxPass::Over { source, opacity } => source@.len(),
        }
    }

    /// What the pass makes of the whole plane.
    pub open spec fn applied(self, plane: Seq<u32>) -> Seq<u32> {
        match self {
            BoxPass::Modulate { mask } => modulated(plane, mask@),
            BoxPass::Matte { source, kind } => matted(plane, source@, kind),
            BoxPass::Over { source, opacity } => blend::composited(plane, source@, opacity as int),
        }
    }

    /// What the pass makes of the pixel `p` at index `i`.
    fn pixel(&self, i: usize, p: u32, plane: Ghost<Seq<u32>>) -> (o: u32)
        requires
            i < self.reach(),
            i < plane@.len(),
            plane@[i as int] == p,
        ensures
            o == self.applied(plane@)[i as int],
    {
        match self {
            BoxPass::Modulate { mask } => modulate_one(p, mask[i]),
            BoxPass::Matte { source, kind } => matte_one(p, source[i], *kind),
            BoxPass::Over { source, opacity } => composite_one(p, source[i], *opacity as u32),
        }
    }
}

/// Runs a pass over the rows of a rectangle of a plane of stride `w`.
pub fn for_rows_boxed(pixels: &mut [u32], w: usize, b: DirtyBox, pass: &BoxPass)
    requires
        b.indexable(w as int),
        b.is_empty_spec() || b.x1 < w,
        pass.reach() >= old(pixels)@.len(),
    ensures
        final(pixels)@ == dirty::boxed(b, w as int, old(pixels)@, pass.applied(old(pixels)@)),
{
    let ghost before = pixels@;
    let ghost goal = pass.applied(before);
    proof {
        dirty::lemma_boxed_ends(b, w as int, before, goal);
    }
    if b.is_empty() {
        return;
    }
    let len: usize = pixels.len();
    let mut y: usize = b.y0;
    loop
        invariant_except_break
            pixels@ == dirty::boxed_to(b, w as int, y as int, before, goal),
        invariant
            !b.is_empty_spec(),
            b.indexable(w as int),
            b.x1 < w,
            b.y0 <= y <= b.y1,
            len == before.len(),
            pass.reach() >= len,
            goal == pass.applied(before),
        ensures
            pixels@ == dirty::boxed_to(b, w as int, b.y1 + 1, before, goal),
        decreases b.y1 - y,
    {
        let (lo, hi) = box_row(b, w, y, len);
        let ghost mid = pixels@;
        proof {
            assert forall|j: int| lo <= j < hi implies #[trigger] mid[j] == before[j] by {
                assert(b.row_covers(w as int, y as int, j));
                if exists|v: int| b.y0 <= v < y && #[trigger] b.row_covers(w as int, v, j) {
                    let v = choose|v: int| b.y0 <= v < y && #[trigger] b.row_covers(w as int, v, j);
                    dirty::lemma_rows_disjoint(b, w as int, v, y as int, j);
                }
            }
        }
        let mut i: usize = lo;
        while i < hi
            invariant
                lo <= i,
                hi <= len,
                i <= hi || i == lo,
                len == before.len(),
                pass.reach() >= len,
                pixels@.len() == len,
                mid.len() == len,
                goal == pass.applied(before),
                forall|j: int| lo <= j < hi ==> #[trigger] mid[j] == before[j],
                forall|j: int| 0 <= j < len ==> #[trigger] pixels@[j] == if lo <= j < i {
                    goal[j]
                } else {
                    mid[j]
                },
            decreases hi - i,
        {
            let p: u32 = pixels[i];
            assert(mid[i as int] == before[i as int]);
            pixels[i] = pass.pixel(i, p, Ghost(before));
            i = i + 1;
        }
        proof {
            dirty::lemma_boxed_row(b, w as int, y as int, lo as int, hi as int, before, goal, mid, pixels@);
        }
        if y == b.y1 {
            break;
        }
        y = y + 1;
    }
}

/// True for a plane of stride `w` that is clear outside a rectangle.
pub open spec fn clear_outside(plane: Seq<u32>, w: int, b: DirtyBox) -> bool {
    forall|i: int| 0 <= i < plane.len() && !b.covers(w, i) ==> #[trigger] plane[i] == 0
}

/// Masks and mattes keep a clear pixel clear, so over a plane that is clear outside a rectangle a
/// pass over the rectangle alone is the pass over the whole plane.
pub proof fn law_bounded_scaling_is_exact(plane: Seq<u32>, w: int, b: DirtyBox, pass: BoxPass)
    requires
        clear_outside(plane, w, b),
        pass is Modulate || pass is Matte,
    ensures
        dirty::boxed(b, w, plane, pass.applied(plane)) == pass.applied(plane),
        clear_outside(pass.applied(plane), w, b),
{
    let whole = pass.applied(plane);
    assert forall|i: int| 0 <= i < plane.len() && !b.covers(w, i) implies #[trigger] whole[i] == 0 by {
        assert(plane[i] == 0);
        match pass {
            BoxPass::Modulate { mask } => {
                if i < mask@.len() {
                    blend::law_scale_clear(mask@[i] as int);
                }
            },
            BoxPass::Matte { source, kind } => {
                if i < source@.len() {
                    lemma_matte_factor(kind, source@[i]);
                    blend::law_scale_clear(matte_factor(kind, source@[i]));
                }
            },
            BoxPass::Over { source, opacity } => {},
        }
    }
    assert(dirty::boxed(b, w, plane, whole) =~= whole);
}

/// A clear source pixel changes nothing, so compositing a source that is clear outside a rectangle
/// over the rectangle alone is compositing it over the whole plane.
pub proof fn law_bounded_composite_is_exact(dst: Seq<u32>, src: Seq<u32>, w: int, b: DirtyBox, opacity: u8)
    requires
        clear_outside(src, w, b),
    ensures
        dirty::boxed(b, w, dst, blend::composited(dst, src, opacity as int)) == blend::composited(dst, src, opacity as int),
{
    let whole = blend::composited(dst, src, opacity as int);
    assert forall|i: int| 0 <= i < dst.len() && !b.covers(w, i) implies #[trigger] whole[i] == dst[i] by {
        if i < src.len() {
            assert(src[i] == 0);
            blend::law_scale_clear(opacity as int);
            blend::law_over_clear_source(dst[i]);
        }
    }
    assert(dirty::boxed(b, w, dst, whole) =~= whole);
}

/// Composites `src[lo..hi]` over `dst[lo..hi]`.
fn composite_range(dst: &mut [u32], src: &[u32], lo: usize, hi: usize, k: u32)
    requires
        lo <= hi <= old(dst)@.len(),
        hi <= src@.len(),
        k <= 255,
    ensures
        final(dst)@.len() == old(dst)@.len(),
        forall|i: int| 0 <= i < old(dst)@.len() ==> #[trigger] final(dst)@[i] == if lo <= i < hi {
            blend::composite_px(old(dst)@[i], src@[i], k as int)
        } else {
            old(dst)@[i]
        },
{
    let ghost before = dst@;
    let (_head, rest) = dst.split_at_mut(lo);
    let (span, _tail) = rest.split_at_mut(hi - lo);
    composite_over_span(span, vstd::slice::slice_subrange(src, lo, hi), k);
}

/// The part of a rectangle that lies in a canvas of `w` by `h` pixels.
pub open spec fn clipped(b: DirtyBox, w: usize, h: usize) -> DirtyBox {
    if b.is_empty_spec() || b.x0 >= w || b.y0 >= h {
        DirtyBox { x0: usize::MAX, y0: usize::MAX, x1: 0, y1: 0 }
    } else {
        DirtyBox {
            x0: b.x0,
            y0: b.y0,
            x1: dirty::least(b.x1, (w - 1) as usize),
            y1: dirty::least(b.y1, (h - 1) as usize),
        }
    }
}

/// The number of whole rows of `width` pixels that two planes of the given lengths share.
pub open spec fn shared_rows(a: nat, b: nat, width: usize) -> usize {
    (if a < b {
        a as int
    } else {
        b as int
    } / width as int) as usize
}

/// Composites `source` over `destination` inside a rectangle. The transparent margins of each row
/// are left out.
pub fn composite_over_box(destination: &mut [u32], source: &[u32], width: usize, bounds: DirtyBox, opacity: u8)
    ensures
        width == 0 ==> final(destination)@ == old(destination)@,
        width > 0 ==> final(destination)@ == dirty::boxed(
            clipped(bounds, width, shared_rows(old(destination)@.len(), source@.len(), width)),
            width as int,
            old(destination)@,
            blend::composited(old(destination)@, source@, opacity as int),
        ),
{
    let ghost before = destination@;
    let ghost goal = blend::composited(before, source@, opacity as int);
    if width == 0 {
        return;
    }
    let len: usize = destination.len();
    let height: usize = dirty::min(len, source.len()) / width;
    let ghost b = clipped(bounds, width, height);
    proof {
        assert(height == shared_rows(before.len(), source@.len(), width));
        dirty::lemma_boxed_ends(b, width as int, before, goal);
    }
    if bounds.is_empty() || bounds.x0 >= width || bounds.y0 >= height {
        return;
    }
    let x0: usize = bounds.x0;
    let x1: usize = dirty::min(bounds.x1, width - 1) + 1;
    let y1: usize = dirty::min(bounds.y1, height - 1) + 1;
    let mut y: usize = bounds.y0;
    proof {
        assert(height * width <= before.len() && height * width <= source@.len()) by (nonlinear_arith)
            requires
                height == (if before.len() < source@.len() {
                    before.len() as int
                } else {
                    source@.len() as int
                }) / (width as int),
                width > 0,
        ;
    }
    while y < y1
        invariant
            x0 < x1 <= width,
            bounds.y0 <= y <= y1 <= height,
            b == (DirtyBox { x0, y0: bounds.y0, x1: (x1 - 1) as usize, y1: (y1 - 1) as usize }),
            goal == blend::composited(before, source@, opacity as int),
            destination@.len() == len,
            before.len() == len,
            height * width <= len,
            height * width <= source@.len(),
            destination@ == dirty::boxed_to(b, width as int, y as int, before, goal),
        decreases y1 - y,
    {
        proof {
            assert(y * width + width <= height * width && y * width >= 0) by (nonlinear_arith)
                requires
                    0 <= y,
                    y + 1 <= height,
                    width > 0,
            ;
        }
        let row: usize = y * width;
        let lo: usize = row + x0;
        let hi: usize = row + x1;
        let ghost mid = destination@;
        proof {
            assert forall|j: int| lo <= j < hi implies #[trigger] mid[j] == before[j] by {
                assert(b.row_covers(width as int, y as int, j));
                if exists|v: int| b.y0 <= v < y && #[trigger] b.row_covers(width as int, v, j) {
                    let v = choose|v: int| b.y0 <= v < y && #[trigger] b.row_covers(width as int, v, j);
                    dirty::lemma_rows_disjoint(b, width as int, v, y as int, j);
                }
            }
        }
        let mut first: usize = lo;
        while first < hi && source[first] == 0
            invariant
                lo <= first <= hi,
                hi <= source@.len(),
                forall|j: int| lo <= j < first ==> #[trigger] source@[j] == 0,
            decreases hi - first,
        {
            first = first + 1;
        }
        let mut last: usize = hi;
        while last > first && source[last - 1] == 0
            invariant
                first <= last <= hi,
                hi <= source@.len(),
                forall|j: int| last <= j < hi ==> #[trigger] source@[j] == 0,
            decreases last,
        {
            last = last - 1;
        }
        composite_range(destination, source, first, last, opacity as u32);
        proof {
            assert forall|j: int| 0 <= j < destination@.len() implies #[trigger] destination@[j] == if lo <= j < hi {
                goal[j]
            } else {
                mid[j]
            } by {
                if lo <= j < hi {
                    assert(mid[j] == before[j]);
                    if j < first || j >= last {
                        assert(source@[j] == 0);
                        blend::law_scale_clear(opacity as int);
                        blend::law_over_clear_source(before[j]);
                    }
                }
            }
            dirty::lemma_boxed_row(b, width as int, y as int, lo as int, hi as int, before, goal, mid, destination@);
        }
        y = y + 1;
    }
}

/// What remains of an offscreen layer once its mask and its matte have been applied.
pub open spec fn finished_layer(layer: Seq<u32>, mask: Option<Seq<u8>>, matte: Option<(Seq<u32>, u8)>) -> Seq<u32> {
    let masked = match mask {
        Some(m) => modulated(layer, m),
        None => layer,
    };
    match matte {
        Some(s) => matted(masked, s.0, s.1),
        None => masked,
    }
}

/// Finishes an offscreen layer: masks it, mattes it and composites it over the canvas, all inside
/// the layer's dirty rectangle.
pub fn composite_offscreen(
    canvas: &mut [u32],
    canvas_dirty: &mut DirtyBox,
    layer: &mut [u32],
    dirty_box: DirtyBox,
    mask: Option<&[u8]>,
    matte: Option<(&[u32], u8)>,
    w: usize,
    opacity: u8,
)
    requires
        dirty_box.indexable(w as int),
        dirty_box.is_empty_spec() || dirty_box.x1 < w,
        old(canvas)@.len() == old(layer)@.len(),
        mask matches Some(m) ==> m@.len() == old(layer)@.len(),
        matte matches Some(s) ==> s.0@.len() == old(layer)@.len(),
        clear_outside(old(layer)@, w as int, dirty_box),
    ensures
        final(layer)@ == finished_layer(
            old(layer)@,
            match mask {
                Some(m) => Some(m@),
                None => None,
            },
            match matte {
                Some(s) => Some((s.0@, s.1)),
                None => None,
            },
        ),
        final(canvas)@ == blend::composited(old(canvas)@, final(layer)@, opacity as int),
        *final(canvas_dirty) == old(canvas_dirty).joined(dirty_box),
{
    let ghost start = layer@;
    if let Some(m) = mask {
        let pass = BoxPass::Modulate { mask: m };
        proof {
            law_bounded_scaling_is_exact(layer@, w as int, dirty_box, pass);
        }
        for_rows_boxed(layer, w, dirty_box, &pass);
    }
    if let Some((source, kind)) = matte {
        let pass = BoxPass::Matte { source, kind };
        proof {
            law_bounded_scaling_is_exact(layer@, w as int, dirty_box, pass);
        }
        for_rows_boxed(layer, w, dirty_box, &pass);
    }
    canvas_dirty.union(dirty_box);
    proof {
        law_bounded_composite_is_exact(canvas@, layer@, w as int, dirty_box, opacity);
    }
    let pass = BoxPass::Over { source: layer, opacity };
    for_rows_boxed(canvas, w, dirty_box, &pass);
}

proof fn lemma_floor_is_one(n: int, a: int, q: int)
    requires
        a > 0,
        q * a <= n < (q + 1) * a,
    ensures
        n / a == q,
{
    assert(0 <= n - q * a < a && n == q * a + (n - q * a)) by (nonlinear_arith)
        requires
            q * a <= n < (q + 1) * a,
    ;
    vstd::arithmetic::div_mod::lemma_fundamental_div_mod_converse(n, a, q, n - q * a);
}

/// An opaque pixel's luma weighs its channels by 299, 587 and 114 thousandths, rounded down.
pub proof fn law_luma_weighs_the_channels(p: u32)
    requires
        argb::alpha_of(p) == 255,
    ensures
        ({
            let sum = 299 * argb::red_of(p) + 587 * argb::green_of(p) + 114 * argb::blue_of(p);
            1000 * luma_of(p) <= sum < 1000 * (luma_of(p) + 1)
        }),
{
    argb::lemma_argb_of_channels(p);
    lemma_opaque_unpremultiplied(argb::red_of(p));
    lemma_opaque_unpremultiplied(argb::green_of(p));
    lemma_opaque_unpremultiplied(argb::blue_of(p));
}

/// The luma of a matte does not depend on its alpha: a premultiplied pixel has the luma of the opaque
/// pixel of its straight color.
pub proof fn law_luma_is_that_of_the_straight_color(p: u32, q: u32)
    requires
        argb::alpha_of(p) > 0,
        argb::alpha_of(q) == 255,
        argb::red_of(q) * argb::alpha_of(p) <= argb::red_of(p) * 255 < (argb::red_of(q) + 1)
            * argb::alpha_of(p),
        argb::green_of(q) * argb::alpha_of(p) <= argb::green_of(p) * 255 < (argb::green_of(q) + 1)
            * argb::alpha_of(p),
        argb::blue_of(q) * argb::alpha_of(p) <= argb::blue_of(p) * 255 < (argb::blue_of(q) + 1)
            * argb::alpha_of(p),
    ensures
        luma_of(p) == luma_of(q),
{
    let a = argb::alpha_of(p);
    lemma_floor_is_one(argb::red_of(p) * 255, a, argb::red_of(q));
    lemma_floor_is_one(argb::green_of(p) * 255, a, argb::green_of(q));
    lemma_floor_is_one(argb::blue_of(p) * 255, a, argb::blue_of(q));
    lemma_opaque_unpremultiplied(argb::red_of(q));
    lemma_opaque_unpremultiplied(argb::green_of(q));
    lemma_opaque_unpremultiplied(argb::blue_of(q));
}

/// White is white at every alpha: its luma is full. Without any alpha there is no luma, and never more
/// than full.
pub proof fn law_white_has_full_luma(p: u32)
    ensures
        0 <= luma_of(p) <= 255,
        argb::alpha_of(p) == 0 ==> luma_of(p) == 0,
        ({
            let a = argb::alpha_of(p);
            a > 0 && argb::red_of(p) >= a && argb::green_of(p) >= a && argb::blue_of(p) >= a
        }) ==> luma_of(p) == 255,
        ({
            let a = argb::alpha_of(p);
            a > 0 && argb::red_of(p) == 0 && argb::green_of(p) == 0 && argb::blue_of(p) == 0
        }) ==> luma_of(p) == 0,
{
    let a = argb::alpha_of(p);
    let (r, g, b) = (argb::red_of(p), argb::green_of(p), argb::blue_of(p));
    argb::lemma_argb_of_channels(p);
    if a > 0 {
        lemma_quotient_bound(r, a);
        lemma_quotient_bound(g, a);
        lemma_quotient_bound(b, a);
        if r >= a && g >= a && b >= a {
            lemma_at_least_255(r, a);
            lemma_at_least_255(g, a);
            lemma_at_least_255(b, a);
        }
        if r == 0 && g == 0 && b == 0 {
            lemma_floor_is_one(0, a, 0);
        }
    }
}

proof fn lemma_at_least_255(c: int, a: int)
    requires
        0 < a <= c,
    ensures
        c * 255 / a >= 255,
{
    assert(c * 255 / a >= 255) by (nonlinear_arith)
        requires
            0 < a <= c,
    ;
}

/// An alpha matte lets its alpha through and looks at no color; the inverted mattes let through exactly
/// what the plain ones hold back; and a luma matte lets its luma through.
pub proof fn law_mattes_come_in_pairs(s: u32, t: u32, kind: u8)
    ensures
        matte_factor(1, s) == argb::alpha_of(s),
        matte_factor(1, s) + matte_factor(2, s) == 255,
        matte_factor(3, s) + matte_factor(4, s) == 255,
        argb::alpha_of(s) == argb::alpha_of(t) ==> matte_factor(1, s) == matte_factor(1, t)
            && matte_factor(2, s) == matte_factor(2, t),
        luma_of(s) == luma_of(t) ==> matte_factor(3, s) == matte_factor(3, t),
        matte_factor(3, s) == luma_of(s),
        kind == 0 || kind > 4 ==> matte_factor(kind, s) == matte_factor(4, s),
        0 <= matte_factor(kind, s) <= 255,
{
    lemma_matte_factor(kind, s);
}

/// A matted pixel keeps its place: it is scaled by the matte's pixel of the same index, and where the
/// matte has none it stays. So is a masked one by its mask.
pub proof fn law_mattes_and_masks_act_in_place(
    dst: Seq<u32>,
    src: Seq<u32>,
    mask: Seq<u8>,
    kind: u8,
    i: int,
)
    requires
        0 <= i < dst.len(),
    ensures
        matted(dst, src, kind).len() == dst.len(),
        modulated(dst, mask).len() == dst.len(),
        i >= src.len() ==> matted(dst, src, kind)[i] == dst[i],
        i >= mask.len() ==> modulated(dst, mask)[i] == dst[i],
        i < src.len() && matte_factor(kind, src[i]) == 255 ==> matted(dst, src, kind)[i] == dst[i],
        i < src.len() && matte_factor(kind, src[i]) == 0 ==> matted(dst, src, kind)[i] == 0,
        i < mask.len() && mask[i] == 255 ==> modulated(dst, mask)[i] == dst[i],
        i < mask.len() && mask[i] == 0 ==> modulated(dst, mask)[i] == 0,
        i < src.len() && i < mask.len() && matte_factor(kind, src[i]) == mask[i] ==> matted(
            dst,
            src,
            kind,
        )[i] == modulated(dst, mask)[i],
{
    blend::law_scale_by_255(dst[i]);
    lemma_scale_by_zero(dst[i]);
}

/// Under a mask every channel of a pixel is the rounded share that the mask leaves of it.
pub proof fn law_masks_scale_every_channel(dst: Seq<u32>, mask: Seq<u8>, i: int)
    requires
        0 <= i < dst.len(),
        i < mask.len(),
    ensures
        argb::nearest(argb::alpha_of(modulated(dst, mask)[i]), argb::alpha_of(dst[i]) * mask[i]),
        argb::nearest(argb::red_of(modulated(dst, mask)[i]), argb::red_of(dst[i]) * mask[i]),
        argb::nearest(argb::green_of(modulated(dst, mask)[i]), argb::green_of(dst[i]) * mask[i]),
        argb::nearest(argb::blue_of(modulated(dst, mask)[i]), argb::blue_of(dst[i]) * mask[i]),
{
    blend::law_scaling_is_rounded(dst[i], mask[i] as int);
}

/// A layer without mask and matte is finished as it is; one that its mask or its matte hides leaves no
/// trace on the canvas; and a mask and a matte that hide nothing change nothing.
pub proof fn law_hidden_pixels_leave_no_trace(
    canvas: Seq<u32>,
    layer: Seq<u32>,
    mask: Seq<u8>,
    source: Seq<u32>,
    kind: u8,
    opacity: u8,
    i: int,
)
    requires
        0 <= i < canvas.len(),
        layer.len() == canvas.len(),
        mask.len() == canvas.len(),
        source.len() == canvas.len(),
    ensures
        finished_layer(layer, None, None) == layer,
        mask[i] == 255 ==> finished_layer(layer, Some(mask), Some((source, kind)))[i]
            == finished_layer(layer, None, Some((source, kind)))[i],
        matte_factor(kind, source[i]) == 255 ==> finished_layer(
            layer,
            Some(mask),
            Some((source, kind)),
        )[i] == finished_layer(layer, Some(mask), None)[i],
        mask[i] == 0 || matte_factor(kind, source[i]) == 0 ==> finished_layer(
            layer,
            Some(mask),
            Some((source, kind)),
        )[i] == 0 && blend::composited(
            canvas,
            finished_layer(layer, Some(mask), Some((source, kind))),
            opacity as int,
        )[i] == canvas[i],
        mask[i] == 0 ==> finished_layer(layer, Some(mask), None)[i] == 0,
        matte_factor(kind, source[i]) == 0 ==> finished_layer(layer, None, Some((source, kind)))[i]
            == 0,
        argb::nearest(
            argb::alpha_of(finished_layer(layer, Some(mask), None)[i]),
            argb::alpha_of(layer[i]) * mask[i],
        ),
        argb::nearest(
            argb::alpha_of(finished_layer(layer, None, Some((source, kind)))[i]),
            argb::alpha_of(layer[i]) * matte_factor(kind, source[i]),
        ),
{
    let f = matte_factor(kind, source[i]);
    lemma_matte_factor(kind, source[i]);
    blend::law_scale_by_255(layer[i]);
    lemma_scale_by_zero(layer[i]);
    let masked = modulated(layer, mask);
    blend::law_scale_by_255(masked[i]);
    lemma_scale_by_zero(masked[i]);
    blend::law_scale_clear(f);
    blend::law_scale_clear(opacity as int);
    blend::law_over_clear_source(canvas[i]);
    blend::law_scaling_is_rounded(layer[i], mask[i] as int);
    blend::law_scaling_is_rounded(layer[i], f);
}

/// Clipping a rectangle keeps exactly those of its pixels that lie on the canvas.
pub proof fn law_clipping_keeps_what_lies_inside(b: DirtyBox, w: usize, h: usize, x: int, y: int)
    ensures
        clipped(b, w, h).holds(x, y) <==> b.holds(x, y) && 0 <= x < w && 0 <= y < h,
{
}

/// Two planes share as many rows as both have whole.
pub proof fn law_shared_rows_are_whole(a: nat, b: nat, width: usize)
    requires
        width > 0,
        a <= usize::MAX,
    ensures
        shared_rows(a, b, width) * width <= a,
        shared_rows(a, b, width) * width <= b,
        (shared_rows(a, b, width) + 1) * width > a || (shared_rows(a, b, width) + 1) * width > b,
{
    let m = if a < b {
        a as int
    } else {
        b as int
    };
    let w = width as int;
    vstd::arithmetic::div_mod::lemma_fundamental_div_mod(m, w);
    let q = m / w;
    assert(0 <= q <= m && q * w <= m < (q + 1) * w) by (nonlinear_arith)
        requires
            w > 0,
            m >= 0,
            q == m / w,
            m == w * q + m % w,
            0 <= m % w < w,
    ;
}

} // verus!
