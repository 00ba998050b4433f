//! Span blits: premultiplied source-over, solid fills under a coverage row, and plane composition.

use vstd::prelude::*;
use crate::argb;
use crate::argb::{alpha, blue, green, min255, mul255, pack, red};

verus! {

/// One channel of a source over one channel of a destination, where `inv` is what the source lets
/// through.
pub open spec fn over_channel(d: int, s: int, inv: int) -> int {
    argb::clamp255(s + argb::div255(d * inv))
}

/// Premultiplied source-over: the pixel `s` over the pixel `d`.
pub open spec fn over_px(d: u32, s: u32) -> u32 {
    let inv = 255 - argb::alpha_of(s);
    argb::argb(
        over_channel(argb::alpha_of(d), argb::alpha_of(s), inv),
        over_channel(argb::red_of(d), argb::red_of(s), inv),
        over_channel(argb::green_of(d), argb::green_of(s), inv),
        over_channel(argb::blue_of(d), argb::blue_of(s), inv),
    )
}

/// The pixel `s` with all four channels scaled by `k / 255`.
pub open spec fn scale_px(s: u32, k: int) -> u32 {
    argb::argb(
        argb::div255(argb::alpha_of(s) * k),
        argb::div255(argb::red_of(s) * k),
        argb::div255(argb::green_of(s) * k),
        argb::div255(argb::blue_of(s) * k),
    )
}

/// The premultiplied source of the straight color `sr, sg, sb` at opacity `ca`.
pub open spec fn premul_px(ca: int, sr: int, sg: int, sb: int) -> u32 {
    argb::argb(ca, argb::div255(sr * ca), argb::div255(sg * ca), argb::div255(sb * ca))
}

/// The source that a solid paint of opacity `sa` puts on a pixel with coverage `cov`.
pub open spec fn solid_px(cov: int, sr: int, sg: int, sb: int, sa: int) -> u32 {
    premul_px(argb::div255(cov * sa), sr, sg, sb)
}

/// What a solid fill leaves in a pixel that held `d`.
pub open spec fn fill_px(d: u32, cov: int, sr: int, sg: int, sb: int, sa: int) -> u32 {
    over_px(d, solid_px(cov, sr, sg, sb, sa))
}

/// What compositing the source pixel `s` at opacity `k` leaves in a pixel that held `d`.
pub open spec fn composite_px(d: u32, s: u32, k: int) -> u32 {
    over_px(d, scale_px(s, k))
}

/// The plane that `dst` becomes when each of its first `src.len()` pixels gets the source of the
/// same index composited over it.
pub open spec fn composited(dst: Seq<u32>, src: Seq<u32>, k: int) -> Seq<u32> {
    Seq::new(
        dst.len(),
        |i: int|
            if i < src.len() {
                composite_px(dst[i], src[i], k)
            } else {
                dst[i]
            },
    )
}

/// The row that `dst` becomes under a solid fill with the coverage row `cov`.
pub open spec fn filled(dst: Seq<u32>, cov: Seq<u8>, sr: int, sg: int, sb: int, sa: int) -> Seq<u32> {
    Seq::new(
        dst.len(),
        |i: int|
            if i < cov.len() {
                fill_px(dst[i], cov[i] as int, sr, sg, sb, sa)
            } else {
                dst[i]
            },
    )
}

proof fn lemma_over_channel(d: int, s: int, inv: int)
    requires
        argb::is_channel(d),
        argb::is_channel(s),
        argb::is_channel(inv),
    ensures
        argb::is_channel(over_channel(d, s, inv)),
        s == 0 && inv == 255 ==> over_channel(d, s, inv) == d,
        inv == 0 ==> over_channel(d, s, inv) == s,
        d == 0 ==> over_channel(d, s, inv) == s,
{
    argb::lemma_mul255(d, inv);
}

/// A transparent black source leaves every pixel as it was.
pub proof fn law_over_clear_source(d: u32)
    ensures
        over_px(d, 0) == d,
{
    argb::lemma_argb_of_channels(d);
    lemma_over_channel(argb::alpha_of(d), 0, 255);
    lemma_over_channel(argb::red_of(d), 0, 255);
    lemma_over_channel(argb::green_of(d), 0, 255);
    lemma_over_channel(argb::blue_of(d), 0, 255);
}

/// Over a clear pixel a source leaves exactly itself.
pub proof fn law_over_clear_destination(s: u32)
    ensures
        over_px(0, s) == s,
{
    argb::lemma_argb_of_channels(s);
    let inv = 255 - argb::alpha_of(s);
    lemma_over_channel(0, argb::alpha_of(s), inv);
    lemma_over_channel(0, argb::red_of(s), inv);
    lemma_over_channel(0, argb::green_of(s), inv);
    lemma_over_channel(0, argb::blue_of(s), inv);
}

/// An opaque source replaces every pixel.
pub proof fn law_over_opaque_source(d: u32, s: u32)
    requires
        argb::alpha_of(s) == 255,
    ensures
        over_px(d, s) == s,
{
    argb::lemma_argb_of_channels(d);
    argb::lemma_argb_of_channels(s);
    lemma_over_channel(argb::alpha_of(d), argb::alpha_of(s), 0);
    lemma_over_channel(argb::red_of(d), argb::red_of(s), 0);
    lemma_over_channel(argb::green_of(d), argb::green_of(s), 0);
    lemma_over_channel(argb::blue_of(d), argb::blue_of(s), 0);
}

/// At full opacity compositing is plain source-over.
pub proof fn law_scale_by_255(s: u32)
    ensures
        scale_px(s, 255) == s,
{
    argb::lemma_argb_of_channels(s);
    argb::lemma_mul255(argb::alpha_of(s), 255);
    argb::lemma_mul255(argb::red_of(s), 255);
    argb::lemma_mul255(argb::green_of(s), 255);
    argb::lemma_mul255(argb::blue_of(s), 255);
}

/// A clear source stays clear at every opacity.
pub proof fn law_scale_clear(k: int)
    requires
        argb::is_channel(k),
    ensures
        scale_px(0, k) == 0,
{
    argb::lemma_mul255(0, k);
}

/// The pixel `s` over the pixel `d`, both premultiplied.
pub fn over(d: u32, s: u32) -> (o: u32)
    ensures
        o == over_px(d, s),
{
    let sa: u32 = alpha(s);
    let inv: u32 = 255 - sa;
    let a: u32 = sa + mul255(alpha(d), inv);
    let r: u32 = red(s) + mul255(red(d), inv);
    let g: u32 = green(s) + mul255(green(d), inv);
    let b: u32 = blue(s) + mul255(blue(d), inv);
    pack(min255(a), min255(r), min255(g), min255(b))
}

/// The premultiplied pixel of a straight color.
pub fn premul_argb(sr: u32, sg: u32, sb: u32, sa: u32) -> (p: u32)
    requires
        sr <= 255,
        sg <= 255,
        sb <= 255,
        sa <= 255,
    ensures
        p == premul_px(sa as int, sr as int, sg as int, sb as int),
{
    pack(sa, mul255(sr, sa), mul255(sg, sa), mul255(sb, sa))
}

/// Source-over of one pixel at full opacity.
pub fn over_px_k255(d: &mut u32, s: u32)
    ensures
        *final(d) == composite_px(*old(d), s, 255),
{
    proof {
        law_scale_by_255(s);
        law_over_clear_source(*old(d));
    }
    if s == 0 {
        return;
    }
    *d = over(*d, s);
}

/// Solid source-over of one pixel: `cov` is its coverage, `sr, sg, sb, sa` the straight color.
pub fn fill_one(d: u32, cov: u8, sr: u32, sg: u32, sb: u32, sa: u32) -> (o: u32)
    requires
        sr <= 255,
        sg <= 255,
        sb <= 255,
        sa <= 255,
    ensures
        o == fill_px(d, cov as int, sr as int, sg as int, sb as int, sa as int),
{
    let ca: u32 = mul255(cov as u32, sa);
    let s: u32 = pack(ca, mul255(sr, ca), mul255(sg, ca), mul255(sb, ca));
    proof {
        law_over_clear_source(d);
        argb::lemma_mul255(sr as int, 0);
        argb::lemma_mul255(sg as int, 0);
        argb::lemma_mul255(sb as int, 0);
    }
    if ca == 0 {
        return d;
    }
    over(d, s)
}

/// Coverage-modulated solid source-over, pixel by pixel.
pub fn fill_span_solid_scalar(dst: &mut [u32], cov: &[u8], sr: u32, sg: u32, sb: u32, sa: u32)
    requires
        sr <= 255,
        sg <= 255,
        sb <= 255,
        sa <= 255,
    ensures
        final(dst)@ == filled(old(dst)@, cov@, sr as int, sg as int, sb as int, sa as int),
{
    let ghost before = dst@;
    let mut i: usize = 0;
    while i < dst.len() && i < cov.len()
        invariant
            sr <= 255,
            sg <= 255,
            sb <= 255,
            sa <= 255,
            i <= dst@.len(),
            i <= cov@.len(),
            dst@.len() == before.len(),
            forall|j: int| 0 <= j < i ==> #[trigger] dst@[j] == fill_px(before[j], cov@[j] as int, sr as int, sg as int, sb as int, sa as int),
            forall|j: int| i <= j < before.len() ==> #[trigger] dst@[j] == before[j],
        decreases dst@.len() - i,
    {
        let d: u32 = dst[i];
        let c: u8 = cov[i];
        dst[i] = fill_one(d, c, sr, sg, sb, sa);
        i = i + 1;
    }
    assert(dst@ =~= filled(before, cov@, sr as int, sg as int, sb as int, sa as int));
}

/// Coverage-modulated solid source-over. An opaque paint turns each run of full coverage into plain
/// stores of the color.
pub fn fill_span_solid(dst: &mut [u32], cov: &[u8], sr: u32, sg: u32, sb: u32, sa: u32)
    requires
        sr <= 255,
        sg <= 255,
        sb <= 255,
        sa <= 255,
    ensures
        final(dst)@ == filled(old(dst)@, cov@, sr as int, sg as int, sb as int, sa as int),
{
    if sa != 255 {
        fill_span_solid_scalar(dst, cov, sr, sg, sb, sa);
        return;
    }
    let ghost before = dst@;
    let color: u32 = pack(255, sr, sg, sb);
    let mut i: usize = 0;
    while i < dst.len() && i < cov.len()
        invariant
            sr <= 255,
            sg <= 255,
            sb <= 255,
            sa == 255,
            color == argb::argb(255, sr as int, sg as int, sb as int),
            i <= dst@.len(),
            i <= cov@.len(),
            dst@.len() == before.len(),
            forall|j: int| 0 <= j < i ==> #[trigger] dst@[j] == fill_px(before[j], cov@[j] as int, sr as int, sg as int, sb as int, sa as int),
            forall|j: int| i <= j < before.len() ==> #[trigger] dst@[j] == before[j],
        decreases dst@.len() - i,
    {
        let d: u32 = dst[i];
        if cov[i] == 255 {
            proof {
                lemma_fill_opaque(before[i as int], sr as int, sg as int, sb as int);
            }
            dst[i] = color;
        } else {
            dst[i] = fill_one(d, cov[i], sr, sg, sb, sa);
        }
        i = i + 1;
    }
    assert(dst@ =~= filled(before, cov@, sr as int, sg as int, sb as int, sa as int));
}

/// An opaque paint at full coverage leaves exactly its color.
pub proof fn lemma_fill_opaque(d: u32, sr: int, sg: int, sb: int)
    requires
        argb::is_channel(sr),
        argb::is_channel(sg),
        argb::is_channel(sb),
    ensures
        fill_px(d, 255, sr, sg, sb, 255) == argb::argb(255, sr, sg, sb),
{
    argb::lemma_mul255(255, 255);
    argb::lemma_mul255(sr, 255);
    argb::lemma_mul255(sg, 255);
    argb::lemma_mul255(sb, 255);
    argb::lemma_argb_channels(255, sr, sg, sb);
    law_over_opaque_source(d, argb::argb(255, sr, sg, sb));
}

/// Blends one premultiplied source over every pixel of a span. `ca` is the source's alpha and
/// `s_r, s_g, s_b` its premultiplied color.
pub fn fill_span_uniform_scalar(dst: &mut [u32], ca: u32, s_r: u32, s_g: u32, s_b: u32)
    requires
        ca <= 255,
        s_r <= 255,
        s_g <= 255,
        s_b <= 255,
    ensures
        final(dst)@ == old(dst)@.map_values(
            |d: u32| over_px(d, argb::argb(ca as int, s_r as int, s_g as int, s_b as int)),
        ),
{
    let ghost before = dst@;
    let s: u32 = pack(ca, s_r, s_g, s_b);
    let mut i: usize = 0;
    while i < dst.len()
        invariant
            s == argb::argb(ca as int, s_r as int, s_g as int, s_b as int),
            i <= dst@.len(),
            dst@.len() == before.len(),
            forall|j: int| 0 <= j < i ==> #[trigger] dst@[j] == over_px(before[j], s),
            forall|j: int| i <= j < before.len() ==> #[trigger] dst@[j] == before[j],
        decreases dst@.len() - i,
    {
        let d: u32 = dst[i];
        dst[i] = over(d, s);
        i = i + 1;
    }
    assert(dst@ =~= before.map_values(
        |d: u32| over_px(d, argb::argb(ca as int, s_r as int, s_g as int, s_b as int)),
    ));
}

/// Solid source-over of a span whose pixels all have the coverage `cov`. The source is computed
/// once; a fully opaque one becomes a plain store.
pub fn fill_span_uniform(dst: &mut [u32], cov: u8, sr: u32, sg: u32, sb: u32, sa: u32)
    requires
        sr <= 255,
        sg <= 255,
        sb <= 255,
        sa <= 255,
    ensures
        final(dst)@ == old(dst)@.map_values(
            |d: u32| fill_px(d, cov as int, sr as int, sg as int, sb as int, sa as int),
        ),
{
    let ghost before = dst@;
    let ca: u32 = mul255(cov as u32, sa);
    let s_r: u32 = mul255(sr, ca);
    let s_g: u32 = mul255(sg, ca);
    let s_b: u32 = mul255(sb, ca);
    let ghost src = argb::argb(ca as int, s_r as int, s_g as int, s_b as int);
    if ca == 0 {
        proof {
            argb::lemma_mul255(sr as int, 0);
            argb::lemma_mul255(sg as int, 0);
            argb::lemma_mul255(sb as int, 0);
            assert forall|j: int| 0 <= j < before.len() implies #[trigger] before[j] == over_px(before[j], src) by {
                law_over_clear_source(before[j]);
            }
            assert(dst@ =~= before.map_values(
                |d: u32| fill_px(d, cov as int, sr as int, sg as int, sb as int, sa as int),
            ));
        }
        return;
    }
    if ca == 255 {
        let color: u32 = pack(255, s_r, s_g, s_b);
        let mut i: usize = 0;
        while i < dst.len()
            invariant
                i <= dst@.len(),
                dst@.len() == before.len(),
                forall|j: int| 0 <= j < i ==> #[trigger] dst@[j] == color,
            decreases dst@.len() - i,
        {
            dst[i] = color;
            i = i + 1;
        }
        proof {
            argb::lemma_argb_channels(255, s_r as int, s_g as int, s_b as int);
            assert forall|j: int| 0 <= j < before.len() implies #[trigger] dst@[j] == over_px(before[j], src) by {
                law_over_opaque_source(before[j], src);
            }
            assert(dst@ =~= before.map_values(
                |d: u32| fill_px(d, cov as int, sr as int, sg as int, sb as int, sa as int),
            ));
        }
        return;
    }
    fill_span_uniform_scalar(dst, ca, s_r, s_g, s_b);
    assert(dst@ =~= before.map_values(
        |d: u32| fill_px(d, cov as int, sr as int, sg as int, sb as int, sa as int),
    ));
}

/// A uniform span fill is the solid fill under a constant coverage row.
pub proof fn law_uniform_fill_is_solid_fill(dst: Seq<u32>, cov: u8, sr: int, sg: int, sb: int, sa: int)
    ensures
        dst.map_values(|d: u32| fill_px(d, cov as int, sr, sg, sb, sa)) == filled(
            dst,
            Seq::new(dst.len(), |i: int| cov),
            sr,
            sg,
            sb,
            sa,
        ),
{
    assert(dst.map_values(|d: u32| fill_px(d, cov as int, sr, sg, sb, sa)) =~= filled(
        dst,
        Seq::new(dst.len(), |i: int| cov),
        sr,
        sg,
        sb,
        sa,
    ));
}

/// Composites the source pixel `s` at opacity `k` over `d`.
pub fn composite_one(d: u32, s: u32, k: u32) -> (o: u32)
    requires
        k <= 255,
    ensures
        o == composite_px(d, s, k as int),
{
    proof {
        law_scale_clear(k as int);
        law_over_clear_source(d);
    }
    if s == 0 {
        return d;
    }
    let scaled: u32 = scale(s, k);
    over(d, scaled)
}

/// All four channels of `s` scaled by `k / 255`.
pub fn scale(s: u32, k: u32) -> (o: u32)
    requires
        k <= 255,
    ensures
        o == scale_px(s, k as int),
{
    pack(mul255(alpha(s), k), mul255(red(s), k), mul255(green(s), k), mul255(blue(s), k))
}

/// Composites a premultiplied `src` plane over `dst`, pixel by pixel, with `src` scaled by `k`.
pub fn composite_over_scalar(dst: &mut [u32], src: &[u32], k: u32)
    requires
        k <= 255,
    ensures
        final(dst)@ == composited(old(dst)@, src@, k as int),
{
    let ghost before = dst@;
    let mut i: usize = 0;
    while i < dst.len() && i < src.len()
        invariant
            k <= 255,
            i <= dst@.len(),
            i <= src@.len(),
            dst@.len() == before.len(),
            forall|j: int| 0 <= j < i ==> #[trigger] dst@[j] == composite_px(before[j], src@[j], k as int),
            forall|j: int| i <= j < before.len() ==> #[trigger] dst@[j] == before[j],
        decreases dst@.len() - i,
    {
        let d: u32 = dst[i];
        dst[i] = composite_one(d, src[i], k);
        i = i + 1;
    }
    assert(dst@ =~= composited(before, src@, k as int));
}

/// Division by 255, rounded to nearest, by shifts: the form of the 16-bit lanes.
pub fn div255_round(n: u16) -> (r: u16)
    requires
        n <= 65025,
    ensures
        r == argb::div255(n as int),
        r <= 255,
{
    assert((((n + 127) as u16 + ((n + 127) as u16 >> 8)) as u16 + 1) as u16 >> 8 == (n + 127) / 255
        && (n + 127) + ((n + 127) as u16 >> 8) + 1 <= 65535) by (bit_vector)
        requires
            n <= 65025,
    ;
    let t: u16 = n + 127;
    (t + (t >> 8) + 1) >> 8
}

/// The rounded product of two channels in 16-bit lanes.
fn mul255_lane(a: u16, b: u16) -> (r: u16)
    requires
        a <= 255,
        b <= 255,
    ensures
        r == argb::div255(a * b),
        r <= 255,
{
    proof {
        argb::lemma_mul255(a as int, b as int);
    }
    div255_round(a * b)
}

/// One channel of a source over a destination in 16-bit lanes.
fn over_lane(d: u16, s: u16, inv: u16) -> (r: u16)
    requires
        d <= 255,
        s <= 255,
        inv <= 255,
    ensures
        r == over_channel(d as int, s as int, inv as int),
        r <= 255,
{
    let n: u16 = s + mul255_lane(d, inv);
    if n < 255 {
        n
    } else {
        255
    }
}

/// Composites the source pixel `s` at opacity `k` over `d` in 16-bit lanes.
fn composite_lanes(d: u32, s: u32, k: u32) -> (o: u32)
    requires
        k <= 255,
    ensures
        o == composite_px(d, s, k as int),
{
    let kq: u16 = k as u16;
    let s_a: u16 = mul255_lane(alpha(s) as u16, kq);
    let s_r: u16 = mul255_lane(red(s) as u16, kq);
    let s_g: u16 = mul255_lane(green(s) as u16, kq);
    let s_b: u16 = mul255_lane(blue(s) as u16, kq);
    let inv: u16 = 255 - s_a;
    proof {
        argb::lemma_argb_channels(s_a as int, s_r as int, s_g as int, s_b as int);
    }
    pack(
        over_lane(alpha(d) as u16, s_a, inv) as u32,
        over_lane(red(d) as u16, s_r, inv) as u32,
        over_lane(green(d) as u16, s_g, inv) as u32,
        over_lane(blue(d) as u16, s_b, inv) as u32,
    )
}

/// Spans shorter than this stay out of the lane path.
pub const SIMD_MIN_SPAN: usize = 16;

/// Composites a premultiplied `src` plane over `dst`, with `src` scaled by `k`. Whole groups of
/// eight pixels go through the 16-bit lanes; the tail, and a short span, go pixel by pixel.
pub fn composite_over_span(dst: &mut [u32], src: &[u32], k: u32)
    requires
        k <= 255,
    ensures
        final(dst)@ == composited(old(dst)@, src@, k as int),
{
    if dst.len() < SIMD_MIN_SPAN {
        composite_over_scalar(dst, src, k);
        return;
    }
    let ghost before = dst@;
    let n: usize = if dst.len() < src.len() {
        dst.len()
    } else {
        src.len()
    };
    let full: usize = n - n % 8;
    let mut i: usize = 0;
    while i < n
        invariant
            k <= 255,
            i <= n,
            full <= n,
            n <= dst@.len(),
            n <= src@.len(),
            dst@.len() == before.len(),
            forall|j: int| 0 <= j < i ==> #[trigger] dst@[j] == composite_px(before[j], src@[j], k as int),
            forall|j: int| i <= j < before.len() ==> #[trigger] dst@[j] == before[j],
        decreases n - i,
    {
        let d: u32 = dst[i];
        if i < full {
            dst[i] = composite_lanes(d, src[i], k);
        } else {
            dst[i] = composite_one(d, src[i], k);
        }
        i = i + 1;
    }
    assert(dst@ =~= composited(before, src@, k as int));
}

/// The color that a lookup table holds at an index; an index past its end is transparent.
pub open spec fn lut_px(lut: Seq<u32>, idx: u32) -> u32 {
    if idx < lut.len() {
        lut[idx as int]
    } else {
        0
    }
}

/// The lookup-table colors at a row of indices.
pub open spec fn lut_row(lut: Seq<u32>, idx: Seq<u32>) -> Seq<u32> {
    idx.map_values(|i: u32| lut_px(lut, i))
}

/// The color that a lookup table holds at an index; an index past its end is transparent.
pub fn lut_color(lut: &[u32], idx: u32) -> (s: u32)
    ensures
        s == lut_px(lut@, idx),
{
    if (idx as usize) < lut.len() {
        lut[idx as usize]
    } else {
        0
    }
}

/// Stores the lookup-table colors at `idx` into `out`.
pub fn lut_store(out: &mut [u32], lut: &[u32], idx: &[u32])
    requires
        old(out)@.len() == idx@.len(),
    ensures
        final(out)@ == lut_row(lut@, idx@),
{
    let mut i: usize = 0;
    while i < out.len()
        invariant
            i <= out@.len(),
            out@.len() == idx@.len(),
            forall|j: int| 0 <= j < i ==> #[trigger] out@[j] == lut_px(lut@, idx@[j]),
        decreases out@.len() - i,
    {
        out[i] = lut_color(lut, idx[i]);
        i = i + 1;
    }
    assert(out@ =~= lut_row(lut@, idx@));
}

/// Composites the lookup-table colors at `idx` over `dst` at full opacity, in one pass.
pub fn lut_over(dst: &mut [u32], lut: &[u32], idx: &[u32])
    requires
        old(dst)@.len() == idx@.len(),
    ensures
        final(dst)@ == composited(old(dst)@, lut_row(lut@, idx@), 255),
{
    let ghost before = dst@;
    let mut i: usize = 0;
    while i < dst.len()
        invariant
            i <= dst@.len(),
            dst@.len() == idx@.len(),
            dst@.len() == before.len(),
            forall|j: int| 0 <= j < i ==> #[trigger] dst@[j] == composite_px(before[j], lut_px(lut@, idx@[j]), 255),
            forall|j: int| i <= j < before.len() ==> #[trigger] dst@[j] == before[j],
        decreases dst@.len() - i,
    {
        let mut d: u32 = dst[i];
        over_px_k255(&mut d, lut_color(lut, idx[i]));
        dst[i] = d;
        i = i + 1;
    }
    assert(dst@ =~= composited(before, lut_row(lut@, idx@), 255));
}

/// The source that a gradient color puts on a pixel with coverage `cov`; a transparent color puts
/// nothing there.
pub open spec fn gradient_src(cov: int, src: u32) -> u32 {
    if argb::alpha_of(src) == 0 {
        0
    } else {
        scale_px(src, cov)
    }
}

/// Scales a premultiplied gradient color by a coverage byte.
pub fn src_px(cov: u8, src: u32) -> (s: u32)
    ensures
        s == gradient_src(cov as int, src),
{
    if alpha(src) == 0 {
        return 0;
    }
    scale(src, cov as u32)
}

/// Blends one gradient color into a pixel under a coverage byte.
pub fn blend_gradient_px(dst: &mut u32, cov: u8, src: u32)
    ensures
        *final(dst) == over_px(*old(dst), gradient_src(cov as int, src)),
{
    if alpha(src) == 0 {
        proof {
            law_over_clear_source(*old(dst));
        }
        return;
    }
    *dst = over(*dst, scale(src, cov as u32));
}

/// Scaling takes the rounded share of every channel, each for itself.
pub proof fn law_scaling_is_rounded(s: u32, k: int)
    requires
        argb::is_channel(k),
    ensures
        argb::nearest(argb::alpha_of(scale_px(s, k)), argb::alpha_of(s) * k),
        argb::nearest(argb::red_of(scale_px(s, k)), argb::red_of(s) * k),
        argb::nearest(argb::green_of(scale_px(s, k)), argb::green_of(s) * k),
        argb::nearest(argb::blue_of(scale_px(s, k)), argb::blue_of(s) * k),
        argb::alpha_of(scale_px(s, k)) <= argb::alpha_of(s),
{
    let (a, r, g, b) = (argb::alpha_of(s), argb::red_of(s), argb::green_of(s), argb::blue_of(s));
    argb::lemma_argb_of_channels(s);
    argb::lemma_mul255(a, k);
    argb::lemma_mul255(r, k);
    argb::lemma_mul255(g, k);
    argb::lemma_mul255(b, k);
    argb::lemma_argb_channels(
        argb::div255(a * k),
        argb::div255(r * k),
        argb::div255(g * k),
        argb::div255(b * k),
    );
}

/// True for a pixel none of whose channels exceeds its alpha.
pub open spec fn premultiplied(p: u32) -> bool {
    &&& argb::red_of(p) <= argb::alpha_of(p)
    &&& argb::green_of(p) <= argb::alpha_of(p)
    &&& argb::blue_of(p) <= argb::alpha_of(p)
}

proof fn lemma_over_rounded(d: int, s: int, a: int)
    requires
        argb::is_channel(d),
        0 <= s <= a <= 255,
    ensures
        argb::nearest(over_channel(d, s, 255 - a), 255 * s + d * (255 - a)),
        0 <= over_channel(d, s, 255 - a) <= 255,
{
    argb::lemma_mul255(d, 255 - a);
}

/// One premultiplied pixel over another adds to the upper one the share of the lower one that it lets
/// through: what is left of full once its alpha is taken away.
pub proof fn law_over_adds_what_shows_through(d: u32, s: u32)
    requires
        premultiplied(s),
    ensures
        ({
            let through = 255 - argb::alpha_of(s);
            let o = over_px(d, s);
            &&& argb::nearest(
                argb::alpha_of(o),
                255 * argb::alpha_of(s) + argb::alpha_of(d) * through,
            )
            &&& argb::nearest(argb::red_of(o), 255 * argb::red_of(s) + argb::red_of(d) * through)
            &&& argb::nearest(
                argb::green_of(o),
                255 * argb::green_of(s) + argb::green_of(d) * through,
            )
            &&& argb::nearest(argb::blue_of(o), 255 * argb::blue_of(s) + argb::blue_of(d) * through)
        }),
{
    let a = argb::alpha_of(s);
    let inv = 255 - a;
    argb::lemma_argb_of_channels(d);
    argb::lemma_argb_of_channels(s);
    lemma_over_rounded(argb::alpha_of(d), a, a);
    lemma_over_rounded(argb::red_of(d), argb::red_of(s), a);
    lemma_over_rounded(argb::green_of(d), argb::green_of(s), a);
    lemma_over_rounded(argb::blue_of(d), argb::blue_of(s), a);
    argb::lemma_argb_channels(
        over_channel(argb::alpha_of(d), a, inv),
        over_channel(argb::red_of(d), argb::red_of(s), inv),
        over_channel(argb::green_of(d), argb::green_of(s), inv),
        over_channel(argb::blue_of(d), argb::blue_of(s), inv),
    );
}

proof fn lemma_share_monotone(c: int, d: int, k: int)
    requires
        0 <= c <= d,
        0 <= k,
    ensures
        argb::div255(c * k) <= argb::div255(d * k),
{
    assert(c * k <= d * k) by (nonlinear_arith)
        requires
            0 <= c <= d,
            0 <= k,
    ;
}

/// Premultiplied pixels stay premultiplied: scaled, and one over another.
pub proof fn law_premultiplied_stays(d: u32, s: u32, k: int)
    requires
        premultiplied(d),
        premultiplied(s),
        argb::is_channel(k),
    ensures
        premultiplied(scale_px(s, k)),
        premultiplied(over_px(d, s)),
        premultiplied(composite_px(d, s, k)),
{
    lemma_scaled_premultiplied(s, k);
    lemma_over_premultiplied(d, s);
    lemma_over_premultiplied(d, scale_px(s, k));
}

proof fn lemma_scaled_premultiplied(s: u32, k: int)
    requires
        premultiplied(s),
        argb::is_channel(k),
    ensures
        premultiplied(scale_px(s, k)),
{
    let (a, r, g, b) = (argb::alpha_of(s), argb::red_of(s), argb::green_of(s), argb::blue_of(s));
    argb::lemma_argb_of_channels(s);
    argb::lemma_mul255(a, k);
    argb::lemma_mul255(r, k);
    argb::lemma_mul255(g, k);
    argb::lemma_mul255(b, k);
    argb::lemma_argb_channels(
        argb::div255(a * k),
        argb::div255(r * k),
        argb::div255(g * k),
        argb::div255(b * k),
    );
    lemma_share_monotone(r, a, k);
    lemma_share_monotone(g, a, k);
    lemma_share_monotone(b, a, k);
}

proof fn lemma_over_premultiplied(d: u32, s: u32)
    requires
        premultiplied(d),
        premultiplied(s),
    ensures
        premultiplied(over_px(d, s)),
{
    let inv = 255 - argb::alpha_of(s);
    argb::lemma_argb_of_channels(d);
    argb::lemma_argb_of_channels(s);
    lemma_share_monotone(argb::red_of(d), argb::alpha_of(d), inv);
    lemma_share_monotone(argb::green_of(d), argb::alpha_of(d), inv);
    lemma_share_monotone(argb::blue_of(d), argb::alpha_of(d), inv);
    lemma_over_channel(argb::alpha_of(d), argb::alpha_of(s), inv);
    lemma_over_channel(argb::red_of(d), argb::red_of(s), inv);
    lemma_over_channel(argb::green_of(d), argb::green_of(s), inv);
    lemma_over_channel(argb::blue_of(d), argb::blue_of(s), inv);
    argb::lemma_argb_channels(
        over_channel(argb::alpha_of(d), argb::alpha_of(s), inv),
        over_channel(argb::red_of(d), argb::red_of(s), inv),
        over_channel(argb::green_of(d), argb::green_of(s), inv),
        over_channel(argb::blue_of(d), argb::blue_of(s), inv),
    );
}

/// The source of a solid paint has the share of its opacity that the coverage leaves, and its color by
/// that share.
pub proof fn law_solid_source_is_premultiplied(cov: int, sr: int, sg: int, sb: int, sa: int)
    requires
        argb::is_channel(cov),
        argb::is_channel(sr),
        argb::is_channel(sg),
        argb::is_channel(sb),
        argb::is_channel(sa),
    ensures
        ({
            let p = solid_px(cov, sr, sg, sb, sa);
            let a = argb::alpha_of(p);
            &&& argb::nearest(a, cov * sa)
            &&& argb::nearest(argb::red_of(p), sr * a)
            &&& argb::nearest(argb::green_of(p), sg * a)
            &&& argb::nearest(argb::blue_of(p), sb * a)
            &&& premultiplied(p)
        }),
        argb::alpha_of(premul_px(sa, sr, sg, sb)) == sa,
        argb::nearest(argb::red_of(premul_px(sa, sr, sg, sb)), sr * sa),
        argb::nearest(argb::green_of(premul_px(sa, sr, sg, sb)), sg * sa),
        argb::nearest(argb::blue_of(premul_px(sa, sr, sg, sb)), sb * sa),
{
    argb::lemma_mul255(cov, sa);
    lemma_premul(argb::div255(cov * sa), sr, sg, sb);
    lemma_premul(sa, sr, sg, sb);
}

proof fn lemma_premul(a: int, sr: int, sg: int, sb: int)
    requires
        argb::is_channel(a),
        argb::is_channel(sr),
        argb::is_channel(sg),
        argb::is_channel(sb),
    ensures
        argb::alpha_of(premul_px(a, sr, sg, sb)) == a,
        argb::nearest(argb::red_of(premul_px(a, sr, sg, sb)), sr * a),
        argb::nearest(argb::green_of(premul_px(a, sr, sg, sb)), sg * a),
        argb::nearest(argb::blue_of(premul_px(a, sr, sg, sb)), sb * a),
        premultiplied(premul_px(a, sr, sg, sb)),
{
    argb::lemma_mul255(sr, a);
    argb::lemma_mul255(sg, a);
    argb::lemma_mul255(sb, a);
    argb::lemma_argb_channels(a, argb::div255(sr * a), argb::div255(sg * a), argb::div255(sb * a));
}

/// A fill without coverage or without opacity leaves the pixel; an opaque fill over all of it leaves the
/// color; and any other is its source over the pixel.
pub proof fn law_fills_put_their_source_over(d: u32, cov: int, sr: int, sg: int, sb: int, sa: int)
    requires
        argb::is_channel(cov),
        argb::is_channel(sr),
        argb::is_channel(sg),
        argb::is_channel(sb),
        argb::is_channel(sa),
    ensures
        cov == 0 || sa == 0 ==> fill_px(d, cov, sr, sg, sb, sa) == d,
        cov == 255 && sa == 255 ==> ({
            let o = fill_px(d, cov, sr, sg, sb, sa);
            &&& argb::alpha_of(o) == 255
            &&& argb::red_of(o) == sr
            &&& argb::green_of(o) == sg
            &&& argb::blue_of(o) == sb
        }),
        fill_px(0, cov, sr, sg, sb, sa) == solid_px(cov, sr, sg, sb, sa),
        fill_px(d, cov, sr, sg, sb, sa) == over_px(d, fill_px(0, cov, sr, sg, sb, sa)),
        fill_px(d, cov, sr, sg, sb, 255) == fill_px(d, 255, sr, sg, sb, cov),
{
    argb::lemma_mul255(cov, sa);
    argb::lemma_mul255(cov, 255);
    argb::lemma_mul255(255, cov);
    argb::lemma_mul255(sr, 0);
    argb::lemma_mul255(sg, 0);
    argb::lemma_mul255(sb, 0);
    law_over_clear_source(d);
    law_over_clear_destination(solid_px(cov, sr, sg, sb, sa));
    if cov == 255 && sa == 255 {
        lemma_fill_opaque(d, sr, sg, sb);
        argb::lemma_argb_channels(255, sr, sg, sb);
    }
}

/// Rows are worked on pixel by pixel: each depends on the pixel, the coverage and the source of its own
/// index alone, and where there is none it stays.
pub proof fn law_rows_are_worked_pixel_by_pixel(
    dst: Seq<u32>,
    src: Seq<u32>,
    cov: Seq<u8>,
    k: int,
    sr: int,
    sg: int,
    sb: int,
    sa: int,
    i: int,
)
    requires
        0 <= i < dst.len(),
    ensures
        composited(dst, src, k).len() == dst.len(),
        filled(dst, cov, sr, sg, sb, sa).len() == dst.len(),
        i >= src.len() ==> composited(dst, src, k)[i] == dst[i],
        i >= cov.len() ==> filled(dst, cov, sr, sg, sb, sa)[i] == dst[i],
        i < src.len() ==> composited(dst, src, k)[i] == composited(seq![dst[i]], seq![src[i]], k)[0],
        i < cov.len() ==> filled(dst, cov, sr, sg, sb, sa)[i] == filled(
            seq![dst[i]],
            seq![cov[i]],
            sr,
            sg,
            sb,
            sa,
        )[0],
        i < cov.len() ==> filled(dst, cov, sr, sg, sb, sa)[i] == fill_px(
            dst[i],
            cov[i] as int,
            sr,
            sg,
            sb,
            sa,
        ),
{
}

/// Compositing at full opacity puts the source over, at none it changes nothing, and in between it puts
/// the scaled source over.
pub proof fn law_compositing_fades_the_source(d: u32, s: u32, k: int)
    requires
        argb::is_channel(k),
    ensures
        composite_px(d, s, 255) == over_px(d, s),
        composite_px(d, s, 0) == d,
        composite_px(d, 0, k) == d,
        composite_px(0, s, k) == scale_px(s, k),
        composite_px(d, s, k) == over_px(d, composite_px(0, s, k)),
        composited(seq![d], seq![s], k)[0] == composite_px(d, s, k),
{
    law_scale_by_255(s);
    law_scale_clear(k);
    law_over_clear_source(d);
    law_over_clear_destination(scale_px(s, k));
    argb::lemma_argb_of_channels(s);
    argb::lemma_mul255(argb::alpha_of(s), 0);
    argb::lemma_mul255(argb::red_of(s), 0);
    argb::lemma_mul255(argb::green_of(s), 0);
    argb::lemma_mul255(argb::blue_of(s), 0);
}

/// A table gives the color at an index, whatever stands elsewhere in it, and nothing behind its end.
pub proof fn law_tables_are_read_by_index(lut: Seq<u32>, idx: u32, color: u32)
    ensures
        idx >= lut.len() ==> lut_px(lut, idx) == 0,
        idx < lut.len() ==> lut_px(lut, idx) == lut[idx as int] && lut_px(
            lut.update(idx as int, color),
            idx,
        ) == color,
        lut_row(lut, seq![idx])[0] == lut_px(lut, idx),
{
}

/// A gradient color under full coverage is itself, without coverage or without alpha it is nothing, and
/// in between it is the color scaled by the coverage.
pub proof fn law_gradient_sources_fade_with_coverage(cov: int, src: u32)
    requires
        argb::is_channel(cov),
    ensures
        argb::alpha_of(src) == 0 ==> gradient_src(cov, src) == 0,
        argb::alpha_of(src) > 0 ==> gradient_src(255, src) == src,
        gradient_src(0, src) == 0,
        argb::alpha_of(src) > 0 ==> {
            let o = gradient_src(cov, src);
            &&& argb::nearest(argb::alpha_of(o), argb::alpha_of(src) * cov)
            &&& argb::nearest(argb::red_of(o), argb::red_of(src) * cov)
            &&& argb::nearest(argb::green_of(o), argb::green_of(src) * cov)
            &&& argb::nearest(argb::blue_of(o), argb::blue_of(src) * cov)
        },
{
    law_scale_by_255(src);
    law_scaling_is_rounded(src, cov);
    argb::lemma_argb_of_channels(src);
    argb::lemma_mul255(argb::alpha_of(src), 0);
    argb::lemma_mul255(argb::red_of(src), 0);
    argb::lemma_mul255(argb::green_of(src), 0);
    argb::lemma_mul255(argb::blue_of(src), 0);
}

} // verus!
