//! Pixel-format conversion: premultiplied ARGB32 words to straight-alpha RGBA8 bytes.

use vstd::prelude::*;
use crate::argb;
use crate::argb::{alpha, blue, green, red};

verus! {

/// A premultiplied channel made straight: divided by its alpha, rounded to nearest, at most 255.
pub open spec fn straight_channel(c: int, a: int) -> int {
    if a == 0 {
        0
    } else {
        argb::clamp255((c * 255 + a / 2) / a)
    }
}

/// The four RGBA bytes of a premultiplied pixel.
pub open spec fn rgba_of(p: u32) -> Seq<u8> {
    let a = argb::alpha_of(p);
    seq![
        straight_channel(argb::red_of(p), a) as u8,
        straight_channel(argb::green_of(p), a) as u8,
        straight_channel(argb::blue_of(p), a) as u8,
        a as u8,
    ]
}

/// The number of whole pixels that a conversion from `src` to `dst` writes.
pub open spec fn pixels_converted(src: Seq<u32>, dst: Seq<u8>) -> int {
    if src.len() < dst.len() / 4 {
        src.len() as int
    } else {
        dst.len() as int / 4
    }
}

/// The buffer that `dst` becomes: each whole pixel that both sides have room for is converted, and
/// every other byte is kept.
pub open spec fn rgba_row(src: Seq<u32>, dst: Seq<u8>) -> Seq<u8> {
    Seq::new(
        dst.len(),
        |i: int|
            if i / 4 < pixels_converted(src, dst) {
                rgba_of(src[i / 4])[i % 4]
            } else {
                dst[i]
            },
    )
}

/// An opaque pixel is its own straight form.
pub proof fn law_opaque_is_straight(c: int)
    requires
        argb::is_channel(c),
    ensures
        straight_channel(c, 255) == c,
{
}

/// A premultiplied channel made straight.
fn straight(channel: u32, alpha: u32) -> (s: u32)
    requires
        channel <= 255,
        0 < alpha <= 255,
    ensures
        s == straight_channel(channel as int, alpha as int),
        s <= 255,
{
    let q: u32 = (channel * 255 + alpha / 2) / alpha;
    if q < 255 {
        q
    } else {
        255
    }
}

/// Converts one premultiplied ARGB32 word to straight-alpha RGBA8.
pub fn argb_to_rgba(pixel: u32) -> (rgba: [u8; 4])
    ensures
        rgba@ == rgba_of(pixel),
{
    let a: u32 = alpha(pixel);
    let r0: u32 = red(pixel);
    let g0: u32 = green(pixel);
    let b0: u32 = blue(pixel);
    let (r, g, b): (u32, u32, u32) = if a == 0 {
        (0, 0, 0)
    } else if a == 255 {
        proof {
            law_opaque_is_straight(r0 as int);
            law_opaque_is_straight(g0 as int);
            law_opaque_is_straight(b0 as int);
        }
        (r0, g0, b0)
    } else {
        (straight(r0, a), straight(g0, a), straight(b0, a))
    };
    let rgba: [u8; 4] = [r as u8, g as u8, b as u8, a as u8];
    assert(rgba@ =~= rgba_of(pixel));
    rgba
}

/// Converts premultiplied ARGB32 pixels to straight-alpha RGBA8, pixel by pixel.
pub fn argb_to_rgba_slice_scalar(src: &[u32], dst: &mut [u8])
    ensures
        final(dst)@ == rgba_row(src@, old(dst)@),
{
    let ghost before = dst@;
    let room: usize = dst.len() / 4;
    let n: usize = if src.len() < room {
        src.len()
    } else {
        room
    };
    let mut i: usize = 0;
    while i < n
        invariant
            i <= n,
            n == pixels_converted(src@, before),
            n <= src@.len(),
            n * 4 <= before.len(),
            dst@.len() == before.len(),
            dst@.len() <= usize::MAX,
            forall|j: int| 0 <= j < 4 * i ==> #[trigger] dst@[j] == rgba_of(src@[j / 4])[j % 4],
            forall|j: int| 4 * i <= j < before.len() ==> #[trigger] dst@[j] == before[j],
        decreases n - i,
    {
        let rgba: [u8; 4] = argb_to_rgba(src[i]);
        dst[4 * i] = rgba[0];
        dst[4 * i + 1] = rgba[1];
        dst[4 * i + 2] = rgba[2];
        dst[4 * i + 3] = rgba[3];
        proof {
            assert forall|j: int| 0 <= j < 4 * (i + 1) implies #[trigger] dst@[j] == rgba_of(src@[j / 4])[j % 4] by {
                if j >= 4 * i {
                    assert(j / 4 == i);
                    assert(rgba@ == rgba_of(src@[i as int]));
                    assert(rgba@[j % 4] == rgba_of(src@[i as int])[j % 4]);
                }
            }
        }
        i = i + 1;
    }
    assert(dst@ =~= rgba_row(src@, before));
}

/// True for a pixel that is fully transparent or fully opaque.
fn is_binary_alpha(p: u32) -> (b: bool)
    ensures
        b == (argb::alpha_of(p) == 0 || argb::alpha_of(p) == 255),
{
    let a: u32 = alpha(p);
    a == 0 || a == 255
}

/// The RGBA bytes of a pixel whose alpha is 0 or 255: its channels, or zeros.
fn shuffle_binary(p: u32) -> (rgba: [u8; 4])
    requires
        argb::alpha_of(p) == 0 || argb::alpha_of(p) == 255,
    ensures
        rgba@ == rgba_of(p),
{
    let a: u32 = alpha(p);
    let r: u32 = red(p);
    let g: u32 = green(p);
    let b: u32 = blue(p);
    proof {
        law_opaque_is_straight(r as int);
        law_opaque_is_straight(g as int);
        law_opaque_is_straight(b as int);
        assert(r & 255 == r && r & 0 == 0 && g & 255 == g && g & 0 == 0 && b & 255 == b && b & 0 == 0) by (bit_vector)
            requires
                r <= 255,
                g <= 255,
                b <= 255,
        ;
    }
    let rgba: [u8; 4] = [(r & a) as u8, (g & a) as u8, (b & a) as u8, a as u8];
    assert(rgba@ =~= rgba_of(p));
    rgba
}

/// Converts premultiplied ARGB32 pixels to straight-alpha RGBA8. Pixels that are fully transparent
/// or fully opaque need no division.
pub fn argb_to_rgba_slice(src: &[u32], dst: &mut [u8])
    ensures
        final(dst)@ == rgba_row(src@, old(dst)@),
{
    let ghost before = dst@;
    let room: usize = dst.len() / 4;
    let n: usize = if src.len() < room {
        src.len()
    } else {
        room
    };
    let mut i: usize = 0;
    while i < n
        invariant
            i <= n,
            n == pixels_converted(src@, before),
            n <= src@.len(),
            n * 4 <= before.len(),
            dst@.len() == before.len(),
            dst@.len() <= usize::MAX,
            forall|j: int| 0 <= j < 4 * i ==> #[trigger] dst@[j] == rgba_of(src@[j / 4])[j % 4],
            forall|j: int| 4 * i <= j < before.len() ==> #[trigger] dst@[j] == before[j],
        decreases n - i,
    {
        let p: u32 = src[i];
        let rgba: [u8; 4] = if is_binary_alpha(p) {
            shuffle_binary(p)
        } else {
            argb_to_rgba(p)
        };
        dst[4 * i] = rgba[0];
        dst[4 * i + 1] = rgba[1];
        dst[4 * i + 2] = rgba[2];
        dst[4 * i + 3] = rgba[3];
        proof {
            assert forall|j: int| 0 <= j < 4 * (i + 1) implies #[trigger] dst@[j] == rgba_of(src@[j / 4])[j % 4] by {
                if j >= 4 * i {
                    assert(j / 4 == i);
                    assert(rgba@ == rgba_of(src@[i as int]));
                    assert(rgba@[j % 4] == rgba_of(src@[i as int])[j % 4]);
                }
            }
        }
        i = i + 1;
    }
    assert(dst@ =~= rgba_row(src@, before));
}

/// A channel is made straight by dividing it by its alpha: of a color that is no brighter than its
/// alpha the result times the alpha is nearest to 255 times the channel, halves rounded up; a
/// brighter one is 255.
pub proof fn law_straight_channels_are_rounded(c: int, a: int)
    requires
        0 <= c <= 255,
        1 <= a <= 255,
    ensures
        c <= a ==> -a <= 2 * (255 * c - straight_channel(c, a) * a) < a,
        c >= a ==> straight_channel(c, a) == 255,
        0 <= straight_channel(c, a) <= 255,
{
    let n = c * 255 + a / 2;
    let q = n / a;
    vstd::arithmetic::div_mod::lemma_fundamental_div_mod(n, a);
    assert(a * q == q * a) by (nonlinear_arith);
    assert(0 <= n % a < a);
    assert(q >= 0) by (nonlinear_arith)
        requires
            q * a + n % a == n,
            n >= 0,
            n % a < a,
            a > 0,
    ;
    if c <= a {
        assert(q <= 255) by (nonlinear_arith)
            requires
                q * a <= n,
                n == c * 255 + a / 2,
                c <= a,
                a > 0,
                a / 2 < a,
        ;
    }
    if c >= a {
        assert(q >= 255) by (nonlinear_arith)
            requires
                q * a + a > n,
                n >= c * 255,
                c >= a,
                a > 0,
        ;
    }
}

/// The bytes of a pixel are red, green, blue and alpha, each color made straight by the pixel's own
/// alpha; the alpha itself is kept, and a transparent pixel is four zeros.
pub proof fn law_bytes_are_red_green_blue_alpha(p: u32)
    ensures
        rgba_of(p).len() == 4,
        rgba_of(p)[3] == argb::alpha_of(p),
        argb::alpha_of(p) == 0 ==> rgba_of(p) == seq![0u8, 0u8, 0u8, 0u8],
        argb::alpha_of(p) > 0 ==> {
            let a = argb::alpha_of(p);
            &&& argb::red_of(p) <= a ==> -a <= 2 * (255 * argb::red_of(p) - rgba_of(p)[0] * a) < a
            &&& argb::green_of(p) <= a ==> -a <= 2 * (255 * argb::green_of(p) - rgba_of(p)[1] * a)
                < a
            &&& argb::blue_of(p) <= a ==> -a <= 2 * (255 * argb::blue_of(p) - rgba_of(p)[2] * a)
                < a
            &&& argb::red_of(p) >= a ==> rgba_of(p)[0] == 255
            &&& argb::green_of(p) >= a ==> rgba_of(p)[1] == 255
            &&& argb::blue_of(p) >= a ==> rgba_of(p)[2] == 255
        },
{
    argb::law_channels_are_bytes(p);
    let a = argb::alpha_of(p);
    if a > 0 {
        law_straight_channels_are_rounded(argb::red_of(p), a);
        law_straight_channels_are_rounded(argb::green_of(p), a);
        law_straight_channels_are_rounded(argb::blue_of(p), a);
    }
}

/// Pixel `k` of a row fills the four bytes from `4 * k` on; bytes that no whole pixel fills are kept.
pub proof fn law_rows_are_converted_pixel_by_pixel(src: Seq<u32>, dst: Seq<u8>, k: int, j: int)
    requires
        0 <= k,
        0 <= j < 4,
        4 * k + j < dst.len(),
    ensures
        rgba_row(src, dst).len() == dst.len(),
        k < src.len() && 4 * k + 4 <= dst.len() ==> rgba_row(src, dst)[4 * k + j] == rgba_of(
            src[k],
        )[j],
        k >= src.len() || 4 * k + 4 > dst.len() ==> rgba_row(src, dst)[4 * k + j] == dst[4 * k + j],
{
    assert((4 * k + j) / 4 == k && (4 * k + j) % 4 == j);
}

} // verus!
