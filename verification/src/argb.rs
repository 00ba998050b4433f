//! Packed ARGB32 pixels and the rounded division by 255 that every blend uses.

use vstd::prelude::*;

verus! {

/// Division by 255, rounded to the nearest integer.
pub open spec fn div255(n: int) -> int {
    (n + 127) / 255
}

/// The smaller of `n` and 255.
pub open spec fn clamp255(n: int) -> int {
    if n < 255 {
        n
    } else {
        255
    }
}

/// The alpha channel of a pixel.
pub open spec fn alpha_of(p: u32) -> int {
    p as int / 0x100_0000
}

/// The red channel of a pixel.
pub open spec fn red_of(p: u32) -> int {
    p as int / 0x1_0000 % 256
}

/// The green channel of a pixel.
pub open spec fn green_of(p: u32) -> int {
    p as int / 0x100 % 256
}

/// The blue channel of a pixel.
pub open spec fn blue_of(p: u32) -> int {
    p as int % 256
}

/// The pixel with the four given channels, each in `0..=255`.
pub open spec fn argb(a: int, r: int, g: int, b: int) -> u32 {
    (a * 0x100_0000 + r * 0x1_0000 + g * 0x100 + b) as u32
}

/// True for a channel value.
pub open spec fn is_channel(c: int) -> bool {
    0 <= c <= 255
}

/// The channels of a pixel that was put together from four channels are those channels.
pub proof fn lemma_argb_channels(a: int, r: int, g: int, b: int)
    requires
        is_channel(a),
        is_channel(r),
        is_channel(g),
        is_channel(b),
    ensures
        alpha_of(argb(a, r, g, b)) == a,
        red_of(argb(a, r, g, b)) == r,
        green_of(argb(a, r, g, b)) == g,
        blue_of(argb(a, r, g, b)) == b,
        argb(a, r, g, b) == 0 <==> a == 0 && r == 0 && g == 0 && b == 0,
{
}

/// A pixel is put together from its own channels.
pub proof fn lemma_argb_of_channels(p: u32)
    ensures
        is_channel(alpha_of(p)),
        is_channel(red_of(p)),
        is_channel(green_of(p)),
        is_channel(blue_of(p)),
        argb(alpha_of(p), red_of(p), green_of(p), blue_of(p)) == p,
{
}

/// The rounded product of two channels is a channel, and 255 is neutral in it.
pub proof fn lemma_mul255(a: int, b: int)
    requires
        is_channel(a),
        is_channel(b),
    ensures
        0 <= a * b <= 65025,
        0 <= div255(a * b) <= a,
        div255(a * b) <= b,
        b == 255 ==> div255(a * b) == a,
        a == 255 ==> div255(a * b) == b,
        a == 0 || b == 0 ==> div255(a * b) == 0,
{
    assert(0 <= a * b <= 255 * a && a * b <= 255 * b) by (nonlinear_arith)
        requires
            0 <= a <= 255,
            0 <= b <= 255,
    ;
    assert(a * 255 == 255 * a) by (nonlinear_arith);
    assert(a == 0 || b == 0 ==> a * b == 0) by (nonlinear_arith);
}

/// The rounded product of two channels.
pub fn mul255(a: u32, b: u32) -> (r: u32)
    requires
        a <= 255,
        b <= 255,
    ensures
        r == div255(a * b),
        r <= a,
        r <= b,
{
    proof {
        lemma_mul255(a as int, b as int);
    }
    (a * b + 127) / 255
}

/// The smaller of `n` and 255.
pub fn min255(n: u32) -> (r: u32)
    ensures
        r == clamp255(n as int),
{
    if n < 255 {
        n
    } else {
        255
    }
}

/// The alpha channel of a pixel.
pub fn alpha(p: u32) -> (r: u32)
    ensures
        r == alpha_of(p),
        r <= 255,
{
    assert(p >> 24 == p / 0x100_0000) by (bit_vector);
    p >> 24
}

/// The red channel of a pixel.
pub fn red(p: u32) -> (r: u32)
    ensures
        r == red_of(p),
        r <= 255,
{
    assert((p >> 16) & 0xff == p / 0x1_0000 % 256) by (bit_vector);
    (p >> 16) & 0xff
}

/// The green channel of a pixel.
pub fn green(p: u32) -> (r: u32)
    ensures
        r == green_of(p),
        r <= 255,
{
    assert((p >> 8) & 0xff == p / 0x100 % 256) by (bit_vector);
    (p >> 8) & 0xff
}

/// The blue channel of a pixel.
pub fn blue(p: u32) -> (r: u32)
    ensures
        r == blue_of(p),
        r <= 255,
{
    assert(p & 0xff == p % 256) by (bit_vector);
    p & 0xff
}

/// The pixel with the four given channels.
pub fn pack(a: u32, r: u32, g: u32, b: u32) -> (p: u32)
    requires
        a <= 255,
        r <= 255,
        g <= 255,
        b <= 255,
    ensures
        p == argb(a as int, r as int, g as int, b as int),
{
    assert((a << 24) | (r << 16) | (g << 8) | b == a * 0x100_0000 + r * 0x1_0000 + g * 0x100 + b)
        by (bit_vector)
        requires
            a <= 255,
            r <= 255,
            g <= 255,
            b <= 255,
    ;
    (a << 24) | (r << 16) | (g << 8) | b
}

/// True where `r` is the integer nearest to `n / 255`. As 255 is odd there is only one.
pub open spec fn nearest(r: int, n: int) -> bool {
    -127 <= 255 * r - n <= 127
}

/// Dividing by 255 gives the nearest integer.
pub proof fn law_division_is_rounded_to_nearest(n: int, r: int)
    requires
        n >= 0,
    ensures
        nearest(div255(n), n),
        nearest(r, n) ==> r == div255(n),
        2 * (255 * div255(n) - n) <= 255,
        2 * (n - 255 * div255(n)) <= 255,
{
}

/// Clamping changes nothing up to 255 and lets nothing above it.
pub proof fn law_clamping_stops_at_255(n: int)
    ensures
        clamp255(n) <= 255,
        n <= 255 ==> clamp255(n) == n,
        n >= 255 ==> clamp255(n) == 255,
{
}

/// A pixel is its channels one after another, alpha first, eight bits each.
pub proof fn law_channels_are_bytes(p: u32)
    ensures
        ((alpha_of(p) * 256 + red_of(p)) * 256 + green_of(p)) * 256 + blue_of(p) == p,
        0 <= alpha_of(p) < 256,
        0 <= red_of(p) < 256,
        0 <= green_of(p) < 256,
        0 <= blue_of(p) < 256,
{
}

} // verus!
