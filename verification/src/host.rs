//! What hosts that hand in buffers are answered.

use crate::argb;
use crate::argb::alpha;
use crate::error::{Error, Result};
use crate::pixel;
use crate::pixel::argb_to_rgba_slice;
use vstd::prelude::*;

verus! {

/// The status of a call without an instance or a buffer, or with a tolerance that makes no sense.
pub const STATUS_BAD_ARGUMENT: i32 = -1;

/// The status of a call with a buffer that is too small.
pub const STATUS_TOO_SMALL: i32 = -2;

/// The status of a call that could not be rendered.
pub const STATUS_FAILED: i32 = -3;

/// Checks the size of a frame and of the buffer for it. Returns the number of pixels of the frame.
pub fn check_target(width: u32, height: u32, max_dimension: u32, buffer: usize) -> (r: Result<usize>)
    ensures
        match r {
            Ok(n) => {
                &&& 0 < width <= max_dimension
                &&& 0 < height <= max_dimension
                &&& n == width * height
                &&& n <= buffer
            },
            Err(Error::InvalidLottie { offset, what }) => {
                &&& offset == 0
                &&& if width == 0 || height == 0 || width > max_dimension || height > max_dimension {
                    what@ == "render size out of range"@
                } else {
                    width * height > buffer && what@ == "pixel buffer too small"@
                }
            },
            Err(_) => false,
        },
{
    if width == 0 || height == 0 || width > max_dimension || height > max_dimension {
        return Err(Error::InvalidLottie { offset: 0, what: "render size out of range" });
    }
    let need: u64 = {
        assert(width * height <= u32::MAX * u32::MAX) by (nonlinear_arith);
        width as u64 * height as u64
    };
    if need > buffer as u64 {
        return Err(Error::InvalidLottie { offset: 0, what: "pixel buffer too small" });
    }
    Ok(need as usize)
}

/// Checks the arguments of a call that renders into a caller's buffer. Returns the number of pixels,
/// or the status to answer with.
pub fn check_call(
    has_instance: bool,
    has_buffer: bool,
    good_tolerance: bool,
    width: u32,
    height: u32,
    buffer: usize,
) -> (r: core::result::Result<usize, i32>)
    ensures
        match r {
            Ok(n) => {
                &&& has_instance && has_buffer && good_tolerance
                &&& n == width * height
                &&& n <= buffer
            },
            Err(status) => if has_instance && has_buffer && good_tolerance {
                status == STATUS_TOO_SMALL && width * height > buffer
            } else {
                status == STATUS_BAD_ARGUMENT
            },
        },
{
    if !has_instance || !has_buffer || !good_tolerance {
        return Err(STATUS_BAD_ARGUMENT);
    }
    let need: u64 = {
        assert(width * height <= u32::MAX * u32::MAX) by (nonlinear_arith);
        width as u64 * height as u64
    };
    if need > buffer as u64 {
        return Err(STATUS_TOO_SMALL);
    }
    Ok(need as usize)
}

/// Fills a buffer with the straight-alpha bytes of a frame, four for every pixel. Whatever it held is
/// gone.
pub fn rgba_frame(pixels: &[u32], rgba: &mut Vec<u8>)
    requires
        4 * pixels@.len() <= usize::MAX,
    ensures
        final(rgba)@.len() == 4 * pixels@.len(),
        forall|i: int|
            0 <= i < 4 * pixels@.len() ==> #[trigger] final(rgba)@[i] == pixel::rgba_of(
                pixels@[i / 4],
            )[i % 4],
{
    rgba.clear();
    rgba.resize(4 * pixels.len(), 0);
    argb_to_rgba_slice(pixels, rgba.as_mut_slice());
}

/// Fills a buffer with the alpha of every pixel of a frame. Whatever it held is gone.
pub fn alpha_frame(pixels: &[u32], alphas: &mut Vec<u8>)
    ensures
        final(alphas)@.len() == pixels@.len(),
        forall|i: int|
            0 <= i < pixels@.len() ==> #[trigger] final(alphas)@[i] == argb::alpha_of(pixels@[i]),
{
    alphas.clear();
    let mut i: usize = 0;
    while i < pixels.len()
        invariant
            i <= pixels@.len(),
            alphas@.len() == i,
            forall|k: int| 0 <= k < i ==> #[trigger] alphas@[k] == argb::alpha_of(pixels@[k]),
        decreases pixels@.len() - i,
    {
        alphas.push(alpha(pixels[i]) as u8);
        i += 1;
    }
}

/// A frame is accepted exactly where both of its sides are within bounds and the buffer holds all of
/// its pixels, and their number is told.
pub proof fn law_targets_are_checked(
    width: u32,
    height: u32,
    max_dimension: u32,
    buffer: usize,
    r: Result<usize>,
)
    requires
        call_ensures(check_target, (width, height, max_dimension, buffer), r),
    ensures
        r is Ok <==> 1 <= width <= max_dimension && 1 <= height <= max_dimension && width * height
            <= buffer,
        r is Ok ==> r->Ok_0 == width * height,
{
}

/// A call is answered with the status for a bad argument where anything is missing, and only then with
/// the one for a buffer that is too small.
pub proof fn law_calls_are_checked(
    has_instance: bool,
    has_buffer: bool,
    good_tolerance: bool,
    width: u32,
    height: u32,
    buffer: usize,
    r: core::result::Result<usize, i32>,
)
    requires
        call_ensures(
            check_call,
            (has_instance, has_buffer, good_tolerance, width, height, buffer),
            r,
        ),
    ensures
        !(has_instance && has_buffer && good_tolerance) <==> r == Err::<usize, i32>(-1i32),
        has_instance && has_buffer && good_tolerance && width * height > buffer <==> r == Err::<
            usize,
            i32,
        >(-2i32),
        r is Ok ==> r->Ok_0 == width * height,
{
}

} // verus!
