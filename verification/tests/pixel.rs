//! Pixel-format conversion and what hosts are answered.

use tlottie::argb::{alpha, blue, green, mul255, pack, red};
use tlottie::error::Error;
use tlottie::host::{
    check_call, check_target, rgba_frame, STATUS_BAD_ARGUMENT, STATUS_FAILED, STATUS_TOO_SMALL,
};
use tlottie::pixel::{argb_to_rgba, argb_to_rgba_slice, argb_to_rgba_slice_scalar};

#[test]
fn converts_transparent_opaque_and_partial_pixels() {
    assert_eq!(argb_to_rgba(0), [0, 0, 0, 0]);
    assert_eq!(argb_to_rgba(0xff12_3456), [0x12, 0x34, 0x56, 0xff]);
    assert_eq!(argb_to_rgba(0x8040_2000), [128, 64, 0, 128]);
}

#[test]
fn slice_conversion_matches_scalar_pixels() {
    let src = [0, 0x0012_3456, 0xff12_3456, 0x8040_2000, 0x7f01_0203, 0xffffffff, 0x0101_0000];
    let mut expected = [0u8; 28];
    let mut actual = [0u8; 28];
    argb_to_rgba_slice_scalar(&src, &mut expected);
    argb_to_rgba_slice(&src, &mut actual);
    assert_eq!(actual, expected);
}

#[test]
fn conversion_keeps_what_has_no_pixel() {
    let src = [0xff01_0203, 0xff04_0506];
    let mut dst = [9u8; 6];
    argb_to_rgba_slice(&src, &mut dst);
    assert_eq!(dst, [1, 2, 3, 255, 9, 9]);
}

#[test]
fn channels_come_apart_and_together() {
    let p = 0x1234_5678;
    assert_eq!((alpha(p), red(p), green(p), blue(p)), (0x12, 0x34, 0x56, 0x78));
    assert_eq!(pack(0x12, 0x34, 0x56, 0x78), p);
    assert_eq!(mul255(255, 77), 77);
    assert_eq!(mul255(128, 128), 64);
}

#[test]
fn frames_have_a_size() {
    assert_eq!(check_target(4, 3, 8192, 12), Ok(12));
    assert_eq!(check_target(4, 3, 8192, 100), Ok(12));
    let out_of_range =
        Err(Error::InvalidLottie { offset: 0, what: "render size out of range" });
    assert_eq!(check_target(0, 3, 8192, 12), out_of_range);
    assert_eq!(check_target(3, 0, 8192, 12), out_of_range);
    assert_eq!(check_target(8193, 1, 8192, 100_000), out_of_range);
    assert_eq!(check_target(1, 8193, 8192, 100_000), out_of_range);
    assert_eq!(
        check_target(4, 3, 8192, 11),
        Err(Error::InvalidLottie { offset: 0, what: "pixel buffer too small" })
    );
}

#[test]
fn calls_are_answered_with_a_status() {
    assert_eq!(check_call(true, true, true, 4, 4, 16), Ok(16));
    assert_eq!(check_call(false, true, true, 4, 4, 16), Err(STATUS_BAD_ARGUMENT));
    assert_eq!(check_call(true, false, true, 4, 4, 16), Err(STATUS_BAD_ARGUMENT));
    assert_eq!(check_call(true, true, false, 4, 4, 16), Err(STATUS_BAD_ARGUMENT));
    assert_eq!(check_call(true, true, true, 4, 4, 15), Err(STATUS_TOO_SMALL));
    assert_eq!((STATUS_BAD_ARGUMENT, STATUS_TOO_SMALL, STATUS_FAILED), (-1, -2, -3));
}

#[test]
fn frames_become_bytes() {
    let mut bytes = vec![7u8; 3];
    rgba_frame(&[0xff12_3456, 0x8040_2000], &mut bytes);
    assert_eq!(bytes, vec![0x12, 0x34, 0x56, 0xff, 128, 64, 0, 128]);
}
