//! Layer masks: bounded builds agree with full ones.

use tlottie::dirty::DirtyBox;
use tlottie::mask::{build_mask, effective, fold_mask, unfold_rows, MaskPlane};
use tlottie::scratch::RenderScratch;

struct MaskRect {
    mode: u8,
    invert: bool,
    rect: (f32, f32, f32, f32),
    opacity: f32,
}

fn full_box(w: usize, h: usize) -> DirtyBox {
    DirtyBox { x0: 0, y0: 0, x1: w - 1, y1: h - 1 }
}

fn rect_path(x0: f32, y0: f32, x1: f32, y1: f32) -> (f32, f32, f32, f32) {
    (x0, y0, x1, y1)
}

fn mask(mode: u8, invert: bool, rect: (f32, f32, f32, f32), opacity: f32) -> MaskRect {
    MaskRect { mode, invert, rect, opacity }
}

/// Coverage of a rectangle with whole corners, clipped to the canvas.
fn coverage(rect: (f32, f32, f32, f32), w: usize, h: usize) -> Vec<u8> {
    let mut plane = vec![0u8; w * h];
    for y in 0..h {
        for x in 0..w {
            let (fx, fy) = (x as f32 + 0.5, y as f32 + 0.5);
            if fx > rect.0 && fx < rect.2 && fy > rect.1 && fy < rect.3 {
                plane[y * w + x] = 255;
            }
        }
    }
    plane
}

fn planes(masks: &[MaskRect], w: usize, h: usize) -> Vec<MaskPlane> {
    masks
        .iter()
        .map(|m| MaskPlane {
            mode: m.mode,
            invert: m.invert,
            opacity: ((m.opacity / 100.0).clamp(0.0, 1.0) * 255.0 + 0.5) as u8,
            coverage: coverage(m.rect, w, h),
        })
        .collect()
}

fn build(masks: &[MaskRect], w: usize, h: usize, bound: DirtyBox) -> Vec<u8> {
    let mut scratch = RenderScratch::new();
    build_mask(&mut scratch, &planes(masks, w, h), w, h, bound)
}

fn assert_bound_matches(masks: &[MaskRect], w: usize, h: usize, b: DirtyBox) {
    let full = build(masks, w, h, full_box(w, h));
    let bounded = build(masks, w, h, b);
    for y in b.y0..=b.y1 {
        for x in b.x0..=b.x1 {
            let i = y * w + x;
            assert_eq!(full.get(i), bounded.get(i), "mismatch at ({x},{y}) i={i}");
        }
    }
}

fn sample_bounds(w: usize, h: usize) -> Vec<DirtyBox> {
    [
        full_box(w, h),
        DirtyBox { x0: 20, y0: 20, x1: 30, y1: 30 },
        DirtyBox { x0: 8, y0: 8, x1: 18, y1: 18 },
        DirtyBox { x0: 40, y0: 40, x1: 55, y1: 55 },
        DirtyBox { x0: 0, y0: 0, x1: 4, y1: 4 },
        DirtyBox { x0: 33, y0: 33, x1: 33, y1: 33 },
    ]
    .into_iter()
    .filter_map(|b| {
        let (x1, y1) = (b.x1.min(w - 1), b.y1.min(h - 1));
        (b.x0 <= x1 && b.y0 <= y1).then_some(DirtyBox { x1, y1, ..b })
    })
    .collect()
}

#[test]
fn all_modes_and_inversion_are_bound_exact() {
    let (w, h) = (64, 64);
    for &mode in &[b'a', b's', b'i', b'f'] {
        for &invert in &[false, true] {
            let masks = vec![mask(mode, invert, rect_path(10.0, 10.0, 35.0, 35.0), 100.0)];
            for b in sample_bounds(w, h) {
                assert_bound_matches(&masks, w, h, b);
            }
        }
    }
}

#[test]
fn partial_opacity_is_bound_exact() {
    let (w, h) = (64, 64);
    for &mode in &[b'a', b's', b'i', b'f'] {
        let masks = vec![mask(mode, false, rect_path(10.0, 10.0, 35.0, 35.0), 50.0)];
        for b in sample_bounds(w, h) {
            assert_bound_matches(&masks, w, h, b);
        }
    }
}

#[test]
fn multi_mask_stack_is_bound_exact() {
    let (w, h) = (64, 64);
    let masks = vec![
        mask(b'a', false, rect_path(8.0, 8.0, 40.0, 40.0), 100.0),
        mask(b's', false, rect_path(20.0, 20.0, 50.0, 50.0), 75.0),
        mask(b'i', true, rect_path(5.0, 5.0, 45.0, 45.0), 100.0),
        mask(b'f', false, rect_path(15.0, 25.0, 30.0, 38.0), 50.0),
    ];
    for b in sample_bounds(w, h) {
        assert_bound_matches(&masks, w, h, b);
    }
}

#[test]
fn mask_larger_than_canvas_is_bound_exact() {
    let (w, h) = (48, 48);
    for &mode in &[b'a', b's', b'i', b'f'] {
        for &invert in &[false, true] {
            let masks = vec![mask(mode, invert, rect_path(-100.0, -100.0, 200.0, 200.0), 100.0)];
            for b in sample_bounds(w, h) {
                assert_bound_matches(&masks, w, h, b);
            }
            if mode == b'a' && !invert {
                let m = build(&masks, w, h, DirtyBox { x0: 24, y0: 24, x1: 24, y1: 24 });
                assert_eq!(m.get(24 * w + 24), Some(&255));
            }
        }
    }
}

#[test]
fn empty_mask_stack_is_bound_exact() {
    let (w, h) = (32, 32);
    for masks in [vec![mask(b'n', false, rect_path(4.0, 4.0, 20.0, 20.0), 100.0)], Vec::new()] {
        for b in sample_bounds(w, h).into_iter().filter(|b| b.x1 < w && b.y1 < h) {
            assert_bound_matches(&masks, w, h, b);
        }
        let m = build(&masks, w, h, DirtyBox { x0: 5, y0: 5, x1: 15, y1: 15 });
        for y in 5..=15 {
            for x in 5..=15 {
                assert_eq!(m.get(y * w + x), Some(&0));
            }
        }
    }
}

#[test]
fn mask_fully_outside_canvas_is_bound_exact() {
    let (w, h) = (32, 32);
    for &mode in &[b'a', b's', b'i', b'f'] {
        for &invert in &[false, true] {
            let masks = vec![mask(mode, invert, rect_path(1000.0, 1000.0, 1100.0, 1100.0), 100.0)];
            for b in sample_bounds(w, h).into_iter().filter(|b| b.x1 < w && b.y1 < h) {
                assert_bound_matches(&masks, w, h, b);
            }
        }
    }
}

#[test]
fn outside_value_matches_per_mode_analysis() {
    let (w, h) = (64, 64);
    let cases: &[(u8, bool, u8)] = &[
        (b'a', false, 0),
        (b'a', true, 255),
        (b's', false, 255),
        (b's', true, 0),
        (b'i', false, 0),
        (b'i', true, 255),
        (b'f', false, 0),
        (b'f', true, 255),
    ];
    let outside = DirtyBox { x0: 44, y0: 44, x1: 50, y1: 50 };
    for &(mode, invert, expected) in cases {
        let masks = vec![mask(mode, invert, rect_path(10.0, 10.0, 35.0, 35.0), 100.0)];
        let m = build(&masks, w, h, outside);
        for y in outside.y0..=outside.y1 {
            for x in outside.x0..=outside.x1 {
                assert_eq!(
                    m.get(y * w + x),
                    Some(&expected),
                    "mode {} invert {invert} outside value",
                    mode as char
                );
            }
        }
        let full = build(&masks, w, h, full_box(w, h));
        assert_eq!(full.get(47 * w + 47), Some(&expected));
    }
}

#[test]
fn folding_follows_the_mode() {
    assert_eq!(fold_mask(b'a', false, 255, 100, 50), 100 + ((155 * 50 + 127) / 255) as u8);
    assert_eq!(fold_mask(b's', false, 255, 255, 200), 0);
    assert_eq!(fold_mask(b's', false, 255, 0, 200), 200);
    assert_eq!(fold_mask(b'i', false, 255, 255, 77), 77);
    assert_eq!(fold_mask(b'f', false, 255, 40, 100), 60);
    assert_eq!(fold_mask(b'f', false, 255, 100, 40), 60);
    assert_eq!(fold_mask(b'a', true, 255, 255, 9), 9);
}

#[test]
fn only_four_modes_count() {
    for mode in 0..=255u8 {
        assert_eq!(effective(mode), [b'a', b's', b'i', b'f'].contains(&mode));
    }
}

#[test]
fn rows_unfold_to_a_plane() {
    let rows = [(0, 1, 2), (1, 0, 1), (2, 2, 3)];
    let plane = unfold_rows(&rows, &[7, 8, 9, 1, 1, 1], 3, 9);
    assert_eq!(plane, vec![0, 7, 8, 9, 0, 0, 0, 0, 0], "the last row lies outside");
    assert_eq!(unfold_rows(&[], &[], 3, 2), vec![0, 0]);
}
