//! Span blits and gradients.

use tlottie::blend::{
    blend_gradient_px, composite_one, composite_over_scalar, composite_over_span, div255_round,
    fill_one, fill_span_solid, fill_span_solid_scalar, fill_span_uniform, lut_color, lut_over,
    lut_store, over, over_px_k255, premul_argb, scale, src_px,
};
use tlottie::compose::{
    apply_matte, composite_over_box, for_rows_boxed, luma_premult, modulate, BoxPass,
};
use tlottie::dirty::DirtyBox;
use tlottie::gradient::{
    gradient_over, gradient_row, gradient_row_capture, gradient_row_capture_clear,
    gradient_row_scalar, gradient_span_uniform, gradient_span_uniform_clear, gradient_srcs,
};

/// Deterministic xorshift.
struct Rng(u64);

impl Rng {
    fn next(&mut self) -> u64 {
        let mut x = self.0;
        x ^= x << 13;
        x ^= x >> 7;
        x ^= x << 17;
        self.0 = x;
        x
    }
}

/// Clamps a random word into a valid premultiplied pixel.
fn premult(w: u32) -> u32 {
    let a = (w >> 24) & 0xff;
    let r = ((w >> 16) & 0xff).min(a);
    let g = ((w >> 8) & 0xff).min(a);
    let b = (w & 0xff).min(a);
    (a << 24) | (r << 16) | (g << 8) | b
}

fn table() -> Vec<u32> {
    (0..1024u32).map(|i| premult(i.wrapping_mul(0x0193_7caf))).collect()
}

fn table_index(t: f32, len: usize) -> u32 {
    if t.is_finite() {
        (t.clamp(0.0, 1.0) * (len - 1) as f32) as u32
    } else {
        u32::MAX
    }
}

#[test]
fn fill_span_solid_neon_matches_scalar() {
    let mut rng = Rng(0x1234_5678_9abc_def0);
    for len in [1usize, 7, 8, 15, 16, 17, 31, 64, 257] {
        for _case in 0..200 {
            let cov: Vec<u8> = (0..len).map(|_| rng.next() as u8).collect();
            let base: Vec<u32> = (0..len).map(|_| premult(rng.next() as u32)).collect();
            let (sr, sg, sb, sa) = (
                rng.next() as u32 & 0xff,
                rng.next() as u32 & 0xff,
                rng.next() as u32 & 0xff,
                rng.next() as u32 & 0xff,
            );
            let mut a = base.clone();
            let mut b = base.clone();
            fill_span_solid(&mut a, &cov, sr, sg, sb, sa);
            fill_span_solid_scalar(&mut b, &cov, sr, sg, sb, sa);
            assert_eq!(a, b, "len={len} sr={sr} sg={sg} sb={sb} sa={sa}");
        }
    }
}

#[test]
fn fill_span_uniform_matches_solid_oracle() {
    let mut rng = Rng(0x5eed_5eed_5eed_5eed);
    for len in [1usize, 7, 8, 15, 16, 33, 257] {
        for _case in 0..200 {
            let cov = rng.next() as u8;
            let base: Vec<u32> = (0..len).map(|_| premult(rng.next() as u32)).collect();
            let (sr, sg, sb, sa) = (
                rng.next() as u32 & 0xff,
                rng.next() as u32 & 0xff,
                rng.next() as u32 & 0xff,
                rng.next() as u32 & 0xff,
            );
            let mut a = base.clone();
            let mut b = base.clone();
            fill_span_uniform(&mut a, cov, sr, sg, sb, sa);
            let cov_row = vec![cov; len];
            fill_span_solid_scalar(&mut b, &cov_row, sr, sg, sb, sa);
            assert_eq!(a, b, "len={len} cov={cov} sr={sr} sg={sg} sb={sb} sa={sa}");
        }
    }
}

#[test]
fn composite_over_neon_matches_scalar() {
    let mut rng = Rng(0x0fed_cba9_8765_4321);
    for len in [1usize, 8, 15, 16, 33, 128, 511] {
        for _case in 0..200 {
            let src: Vec<u32> = (0..len).map(|_| premult(rng.next() as u32)).collect();
            let base: Vec<u32> = (0..len).map(|_| premult(rng.next() as u32)).collect();
            let k = rng.next() as u32 & 0xff;
            let mut a = base.clone();
            let mut b = base.clone();
            composite_over_span(&mut a, &src, k);
            composite_over_scalar(&mut b, &src, k);
            assert_eq!(a, b, "len={len} k={k}");
        }
    }
}

/// Sampling and compositing in one pass against two.
fn assert_over_matches(base: &[u32], lut: &[u32], idx: &[u32], what: &str) {
    let mut a = base.to_vec();
    let mut b = base.to_vec();
    lut_over(&mut a, lut, idx);
    let mut src = vec![0u32; base.len()];
    lut_store(&mut src, lut, idx);
    composite_over_scalar(&mut b, &src, 255);
    assert_eq!(a, b, "{what}");
}

#[test]
fn linear_lut_over_matches_two_pass() {
    let mut rng = Rng(0x1111_2222_3333_4444);
    let lut = table();
    for len in [1usize, 4, 15, 16, 17, 32, 33, 64, 257] {
        for &x_start in &[0.0f32, 1.0, 137.0, 719.0] {
            for _ in 0..80 {
                let f = |r: &mut Rng| ((r.next() % 2000) as f32 - 1000.0) / 37.0;
                let row_base = f(&mut rng) / 50.0;
                let dt = f(&mut rng) / 5000.0;
                let base: Vec<u32> = (0..len).map(|_| premult(rng.next() as u32)).collect();
                let idx: Vec<u32> = (0..len)
                    .map(|i| table_index(row_base + (x_start + i as f32) * dt, lut.len()))
                    .collect();
                assert_over_matches(&base, &lut, &idx, "linear");
            }
        }
    }
}

#[test]
fn radial_lut_over_matches_two_pass() {
    let mut rng = Rng(0x5555_6666_7777_8888);
    let lut = table();
    for len in [1usize, 4, 15, 16, 17, 32, 33, 64, 257] {
        for &x_start in &[0.0f32, 1.0, 137.0, 719.0] {
            for _ in 0..80 {
                let f = |r: &mut Rng| ((r.next() % 2000) as f32 - 1000.0) / 37.0;
                let (x0, y0, da, db) = (
                    f(&mut rng),
                    f(&mut rng),
                    f(&mut rng) / 100.0,
                    f(&mut rng) / 100.0,
                );
                let inv_r = ((rng.next() % 1000) as f32 + 1.0) / 5000.0;
                let base: Vec<u32> = (0..len).map(|_| premult(rng.next() as u32)).collect();
                let idx: Vec<u32> = (0..len)
                    .map(|i| {
                        let x = x_start + i as f32;
                        let (dx, dy) = (x0 + x * da, y0 + x * db);
                        table_index((dx * dx + dy * dy).sqrt() * inv_r, lut.len())
                    })
                    .collect();
                assert_over_matches(&base, &lut, &idx, "radial");
            }
        }
    }
}

#[test]
fn focal_lut_over_matches_two_pass() {
    let mut rng = Rng(0x9999_aaaa_bbbb_cccc);
    let lut = table();
    for len in [1usize, 4, 16, 17, 32, 33, 64, 257] {
        for &x_start in &[0.0f32, 1.0, 137.0, 719.0] {
            for _ in 0..80 {
                let f = |r: &mut Rng| ((r.next() % 2000) as f32 - 1000.0) / 37.0;
                let (gx0, gy0) = (f(&mut rng), f(&mut rng));
                let (sa, sb) = (f(&mut rng) / 100.0, f(&mut rng) / 100.0);
                let (dx, dy) = (f(&mut rng) / 10.0, f(&mut rng) / 10.0);
                let a = f(&mut rng);
                if a.abs() < 1e-6 {
                    continue;
                }
                let r = f(&mut rng);
                let base: Vec<u32> = (0..len).map(|_| premult(rng.next() as u32)).collect();
                let idx: Vec<u32> = (0..len)
                    .map(|i| {
                        let x = x_start + i as f32;
                        let (gx, gy) = (gx0 + x * sa, gy0 + x * sb);
                        let b = 2.0 * (gx * dx + gy * dy);
                        let det = b * b + 4.0 * a * (gx * gx + gy * gy);
                        let root = ((-b - det.sqrt()) / (2.0 * a)).max((-b + det.sqrt()) / (2.0 * a));
                        let t = if det >= 0.0 && r * root >= 0.0 { root } else { f32::NAN };
                        table_index(t, lut.len())
                    })
                    .collect();
                assert_over_matches(&base, &lut, &idx, "focal");
            }
        }
    }
}

#[test]
fn lut_over_matches_two_pass_nonfinite() {
    let lut = table();
    let mut rng = Rng(0xdead_beef_0bad_f00d);
    for len in [1usize, 4, 16, 17, 64, 129] {
        let base: Vec<u32> = (0..len).map(|_| premult(rng.next() as u32)).collect();
        for t in [f32::NAN, f32::INFINITY, -f32::INFINITY] {
            let idx = vec![table_index(t, lut.len()); len];
            assert_over_matches(&base, &lut, &idx, "nonfinite");
            let mut a = base.clone();
            lut_over(&mut a, &lut, &idx);
            assert_eq!(a, base, "no value leaves the destination");
        }
    }
}

#[test]
fn composite_over_box_row_trimming_matches_full_rows() {
    let width = 24;
    let height = 5;
    let bounds = DirtyBox { x0: 2, y0: 1, x1: 21, y1: 4 };
    let mut source = vec![0; width * height];
    source[width + 8] = 0x8040_2010;
    source[width + 16] = 0xff10_2030;
    source[2 * width + 2..2 * width + 22].fill(0x4020_1008);
    source[4 * width + 20] = 0x0101_0000;
    let original: Vec<u32> = (0..width * height)
        .map(|i| 0xff00_0000 | ((i as u32 * 0x0101_01) & 0x00ff_ffff))
        .collect();
    for opacity in [1, 17, 128, 254, 255] {
        let mut expected = original.clone();
        let mut actual = original.clone();
        for y in bounds.y0..=bounds.y1 {
            let row = y * width;
            composite_over_span(
                &mut expected[row + bounds.x0..row + bounds.x1 + 1],
                &source[row + bounds.x0..row + bounds.x1 + 1],
                u32::from(opacity),
            );
        }
        composite_over_box(&mut actual, &source, width, bounds, opacity);
        assert_eq!(actual, expected, "opacity={opacity}");
    }
}

#[test]
fn solid_premultiplication_matches_cpu_byte_math() {
    let byte = |v: f32| (v.clamp(0.0, 1.0) * 255.0) as u32;
    assert_eq!(premul_argb(byte(0.5), byte(0.25), byte(1.0), byte(0.5 * 0.5)), 0x3f1f_103f);
}

#[test]
fn pixels_go_over_pixels() {
    assert_eq!(over(0xff10_2030, 0), 0xff10_2030);
    assert_eq!(over(0xff10_2030, 0xff40_5060), 0xff40_5060);
    assert_eq!(over(0, 0x8040_2010), 0x8040_2010);
    assert_eq!(over(0xff00_00ff, 0x8080_0000), 0xff80_007f);
    let mut d = 0xff00_00ff;
    over_px_k255(&mut d, 0x8080_0000);
    assert_eq!(d, 0xff80_007f);
    assert_eq!(composite_one(0xff00_00ff, 0x8080_0000, 255), 0xff80_007f);
    assert_eq!(composite_one(0xff00_00ff, 0x8080_0000, 0), 0xff00_00ff);
    assert_eq!(scale(0xff80_4020, 128), 0x8040_2010);
    assert_eq!(fill_one(0, 255, 255, 0, 0, 128), 0x8080_0000);
}

#[test]
fn rounding_division_is_exact() {
    for n in 0..=(255u32 * 255) {
        assert_eq!(div255_round(n as u16) as u32, (n + 127) / 255);
    }
}

#[test]
fn gradient_pixels_take_their_coverage() {
    assert_eq!(src_px(255, 0x8040_2010), 0x8040_2010);
    assert_eq!(src_px(0, 0x8040_2010), 0);
    let lut = [0xff11_2233, 0x8040_2010];
    assert_eq!(lut_color(&lut, 1), 0x8040_2010);
    assert_eq!(lut_color(&lut, 2), 0);
    let mut d = 0;
    blend_gradient_px(&mut d, 255, 0x8040_2010);
    assert_eq!(d, 0x8040_2010);
}

#[test]
fn gradient_rows_agree_however_they_are_blended() {
    let mut rng = Rng(0x0bad_cafe_dead_beef);
    let lut = table();
    for len in [1usize, 5, 16, 31, 32, 33, 200] {
        for case in 0..40 {
            let cov: Vec<u8> = (0..len)
                .map(|_| if case % 2 == 0 { 255 } else { rng.next() as u8 })
                .collect();
            let idx: Vec<u32> = (0..len).map(|_| (rng.next() % 1030) as u32).collect();
            let base: Vec<u32> = (0..len).map(|_| premult(rng.next() as u32)).collect();
            let mut expected = base.clone();
            gradient_row_scalar(&mut expected, &cov, &idx, &lut);
            let mut a = base.clone();
            gradient_over(&mut a, &cov, &idx, &lut);
            assert_eq!(a, expected);
            let mut b = base.clone();
            gradient_row(&mut b, &cov, &idx, &lut);
            assert_eq!(b, expected);
            let mut srcs = vec![0u32; len];
            gradient_srcs(&mut srcs, &cov, &idx, &lut);
            let mut c = base.clone();
            composite_over_scalar(&mut c, &srcs, 255);
            assert_eq!(c, expected, "replaying painted pixels");
            let mut d = base.clone();
            let mut kept = Vec::new();
            gradient_row_capture(&mut d, &cov, &idx, &lut, &mut kept);
            assert_eq!((d, kept), (expected, srcs.clone()));
            let mut clear = vec![0u32; len];
            let mut kept = Vec::new();
            gradient_row_capture_clear(&mut clear, &cov, &idx, &lut, &mut kept);
            assert_eq!((clear, kept), (srcs.clone(), srcs));
        }
        let idx: Vec<u32> = (0..len).map(|_| (rng.next() % 1030) as u32).collect();
        let base: Vec<u32> = (0..len).map(|_| premult(rng.next() as u32)).collect();
        for cov in [0u8, 1, 128, 255] {
            let mut expected = base.clone();
            gradient_row_scalar(&mut expected, &vec![cov; len], &idx, &lut);
            let mut a = base.clone();
            gradient_span_uniform(&mut a, cov, &idx, &lut);
            assert_eq!(a, expected);
            let mut clear = vec![0u32; len];
            let mut want = vec![0u32; len];
            gradient_row_scalar(&mut want, &vec![cov; len], &idx, &lut);
            gradient_span_uniform_clear(&mut clear, cov, &idx, &lut);
            assert_eq!(clear, want);
        }
    }
}

#[test]
fn masks_and_mattes_scale_pixels() {
    let mut px = [0xff80_4020, 0xff80_4020, 0xff80_4020];
    modulate(&mut px, &[255, 128, 0]);
    assert_eq!(px, [0xff80_4020, 0x8040_2010, 0]);
    assert_eq!(luma_premult(0xffff_ffff), 255);
    assert_eq!(luma_premult(0), 0);
    assert_eq!(luma_premult(0xffff_0000), 255 * 299 / 1000);
    let mut alpha = [0xff80_4020; 2];
    apply_matte(&mut alpha, &[0xff00_0000, 0], 1);
    assert_eq!(alpha, [0xff80_4020, 0]);
    let mut inverted = [0xff80_4020; 2];
    apply_matte(&mut inverted, &[0xff00_0000, 0], 2);
    assert_eq!(inverted, [0, 0xff80_4020]);
}

#[test]
fn bounded_passes_touch_only_their_box() {
    let mut px = vec![0xff80_4020u32; 12];
    let mask = vec![0u8; 12];
    let b = DirtyBox { x0: 1, y0: 1, x1: 2, y1: 1 };
    for_rows_boxed(&mut px, 4, b, &BoxPass::Modulate { mask: &mask });
    for (i, p) in px.iter().enumerate() {
        assert_eq!(*p == 0, i == 5 || i == 6, "pixel {i}");
    }
}
