//! Gradient stops and tables, and the counters.

use tlottie::gradient::GRADIENT_LUT_SIZE;
use tlottie::luts::{lut_key, LutCache, LUT_CACHE_CAP};
use tlottie::stats::{
    choose_mode, edge_density, gradient_stats, mode_stats, px_stats, repeats, stroke_stats, Mode,
    RenderStats, MODE_S_MIN_EXTENT,
};
use tlottie::stops::{count_colors, count_opacities, place, uniform_alpha, Place};

fn sample(stops: &[f32], channels: usize, t: f32) -> Option<Vec<f32>> {
    let stride = channels + 1;
    let n = stops.len() / stride;
    let position = |k: usize| stops[k * stride];
    let value = |k: usize| stops[k * stride + 1..(k + 1) * stride].to_vec();
    let reached = |k: usize| k < n && t <= position(k);
    match place(n, &reached, n > 0 && t >= position(n - 1)) {
        Place::Nowhere => None,
        Place::At { stop } => Some(value(stop)),
        Place::Between { later } => {
            let (a, b) = (value(later - 1), value(later));
            let f = (t - position(later - 1)) / (position(later) - position(later - 1)).max(1e-6);
            Some(a.iter().zip(&b).map(|(x, y)| x + (y - x) * f).collect())
        }
    }
}

/// A table with red in the lowest byte.
fn build_gradient_lut(data: &[f32], declared: usize, opacity: f32) -> Vec<u32> {
    let colors = count_colors(data.len(), declared);
    let rest = &data[4 * colors..];
    let opacities = count_opacities(rest.len(), colors);
    (0..GRADIENT_LUT_SIZE)
        .map(|i| {
            let t = i as f32 / (GRADIENT_LUT_SIZE - 1) as f32;
            let c = sample(&data[..4 * colors], 3, t).unwrap_or_else(|| vec![1.0; 3]);
            let a = sample(&rest[..2 * opacities], 1, t).map_or(1.0, |v| v[0]) * opacity;
            let byte = |v: f32| (v * a * 255.0 + 0.5) as u32;
            (((a * 255.0 + 0.5) as u32) << 24) | (byte(c[2]) << 16) | (byte(c[1]) << 8) | byte(c[0])
        })
        .collect()
}

#[test]
fn opacity_stops_do_not_shift_color_interpolation() {
    let stops = [
        0.0, 1.0, 0.0, 0.0, // red
        0.5, 0.0, 1.0, 0.0, // green
        1.0, 0.0, 0.0, 1.0, // blue
        0.0, 1.0, 0.25, 1.0, 0.5, 1.0, 0.75, 0.5, 1.0, 0.0,
    ];
    let lut = build_gradient_lut(&stops, 3, 1.0);
    let pixel = lut[GRADIENT_LUT_SIZE / 4];
    let (a, r, g, b) =
        ((pixel >> 24) & 0xff, pixel & 0xff, (pixel >> 8) & 0xff, (pixel >> 16) & 0xff);
    assert_eq!(a, 255);
    assert!((126..=128).contains(&r), "red={r}");
    assert!((127..=129).contains(&g), "green={g}");
    assert_eq!(b, 0);
}

#[test]
fn lut_retains_uniform_alpha_metadata_from_stops() {
    let colors = [0.0, 1.0, 0.0, 0.0, 1.0, 0.0, 0.0, 1.0];
    let opaque = build_gradient_lut(&colors, 2, 1.0);
    assert_eq!(uniform_alpha(&opaque), Some(255));

    let mut constant = colors.to_vec();
    constant.extend([0.0, 0.5, 1.0, 0.5]);
    let constant = build_gradient_lut(&constant, 2, 1.0);
    assert_eq!(uniform_alpha(&constant), Some(128));

    let mut varying = colors.to_vec();
    varying.extend([0.0, 0.25, 1.0, 0.75]);
    let varying = build_gradient_lut(&varying, 2, 1.0);
    assert_eq!(uniform_alpha(&varying), None);
    assert_eq!(uniform_alpha(&[]), None);
}

#[test]
fn stop_data_is_split() {
    assert_eq!(count_colors(12, 3), 3);
    assert_eq!(count_colors(12, 9), 3);
    assert_eq!(count_colors(12, 2), 2);
    assert_eq!(count_opacities(4, 2), 2);
    assert_eq!(count_opacities(3, 1), 0);
    assert_eq!(count_opacities(2, 2), 0);
    assert_eq!(count_opacities(2, 1), 1);
    assert_eq!(count_opacities(4, 9), 2);
}

#[test]
fn positions_fall_between_neighbours() {
    let stops = [10, 20, 30];
    let at = |t: i32| place(3, &|k: usize| k < 3 && t <= stops[k], t >= 30);
    assert_eq!(at(5), Place::At { stop: 0 });
    assert_eq!(at(10), Place::At { stop: 0 });
    assert_eq!(at(15), Place::Between { later: 1 });
    assert_eq!(at(20), Place::Between { later: 1 });
    assert_eq!(at(21), Place::Between { later: 2 });
    assert_eq!(at(30), Place::At { stop: 2 });
    assert_eq!(at(99), Place::At { stop: 2 });
    assert_eq!(place(0, &|_: usize| false, false), Place::Nowhere);
}

#[test]
fn tables_are_found_by_their_stops() {
    let mut cache = LutCache::new();
    let key = lut_key(2, 7, &[1, 2]);
    assert_eq!(key, vec![2, 7, 1, 2]);
    assert!(cache.get(&key).is_none());
    cache.insert(key.clone(), vec![5, 6]);
    assert_eq!(cache.get(&key), Some(&vec![5, 6]));
    assert!(cache.get(&lut_key(2, 7, &[1])).is_none());
    assert!(cache.get(&lut_key(7, 2, &[1, 2])).is_none());
    for n in 1..LUT_CACHE_CAP as u32 {
        cache.insert(vec![n], vec![n]);
    }
    assert_eq!(cache.entries.len(), LUT_CACHE_CAP);
    assert!(cache.get(&key).is_some());
    cache.insert(vec![9, 9, 9], vec![1]);
    assert_eq!(cache.entries.len(), 1);
    assert!(cache.get(&key).is_none());
    assert_eq!(cache.get(&[9, 9, 9]), Some(&vec![1]));
}

#[test]
fn counters_count_and_start_over() {
    let mut s = RenderStats::new();
    s.mode_stat(2, 3);
    s.mode_stat(3, 100);
    assert_eq!(mode_stats(&s), [0, 0, 3]);
    s.px[11] = u64::MAX;
    s.px_stat(11, 2);
    s.px_stat(0, 5);
    assert_eq!(px_stats(&s), [5, 0, 0, 0, 0, 0, 0, 0, 0, 0, 0, 1]);
    s.stroke_stat(4, 1);
    assert_eq!(stroke_stats(&s), [0, 0, 0, 0, 1]);
    s.grad_stat(1, 64);
    s.grad_stat(5, 64);
    assert_eq!(gradient_stats(&s), [0, 64, 0, 0, 0]);
}

#[test]
fn large_plain_shapes_are_rasterized_sparsely() {
    let mut s = RenderStats::new();
    assert_eq!(choose_mode(&mut s, true, false, true), Mode::Sparse);
    assert_eq!(choose_mode(&mut s, true, true, true), Mode::Dense);
    assert_eq!(choose_mode(&mut s, true, false, false), Mode::Dense);
    assert_eq!(choose_mode(&mut s, false, false, true), Mode::Dense);
    assert_eq!(mode_stats(&s), [1, 1, 1]);
    assert_eq!(edge_density(448 * 448), 12);
    assert_eq!(edge_density(448 * 448 + 1), 6);
    assert_eq!(MODE_S_MIN_EXTENT, 42);
}

#[test]
fn quick_frames_are_measured_more_often() {
    assert_eq!([0, 1000, 5000, 1_000_000, 1_999_999].map(repeats), [500, 500, 401, 3, 2]);
    assert_eq!([2_000_000, u64::MAX].map(repeats), [0, 0]);
}
