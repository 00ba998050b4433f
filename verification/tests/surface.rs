//! Surfaces: spans and planes, dirty rectangles, cached and fresh fills, layers, mattes and masks.

use tlottie::canvas::{paint_row, paint_span, replay_rows, replay_spans, row_bounds, Paint};
use tlottie::compose::{composite_offscreen, matte_one, modulate_one};
use tlottie::cov_cache::{size_for, CovCache, COV_ENTRY_MAX, COV_ENTRY_OVERHEAD};
use tlottie::dirty::{box_row, fill_rows_u8, DirtyBox};
use tlottie::error::Error;
use tlottie::fill::{fill_cached, fill_gradient_cached, fill_rows, fill_spans, SPAN_CAPTURE_MAX};
use tlottie::host::alpha_frame;
use tlottie::plane::{CovEntry, PlaneData};
use tlottie::renderer::{CPURenderer, Coverage};
use tlottie::scratch::{RenderScratch, SCRATCH_POOL_CAP};
use tlottie::spans::{pack_span, pre_size, spans_fragmented, spans_to_cov_entry, unpack_span};

const RED: Paint<'static> = Paint::Solid { sr: 255, sg: 0, sb: 0, sa: 255 };
const FAINT: Paint<'static> = Paint::Solid { sr: 10, sg: 200, sb: 90, sa: 128 };

fn bound(w: u32, h: u32) -> CPURenderer {
    let mut r = CPURenderer::new();
    match r.bind(vec![7; (w * h) as usize], w, h) {
        Ok(()) => r,
        Err((e, _)) => panic!("refused: {e:?}"),
    }
}

fn cov_bytes(e: &CovEntry) -> &[u8] {
    match &e.data {
        PlaneData::Cov(v) => v,
        _ => panic!("expected coverage"),
    }
}

#[test]
fn spans_keep_their_fields() {
    let s = pack_span(5, 9, 300, 77);
    assert_eq!(s, (5 << 44) | (9 << 24) | (300 << 8) | 77);
    assert_eq!(unpack_span(s), (5, 9, 300, 77));
    assert_eq!(unpack_span(u64::MAX), (0xf_ffff, 0xf_ffff, 0xffff, 255));
}

#[test]
fn spans_unfold_to_rows() {
    let list = [
        pack_span(1, 2, 2, 255),
        pack_span(1, 6, 1, 40),
        pack_span(3, 0, 3, 9),
    ];
    assert_eq!(pre_size(&list), (2, 8));
    let e = spans_to_cov_entry(&list);
    assert_eq!(e.rows, vec![(1, 2, 5), (3, 0, 3)]);
    assert_eq!(cov_bytes(&e), [255, 255, 0, 0, 40, 9, 9, 9]);
    assert!(spans_fragmented(&list, 11));
    assert!(!spans_fragmented(&list, 12));
    let many: Vec<u64> = (0..80).map(|y| pack_span(y, 1, 2, 3)).collect();
    let e = spans_to_cov_entry(&many);
    assert_eq!((e.rows.len(), cov_bytes(&e).len()), (80, 160));
}

#[test]
fn rows_and_spans_replay_alike() {
    let list = [
        pack_span(0, 1, 2, 255),
        pack_span(0, 5, 1, 128),
        pack_span(2, 0, 8, 3),
    ];
    let e = spans_to_cov_entry(&list);
    let start: Vec<u32> = (0..24).map(|i| 0xff00_0000 | (i * 0x05_0301)).collect();
    for paint in [&RED, &FAINT] {
        let (mut a, mut b) = (start.clone(), start.clone());
        let (mut da, mut db) = (DirtyBox::empty(), DirtyBox::empty());
        replay_spans(&mut a, &mut da, 8, &list, paint);
        replay_rows(&mut b, &mut db, 8, &e.rows, cov_bytes(&e), paint);
        assert_eq!(a, b);
        assert_eq!(da, DirtyBox { x0: 0, y0: 0, x1: 7, y1: 2 });
        assert_eq!(da, db);
    }
}

#[test]
fn a_span_that_does_not_fit_ends_a_replay() {
    let list = [pack_span(0, 0, 2, 255), pack_span(9, 0, 2, 255), pack_span(1, 0, 2, 255)];
    let mut pixels = vec![0u32; 4];
    let mut b = DirtyBox::empty();
    replay_spans(&mut pixels, &mut b, 2, &list, &RED);
    assert_eq!(pixels, vec![0xffff_0000, 0xffff_0000, 0, 0]);
    assert_eq!(b, DirtyBox { x0: 0, y0: 0, x1: 1, y1: 0 });
    assert_eq!(row_bounds(1, 1, 2, 4, 7), Some((5, 7)));
    assert_eq!(row_bounds(1, 1, 3, 4, 7), None);
    assert_eq!(row_bounds(usize::MAX, 1, 3, 4, 7), None);
    assert_eq!(row_bounds(usize::MAX, 1, 0, 1, 7), None);
}

#[test]
fn paints_cover_rows_and_spans() {
    let lut = [0xff00_00ff, 0x8040_0000];
    let index = [0, 1, 9, 1];
    let gradient = Paint::Gradient { lut: &lut, index: &index };
    let mut pixels = vec![0u32; 4];
    paint_row(&mut pixels, 1, &[255, 255, 0], &gradient);
    assert_eq!(pixels, vec![0, 0x8040_0000, 0, 0]);
    let mut pixels = vec![0u32; 4];
    paint_span(&mut pixels, 0, 2, 255, &gradient);
    assert_eq!(pixels, vec![0xff00_00ff, 0x8040_0000, 0, 0]);
    let mut pixels = vec![0u32; 2];
    paint_span(&mut pixels, 1, 1, 128, &RED);
    assert_eq!(pixels, vec![0, 0x8080_0000]);
}

#[test]
fn rectangles_grow() {
    let mut b = DirtyBox::empty();
    assert!(b.is_empty());
    b.mark_row(3, 5, 5);
    assert!(b.is_empty());
    b.mark_row(3, 5, 8);
    assert_eq!(b, DirtyBox { x0: 5, y0: 3, x1: 7, y1: 3 });
    b.union(DirtyBox::empty());
    assert_eq!(b, DirtyBox { x0: 5, y0: 3, x1: 7, y1: 3 });
    b.union(DirtyBox { x0: 1, y0: 9, x1: 2, y1: 9 });
    assert_eq!(b, DirtyBox { x0: 1, y0: 3, x1: 7, y1: 9 });
    assert_eq!(box_row(b, 10, 4, 1000), (41, 48));
    assert_eq!(box_row(b, 10, 4, 45), (41, 45));
    let mut plane = [0u8; 12];
    fill_rows_u8(&mut plane, 4, DirtyBox { x0: 1, y0: 1, x1: 2, y1: 2 }, 9);
    assert_eq!(plane, [0, 0, 0, 0, 0, 9, 9, 0, 0, 9, 9, 0]);
    fill_rows_u8(&mut plane, 4, DirtyBox::empty(), 1);
    assert_eq!(plane[5], 9);
}

#[test]
fn cached_fills_match_fresh_ones() {
    let mut cache = CovCache::with_budget(0);
    let list = [pack_span(0, 0, 6, 255), pack_span(1, 2, 6, 100), pack_span(7, 0, 6, 1)];
    let start = vec![0xff20_3040u32; 16];
    let (mut fresh, mut cached) = (start.clone(), start.clone());
    let (mut a, mut b) = (DirtyBox::empty(), DirtyBox::empty());
    assert!(!fill_cached(&mut cache, 1, &mut cached, &mut b, 8, &FAINT));
    fill_spans(&mut cache, 1, &mut fresh, &mut a, 8, &list, &FAINT);
    assert!(fill_cached(&mut cache, 1, &mut cached, &mut b, 8, &FAINT));
    assert_ne!(fresh, start);
    assert_eq!(fresh, cached);
    assert_eq!(a, DirtyBox { x0: 0, y0: 0, x1: 7, y1: 1 });
    assert_eq!(a, b);
    assert_eq!((cache.hits, cache.inserts), (1, 1));

    let rows = [(0, 0, 2), (9, 0, 1), (1, 3, 2)];
    let data = [255, 0, 7, 30, 31];
    let (mut fresh, mut cached) = (start.clone(), start.clone());
    fill_rows(&mut cache, 2, &mut fresh, &mut a, 8, &rows, &data, &RED);
    assert!(fill_cached(&mut cache, 2, &mut cached, &mut b, 8, &RED));
    assert_eq!(fresh, cached);
    let kept = cache.get(2).unwrap();
    assert_eq!(kept.rows, vec![(0, 0, 2), (1, 3, 2)]);
    assert_eq!(cov_bytes(kept), [255, 0, 30, 31]);
}

#[test]
fn captures_of_too_many_spans_are_dropped() {
    let mut cache = CovCache::with_budget(0);
    let n = SPAN_CAPTURE_MAX + 1;
    let list: Vec<u64> = (0..n).map(|y| pack_span(y, 0, 1, 255)).collect();
    let mut pixels = vec![0u32; n];
    let mut b = DirtyBox::empty();
    fill_spans(&mut cache, 1, &mut pixels, &mut b, 1, &list, &RED);
    assert!(pixels.iter().all(|&p| p == 0xffff_0000));
    assert_eq!(cache.inserts, 0);
}

#[test]
fn gradient_sources_replay_exactly() {
    let lut: Vec<u32> = (0..16).map(|i| 0xff00_0000 | (i * 0x10_0801)).collect();
    let index: Vec<u32> = (0..16).collect();
    for list in [
        vec![pack_span(0, 0, 8, 255), pack_span(1, 0, 8, 90)],
        vec![pack_span(0, 1, 1, 200), pack_span(0, 5, 1, 10), pack_span(1, 2, 2, 255)],
    ] {
        let mut cache = CovCache::with_budget(0);
        let start = vec![0xff50_6070u32; 16];
        let paint = Paint::Gradient { lut: &lut, index: &index };
        let mut planes = Vec::new();
        for _ in 0..3 {
            let mut pixels = start.clone();
            let mut b = DirtyBox::empty();
            if !fill_gradient_cached(&mut cache, 1, 2, &mut pixels, &mut b, 8, &lut, &index) {
                fill_spans(&mut cache, 1, &mut pixels, &mut b, 8, &list, &paint);
            }
            planes.push((pixels, b));
        }
        assert!(cache.contains(2));
        assert!(matches!(cache.get(2).unwrap().data, PlaneData::Src(_)));
        assert_ne!(planes[0].0, start);
        assert_eq!(planes[0], planes[1], "from coverage");
        assert_eq!(planes[0], planes[2], "from sources");
    }
}

#[test]
fn sizes_follow_capacities() {
    assert_eq!(size_for(10, 8, 2), 80 + 24 + COV_ENTRY_OVERHEAD);
    assert_eq!(size_for(usize::MAX, 8, 2), usize::MAX);
    let mut cache = CovCache::with_budget(0);
    let entry = || CovEntry { rows: Vec::new(), data: PlaneData::Spans(vec![1, 2]) };
    cache.insert_sized(1, entry(), COV_ENTRY_MAX);
    assert_eq!((cache.young_bytes, cache.inserts), (COV_ENTRY_MAX, 1));
    cache.insert_sized(2, entry(), COV_ENTRY_MAX + 1);
    assert!(!cache.contains(2));
    cache.rotate_if_needed();
    assert_eq!(cache.rotations, 0);
    let mut roomy: Vec<u8> = Vec::with_capacity(COV_ENTRY_MAX + 1);
    roomy.push(1);
    let e = CovEntry { rows: Vec::new(), data: PlaneData::Cov(roomy) };
    assert!(CovCache::size_of(&e) > COV_ENTRY_MAX);
    cache.insert(3, e);
    assert!(!cache.contains(3), "capacity counts, not length");
}

#[test]
fn entries_are_trimmed_on_larger_canvases() {
    let mut cache = CovCache::with_budget(0);
    cache.set_budget_for_canvas(161, 160);
    let mut roomy: Vec<u8> = Vec::with_capacity(4096);
    roomy.extend([1, 2, 3]);
    cache.insert(1, CovEntry { rows: Vec::new(), data: PlaneData::Cov(roomy) });
    assert!(cache.young_bytes >= 4096);
    match &cache.get(1).unwrap().data {
        PlaneData::Cov(v) => {
            assert_eq!(v, &vec![1, 2, 3]);
            assert!(v.capacity() < 4096);
        }
        _ => panic!("expected coverage"),
    }
    cache.set_budgets_for_canvas(160, 160, [1, 2, 3]);
    assert_eq!((cache.budget, cache.shrink_entries), (1, false));
    cache.set_budgets_for_canvas(448, 448, [1, 2, 3]);
    assert_eq!((cache.budget, cache.shrink_entries), (2, true));
    cache.set_budgets_for_canvas(449, 448, [1, 2, 3]);
    assert_eq!(cache.budget, 3);
}

#[test]
fn pools_recycle() {
    let mut s = RenderScratch::new();
    s.put_u8(vec![5, 6, 7]);
    assert_eq!(s.take_u8_uninit(3), vec![5, 6, 7]);
    s.put_u8(vec![5, 6, 7]);
    assert_eq!(s.take_u8_uninit(2), vec![0, 0]);
    s.put_u8(vec![5, 6, 7]);
    assert_eq!(s.take_u8(2, 9), vec![9, 9]);
    s.put_u32(vec![1, 2]);
    assert_eq!(s.take_u32(3), vec![0, 0, 0]);
    for _ in 0..9 {
        s.put_u32(vec![1]);
    }
    assert_eq!(s.bufs_u32.len(), SCRATCH_POOL_CAP);
}

#[test]
fn mattes_scale_by_alpha_and_luma() {
    assert_eq!(modulate_one(0xff80_4020, 255), 0xff80_4020);
    assert_eq!(modulate_one(0xff80_4020, 0), 0);
    assert_eq!(modulate_one(0xff80_4020, 128), 0x8040_2010);
    let white = 0xffff_ffff;
    assert_eq!(matte_one(white, 0x8000_0000, 1), 0x8080_8080);
    assert_eq!(matte_one(white, 0x8000_0000, 2), 0x7f7f_7f7f);
    assert_eq!(matte_one(white, 0xff00_ff00, 3), 0x9595_9595);
    assert_eq!(matte_one(white, 0xff00_ff00, 4), 0x6a6a_6a6a);
}

#[test]
fn offscreen_layers_are_masked_and_matted() {
    let mut canvas = vec![0xff00_0000u32; 4];
    let mut written = DirtyBox::empty();
    let mut layer = vec![0, 0xffff_ffff, 0xffff_ffff, 0];
    let area = DirtyBox { x0: 0, y0: 0, x1: 1, y1: 1 };
    composite_offscreen(
        &mut canvas,
        &mut written,
        &mut layer,
        area,
        Some(&[255, 128, 255, 255]),
        Some((&[0, 0xff00_0000, 0x8000_0000, 0], 1)),
        2,
        255,
    );
    assert_eq!(layer, vec![0, 0x8080_8080, 0x8080_8080, 0]);
    assert_eq!(canvas, vec![0xff00_0000, 0xff80_8080, 0xff80_8080, 0xff00_0000]);
    assert_eq!(written, area);
}

#[test]
fn buffers_are_bound_and_given_back() {
    let mut r = CPURenderer::new();
    match r.bind(vec![1, 2, 3], 2, 2) {
        Err((Error::InvalidLottie { what, .. }, back)) => {
            assert_eq!(what, "pixel buffer too small");
            assert_eq!(back, vec![1, 2, 3]);
        }
        _ => panic!("expected a refusal"),
    }
    assert!(r.bind(vec![1, 2, 3, 4, 5], 2, 2).is_ok());
    match r.bind(vec![9; 4], 2, 2) {
        Err((Error::InvalidLottie { what, .. }, back)) => {
            assert_eq!(what, "CPU renderer already has a bound bitmap");
            assert_eq!(back, vec![9; 4]);
        }
        _ => panic!("expected a refusal"),
    }
    r.draw_fresh(1, &Coverage::Spans(&[pack_span(1, 0, 1, 255)]), &RED);
    r.save_layer();
    assert_eq!(r.release(), vec![0, 0, 0xffff_0000, 0, 5]);
    assert!(r.planes.is_empty());
    assert!(r.bind(vec![9; 4], 2, 2).is_ok());
}

#[test]
fn layers_are_closed_over_the_one_below() {
    let mut r = bound(2, 1);
    r.end_layer_over(255);
    assert_eq!(r.planes.len(), 1, "without a surface nothing happens");
    r.save_layer();
    r.draw_fresh(1, &Coverage::Spans(&[pack_span(0, 1, 1, 255)]), &RED);
    assert_eq!(r.planes[0], vec![0, 0]);
    r.end_layer_over(128);
    assert_eq!(r.planes, vec![vec![0, 0x8080_0000]]);
    assert_eq!(r.dirty[0], DirtyBox { x0: 1, y0: 0, x1: 1, y1: 0 });
}

#[test]
fn mattes_close_two_layers() {
    let mut r = bound(2, 1);
    r.end_layer_matte(1, 255, 255);
    assert_eq!(r.planes.len(), 1);
    r.save_layer();
    r.end_layer_matte(1, 255, 255);
    assert_eq!(r.planes.len(), 1, "a lone surface is dropped");
    r.save_layer();
    r.draw_fresh(1, &Coverage::Spans(&[pack_span(0, 0, 1, 255)]), &RED);
    r.save_layer();
    r.draw_fresh(2, &Coverage::Spans(&[pack_span(0, 0, 2, 255)]), &RED);
    r.end_layer_matte(1, 255, 128);
    assert_eq!(r.planes, vec![vec![0x8080_0000, 0]]);
}

#[test]
fn masks_come_together() {
    let mut r = bound(3, 1);
    r.draw_fresh(1, &Coverage::Spans(&[pack_span(0, 0, 3, 255)]), &RED);
    r.apply_mask(&[255, 0, 0], b'a', false, 255, true, false);
    assert_eq!(r.planes[0], vec![0xffff_0000; 3]);
    r.apply_mask(&[0, 255, 0], b'a', false, 255, false, true);
    assert_eq!(r.planes[0], vec![0xffff_0000, 0xffff_0000, 0]);
    assert!(r.mask_accumulator.is_none());
    r.apply_mask(&[255, 0, 0], b's', false, 255, true, true);
    assert_eq!(r.planes[0], vec![0, 0xffff_0000, 0]);
}

#[test]
fn renderers_draw_from_the_cache() {
    let list = [pack_span(0, 0, 2, 255), pack_span(1, 1, 1, 60)];
    let mut r = bound(2, 2);
    assert!(!r.draw_cached(1, &FAINT));
    r.draw_fresh(1, &Coverage::Spans(&list), &FAINT);
    let fresh = r.release();
    assert!(r.retains_geometry(1));
    assert!(!r.retains_geometry(2));
    assert!(r.bind(vec![0; 4], 2, 2).is_ok());
    assert!(r.draw_cached(1, &FAINT));
    assert_eq!(r.release(), fresh);

    let lut = [0xff01_0203, 0xff40_5060];
    let index = [0, 1, 1, 0];
    let paint = Paint::Gradient { lut: &lut, index: &index };
    assert!(r.bind(vec![0; 4], 2, 2).is_ok());
    assert!(!r.draw_gradient_cached(5, 6, &lut, &index));
    r.draw_fresh(5, &Coverage::Rows { rows: &[(0, 0, 2)], data: &[255, 20] }, &paint);
    let fresh = r.release();
    for _ in 0..2 {
        assert!(r.bind(vec![0; 4], 2, 2).is_ok());
        assert!(r.draw_gradient_cached(5, 6, &lut, &index));
        assert_eq!(r.release(), fresh);
    }
    assert!(r.retains_geometry(6));
}

#[test]
fn alpha_is_all_that_some_hosts_take() {
    let mut alphas = vec![1, 2, 3, 4, 5];
    alpha_frame(&[0x1234_5678, 0xff00_0000, 0], &mut alphas);
    assert_eq!(alphas, vec![0x12, 0xff, 0]);
}

#[test]
fn row_gradients_replay_exactly() {
    let lut: Vec<u32> = (0..16).map(|i| 0xff00_0000 | (i * 0x10_0801)).collect();
    let index: Vec<u32> = (0..16).collect();
    let paint = Paint::Gradient { lut: &lut, index: &index };
    let rows = [(0, 1, 3), (9, 0, 2), (1, 2, 2)];
    let data = [255, 40, 200, 9, 9, 17, 255];
    let mut cache = CovCache::with_budget(0);
    let mut frames = Vec::new();
    for _ in 0..3 {
        let mut pixels = vec![0u32; 16];
        let mut b = DirtyBox::empty();
        if !fill_gradient_cached(&mut cache, 1, 2, &mut pixels, &mut b, 8, &lut, &index) {
            fill_rows(&mut cache, 1, &mut pixels, &mut b, 8, &rows, &data, &paint);
        }
        frames.push((pixels, b));
    }
    assert!(cache.contains(1) && cache.contains(2));
    assert_eq!(frames[0].1, DirtyBox { x0: 1, y0: 0, x1: 3, y1: 1 });
    assert_ne!(frames[0].0, vec![0u32; 16]);
    assert_eq!(frames[0], frames[1], "from coverage");
    assert_eq!(frames[0], frames[2], "from sources");
}
