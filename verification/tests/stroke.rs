//! Stroking: borders, rings, outlines and pieces.

use tlottie::pieces::{
    outline_closed, outline_open, plan_pieces, plan_side, route, Bend, Joint, Piece, Route, Run,
    RunStep, Turn,
};
use tlottie::stroke::{
    borders, cap_step, closed_contours, closed_rings, keep_rings, open_contours, open_outline,
    plan_segments, reversed, ring_close, Border, CapStep, Cleaned, Corner, CornerData,
    CornerPoints, OuterStep,
};
use tlottie::style::{cap_of, fill_rule_of, join_of, Cap, FillRule, Join};
use tlottie::touched::Touched;

type Point = (f32, f32);

const PI: f32 = core::f32::consts::PI;

fn near(a: Point, b: Point) -> bool {
    (a.0 - b.0).abs() < 0.03125 && (a.1 - b.1).abs() < 0.03125
}

fn coincide(a: Point, b: Point) -> bool {
    !((a.0 - b.0).abs() > 1e-6 || (a.1 - b.1).abs() > 1e-6)
}

fn offset(p: Point, n: Point, k: f32) -> Point {
    (p.0 + n.0 * k, p.1 + n.1 * k)
}

fn normal(d: Point) -> Point {
    (-d.1, d.0)
}

fn arc(center: Point, r: f32, a0: f32, sweep: f32, skip_last: usize) -> Vec<Point> {
    let steps = ((sweep.abs() / 0.35).ceil() as usize).clamp(1, 48);
    (1..=steps - skip_last)
        .map(|i| {
            let a = a0 + sweep * (i as f32 / steps as f32);
            (center.0 + r * a.cos(), center.1 + r * a.sin())
        })
        .collect()
}

fn cap_points(end: Point, d: Point, hw: f32, cap: Cap) -> Vec<Point> {
    let n = normal(d);
    match cap_step(cap) {
        CapStep::Nothing => Vec::new(),
        CapStep::Corners => {
            let e = offset(end, d, hw);
            vec![offset(e, n, hw), offset(e, n, -hw)]
        }
        CapStep::HalfCircle => arc(end, hw, n.1.atan2(n.0), -PI, 1),
    }
}

#[derive(Clone, Copy)]
struct Segment {
    start: Point,
    d: Point,
    len: f32,
    line: bool,
}

fn corner(a: Segment, b: Segment, hw: f32, join: Join, ml: f32) -> CornerData<Point> {
    let cross = a.d.0 * b.d.1 - a.d.1 * b.d.0;
    let dot = a.d.0 * b.d.0 + a.d.1 * b.d.1;
    let flat = cross.abs() < 1e-6;
    let reversal = flat && dot < 0.0;
    let denom = 1.0 + dot;
    let has_tip = denom > 1e-6;
    let t = (hw * cross / denom).abs();
    let facts = Corner {
        straight: flat && dot >= 0.0,
        reversal,
        turns_left: cross > 0.0,
        anchor: true,
        gap: false,
        gentle: dot >= 0.995_184_7,
        short: a.len.min(b.len) < hw,
        fits: has_tip && a.line && b.line && a.len >= t && b.len >= t,
        has_tip,
        within_limit: ml * ml * denom * 0.5 >= 1.0,
        next_is_curve: !b.line,
    };
    let (si, so) = if reversal || cross > 0.0 { (1.0, -1.0) } else { (-1.0, 1.0) };
    let (n_in, n_out) = (normal(a.d), normal(b.d));
    let p = b.start;
    let meet = |side: f32| {
        let k = if has_tip { side * hw / denom } else { 0.0 };
        (p.0 + (n_in.0 + n_out.0) * k, p.1 + (n_in.1 + n_out.1) * k)
    };
    let round = if facts.outer_step(join) == OuterStep::Arc {
        let sweep = if reversal { -so * PI } else { cross.atan2(dot) };
        arc(p, hw, (so * n_in.1).atan2(so * n_in.0), sweep, 0)
    } else {
        Vec::new()
    };
    CornerData {
        facts,
        points: CornerPoints {
            inner_meet: meet(si),
            inner_start: offset(p, n_out, si * hw),
            outer_meet: meet(so),
            outer_start: offset(p, n_out, so * hw),
            arc: round,
        },
    }
}

/// Strokes a path whose points were all authored.
fn stroke(points: &[Point], closed: bool, hw: f32, cap: Cap, join: Join, ml: f32) -> Vec<Vec<Point>> {
    if !(hw > 0.0) || !hw.is_finite() {
        return Vec::new();
    }
    let finite: Vec<bool> = points.iter().map(|p| p.0.is_finite() && p.1.is_finite()).collect();
    let mut path = Cleaned::new(points, &finite, &[], &coincide);
    let meets = match (path.points.first(), path.points.last()) {
        (Some(a), Some(b)) => coincide(*a, *b),
        _ => false,
    };
    path.finish(closed, meets);
    let n = path.points.len();
    if n < 2 {
        return Vec::new();
    }
    let count = if closed { n } else { n - 1 };
    let measured: Vec<Segment> = (0..count)
        .map(|i| {
            let (a, b) = (path.points[i], path.points[(i + 1) % n]);
            let (dx, dy) = (b.0 - a.0, b.1 - a.1);
            let len = (dx * dx + dy * dy).sqrt();
            Segment { start: a, d: (dx / len, dy / len), len, line: true }
        })
        .collect();
    let usable: Vec<bool> =
        measured.iter().map(|s| s.len > 0.015625 && s.len.is_finite()).collect();
    let (plans, _) = plan_segments(n, &path.anchors, &usable);
    let segments: Vec<Segment> = plans.iter().map(|p| measured[p.start]).collect();
    let (Some(&first), Some(&last)) = (segments.first(), segments.last()) else {
        return Vec::new();
    };
    let mut corners: Vec<CornerData<Point>> =
        segments.windows(2).map(|w| corner(w[0], w[1], hw, join, ml)).collect();
    if closed {
        corners.push(corner(last, first, hw, join, ml));
    }
    let ends: Vec<(Point, Point)> = segments
        .iter()
        .map(|s| {
            let q = offset(s.start, s.d, s.len);
            (offset(q, normal(s.d), hw), offset(q, normal(s.d), -hw))
        })
        .collect();
    let start = (offset(first.start, normal(first.d), hw), offset(first.start, normal(first.d), -hw));
    let (a, b) = borders(start, &ends, &corners, closed, join, &near);
    if closed {
        let (a, b) = closed_rings(&a.points, &b.points);
        return closed_contours(a, b, false, true);
    }
    let mut end_cap = cap_points(offset(last.start, last.d, last.len), last.d, hw, cap);
    let mut start_cap = cap_points(first.start, (-first.d.0, -first.d.1), hw, cap);
    open_contours(open_outline(a.points, &mut end_cap, &b.points, &mut start_cap))
}

fn shoelace(ring: &[Point]) -> f32 {
    let twice: f32 = (0..ring.len())
        .map(|i| {
            let (p, q) = (ring[i], ring[(i + 1) % ring.len()]);
            p.0 * q.1 - q.0 * p.1
        })
        .sum();
    twice * 0.5
}

#[test]
fn straight_band_area_and_sign() {
    let out = stroke(&[(0.0, 0.0), (10.0, 0.0)], false, 2.0, Cap::Butt, Join::Miter, 4.0);
    assert_eq!(out.len(), 1);
    let a = shoelace(&out[0]);
    assert!((a - 40.0).abs() < 0.5, "area {a}");
}

#[test]
fn straight_segment_area() {
    let out = stroke(&[(5.0, 10.0), (15.0, 10.0)], false, 2.0, Cap::Butt, Join::Miter, 4.0);
    assert_eq!(out.len(), 1);
    let area: f32 = out.iter().map(|c| shoelace(c)).sum();
    assert!((area - 40.0).abs() < 0.1, "area={area}");
}

#[test]
fn closed_square_rings_sign_invariant() {
    let ccw = [(0.0, 0.0), (10.0, 0.0), (10.0, 10.0), (0.0, 10.0)];
    let cw = [(0.0, 0.0), (0.0, 10.0), (10.0, 10.0), (10.0, 0.0)];
    for pts in [&ccw[..], &cw[..]] {
        let out = stroke(pts, true, 1.0, Cap::Butt, Join::Miter, 4.0);
        assert_eq!(out.len(), 2, "rings for {pts:?}");
        let mut areas: Vec<f32> = out.iter().map(|c| shoelace(c)).collect();
        areas.sort_by(|x, y| x.abs().total_cmp(&y.abs()));
        let (inner, outer) = (areas[0], areas[1]);
        assert!(outer > 0.0, "outer ring must be + ({outer} for {pts:?})");
        assert!(inner < 0.0, "inner ring must be - ({inner} for {pts:?})");
        assert!((outer - 144.0).abs() < 1.0, "outer {outer}");
        assert!((inner + 64.0).abs() < 1.0, "inner {inner}");
    }
}

#[test]
fn closed_square_stroke_produces_ring_pair() {
    let square = [(0.0, 0.0), (10.0, 0.0), (10.0, 10.0), (0.0, 10.0)];
    let rings = stroke(&square, true, 1.0, Cap::Butt, Join::Miter, 4.0);
    assert_eq!(rings.len(), 2);
}

#[test]
fn solo_closed_square_is_ring_pair() {
    let square = [(0.0, 0.0), (10.0, 0.0), (10.0, 10.0), (0.0, 10.0)];
    let rings = stroke(&square, true, 1.0, Cap::Butt, Join::Miter, 4.0);
    assert_eq!(rings.len(), 2);
    let (a0, a1) = (shoelace(&rings[0]), shoelace(&rings[1]));
    assert!(a0 * a1 < 0.0, "rings must wind oppositely: {a0} {a1}");
    assert!(((a0 + a1).abs() - 80.0).abs() < 0.5, "annulus area: {}", a0 + a1);
}

#[test]
fn reversal_miter_is_bevel_stub() {
    let out = stroke(
        &[(0.0, 0.0), (10.0, 0.0), (0.0, 0.001)],
        false,
        2.0,
        Cap::Butt,
        Join::Miter,
        10.0,
    );
    let max_x = out.iter().flatten().fold(f32::MIN, |m, p| m.max(p.0));
    assert!(max_x <= 12.1, "reversal produced a needle: max_x {max_x}");
}

#[test]
fn over_limit_miter_bevels() {
    let out = stroke(
        &[(0.0, 0.0), (10.0, 0.0), (0.17, 0.87)],
        false,
        2.0,
        Cap::Butt,
        Join::Miter,
        4.0,
    );
    let max_x = out.iter().flatten().fold(f32::MIN, |m, p| m.max(p.0));
    assert!(max_x <= 12.1, "over-limit miter not beveled: max_x {max_x}");
}

#[test]
fn degenerate_single_vertex_draws_nothing() {
    let out = stroke(&[(3.0, 3.0)], false, 2.0, Cap::Round, Join::Round, 4.0);
    assert!(out.is_empty());
}

#[test]
fn no_panic_on_garbage() {
    let garbage = [(f32::NAN, 0.0), (0.0, f32::INFINITY), (1.0, 1.0), (1.0, 1.0)];
    let _ = stroke(&garbage, true, 2.0, Cap::Round, Join::Round, 4.0);
    let _ = stroke(&garbage, false, f32::NAN, Cap::Square, Join::Miter, 0.0);
}

#[test]
fn no_panic_garbage() {
    for pts in [
        vec![(0.0f32, 0.0f32)],
        vec![(0.0, 0.0), (0.0, 0.0)],
        vec![(f32::NAN, 0.0), (1.0, 1.0), (2.0, 0.0)],
        vec![(0.0, 0.0), (1e30, 1e30), (-1e30, 1e30)],
    ] {
        for closed in [false, true] {
            let _ = stroke(&pts, closed, 2.0, Cap::Round, Join::Round, 4.0);
        }
    }
}

#[test]
fn repeated_points_merge() {
    let points = [(0.0, 0.0), (0.0, 0.0), (5.0, 0.0), (f32::NAN, 1.0), (5.0, 0.0), (0.0, 0.0)];
    let finite: Vec<bool> = points.iter().map(|p| p.0.is_finite()).collect();
    let anchors = [false, true, false, true, false, true];
    let mut c = Cleaned::new(&points, &finite, &anchors, &coincide);
    assert_eq!(c.points, vec![(0.0, 0.0), (5.0, 0.0), (0.0, 0.0)]);
    assert_eq!(c.anchors, vec![true, false, true]);
    c.finish(false, true);
    assert_eq!(c.points.len(), 3);
    c.finish(true, true);
    assert_eq!(c.points, vec![(0.0, 0.0), (5.0, 0.0)]);
}

#[test]
fn short_segments_leave_gaps() {
    let (plans, seam) = plan_segments(4, &[true, true, false, true], &[false, true, false, true]);
    let starts: Vec<(usize, usize, bool, bool)> =
        plans.iter().map(|p| (p.start, p.end, p.is_line, p.gap_before)).collect();
    assert_eq!(starts, vec![(1, 2, false, true), (3, 0, true, true)]);
    assert!(seam);
    let (_, seam) = plan_segments(3, &[], &[true, true, true]);
    assert!(!seam);
    let (_, seam) = plan_segments(3, &[], &[true, true, false]);
    assert!(seam);
}

#[test]
fn borders_replace_add_or_skip() {
    let mut b = Border::start((0.0, 0.0));
    b.line_to((5.0, 0.0), true, &near);
    assert_eq!(b.points, vec![(0.0, 0.0), (5.0, 0.0)]);
    b.line_to((6.0, 0.0), false, &near);
    assert_eq!(b.points, vec![(0.0, 0.0), (6.0, 0.0)]);
    b.line_to((6.01, 0.0), true, &near);
    assert_eq!(b.points.len(), 2);
    assert!(!b.movable, "a skipped point changes nothing");
    b.line_to((7.0, 0.0), true, &near);
    b.settle();
    b.line_to((8.0, 0.0), false, &near);
    assert_eq!(b.points.len(), 4);
    b.arc_to(&[(9.0, 0.0), (9.0, 1.0)]);
    assert_eq!(b.points.len(), 6);
}

#[test]
fn corners_follow_the_join() {
    let plain = Corner {
        straight: false,
        reversal: false,
        turns_left: true,
        anchor: true,
        gap: false,
        gentle: false,
        short: false,
        fits: true,
        has_tip: true,
        within_limit: true,
        next_is_curve: false,
    };
    assert_eq!(plain.outer_step(Join::Miter), OuterStep::Tip { then_start: false });
    assert_eq!(plain.outer_step(Join::Round), OuterStep::Arc);
    assert_eq!(plain.outer_step(Join::Bevel), OuterStep::Bevel);
    let over = Corner { within_limit: false, ..plain };
    assert_eq!(over.outer_step(Join::Miter), OuterStep::Bevel);
    let curve = Corner { anchor: false, gentle: true, ..plain };
    assert_eq!(curve.outer_step(Join::Bevel), OuterStep::Meet);
    let cusp = Corner { anchor: false, short: true, ..plain };
    assert_eq!(cusp.outer_step(Join::Miter), OuterStep::Arc);
    let seam = Corner { gap: true, ..cusp };
    assert_eq!(seam.outer_step(Join::Miter), OuterStep::Tip { then_start: false });
}

#[test]
fn rings_close_on_their_last_corner() {
    assert_eq!(ring_close(&[1, 2, 3, 4, 5], false), vec![5, 2, 3, 4]);
    assert_eq!(ring_close(&[1, 2, 3, 4, 5], true), vec![5, 4, 3, 2]);
    assert_eq!(ring_close(&[1, 2], false), Vec::<i32>::new());
    assert_eq!(reversed(&[1, 2, 3]), vec![3, 2, 1]);
    assert_eq!(closed_rings(&[1, 2, 3], &[4, 5, 6]), (vec![2, 3], vec![5, 6]));
    assert_eq!(keep_rings(false, false), (true, true));
    assert_eq!(keep_rings(true, true), (true, false));
    assert_eq!(keep_rings(true, false), (false, true));
    assert_eq!(closed_contours(vec![1, 2], vec![3, 4, 5], false, true), vec![vec![3, 4, 5]]);
    assert_eq!(
        open_outline(vec![1, 2], &mut vec![3], &[5, 4], &mut vec![6]),
        vec![6, 5, 4, 3, 2, 1]
    );
    assert_eq!(open_contours(vec![1, 2]), Vec::<Vec<i32>>::new());
    assert_eq!(open_contours(vec![1, 2, 3]), vec![vec![1, 2, 3]]);
}

fn turn() -> Turn {
    Turn {
        parallel: false,
        ahead: true,
        sharp: false,
        anchor: true,
        wide: false,
        short: false,
        tiny: false,
        within_limit: true,
        has_tip: true,
    }
}

#[test]
fn pieces_follow_the_join() {
    let t = turn();
    assert_eq!(t.joint_of(Join::Miter), Joint::Kite);
    assert_eq!(t.joint_of(Join::Round), Joint::Wedge);
    assert_eq!(t.joint_of(Join::Bevel), Joint::Triangle);
    assert_eq!(Turn { within_limit: false, ..t }.joint_of(Join::Miter), Joint::Triangle);
    assert_eq!(Turn { parallel: true, ..t }.joint_of(Join::Round), Joint::Nothing);
    let back = Turn { parallel: true, ahead: false, sharp: true, ..t };
    assert_eq!(back.joint_of(Join::Miter), Joint::Stub);
    assert_eq!(back.joint_of(Join::Round), Joint::HalfCircle);
    assert_eq!(back.joint_of(Join::Bevel), Joint::Nothing);
    assert_eq!(Turn { anchor: false, ..back }.joint_of(Join::Bevel), Joint::HalfCircle);
    let cusp = Turn { anchor: false, wide: true, short: true, ..t };
    assert_eq!(cusp.joint_of(Join::Miter), Joint::Wedge);
    assert_eq!(Turn { tiny: true, ..cusp }.joint_of(Join::Miter), Joint::Nothing);
    assert_eq!(t.bend_of(Join::Miter), Bend::Tip);
    assert_eq!(t.bend_of(Join::Round), Bend::Arc);
    assert_eq!(t.bend_of(Join::Bevel), Bend::Nothing);
    assert_eq!(t.inner_bend_of(true), Bend::Tip);
    assert_eq!(t.inner_bend_of(false), Bend::Nothing);
}

#[test]
fn sharp_paths_are_stroked_in_pieces() {
    let t = turn();
    assert_eq!(route(false, false, false, 3, true, &[t]), Route::Outline);
    assert_eq!(route(false, false, false, 3, false, &[t]), Route::Pieces);
    let sharp = Turn { sharp: true, ..t };
    assert_eq!(route(false, false, false, 3, true, &[sharp]), Route::Pieces);
    assert_eq!(route(true, true, false, 3, true, &[t, t, t]), Route::Rings);
    assert_eq!(route(true, false, false, 3, true, &[t, t, t]), Route::Pieces);
    assert_eq!(route(true, true, true, 3, true, &[t, t, t]), Route::Pieces);
}

#[test]
fn pieces_come_in_order() {
    let turns = [None, Some(turn()), None];
    let plan = plan_pieces(&[true, true], &turns, false, Cap::Square, Join::Bevel);
    assert_eq!(
        plan,
        vec![
            Piece::Box { segment: 0 },
            Piece::Box { segment: 1 },
            Piece::Corner { point: 1, joint: Joint::Triangle },
            Piece::End { start: true, cap: CapStep::Corners },
            Piece::End { start: false, cap: CapStep::Corners },
        ]
    );
    let closed = plan_pieces(&[true, false], &[Some(turn()), None], true, Cap::Round, Join::Round);
    assert_eq!(
        closed,
        vec![Piece::Box { segment: 0 }, Piece::Corner { point: 0, joint: Joint::Wedge }]
    );
}

#[test]
fn outlines_run_there_and_back() {
    let run = |from: i32, to: i32, bend: Vec<i32>| Run { from, to, bend };
    let there = [run(1, 2, vec![3]), run(4, 5, vec![])];
    let back = [run(7, 8, vec![])];
    assert_eq!(
        outline_open(&there, &mut vec![6], &back, &mut vec![9]),
        vec![1, 2, 3, 4, 5, 6, 7, 8, 9]
    );
    assert_eq!(outline_closed(&there, &back), (vec![1, 2, 3, 4, 5], vec![7, 8]));
}

#[test]
fn codes_name_styles() {
    assert_eq!([1, 2, 3, 0].map(cap_of), [Cap::Butt, Cap::Round, Cap::Square, Cap::Round]);
    assert_eq!([1, 2, 3, 0].map(join_of), [Join::Miter, Join::Round, Join::Bevel, Join::Round]);
    assert_eq!([1, 2].map(fill_rule_of), [FillRule::NonZero, FillRule::EvenOdd]);
}

#[test]
fn written_cells_are_remembered_until_cleared() {
    let mut t = Touched::new(8, 4);
    assert_eq!(t.row_range(), None);
    t.note_rows(1, 3);
    t.note(1, 2, 5);
    t.note(1, 4, 6);
    t.note(2, 8, 8);
    assert_eq!(t.row_range(), Some((1, 3)));
    assert_eq!(t.sweep_range(1), Some((2, 7)));
    assert_eq!(t.clear_range(1), Some((2, 8)));
    assert_eq!(t.sweep_range(2), Some((7, 8)));
    assert_eq!(t.clear_range(2), Some((8, 9)));
    assert_eq!(t.sweep_range(3), None);
    t.reset();
    assert_eq!(t.row_range(), None);
    assert_eq!(t.sweep_range(1), None);
    t.reshape(3, 2);
    assert_eq!((t.width, t.height), (3, 2));
}

#[test]
fn sides_are_walked_there_and_back() {
    let step = |from: usize, to: usize, next: Option<usize>| RunStep { from, to, next };
    assert_eq!(plan_side(3, false, false), vec![step(0, 1, Some(2)), step(1, 2, None)]);
    assert_eq!(plan_side(3, false, true), vec![step(2, 1, Some(0)), step(1, 0, None)]);
    assert_eq!(
        plan_side(3, true, false),
        vec![step(0, 1, Some(2)), step(1, 2, Some(0)), step(2, 0, Some(1))]
    );
    assert_eq!(
        plan_side(3, true, true),
        vec![step(0, 2, Some(1)), step(2, 1, Some(0)), step(1, 0, Some(2))]
    );
    assert_eq!(plan_side(1, false, false), vec![]);
}

#[test]
fn the_outer_side_gets_the_join() {
    let round = Turn { within_limit: true, has_tip: true, parallel: false, ..turn() };
    assert_eq!(round.side_bend_of(true, Join::Round, true), Bend::Arc);
    assert_eq!(round.side_bend_of(false, Join::Round, true), Bend::Tip);
    assert_eq!(round.side_bend_of(false, Join::Round, false), Bend::Nothing);
    assert_eq!(round.side_bend_of(true, Join::Bevel, true), Bend::Nothing);
}

#[test]
fn paths_without_a_segment_draw_nothing() {
    let path = |points: &[Point]| {
        let finite = vec![true; points.len()];
        Cleaned::new(points, &finite, &[], &coincide)
    };
    assert!(!path(&[]).finish(false, false));
    assert!(!path(&[(1.0, 1.0), (1.0, 1.0)]).finish(false, false));
    assert!(path(&[(1.0, 1.0), (2.0, 1.0)]).finish(false, false));
    assert!(!path(&[(1.0, 1.0), (2.0, 1.0)]).finish(true, true));
}
