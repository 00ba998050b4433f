//! Stroking: how the two borders of a path are put together.
//!
//! The points are whatever the caller measures them in. What is decided here is which of them a
//! border keeps, replaces or leaves out, which corner gets which geometry, and how borders and caps
//! become outlines.

use crate::style::{Cap, Join};
use vstd::prelude::*;

verus! {

/// The points of a path without repetitions.
pub struct Cleaned<P> {
    /// The points.
    pub points: Vec<P>,
    /// Whether each point was authored rather than sampled from a curve.
    pub anchors: Vec<bool>,
}

/// True where two points coincide, as `near` has it.
pub open spec fn near_of<P, F: Fn(P, P) -> bool>(near: F, a: P, b: P) -> bool {
    call_ensures(near, (a, b), true)
}

/// True where `near` can be asked of any two points and always answers the same.
pub open spec fn decides<P, F: Fn(P, P) -> bool>(near: F) -> bool {
    &&& forall|a: P, b: P| #[trigger] call_requires(near, (a, b))
    &&& forall|a: P, b: P|
        #[trigger] call_ensures(near, (a, b), true) ==> !call_ensures(near, (a, b), false)
}

/// The points kept of the first `k`: those in the finite plane that do not coincide with the one
/// kept before.
pub open spec fn kept_points<P, F: Fn(P, P) -> bool>(
    points: Seq<P>,
    finite: Seq<bool>,
    near: F,
    k: int,
) -> Seq<P>
    decreases k,
{
    if k <= 0 {
        Seq::empty()
    } else {
        let before = kept_points(points, finite, near, k - 1);
        if !finite[k - 1] || (before.len() > 0 && near_of(near, before.last(), points[k - 1])) {
            before
        } else {
            before.push(points[k - 1])
        }
    }
}

/// The marks of the points kept of the first `k`: a point counts as authored where it, or one that
/// coincides with it, was.
pub open spec fn kept_anchors<P, F: Fn(P, P) -> bool>(
    points: Seq<P>,
    finite: Seq<bool>,
    anchors: Seq<bool>,
    near: F,
    k: int,
) -> Seq<bool>
    decreases k,
{
    if k <= 0 {
        Seq::empty()
    } else {
        let before = kept_anchors(points, finite, anchors, near, k - 1);
        let kept = kept_points(points, finite, near, k - 1);
        if !finite[k - 1] {
            before
        } else if kept.len() > 0 && near_of(near, kept.last(), points[k - 1]) {
            before.update(before.len() - 1, before.last() || authored(anchors, k - 1))
        } else {
            before.push(authored(anchors, k - 1))
        }
    }
}

impl<P: Copy> Cleaned<P> {
    /// True where every point has its mark.
    pub open spec fn wf(self) -> bool {
        self.points@.len() == self.anchors@.len()
    }

    /// Leaves out the points outside the finite plane and those that coincide with the one before.
    /// Points without a mark were authored.
    pub fn new<F: Fn(P, P) -> bool>(points: &[P], finite: &[bool], anchors: &[bool], near: &F) -> (c:
        Cleaned<P>)
        requires
            finite@.len() == points@.len(),
            decides(*near),
        ensures
            c.wf(),
            c.points@ == kept_points(points@, finite@, *near, points@.len() as int),
            c.anchors@ == kept_anchors(points@, finite@, anchors@, *near, points@.len() as int),
    {
        let mut kept: Vec<P> = Vec::new();
        let mut marks: Vec<bool> = Vec::new();
        let mut i: usize = 0;
        while i < points.len()
            invariant
                finite@.len() == points@.len(),
                decides(*near),
                i <= points@.len(),
                kept@ == kept_points(points@, finite@, *near, i as int),
                marks@ == kept_anchors(points@, finite@, anchors@, *near, i as int),
                kept@.len() == marks@.len(),
            decreases points@.len() - i,
        {
            if finite[i] {
                let n: usize = kept.len();
                if n > 0 && near(kept[n - 1], points[i]) {
                    let mark = marks[n - 1] || is_authored(anchors, i);
                    marks.set(n - 1, mark);
                } else {
                    kept.push(points[i]);
                    marks.push(is_authored(anchors, i));
                }
            }
            i += 1;
        }
        Cleaned { points: kept, anchors: marks }
    }

    /// Leaves out the last point of a closed path where it repeats the first. Tells whether there is
    /// anything to stroke: a path of fewer than two points draws nothing.
    pub fn finish(&mut self, closed: bool, meets_start: bool) -> (stroked: bool)
        requires
            old(self).wf(),
        ensures
            final(self).wf(),
            stroked == (final(self).points@.len() >= 2),
            if closed && meets_start && old(self).points@.len() > 1 {
                &&& final(self).points@ == old(self).points@.drop_last()
                &&& final(self).anchors@ == old(self).anchors@.drop_last()
            } else {
                final(self).points@ == old(self).points@ && final(self).anchors@ == old(
                    self,
                ).anchors@
            },
    {
        if closed && meets_start && self.points.len() > 1 {
            let _ = self.points.pop();
            let _ = self.anchors.pop();
        }
        self.points.len() >= 2
    }
}

/// One segment that is stroked.
#[derive(Clone, Copy, Debug, PartialEq, Eq, Structural)]
pub struct SegmentPlan {
    /// The point that it starts at.
    pub start: usize,
    /// The point that it ends at.
    pub end: usize,
    /// True where both of them were authored.
    pub is_line: bool,
    /// True where segments before it were left out.
    pub gap_before: bool,
}

/// Where the segment from `s` ends.
pub open spec fn next_point(s: int, n: int) -> int {
    if s + 1 == n {
        0
    } else {
        s + 1
    }
}

/// Whether a point was authored; one without a mark was.
pub open spec fn authored(anchors: Seq<bool>, i: int) -> bool {
    i >= anchors.len() || anchors[i]
}

/// The segments among the first `k` that are stroked: those that are long enough.
pub open spec fn kept_segments(
    usable: Seq<bool>,
    anchors: Seq<bool>,
    n: int,
    k: int,
) -> Seq<SegmentPlan>
    decreases k,
{
    if k <= 0 {
        Seq::empty()
    } else {
        let before = kept_segments(usable, anchors, n, k - 1);
        if usable[k - 1] {
            before.push(
                SegmentPlan {
                    start: (k - 1) as usize,
                    end: next_point(k - 1, n) as usize,
                    is_line: authored(anchors, k - 1) && authored(anchors, next_point(k - 1, n)),
                    gap_before: gap_at(usable, k - 1),
                },
            )
        } else {
            before
        }
    }
}

/// True where the segment right before the `k`th was left out.
pub open spec fn gap_at(usable: Seq<bool>, k: int) -> bool {
    k > 0 && !usable[k - 1]
}

/// The segments of a path of `n` points that are stroked, and whether segments at the seam of a
/// closed one were left out. `usable` tells for each segment whether it is long enough.
pub fn plan_segments(n: usize, anchors: &[bool], usable: &[bool]) -> (r: (Vec<SegmentPlan>, bool))
    requires
        usable@.len() <= n,
    ensures
        r.0@ == kept_segments(usable@, anchors@, n as int, usable@.len() as int),
        r.1 == (gap_at(usable@, usable@.len() as int) || (r.0@.len() > 0 && r.0@[0].gap_before)),
{
    let count: usize = usable.len();
    let mut segs: Vec<SegmentPlan> = Vec::new();
    let mut gap = false;
    let mut s: usize = 0;
    while s < count
        invariant
            count == usable@.len() <= n,
            s <= count,
            segs@ == kept_segments(usable@, anchors@, n as int, s as int),
            gap == gap_at(usable@, s as int),
        decreases count - s,
    {
        if usable[s] {
            let end: usize = if s + 1 == n {
                0
            } else {
                s + 1
            };
            let is_line = is_authored(anchors, s) && is_authored(anchors, end);
            segs.push(SegmentPlan { start: s, end, is_line, gap_before: gap });
            gap = false;
        } else {
            gap = true;
        }
        s += 1;
    }
    let seam = gap || (segs.len() > 0 && segs[0].gap_before);
    (segs, seam)
}

fn is_authored(anchors: &[bool], i: usize) -> (r: bool)
    ensures
        r == authored(anchors@, i as int),
{
    i >= anchors.len() || anchors[i]
}

/// One side of a stroke, as contracts speak of it.
#[verifier::ext_equal]
pub struct BorderView<P> {
    /// Its points.
    pub points: Seq<P>,
    /// True where the last point may be replaced.
    pub movable: bool,
}

impl<P> BorderView<P> {
    /// The border led to a point. A movable last point is replaced. Otherwise the point is added,
    /// unless it coincides with the last one: then nothing changes.
    pub open spec fn line_to<F: Fn(P, P) -> bool>(self, p: P, movable: bool, near: F) -> BorderView<
        P,
    > {
        if self.movable {
            BorderView {
                points: if self.points.len() > 0 {
                    self.points.drop_last().push(p)
                } else {
                    self.points
                },
                movable,
            }
        } else if self.points.len() > 0 && near_of(near, self.points.last(), p) {
            self
        } else {
            BorderView { points: self.points.push(p), movable }
        }
    }

    /// The border with its last point made to stay.
    pub open spec fn settled(self) -> BorderView<P> {
        BorderView { points: self.points, movable: false }
    }

    /// The border led along an arc.
    pub open spec fn arc(self, arc: Seq<P>) -> BorderView<P> {
        BorderView { points: self.points + arc, movable: false }
    }
}

/// One side of a stroke.
pub struct Border<P> {
    /// Its points.
    pub points: Vec<P>,
    /// True where the last point may be replaced by the next corner.
    pub movable: bool,
}

impl<P> View for Border<P> {
    type V = BorderView<P>;

    open spec fn view(&self) -> BorderView<P> {
        BorderView { points: self.points@, movable: self.movable }
    }
}

impl<P: Copy> Border<P> {
    /// A border that starts at a point.
    pub fn start(first: P) -> (b: Border<P>)
        ensures
            b@ == (BorderView { points: seq![first], movable: false }),
    {
        let mut points: Vec<P> = Vec::new();
        points.push(first);
        assert(points@ =~= seq![first]);
        Border { points, movable: false }
    }

    /// Leads the border to a point.
    pub fn line_to<F: Fn(P, P) -> bool>(&mut self, p: P, movable: bool, near: &F)
        requires
            decides(*near),
        ensures
            final(self)@ == old(self)@.line_to(p, movable, *near),
    {
        let n: usize = self.points.len();
        if self.movable {
            if n > 0 {
                let _ = self.points.pop();
                self.points.push(p);
            }
        } else {
            if n > 0 && near(self.points[n - 1], p) {
                return;
            }
            self.points.push(p);
        }
        self.movable = movable;
    }

    /// Makes the last point stay.
    pub fn settle(&mut self)
        ensures
            final(self)@ == old(self)@.settled(),
    {
        self.movable = false;
    }

    /// Leads the border along an arc.
    pub fn arc_to(&mut self, arc: &[P])
        ensures
            final(self)@ == old(self)@.arc(arc@),
    {
        self.movable = false;
        let mut i: usize = 0;
        while i < arc.len()
            invariant
                i <= arc@.len(),
                !self.movable,
                self.points@ == old(self).points@ + arc@.take(i as int),
            decreases arc@.len() - i,
        {
            self.points.push(arc[i]);
            i += 1;
            assert(self.points@ =~= old(self).points@ + arc@.take(i as int));
        }
        assert(arc@.take(i as int) =~= arc@);
    }
}

/// What is known of a corner.
#[derive(Clone, Copy, Debug, PartialEq, Eq, Structural)]
pub struct Corner {
    /// True where the path does not turn.
    pub straight: bool,
    /// True where the path turns back on itself.
    pub reversal: bool,
    /// True where the path turns towards the first border.
    pub turns_left: bool,
    /// True where the corner was authored.
    pub anchor: bool,
    /// True where segments at the corner were left out.
    pub gap: bool,
    /// True where the turn is as small as between samples of a smooth curve.
    pub gentle: bool,
    /// True where a neighbouring segment is shorter than half the stroke's width.
    pub short: bool,
    /// True where the lines of the inner border meet within both neighbouring segments, and both are
    /// straight.
    pub fits: bool,
    /// True where the lines on the outside meet at all.
    pub has_tip: bool,
    /// True where the tip lies within the miter limit.
    pub within_limit: bool,
    /// True where the next segment is part of a curve.
    pub next_is_curve: bool,
}

/// What the inner border does at a corner.
#[derive(Clone, Copy, Debug, PartialEq, Eq, Structural)]
pub enum InnerStep {
    /// Goes to where the lines meet.
    Meet,
    /// Keeps its end and starts anew on the other side.
    DoubleBack,
}

/// What the outer border does at a corner.
#[derive(Clone, Copy, Debug, PartialEq, Eq, Structural)]
pub enum OuterStep {
    /// Goes on.
    Nothing,
    /// Goes to where the lines meet.
    Meet,
    /// Follows an arc.
    Arc,
    /// Goes to the tip, and on to the next segment's start where that is part of a curve.
    Tip {
        /// True where it goes on to the next segment's start.
        then_start: bool,
    },
    /// Keeps its end and starts anew on the other side.
    Bevel,
}

impl Corner {
    /// True for a turn between samples of a smooth curve.
    pub open spec fn smooth(self) -> bool {
        !self.anchor && self.gentle && !self.reversal && !self.gap
    }

    /// True for a sharp turn inside a curve, which is rounded whatever the join.
    pub open spec fn cusp(self) -> bool {
        !self.anchor && !self.gap && !self.gentle && self.short
    }

    /// True where the first border is the inner one.
    pub open spec fn first_is_inner(self) -> bool {
        self.reversal || self.turns_left
    }

    /// What the inner border does; it can go to where the lines meet only where its last point may be
    /// replaced.
    pub open spec fn inner(self, movable: bool) -> InnerStep {
        if !self.reversal && movable && self.fits {
            InnerStep::Meet
        } else {
            InnerStep::DoubleBack
        }
    }

    /// What the outer border does.
    pub open spec fn outer(self, join: Join) -> OuterStep {
        if self.smooth() {
            if self.has_tip {
                OuterStep::Meet
            } else {
                OuterStep::Nothing
            }
        } else if self.cusp() || join == Join::Round {
            OuterStep::Arc
        } else if join == Join::Miter && self.has_tip && self.within_limit {
            OuterStep::Tip { then_start: self.next_is_curve }
        } else {
            OuterStep::Bevel
        }
    }

    /// Decides what the outer border does.
    pub fn outer_step(self, join: Join) -> (s: OuterStep)
        ensures
            s == self.outer(join),
    {
        let smooth = !self.anchor && self.gentle && !self.reversal && !self.gap;
        let cusp = !self.anchor && !self.gap && !self.gentle && self.short;
        if smooth {
            return if self.has_tip {
                OuterStep::Meet
            } else {
                OuterStep::Nothing
            };
        }
        if cusp {
            return OuterStep::Arc;
        }
        match join {
            Join::Round => OuterStep::Arc,
            Join::Miter => {
                if self.has_tip && self.within_limit {
                    OuterStep::Tip { then_start: self.next_is_curve }
                } else {
                    OuterStep::Bevel
                }
            },
            Join::Bevel => OuterStep::Bevel,
        }
    }
}

/// The points that a corner may need.
pub struct CornerPoints<P> {
    /// Where the inner lines meet.
    pub inner_meet: P,
    /// Where the next segment's inner line starts.
    pub inner_start: P,
    /// Where the outer lines meet.
    pub outer_meet: P,
    /// Where the next segment's outer line starts.
    pub outer_start: P,
    /// The arc round the outside.
    pub arc: Vec<P>,
}

/// A corner with what is known of it and the points it may need.
pub struct CornerData<P> {
    /// What is known of it.
    pub facts: Corner,
    /// Its points.
    pub points: CornerPoints<P>,
}

/// The inner border after a corner.
pub open spec fn inner_after<P, F: Fn(P, P) -> bool>(
    b: BorderView<P>,
    c: CornerData<P>,
    near: F,
) -> BorderView<P> {
    match c.facts.inner(b.movable) {
        InnerStep::Meet => b.line_to(c.points.inner_meet, false, near),
        InnerStep::DoubleBack => b.settled().line_to(c.points.inner_start, false, near),
    }
}

/// The outer border after a corner.
pub open spec fn outer_after<P, F: Fn(P, P) -> bool>(
    b: BorderView<P>,
    c: CornerData<P>,
    join: Join,
    near: F,
) -> BorderView<P> {
    match c.facts.outer(join) {
        OuterStep::Nothing => b,
        OuterStep::Meet => b.line_to(c.points.outer_meet, false, near),
        OuterStep::Arc => b.arc(c.points.arc@),
        OuterStep::Tip { then_start } => {
            let tip = b.line_to(c.points.outer_meet, false, near);
            if then_start {
                tip.line_to(c.points.outer_start, false, near)
            } else {
                tip
            }
        },
        OuterStep::Bevel => b.settled().line_to(c.points.outer_start, false, near),
    }
}

/// The two borders after a corner. Where the path does not turn nothing happens.
pub open spec fn corner_after<P, F: Fn(P, P) -> bool>(
    b: (BorderView<P>, BorderView<P>),
    c: CornerData<P>,
    join: Join,
    near: F,
) -> (BorderView<P>, BorderView<P>) {
    if c.facts.straight {
        b
    } else if c.facts.first_is_inner() {
        (inner_after(b.0, c, near), outer_after(b.1, c, join, near))
    } else {
        (outer_after(b.0, c, join, near), inner_after(b.1, c, near))
    }
}

fn inner_corner<P: Copy, F: Fn(P, P) -> bool>(b: &mut Border<P>, c: &CornerData<P>, near: &F)
    requires
        decides(*near),
    ensures
        final(b)@ == inner_after(old(b)@, *c, *near),
{
    if !c.facts.reversal && b.movable && c.facts.fits {
        b.line_to(c.points.inner_meet, false, near);
    } else {
        b.settle();
        b.line_to(c.points.inner_start, false, near);
    }
}

fn outer_corner<P: Copy, F: Fn(P, P) -> bool>(
    b: &mut Border<P>,
    c: &CornerData<P>,
    join: Join,
    near: &F,
)
    requires
        decides(*near),
    ensures
        final(b)@ == outer_after(old(b)@, *c, join, *near),
{
    match c.facts.outer_step(join) {
        OuterStep::Nothing => {},
        OuterStep::Meet => b.line_to(c.points.outer_meet, false, near),
        OuterStep::Arc => b.arc_to(c.points.arc.as_slice()),
        OuterStep::Tip { then_start } => {
            b.line_to(c.points.outer_meet, false, near);
            if then_start {
                b.line_to(c.points.outer_start, false, near);
            }
        },
        OuterStep::Bevel => {
            b.settle();
            b.line_to(c.points.outer_start, false, near);
        },
    }
}

/// Takes both borders round a corner.
pub fn process_corner<P: Copy, F: Fn(P, P) -> bool>(
    first: &mut Border<P>,
    second: &mut Border<P>,
    c: &CornerData<P>,
    join: Join,
    near: &F,
)
    requires
        decides(*near),
    ensures
        (final(first)@, final(second)@) == corner_after((old(first)@, old(second)@), *c, join, *near),
{
    if c.facts.straight {
        return;
    }
    if c.facts.reversal || c.facts.turns_left {
        inner_corner(first, c, near);
        outer_corner(second, c, join, near);
    } else {
        outer_corner(first, c, join, near);
        inner_corner(second, c, near);
    }
}

/// A path that turns back on itself has no tip for its outer border to go to, whatever the join and
/// the miter limit: it is rounded or cut off.
pub proof fn law_reversal_has_no_tip(c: Corner, join: Join)
    requires
        c.reversal,
        !c.has_tip,
    ensures
        c.outer(join) is Arc || c.outer(join) is Bevel,
{
}

/// A corner never takes back a point that a border has settled on: what was there before, but for a
/// movable last point, stays.
pub proof fn law_corners_only_add<P, F: Fn(P, P) -> bool>(
    b: (BorderView<P>, BorderView<P>),
    c: CornerData<P>,
    join: Join,
    near: F,
)
    ensures
        keeps_settled(b.0, corner_after(b, c, join, near).0),
        keeps_settled(b.1, corner_after(b, c, join, near).1),
{
}

/// True where every point of a border but a movable last one is still there.
pub open spec fn keeps_settled<P>(before: BorderView<P>, after: BorderView<P>) -> bool {
    let n = if before.movable && before.points.len() > 0 {
        before.points.len() - 1
    } else {
        before.points.len() as int
    };
    &&& after.points.len() >= n
    &&& forall|i: int| 0 <= i < n ==> #[trigger] after.points[i] == before.points[i]
}

/// The borders after the first `k` segments. A corner stands before every segment but the first.
pub open spec fn borders_after<P, F: Fn(P, P) -> bool>(
    start: (P, P),
    ends: Seq<(P, P)>,
    corners: Seq<CornerData<P>>,
    join: Join,
    near: F,
    k: int,
) -> (BorderView<P>, BorderView<P>)
    decreases k,
{
    if k <= 0 {
        (
            BorderView { points: seq![start.0], movable: false },
            BorderView { points: seq![start.1], movable: false },
        )
    } else {
        let before = borders_after(start, ends, corners, join, near, k - 1);
        let turned = if k > 1 {
            corner_after(before, corners[k - 2], join, near)
        } else {
            before
        };
        (
            turned.0.line_to(ends[k - 1].0, true, near),
            turned.1.line_to(ends[k - 1].1, true, near),
        )
    }
}

/// Both borders of a path: its segments' ends beside the path, and the corners between them. A closed
/// path has one corner more, where it returns to its first segment.
pub fn borders<P: Copy, F: Fn(P, P) -> bool>(
    start: (P, P),
    ends: &[(P, P)],
    corners: &[CornerData<P>],
    closed: bool,
    join: Join,
    near: &F,
) -> (r: (Border<P>, Border<P>))
    requires
        decides(*near),
        ends@.len() > 0,
        corners@.len() == (if closed {
            ends@.len() as int
        } else {
            ends@.len() - 1
        }),
    ensures
        ({
            let all = borders_after(start, ends@, corners@, join, *near, ends@.len() as int);
            (r.0@, r.1@) == (if closed {
                corner_after(all, corners@.last(), join, *near)
            } else {
                all
            })
        }),
{
    let mut first = Border::start(start.0);
    let mut second = Border::start(start.1);
    let mut k: usize = 0;
    while k < ends.len()
        invariant
            decides(*near),
            ends@.len() > 0,
            corners@.len() >= ends@.len() - 1,
            k <= ends@.len(),
            (first@, second@) == borders_after(start, ends@, corners@, join, *near, k as int),
        decreases ends@.len() - k,
    {
        if k > 0 {
            process_corner(&mut first, &mut second, &corners[k - 1], join, near);
        }
        let end = ends[k];
        first.line_to(end.0, true, near);
        second.line_to(end.1, true, near);
        k += 1;
    }
    if closed {
        process_corner(&mut first, &mut second, &corners[corners.len() - 1], join, near);
    }
    (first, second)
}

/// A border closed to a ring: its start is where its last corner led, and its inside may run the
/// other way round. Fewer than three points are no ring.
pub open spec fn ring_of<P>(points: Seq<P>, reverse: bool) -> Seq<P> {
    if points.len() < 3 {
        Seq::empty()
    } else {
        let inside = points.subrange(1, points.len() - 1);
        seq![points.last()] + (if reverse {
            inside.reverse()
        } else {
            inside
        })
    }
}

/// Closes a border to a ring.
pub fn ring_close<P: Copy>(points: &[P], reverse: bool) -> (ring: Vec<P>)
    ensures
        ring@ == ring_of(points@, reverse),
{
    let n: usize = points.len();
    let mut ring: Vec<P> = Vec::new();
    if n < 3 {
        assert(ring@ =~= ring_of(points@, reverse));
        return ring;
    }
    ring.push(points[n - 1]);
    let ghost inside = points@.subrange(1, n - 1);
    let mut i: usize = 1;
    while i < n - 1
        invariant
            n == points@.len(),
            n >= 3,
            1 <= i <= n - 1,
            inside == points@.subrange(1, n - 1),
            ring@ == seq![points@.last()] + (if reverse {
                inside.reverse()
            } else {
                inside
            }).take(i - 1),
        decreases n - i,
    {
        let at: usize = if reverse {
            n - 1 - i
        } else {
            i
        };
        ring.push(points[at]);
        i += 1;
        assert(ring@ =~= seq![points@.last()] + (if reverse {
            inside.reverse()
        } else {
            inside
        }).take(i - 1));
    }
    assert(ring@ =~= ring_of(points@, reverse));
    ring
}

/// Points in the opposite order.
pub fn reversed<P: Copy>(points: &[P]) -> (r: Vec<P>)
    ensures
        r@ == points@.reverse(),
{
    let mut r: Vec<P> = Vec::new();
    let mut i: usize = points.len();
    while i > 0
        invariant
            i <= points@.len(),
            r@ == points@.reverse().take(points@.len() - i),
        decreases i,
    {
        i -= 1;
        r.push(points[i]);
        assert(r@ =~= points@.reverse().take(points@.len() - i));
    }
    assert(r@ =~= points@.reverse());
    r
}

/// The two rings of a closed path's stroke. The first border runs as it was made and the second the
/// other way round, so that the band between them winds the same way whichever way the path runs;
/// then both are turned.
pub fn closed_rings<P: Copy>(first: &[P], second: &[P]) -> (r: (Vec<P>, Vec<P>))
    ensures
        r.0@ == ring_of(first@, false).reverse(),
        r.1@ == ring_of(second@, true).reverse(),
{
    let a = ring_close(first, false);
    let b = ring_close(second, true);
    (reversed(a.as_slice()), reversed(b.as_slice()))
}

/// Which of two rings are kept.
pub open spec fn rings_kept(drop_inner: bool, first_is_larger: bool) -> (bool, bool) {
    if !drop_inner {
        (true, true)
    } else {
        (first_is_larger, !first_is_larger)
    }
}

/// Which of two rings are kept: both, or the larger one where the band leaves no hole.
pub fn keep_rings(drop_inner: bool, first_is_larger: bool) -> (r: (bool, bool))
    ensures
        r == rings_kept(drop_inner, first_is_larger),
        r.0 || r.1,
{
    let first = !drop_inner || first_is_larger;
    (first, !drop_inner || !first)
}

/// The outline of an open path's stroke: one border, the cap at the end, the other border backwards
/// and the cap at the start, turned.
pub fn open_outline<P: Copy>(first: Vec<P>, end_cap: &mut Vec<P>, second: &[P], start_cap: &mut Vec<
    P,
>) -> (r: Vec<P>)
    ensures
        r@ == (first@ + old(end_cap)@ + second@.reverse() + old(start_cap)@).reverse(),
        final(end_cap)@.len() == 0,
        final(start_cap)@.len() == 0,
{
    let mut all = first;
    all.append(end_cap);
    let mut back = reversed(second);
    all.append(&mut back);
    all.append(start_cap);
    reversed(all.as_slice())
}

/// Those of two rings that are kept: of each whether it is wanted and has an inside.
pub open spec fn kept_rings<P>(first: Seq<P>, second: Seq<P>, keep: (bool, bool)) -> Seq<Seq<P>> {
    let a = if keep.0 && first.len() >= 3 {
        seq![first]
    } else {
        Seq::empty()
    };
    if keep.1 && second.len() >= 3 {
        a.push(second)
    } else {
        a
    }
}

/// The contours of a closed path's stroke. Where the band leaves no hole, only the larger ring is
/// kept; a ring of fewer than three points never is.
pub fn closed_contours<P: Copy>(
    first: Vec<P>,
    second: Vec<P>,
    drop_inner: bool,
    first_is_larger: bool,
) -> (r: Vec<Vec<P>>)
    ensures
        r@.map_values(|v: Vec<P>| v@) == kept_rings(
            first@,
            second@,
            rings_kept(drop_inner, first_is_larger),
        ),
{
    let keep = keep_rings(drop_inner, first_is_larger);
    let ghost a = first@;
    let ghost b = second@;
    let mut r: Vec<Vec<P>> = Vec::new();
    if keep.0 && first.len() >= 3 {
        r.push(first);
    }
    if keep.1 && second.len() >= 3 {
        r.push(second);
    }
    assert(r@.map_values(|v: Vec<P>| v@) =~= kept_rings(
        a,
        b,
        rings_kept(drop_inner, first_is_larger),
    ));
    r
}

/// The contours of an open path's stroke: its outline, where that has an inside.
pub fn open_contours<P: Copy>(outline: Vec<P>) -> (r: Vec<Vec<P>>)
    ensures
        r@ == (if outline@.len() >= 3 {
            seq![outline]
        } else {
            Seq::empty()
        }),
{
    let mut r: Vec<Vec<P>> = Vec::new();
    let ghost o = outline;
    if outline.len() >= 3 {
        r.push(outline);
        assert(r@ =~= seq![o]);
    }
    r
}

/// How an end of an open path is closed.
#[derive(Clone, Copy, Debug, PartialEq, Eq, Structural)]
pub enum CapStep {
    /// The borders are joined by a line.
    Nothing,
    /// Two corners are put ahead of the end.
    Corners,
    /// A half circle is put ahead of the end.
    HalfCircle,
}

/// How an end of an open path is closed for a cap.
pub open spec fn step_of(cap: Cap) -> CapStep {
    match cap {
        Cap::Butt => CapStep::Nothing,
        Cap::Square => CapStep::Corners,
        Cap::Round => CapStep::HalfCircle,
    }
}

/// Decides how an end of an open path is closed.
pub fn cap_step(cap: Cap) -> (s: CapStep)
    ensures
        s == step_of(cap),
{
    match cap {
        Cap::Butt => CapStep::Nothing,
        Cap::Square => CapStep::Corners,
        Cap::Round => CapStep::HalfCircle,
    }
}

/// The points that a step puts ahead of an end, each by how far it lies ahead of the end point and how
/// far aside, for half a width of `r`.
pub open spec fn puts(step: CapStep, r: int, ahead: int, aside: int) -> bool {
    match step {
        CapStep::Nothing => false,
        CapStep::Corners => ahead == r && (aside == r || aside == -r),
        CapStep::HalfCircle => ahead >= 0 && ahead * ahead + aside * aside == r * r,
    }
}

/// Every cap closes an end in its own way: a butt cap puts no point there, a round one only points half
/// a width from the end point, and a square one the two corners half a width ahead and aside.
pub proof fn law_caps_close_ends_in_their_own_way(a: Cap, b: Cap, r: int, ahead: int, aside: int)
    requires
        r > 0,
    ensures
        step_of(a) == step_of(b) <==> a == b,
        a is Butt ==> !puts(step_of(a), r, ahead, aside),
        a is Round && puts(step_of(a), r, ahead, aside) ==> ahead * ahead + aside * aside == r * r,
        a is Round ==> puts(step_of(a), r, r, 0) && puts(step_of(a), r, 0, r),
        a is Square && puts(step_of(a), r, ahead, aside) ==> ahead == r && aside * aside == r * r,
        a is Square ==> puts(step_of(a), r, r, r) && puts(step_of(a), r, r, -r),
{
    if a is Square && aside == -r {
        assert(aside * aside == r * r) by (nonlinear_arith)
            requires
                aside == -r,
        ;
    }
}

/// At a corner that was authored the three joins differ wherever there is a tip within the limit: miter
/// goes to it, round follows an arc, bevel cuts it off.
pub proof fn law_joins_differ_at_authored_corners(c: Corner, join: Join)
    requires
        c.anchor,
    ensures
        c.outer(join) is Arc <==> join is Round,
        c.outer(join) is Tip <==> join is Miter && c.has_tip && c.within_limit,
        c.outer(join) is Bevel <==> !(c.outer(join) is Arc) && !(c.outer(join) is Tip),
        c.outer(join) matches OuterStep::Tip { then_start } ==> then_start == c.next_is_curve,
{
}

/// Beyond the limit, or without a tip, a mitered corner is a beveled one.
pub proof fn law_miters_beyond_the_limit_are_beveled(c: Corner)
    requires
        !c.within_limit || !c.has_tip,
    ensures
        c.outer(Join::Miter) == c.outer(Join::Bevel),
{
}

/// Inside a curve the join does not show: between samples of a smooth one the border goes on to where
/// its lines meet, and round a sharp turn with a short neighbour it follows an arc. Elsewhere a corner
/// inside a curve is joined as an authored one is.
pub proof fn law_curves_hide_the_join(c: Corner, a: Join, b: Join)
    requires
        !c.anchor,
        !c.gap,
    ensures
        c.gentle && !c.reversal ==> c.outer(a) == c.outer(b) && (c.outer(a) is Meet <==> c.has_tip)
            && (c.outer(a) is Nothing <==> !c.has_tip),
        !c.gentle && c.short ==> c.outer(a) is Arc,
        !(c.gentle && !c.reversal) && !(!c.gentle && c.short) ==> c.outer(a) == (Corner {
            anchor: true,
            ..c
        }).outer(a),
{
}

/// Where segments were left out a corner is joined as an authored one is.
pub proof fn law_gaps_are_joined_like_authored_corners(c: Corner, join: Join)
    requires
        c.gap,
    ensures
        c.outer(join) == (Corner { anchor: true, ..c }).outer(join),
{
}

/// The inner border goes to where its lines meet only where the path does not turn back, its last point
/// may be replaced and the lines meet within both segments; else it keeps its end.
pub proof fn law_inner_borders_meet_only_where_they_fit(c: Corner, movable: bool)
    ensures
        c.inner(movable) is Meet <==> movable && c.fits && !c.reversal,
        c.inner(movable) is DoubleBack <==> !(c.inner(movable) is Meet),
{
}

/// A straight corner changes no border. At any other one border is the inner one and the other the outer
/// one: a turn to the first border makes that the inner one, and so does turning back.
pub proof fn law_the_outer_border_gets_the_join<P, F: Fn(P, P) -> bool>(
    b: (BorderView<P>, BorderView<P>),
    c: CornerData<P>,
    near: F,
    x: Join,
    y: Join,
)
    ensures
        c.facts.straight ==> corner_after(b, c, x, near) == b,
        !c.facts.straight && (c.facts.turns_left || c.facts.reversal) ==> {
            &&& corner_after(b, c, x, near).0 == corner_after(b, c, y, near).0
            &&& corner_after(b, c, x, near).0 == inner_after(b.0, c, near)
            &&& corner_after(b, c, x, near).1 == outer_after(b.1, c, x, near)
        },
        !c.facts.straight && !c.facts.turns_left && !c.facts.reversal ==> {
            &&& corner_after(b, c, x, near).1 == corner_after(b, c, y, near).1
            &&& corner_after(b, c, x, near).1 == inner_after(b.1, c, near)
            &&& corner_after(b, c, x, near).0 == outer_after(b.0, c, x, near)
        },
{
}

/// Where a border ends after a corner, on the inside: where the lines meet, or where the next segment's
/// line starts unless it stood there already.
pub proof fn law_inner_borders_end_at_the_next_line<P, F: Fn(P, P) -> bool>(
    b: BorderView<P>,
    c: CornerData<P>,
    near: F,
)
    requires
        b.points.len() > 0,
    ensures
        ({
            let after = inner_after(b, c, near);
            &&& !after.movable
            &&& b.movable && c.facts.fits && !c.facts.reversal ==> after.points
                == b.points.drop_last().push(c.points.inner_meet)
            &&& !(b.movable && c.facts.fits && !c.facts.reversal) ==> if near_of(
                near,
                b.points.last(),
                c.points.inner_start,
            ) {
                after.points == b.points
            } else {
                after.points == b.points.push(c.points.inner_start)
            }
        }),
{
}

/// Where a border ends after a corner, on the outside: on the arc, at the tip, at the start of the next
/// segment's line, or where its lines meet, as the step has it.
pub proof fn law_outer_borders_follow_their_step<P, F: Fn(P, P) -> bool>(
    b: BorderView<P>,
    c: CornerData<P>,
    join: Join,
    near: F,
)
    requires
        b.points.len() > 0,
        b.movable,
    ensures
        ({
            let after = outer_after(b, c, join, near);
            let step = c.facts.outer(join);
            &&& step is Nothing ==> after == b
            &&& step is Meet ==> after.points == b.points.drop_last().push(c.points.outer_meet)
            &&& step is Arc ==> after.points == b.points + c.points.arc@
            &&& step is Bevel && !near_of(near, b.points.last(), c.points.outer_start)
                ==> after.points == b.points.push(c.points.outer_start)
            &&& step is Bevel && near_of(near, b.points.last(), c.points.outer_start)
                ==> after.points == b.points
            &&& step matches OuterStep::Tip { then_start } ==> {
                let tip = b.points.drop_last().push(c.points.outer_meet);
                after.points == (if then_start && !near_of(
                    near,
                    c.points.outer_meet,
                    c.points.outer_start,
                ) {
                    tip.push(c.points.outer_start)
                } else {
                    tip
                })
            }
            &&& !(step is Nothing) ==> !after.movable
        }),
{
}

/// Leading a border to a point replaces a movable last point, and else adds the point, once.
pub proof fn law_lines_end_where_they_lead<P, F: Fn(P, P) -> bool>(
    b: BorderView<P>,
    p: P,
    movable: bool,
    near: F,
)
    requires
        b.points.len() > 0,
    ensures
        ({
            let after = b.line_to(p, movable, near);
            &&& b.movable ==> after.points.len() == b.points.len() && after.points.last() == p
                && after.movable == movable
            &&& !b.movable && !near_of(near, b.points.last(), p) ==> after.points.len()
                == b.points.len() + 1 && after.points.last() == p && after.movable == movable
            &&& !b.movable && near_of(near, b.points.last(), p) ==> after == b
            &&& forall|i: int|
                0 <= i < b.points.len() - 1 ==> #[trigger] after.points[i] == b.points[i]
        }),
        b.arc(seq![p]).points.last() == p,
        !b.arc(seq![p]).movable,
        b.settled().points == b.points,
        !b.settled().movable,
{
}

/// A ring has every point of its border but the first, each once: the last one leads, and the others
/// follow in their order, or in the opposite one.
pub proof fn law_rings_keep_every_corner<P>(points: Seq<P>, i: int)
    ensures
        points.len() < 3 ==> ring_of(points, false).len() == 0 && ring_of(points, true).len() == 0,
        points.len() >= 3 ==> {
            &&& ring_of(points, false).len() == points.len() - 1
            &&& ring_of(points, true).len() == points.len() - 1
            &&& ring_of(points, false)[0] == points.last()
            &&& ring_of(points, true)[0] == points.last()
            &&& 1 <= i < points.len() - 1 ==> ring_of(points, false)[i] == points[i] && ring_of(
                points,
                true,
            )[i] == points[points.len() - 1 - i]
        },
{
}

/// Both rings are kept where there is a hole between them; else only the larger one is.
pub proof fn law_the_larger_ring_is_kept<P>(first: Seq<P>, second: Seq<P>, larger: bool)
    requires
        first.len() >= 3,
        second.len() >= 3,
    ensures
        kept_rings(first, second, rings_kept(false, larger)) == seq![first, second],
        kept_rings(first, second, rings_kept(true, true)) == seq![first],
        kept_rings(first, second, rings_kept(true, false)) == seq![second],
{
    assert(kept_rings(first, second, rings_kept(false, larger)) =~= seq![first, second]);
    assert(kept_rings(first, second, rings_kept(true, false)) =~= seq![second]);
}

/// A ring of fewer than three points is never kept.
pub proof fn law_rings_have_an_inside<P>(first: Seq<P>, second: Seq<P>, keep: (bool, bool), i: int)
    requires
        0 <= i < kept_rings(first, second, keep).len(),
    ensures
        kept_rings(first, second, keep)[i].len() >= 3,
        kept_rings(first, second, keep)[i] == first || kept_rings(first, second, keep)[i] == second,
{
}

/// Cleaning a path keeps only finite points, never two in a row that coincide, and loses no other: the
/// first finite point is kept, and every later finite one is kept or coincides with the one kept last.
pub proof fn law_cleaned_paths_do_not_repeat<P, F: Fn(P, P) -> bool>(
    points: Seq<P>,
    finite: Seq<bool>,
    near: F,
    k: int,
    i: int,
)
    requires
        0 <= k <= points.len(),
        finite.len() == points.len(),
    ensures
        kept_points(points, finite, near, k).len() <= k,
        0 < i < kept_points(points, finite, near, k).len() ==> !near_of(
            near,
            kept_points(points, finite, near, k)[i - 1],
            kept_points(points, finite, near, k)[i],
        ),
        0 <= i < kept_points(points, finite, near, k).len() ==> exists|j: int|
            0 <= j < k && #[trigger] finite[j] && points[j] == kept_points(points, finite, near, k)[i],
        k > 0 && finite[k - 1] ==> kept_points(points, finite, near, k).len() > 0 && (kept_points(
            points,
            finite,
            near,
            k,
        ).last() == points[k - 1] || near_of(
            near,
            kept_points(points, finite, near, k).last(),
            points[k - 1],
        )),
        k > 0 && !finite[k - 1] ==> kept_points(points, finite, near, k) == kept_points(
            points,
            finite,
            near,
            k - 1,
        ),
        k > 0 ==> kept_points(points, finite, near, k - 1).len() <= kept_points(
            points,
            finite,
            near,
            k,
        ).len(),
    decreases k,
{
    if k > 0 {
        let before = kept_points(points, finite, near, k - 1);
        let after = kept_points(points, finite, near, k);
        law_cleaned_paths_do_not_repeat(points, finite, near, k - 1, i);
        if 0 <= i < after.len() {
            if i < before.len() {
                assert(after[i] == before[i]);
                let j = choose|j: int|
                    0 <= j < k - 1 && #[trigger] finite[j] && points[j] == before[i];
                assert(finite[j]);
            } else {
                assert(finite[k - 1]);
            }
        }
    }
}

/// A kept point counts as authored where the path's own point was, and taking in one that coincides
/// with it can only make it so.
pub proof fn law_marks_follow_their_points<P, F: Fn(P, P) -> bool>(
    points: Seq<P>,
    finite: Seq<bool>,
    anchors: Seq<bool>,
    near: F,
    k: int,
)
    requires
        0 < k <= points.len(),
        finite.len() == points.len(),
    ensures
        kept_anchors(points, finite, anchors, near, k).len() == kept_points(
            points,
            finite,
            near,
            k,
        ).len(),
        finite[k - 1] && (k - 1 >= anchors.len() || anchors[k - 1]) ==> kept_anchors(
            points,
            finite,
            anchors,
            near,
            k,
        ).last(),
        kept_points(points, finite, near, k).len() > kept_points(points, finite, near, k - 1).len()
            && k - 1 < anchors.len() && !anchors[k - 1] ==> !kept_anchors(
            points,
            finite,
            anchors,
            near,
            k,
        ).last(),
        forall|i: int|
            0 <= i < kept_anchors(points, finite, anchors, near, k - 1).len()
                && #[trigger] kept_anchors(points, finite, anchors, near, k - 1)[i] ==> kept_anchors(
                points,
                finite,
                anchors,
                near,
                k,
            )[i],
    decreases k,
{
    lemma_marks_count(points, finite, anchors, near, k - 1);
    lemma_marks_count(points, finite, anchors, near, k);
}

proof fn lemma_marks_count<P, F: Fn(P, P) -> bool>(
    points: Seq<P>,
    finite: Seq<bool>,
    anchors: Seq<bool>,
    near: F,
    k: int,
)
    ensures
        kept_anchors(points, finite, anchors, near, k).len() == kept_points(
            points,
            finite,
            near,
            k,
        ).len(),
    decreases k,
{
    if k > 0 {
        lemma_marks_count(points, finite, anchors, near, k - 1);
    }
}

/// The segments that are stroked are the usable ones, in their order: each runs from its own point to
/// the next one round the path, is a line where both were authored, and stands behind a gap where the
/// one right before it was not usable.
pub proof fn law_usable_segments_are_stroked(
    usable: Seq<bool>,
    anchors: Seq<bool>,
    n: int,
    k: int,
    s: int,
)
    requires
        0 <= s < k <= usable.len() <= n <= usize::MAX,
    ensures
        usable[s] <==> exists|i: int|
            0 <= i < kept_segments(usable, anchors, n, k).len() && (#[trigger] kept_segments(
                usable,
                anchors,
                n,
                k,
            )[i]).start == s,
        forall|i: int|
            0 <= i < kept_segments(usable, anchors, n, k).len() ==> {
                let seg = #[trigger] kept_segments(usable, anchors, n, k)[i];
                &&& seg.start < k
                &&& usable[seg.start as int]
                &&& seg.end == seg.start + 1 || (seg.end == 0 && seg.start == n - 1)
                &&& seg.end < n
                &&& seg.is_line <==> (seg.start >= anchors.len() || anchors[seg.start as int]) && (
                seg.end >= anchors.len() || anchors[seg.end as int])
                &&& seg.gap_before <==> seg.start > 0 && !usable[seg.start - 1]
            },
        forall|i: int, j: int|
            0 <= i < j < kept_segments(usable, anchors, n, k).len() ==> (#[trigger] kept_segments(
                usable,
                anchors,
                n,
                k,
            )[i]).start < (#[trigger] kept_segments(usable, anchors, n, k)[j]).start,
    decreases k,
{
    let all = kept_segments(usable, anchors, n, k);
    let before = kept_segments(usable, anchors, n, k - 1);
    if k > 1 {
        law_usable_segments_are_stroked(usable, anchors, n, k - 1, if s < k - 1 {
            s
        } else {
            0
        });
    } else {
        assert(before.len() == 0);
    }
    if s < k - 1 {
        if usable[s] {
            let i = choose|i: int| 0 <= i < before.len() && (#[trigger] before[i]).start == s;
            assert(all[i] == before[i]);
        }
    } else if usable[s] {
        assert(all[all.len() - 1].start == s);
    }
    assert forall|i: int| 0 <= i < all.len() implies (#[trigger] all[i]).start < k && usable[all[i].start as int] by {
        if i < before.len() {
            assert(all[i] == before[i]);
        }
    }
    assert forall|i: int, j: int| 0 <= i < j < all.len() implies (#[trigger] all[i]).start < (
    #[trigger] all[j]).start by {
        assert(all[i] == before[i]);
        if j < before.len() {
            assert(all[j] == before[j]);
        }
    }
    assert forall|i: int| 0 <= i < all.len() implies {
        let seg = #[trigger] all[i];
        &&& seg.end == seg.start + 1 || (seg.end == 0 && seg.start == n - 1)
        &&& seg.end < n
        &&& seg.is_line <==> (seg.start >= anchors.len() || anchors[seg.start as int]) && (seg.end
            >= anchors.len() || anchors[seg.end as int])
        &&& seg.gap_before <==> seg.start > 0 && !usable[seg.start - 1]
    } by {
        if i < before.len() {
            assert(all[i] == before[i]);
        }
    }
}

proof fn lemma_borders_of_a_beginning<P, F: Fn(P, P) -> bool>(
    start: (P, P),
    ends: Seq<(P, P)>,
    corners: Seq<CornerData<P>>,
    join: Join,
    near: F,
    end: (P, P),
    corner: CornerData<P>,
    k: int,
)
    requires
        k <= ends.len(),
        k <= corners.len() + 1,
    ensures
        borders_after(start, ends.push(end), corners.push(corner), join, near, k) == borders_after(
            start,
            ends,
            corners,
            join,
            near,
            k,
        ),
    decreases k,
{
    if k > 0 {
        lemma_borders_of_a_beginning(start, ends, corners, join, near, end, corner, k - 1);
    }
}

/// A path that goes on behind its last segment turns at the corner there, and then both borders go on to
/// the ends of the new segment, each on its own side. The first segment goes on from where the borders
/// start, without a corner.
pub proof fn law_corners_stand_between_segments<P, F: Fn(P, P) -> bool>(
    start: (P, P),
    ends: Seq<(P, P)>,
    corners: Seq<CornerData<P>>,
    join: Join,
    near: F,
    end: (P, P),
    corner: CornerData<P>,
)
    requires
        ends.len() > 0,
        corners.len() + 1 == ends.len(),
    ensures
        ({
            let before = borders_after(start, ends, corners, join, near, ends.len() as int);
            let turned = corner_after(before, corner, join, near);
            let after = borders_after(
                start,
                ends.push(end),
                corners.push(corner),
                join,
                near,
                ends.len() as int + 1,
            );
            &&& after.0 == turned.0.line_to(end.0, true, near)
            &&& after.1 == turned.1.line_to(end.1, true, near)
        }),
        ({
            let first = borders_after(start, seq![end], Seq::empty(), join, near, 1);
            let (one, other) = (
                BorderView { points: seq![start.0], movable: false },
                BorderView { points: seq![start.1], movable: false },
            );
            &&& first.0 == one.line_to(end.0, true, near)
            &&& first.1 == other.line_to(end.1, true, near)
        }),
{
    let n = ends.len() as int;
    lemma_borders_of_a_beginning(start, ends, corners, join, near, end, corner, n);
    assert(ends.push(end)[n] == end);
    assert(corners.push(corner)[n - 1] == corner);
    reveal_with_fuel(borders_after, 2);
}

} // verus!
