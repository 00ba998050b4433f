//! Stroking piece by piece: which polygons cover a path's stroke.
//!
//! A stroke is a box along every segment, a joint at every corner and a cap at every open end. Where
//! no corner is too sharp the pieces are merged into one outline, or into two rings.

use crate::style::{Cap, Join};
use crate::stroke::CapStep;
use crate::stroke;
use vstd::prelude::*;

verus! {

/// What is known of a corner.
#[derive(Clone, Copy, Debug, PartialEq, Eq, Structural)]
pub struct Turn {
    /// True where both segments lie on one line.
    pub parallel: bool,
    /// True where the path goes on rather than back.
    pub ahead: bool,
    /// True where the path turns by more than a right angle.
    pub sharp: bool,
    /// True where the corner was authored.
    pub anchor: bool,
    /// True where the path turns by more than a sample of a smooth curve does.
    pub wide: bool,
    /// True where a neighbouring segment is shorter than half the stroke's width.
    pub short: bool,
    /// True where a neighbouring segment is too short to be seen.
    pub tiny: bool,
    /// True where the tip lies within the miter limit.
    pub within_limit: bool,
    /// True where the tip's direction can be told.
    pub has_tip: bool,
}

/// The piece that fills a corner.
#[derive(Clone, Copy, Debug, PartialEq, Eq, Structural)]
pub enum Joint {
    /// Nothing.
    Nothing,
    /// A half circle.
    HalfCircle,
    /// A triangle ahead of the corner.
    Stub,
    /// A triangle between the two boxes.
    Triangle,
    /// A sector of a circle.
    Wedge,
    /// A triangle between the two boxes, with a tip.
    Kite,
}

/// What an outline puts at a corner.
#[derive(Clone, Copy, Debug, PartialEq, Eq, Structural)]
pub enum Bend {
    /// Nothing.
    Nothing,
    /// An arc.
    Arc,
    /// A point.
    Tip,
}

impl Turn {
    /// True for a sharp turn inside a curve.
    pub open spec fn cusp(self) -> bool {
        !self.anchor && self.wide && self.short
    }

    /// True where the corner keeps a path from being outlined.
    pub open spec fn breaks_outline(self) -> bool {
        self.sharp || self.cusp()
    }

    /// The piece that fills the corner.
    pub open spec fn joint(self, join: Join) -> Joint {
        if self.parallel {
            if self.ahead {
                Joint::Nothing
            } else if !self.anchor || join == Join::Round {
                Joint::HalfCircle
            } else if join == Join::Miter {
                Joint::Stub
            } else {
                Joint::Nothing
            }
        } else {
            match join {
                Join::Bevel => Joint::Triangle,
                Join::Round => Joint::Wedge,
                Join::Miter => if self.cusp() {
                    if self.tiny {
                        Joint::Nothing
                    } else {
                        Joint::Wedge
                    }
                } else if self.within_limit && self.has_tip {
                    Joint::Kite
                } else {
                    Joint::Triangle
                },
            }
        }
    }

    /// What an outline puts at the corner on the outside of the turn.
    pub open spec fn bend(self, join: Join) -> Bend {
        if self.parallel && self.ahead {
            Bend::Nothing
        } else {
            match join {
                Join::Bevel => Bend::Nothing,
                Join::Round => Bend::Arc,
                Join::Miter => if self.cusp() {
                    if self.tiny {
                        Bend::Nothing
                    } else {
                        Bend::Arc
                    }
                } else if self.within_limit && self.has_tip {
                    Bend::Tip
                } else {
                    Bend::Nothing
                },
            }
        }
    }

    /// What an outline puts at the corner on the inside of the turn, where `within` tells whether the
    /// lines meet close enough.
    pub open spec fn inner_bend(self, within: bool) -> Bend {
        if !(self.parallel && self.ahead) && self.has_tip && within {
            Bend::Tip
        } else {
            Bend::Nothing
        }
    }

    /// Decides which piece fills the corner.
    pub fn joint_of(self, join: Join) -> (j: Joint)
        ensures
            j == self.joint(join),
    {
        if self.parallel {
            if self.ahead {
                return Joint::Nothing;
            }
            return match join {
                Join::Round => Joint::HalfCircle,
                Join::Miter => if self.anchor {
                    Joint::Stub
                } else {
                    Joint::HalfCircle
                },
                Join::Bevel => if self.anchor {
                    Joint::Nothing
                } else {
                    Joint::HalfCircle
                },
            };
        }
        match join {
            Join::Bevel => Joint::Triangle,
            Join::Round => Joint::Wedge,
            Join::Miter => if !self.anchor && self.wide && self.short {
                if self.tiny {
                    Joint::Nothing
                } else {
                    Joint::Wedge
                }
            } else if self.within_limit && self.has_tip {
                Joint::Kite
            } else {
                Joint::Triangle
            },
        }
    }

    /// Decides what an outline puts at the corner on the outside of the turn.
    pub fn bend_of(self, join: Join) -> (b: Bend)
        ensures
            b == self.bend(join),
    {
        if self.parallel && self.ahead {
            return Bend::Nothing;
        }
        match join {
            Join::Bevel => Bend::Nothing,
            Join::Round => Bend::Arc,
            Join::Miter => if !self.anchor && self.wide && self.short {
                if self.tiny {
                    Bend::Nothing
                } else {
                    Bend::Arc
                }
            } else if self.within_limit && self.has_tip {
                Bend::Tip
            } else {
                Bend::Nothing
            },
        }
    }

    /// Decides what an outline puts at the corner on the inside of the turn.
    pub fn inner_bend_of(self, within: bool) -> (b: Bend)
        ensures
            b == self.inner_bend(within),
    {
        if !(self.parallel && self.ahead) && self.has_tip && within {
            Bend::Tip
        } else {
            Bend::Nothing
        }
    }
}

impl Turn {
    /// What the left side of a path has at the corner. It is the outer side where the walk turns right.
    pub open spec fn side_bend(self, turns_right: bool, join: Join, within: bool) -> Bend {
        if turns_right {
            self.bend(join)
        } else {
            self.inner_bend(within)
        }
    }

    /// Decides what the left side of a path has at the corner.
    pub fn side_bend_of(self, turns_right: bool, join: Join, within: bool) -> (b: Bend)
        ensures
            b == self.side_bend(turns_right, join, within),
    {
        if turns_right {
            self.bend_of(join)
        } else {
            self.inner_bend_of(within)
        }
    }
}

/// True where no corner keeps a path from being outlined.
pub open spec fn can_outline(turns: Seq<Turn>) -> bool {
    forall|i: int| 0 <= i < turns.len() ==> !(#[trigger] turns[i]).breaks_outline()
}

/// Tells whether a path can be outlined.
pub fn outlined(turns: &[Turn]) -> (r: bool)
    ensures
        r == can_outline(turns@),
{
    let mut i: usize = 0;
    while i < turns.len()
        invariant
            i <= turns@.len(),
            forall|k: int| 0 <= k < i ==> !(#[trigger] turns@[k]).breaks_outline(),
        decreases turns@.len() - i,
    {
        let t = turns[i];
        if t.sharp || (!t.anchor && t.wide && t.short) {
            assert(turns@[i as int].breaks_outline());
            return false;
        }
        i += 1;
    }
    true
}

/// How a path is stroked.
#[derive(Clone, Copy, Debug, PartialEq, Eq, Structural)]
pub enum Route {
    /// As one outline.
    Outline,
    /// As a pair of rings.
    Rings,
    /// Piece by piece.
    Pieces,
}

/// How a path is stroked. An open one that can be is outlined. A closed one becomes a pair of rings
/// only where it is all that is painted and is nowhere too thin, since the inner ring would cancel
/// what else lies there.
pub open spec fn route_of(closed: bool, solo: bool, thin: bool, points: int, can: bool) -> Route {
    if !closed {
        if points >= 2 && can {
            Route::Outline
        } else {
            Route::Pieces
        }
    } else if solo && points >= 3 && !thin && can {
        Route::Rings
    } else {
        Route::Pieces
    }
}

/// Decides how a path is stroked. `directed` tells whether every segment has a direction.
pub fn route(closed: bool, solo: bool, thin: bool, points: usize, directed: bool, turns: &[Turn]) -> (r:
    Route)
    ensures
        r == route_of(closed, solo, thin, points as int, directed && can_outline(turns@)),
{
    let can = directed && outlined(turns);
    if !closed {
        if points >= 2 && can {
            Route::Outline
        } else {
            Route::Pieces
        }
    } else if solo && points >= 3 && !thin && can {
        Route::Rings
    } else {
        Route::Pieces
    }
}

/// One step along a side of a path: from one point to another, and the corner that follows.
#[derive(Clone, Copy, Debug, PartialEq, Eq, Structural)]
pub struct RunStep {
    /// The point that the step starts at.
    pub from: usize,
    /// The point that it ends at.
    pub to: usize,
    /// The point after it, where the side goes on round a corner.
    pub next: Option<usize>,
}

/// The `k`th step along the left side of a path of `n` points as it is walked there, or back.
pub open spec fn step_at(n: int, closed: bool, back: bool, k: int) -> RunStep {
    let segments = if closed {
        n
    } else {
        n - 1
    };
    let s = if back {
        segments - 1 - k
    } else {
        k
    };
    let (from, to) = if back {
        (stroke::next_point(s, n), s)
    } else {
        (s, stroke::next_point(s, n))
    };
    RunStep {
        from: from as usize,
        to: to as usize,
        next: if closed || k + 1 < segments {
            Some(
                (if back {
                    prev_point(to, n)
                } else {
                    stroke::next_point(to, n)
                }) as usize,
            )
        } else {
            None
        },
    }
}

/// The point before another round a path of `n` points.
pub open spec fn prev_point(i: int, n: int) -> int {
    if i == 0 {
        n - 1
    } else {
        i - 1
    }
}

/// The steps along the left side of a path, walked there or back. The side is the outer one wherever
/// the walk turns right.
pub open spec fn side_steps(n: int, closed: bool, back: bool) -> Seq<RunStep> {
    Seq::new(
        (if closed {
            n
        } else {
            n - 1
        }) as nat,
        |k: int| step_at(n, closed, back, k),
    )
}

/// Lists the steps along a side of a path of `n` points.
pub fn plan_side(n: usize, closed: bool, back: bool) -> (r: Vec<RunStep>)
    requires
        n > 0,
    ensures
        r@ == side_steps(n as int, closed, back),
{
    let segments: usize = if closed {
        n
    } else {
        n - 1
    };
    let mut r: Vec<RunStep> = Vec::new();
    let mut k: usize = 0;
    while k < segments
        invariant
            n > 0,
            segments == (if closed {
                n as int
            } else {
                n - 1
            }),
            k <= segments,
            r@.len() == k,
            forall|i: int| 0 <= i < k ==> #[trigger] r@[i] == step_at(n as int, closed, back, i),
        decreases segments - k,
    {
        let s: usize = if back {
            segments - 1 - k
        } else {
            k
        };
        let e: usize = if s + 1 == n {
            0
        } else {
            s + 1
        };
        let (from, to) = if back {
            (e, s)
        } else {
            (s, e)
        };
        let next: Option<usize> = if closed || k + 1 < segments {
            if back {
                Some(
                    if to == 0 {
                        n - 1
                    } else {
                        to - 1
                    },
                )
            } else {
                Some(
                    if to + 1 == n {
                        0
                    } else {
                        to + 1
                    },
                )
            }
        } else {
            None
        };
        r.push(RunStep { from, to, next });
        k += 1;
    }
    assert(r@ =~= side_steps(n as int, closed, back));
    r
}

/// A side is walked without a gap: every step starts where the one before it ends, at a corner, and
/// a closed path's last step ends where its first starts.
pub proof fn law_sides_are_walked_through(n: int, closed: bool, back: bool, k: int)
    requires
        2 <= n <= usize::MAX,
        0 <= k < side_steps(n, closed, back).len(),
    ensures
        ({
            let steps = side_steps(n, closed, back);
            let step = steps[k];
            &&& step.from < n && step.to < n && step.from != step.to
            &&& k + 1 < steps.len() ==> steps[k + 1].from == step.to && step.next == Some(
                steps[k + 1].to,
            )
            &&& k + 1 == steps.len() ==> if closed {
                steps[0].from == step.to && step.next == Some(steps[0].to)
            } else {
                step.next is None
            }
        }),
{
}

/// The way back along a path takes the steps of the way there, turned round and in reverse.
pub proof fn law_way_back_is_the_way_there(n: int, closed: bool, k: int)
    requires
        2 <= n <= usize::MAX,
        0 <= k < side_steps(n, closed, false).len(),
    ensures
        ({
            let there = side_steps(n, closed, false);
            let home = side_steps(n, closed, true);
            &&& home.len() == there.len()
            &&& home[home.len() - 1 - k].from == there[k].to
            &&& home[home.len() - 1 - k].to == there[k].from
        }),
{
}

/// One side of an outline along a segment.
pub struct Run<P> {
    /// Where the side starts.
    pub from: P,
    /// Where the side ends.
    pub to: P,
    /// What follows at the corner.
    pub bend: Vec<P>,
}

/// The points of the first `k` runs.
pub open spec fn run_points<P>(runs: Seq<Run<P>>, k: int) -> Seq<P>
    decreases k,
{
    if k <= 0 {
        Seq::empty()
    } else {
        run_points(runs, k - 1).push(runs[k - 1].from).push(runs[k - 1].to) + runs[k - 1].bend@
    }
}

/// Follows one side of a path.
pub fn side<P: Copy>(runs: &[Run<P>]) -> (r: Vec<P>)
    ensures
        r@ == run_points(runs@, runs@.len() as int),
{
    let mut r: Vec<P> = Vec::new();
    let mut k: usize = 0;
    while k < runs.len()
        invariant
            k <= runs@.len(),
            r@ == run_points(runs@, k as int),
        decreases runs@.len() - k,
    {
        r.push(runs[k].from);
        r.push(runs[k].to);
        let bend = &runs[k].bend;
        let ghost before = r@;
        let mut i: usize = 0;
        while i < bend.len()
            invariant
                i <= bend@.len(),
                r@ == before + bend@.take(i as int),
            decreases bend@.len() - i,
        {
            r.push(bend[i]);
            i += 1;
            assert(r@ =~= before + bend@.take(i as int));
        }
        assert(bend@.take(i as int) =~= bend@);
        k += 1;
    }
    r
}

/// The outline of an open path: along one side, round the end, back along the other side and round
/// the start.
pub fn outline_open<P: Copy>(
    there: &[Run<P>],
    end_cap: &mut Vec<P>,
    back: &[Run<P>],
    start_cap: &mut Vec<P>,
) -> (r: Vec<P>)
    ensures
        r@ == run_points(there@, there@.len() as int) + old(end_cap)@ + run_points(
            back@,
            back@.len() as int,
        ) + old(start_cap)@,
        final(end_cap)@.len() == 0,
        final(start_cap)@.len() == 0,
{
    let mut r = side(there);
    r.append(end_cap);
    let mut other = side(back);
    r.append(&mut other);
    r.append(start_cap);
    r
}

/// The rings of a closed path: one along each side.
pub fn outline_closed<P: Copy>(there: &[Run<P>], back: &[Run<P>]) -> (r: (Vec<P>, Vec<P>))
    ensures
        r.0@ == run_points(there@, there@.len() as int),
        r.1@ == run_points(back@, back@.len() as int),
{
    (side(there), side(back))
}

/// One piece of a stroke.
#[derive(Clone, Copy, Debug, PartialEq, Eq, Structural)]
pub enum Piece {
    /// The box along a segment.
    Box {
        /// The segment.
        segment: usize,
    },
    /// What fills a corner.
    Corner {
        /// The corner's point.
        point: usize,
        /// What fills it.
        joint: Joint,
    },
    /// A cap.
    End {
        /// True for the path's start.
        start: bool,
        /// The cap.
        cap: CapStep,
    },
}

/// The boxes along the first `k` segments; a segment without a direction has none.
pub open spec fn boxes(directed: Seq<bool>, k: int) -> Seq<Piece>
    decreases k,
{
    if k <= 0 {
        Seq::empty()
    } else if directed[k - 1] {
        boxes(directed, k - 1).push(Piece::Box { segment: (k - 1) as usize })
    } else {
        boxes(directed, k - 1)
    }
}

/// What fills the corners from the point `first` on, up to the `k`th.
pub open spec fn corners(turns: Seq<Option<Turn>>, join: Join, first: int, k: int) -> Seq<Piece>
    decreases k - first,
{
    if k <= first {
        Seq::empty()
    } else {
        let before = corners(turns, join, first, k - 1);
        match turns[k - 1] {
            Some(t) => if t.joint(join) == Joint::Nothing {
                before
            } else {
                before.push(Piece::Corner { point: (k - 1) as usize, joint: t.joint(join) })
            },
            None => before,
        }
    }
}

/// The caps of an open path.
pub open spec fn ends(start: bool, end: bool, cap: CapStep) -> Seq<Piece> {
    if cap == CapStep::Nothing {
        Seq::empty()
    } else {
        let a = if start {
            seq![Piece::End { start: true, cap }]
        } else {
            Seq::empty()
        };
        if end {
            a.push(Piece::End { start: false, cap })
        } else {
            a
        }
    }
}

/// The pieces of a stroke, in order: boxes, corners and, for an open path, caps. A closed path has a
/// corner at every point, an open one between its ends. `turns` tells what is known of each point.
pub open spec fn all_pieces(
    directed: Seq<bool>,
    turns: Seq<Option<Turn>>,
    closed: bool,
    cap: Cap,
    join: Join,
) -> Seq<Piece> {
    let inside = if closed {
        corners(turns, join, 0, turns.len() as int)
    } else {
        corners(turns, join, 1, turns.len() - 1)
    };
    let open_ends = if closed || directed.len() == 0 {
        Seq::empty()
    } else {
        ends(directed[0], directed.last(), stroke::step_of(cap))
    };
    boxes(directed, directed.len() as int) + inside + open_ends
}

/// Lists the pieces of a stroke.
pub fn plan_pieces(
    directed: &[bool],
    turns: &[Option<Turn>],
    closed: bool,
    cap: Cap,
    join: Join,
) -> (r: Vec<Piece>)
    ensures
        r@ == all_pieces(directed@, turns@, closed, cap, join),
{
    let mut r: Vec<Piece> = Vec::new();
    let mut s: usize = 0;
    while s < directed.len()
        invariant
            s <= directed@.len(),
            r@ == boxes(directed@, s as int),
        decreases directed@.len() - s,
    {
        if directed[s] {
            r.push(Piece::Box { segment: s });
        }
        s += 1;
    }
    let ghost base = r@;
    let first: usize = if closed {
        0
    } else {
        1
    };
    let last: usize = if closed {
        turns.len()
    } else if turns.len() > 0 {
        turns.len() - 1
    } else {
        0
    };
    let mut v: usize = first;
    assert(corners(turns@, join, first as int, first as int) =~= Seq::empty());
    while v < last
        invariant
            first <= 1,
            first <= v,
            v <= last || v == first,
            last <= turns@.len(),
            r@ == base + corners(turns@, join, first as int, v as int),
        decreases last - v,
    {
        if let Some(t) = turns[v] {
            let joint = t.joint_of(join);
            match joint {
                Joint::Nothing => {},
                _ => {
                    r.push(Piece::Corner { point: v, joint });
                },
            }
        }
        v += 1;
        assert(r@ =~= base + corners(turns@, join, first as int, v as int));
    }
    assert(corners(turns@, join, first as int, v as int) =~= corners(
        turns@,
        join,
        first as int,
        if closed {
            turns@.len() as int
        } else {
            turns@.len() - 1
        },
    ));
    let ghost middle = r@;
    let n: usize = directed.len();
    if !closed && n > 0 {
        let step = stroke::cap_step(cap);
        match step {
            CapStep::Nothing => {},
            _ => {
                if directed[0] {
                    r.push(Piece::End { start: true, cap: step });
                }
                if directed[n - 1] {
                    r.push(Piece::End { start: false, cap: step });
                }
            },
        }
        assert(r@ =~= middle + ends(directed@[0], directed@.last(), step));
    }
    assert(r@ =~= all_pieces(directed@, turns@, closed, cap, join));
    r
}

/// A path that can be outlined has no corner at which the pieces would put a half circle or a stub
/// for a turn back.
pub proof fn law_outlines_never_turn_back(turns: Seq<Turn>, i: int, join: Join)
    requires
        can_outline(turns),
        0 <= i < turns.len(),
        turns[i].parallel && !turns[i].ahead ==> turns[i].sharp,
    ensures
        !(turns[i].joint(join) is HalfCircle),
        !(turns[i].joint(join) is Stub),
{
    assert(!turns[i].breaks_outline());
}

/// At a corner that was authored the join decides: going straight on needs nothing; a turn is filled with
/// a sector for a round join, with a tip for a mitered one whose tip lies within the limit, and with a
/// triangle else; and turning back is filled with a half circle, a stub or nothing.
pub proof fn law_joins_differ_at_authored_turns(t: Turn, join: Join)
    requires
        t.anchor,
    ensures
        t.parallel && t.ahead ==> t.joint(join) is Nothing,
        !t.parallel ==> {
            &&& t.joint(join) is Wedge <==> join is Round
            &&& t.joint(join) is Kite <==> join is Miter && t.within_limit && t.has_tip
            &&& t.joint(join) is Triangle <==> !(t.joint(join) is Wedge) && !(t.joint(join) is Kite)
        },
        t.parallel && !t.ahead ==> {
            &&& t.joint(join) is HalfCircle <==> join is Round
            &&& t.joint(join) is Stub <==> join is Miter
            &&& t.joint(join) is Nothing <==> join is Bevel
        },
{
}

/// Inside a curve turning back is rounded whatever the join, a mitered sharp turn with a short neighbour
/// is rounded too, or left out where the neighbour cannot be seen, and any other turn is filled as an
/// authored one is.
pub proof fn law_turns_inside_curves_are_rounded(t: Turn, join: Join)
    requires
        !t.anchor,
    ensures
        t.parallel && !t.ahead ==> t.joint(join) is HalfCircle,
        !t.parallel && join is Miter && t.wide && t.short ==> if t.tiny {
            t.joint(join) is Nothing
        } else {
            t.joint(join) is Wedge
        },
        !(t.parallel && !t.ahead) && !(!t.parallel && join is Miter && t.wide && t.short) ==> t.joint(
            join,
        ) == (Turn { anchor: true, ..t }).joint(join),
{
}

/// Beyond the limit, or without a tip, an authored mitered turn is filled as a beveled one is.
pub proof fn law_turns_beyond_the_limit_are_beveled(t: Turn)
    requires
        t.anchor,
        !t.parallel,
        !t.within_limit || !t.has_tip,
    ensures
        t.joint(Join::Miter) == t.joint(Join::Bevel),
        t.bend(Join::Miter) == t.bend(Join::Bevel),
{
}

/// An outline bends where the pieces would fill: with an arc for a sector, with a tip for a tip, and not
/// at all for a triangle or nothing. A turn back bends as it would if it were none.
pub proof fn law_outlines_bend_where_pieces_fill(t: Turn, join: Join)
    ensures
        t.parallel && t.ahead ==> t.bend(join) is Nothing,
        !t.parallel ==> {
            &&& t.bend(join) is Arc <==> t.joint(join) is Wedge
            &&& t.bend(join) is Tip <==> t.joint(join) is Kite
            &&& t.bend(join) is Nothing <==> t.joint(join) is Triangle || t.joint(join) is Nothing
        },
        !t.ahead ==> t.bend(join) == (Turn { parallel: false, ..t }).bend(join),
{
}

/// On the inside an outline goes to where its lines meet, if they do and close enough, unless it goes
/// straight on; and the left side of a path is the outside exactly where it turns right.
pub proof fn law_the_inside_has_no_join(t: Turn, a: Join, b: Join, within: bool)
    ensures
        t.inner_bend(within) is Tip <==> within && t.has_tip && !(t.parallel && t.ahead),
        t.inner_bend(within) is Nothing <==> !(t.inner_bend(within) is Tip),
        t.side_bend(false, a, within) == t.side_bend(false, b, within),
        t.side_bend(false, a, within) == t.inner_bend(within),
        t.side_bend(true, a, within) == t.bend(a),
{
}

/// A path is outlined only where no turn is sharper than a right angle and none is a sharp turn inside a
/// curve with a short neighbour.
pub proof fn law_sharp_turns_are_not_outlined(turns: Seq<Turn>, i: int)
    requires
        0 <= i < turns.len(),
    ensures
        turns[i].sharp ==> !can_outline(turns),
        !turns[i].anchor && turns[i].wide && turns[i].short ==> !can_outline(turns),
        !can_outline(turns) ==> exists|k: int|
            0 <= k < turns.len() && ((#[trigger] turns[k]).sharp || (!turns[k].anchor && turns[k].wide
                && turns[k].short)),
{
    if turns[i].sharp || (!turns[i].anchor && turns[i].wide && turns[i].short) {
        assert(turns[i].breaks_outline());
    }
    if !can_outline(turns) {
        let k = choose|k: int| 0 <= k < turns.len() && (#[trigger] turns[k]).breaks_outline();
        assert(turns[k].sharp || (!turns[k].anchor && turns[k].wide && turns[k].short));
    }
}

/// An open path is never stroked as rings and a closed one never as one outline. A path that cannot be
/// outlined is stroked piece by piece, and so is a closed one that is thin, or not all that is painted.
pub proof fn law_routes_suit_their_paths(closed: bool, solo: bool, thin: bool, points: int, can: bool)
    ensures
        route_of(closed, solo, thin, points, can) is Outline <==> !closed && can && points >= 2,
        route_of(closed, solo, thin, points, can) is Rings <==> closed && can && points >= 3 && solo
            && !thin,
        !can ==> route_of(closed, solo, thin, points, can) is Pieces,
{
}

/// The points of one more run follow those before it: its start, its end and then its corner.
pub proof fn law_runs_follow_each_other<P>(runs: Seq<Run<P>>, k: int, i: int)
    requires
        0 <= k < runs.len(),
    ensures
        ({
            let before = run_points(runs, k);
            let after = run_points(runs, k + 1);
            let n = before.len() as int;
            &&& run_points(runs, 0).len() == 0
            &&& after.len() == n + 2 + runs[k].bend@.len()
            &&& after[n] == runs[k].from
            &&& after[n + 1] == runs[k].to
            &&& 0 <= i < n ==> after[i] == before[i]
            &&& 0 <= i < runs[k].bend@.len() ==> after[n + 2 + i] == runs[k].bend@[i]
        }),
{
}

proof fn lemma_boxes(directed: Seq<bool>, k: int, s: int)
    requires
        0 <= k <= directed.len() <= usize::MAX,
    ensures
        0 <= s < k && directed[s] ==> boxes(directed, k).contains(Piece::Box { segment: s as usize }),
        forall|i: int|
            0 <= i < boxes(directed, k).len() ==> #[trigger] boxes(directed, k)[i] is Box && boxes(
                directed,
                k,
            )[i]->segment < k && directed[boxes(directed, k)[i]->segment as int],
    decreases k,
{
    if k > 0 {
        lemma_boxes(directed, k - 1, s);
        let before = boxes(directed, k - 1);
        let all = boxes(directed, k);
        let piece = Piece::Box { segment: s as usize };
        if 0 <= s < k && directed[s] {
            if s < k - 1 {
                let i = choose|i: int| 0 <= i < before.len() && before[i] == piece;
                assert(all[i] == piece);
            } else {
                assert(all[all.len() - 1] == piece);
            }
        }
        assert forall|i: int| 0 <= i < all.len() implies #[trigger] all[i] is Box && all[i]->segment < k
            && directed[all[i]->segment as int] by {
            if i < before.len() {
                assert(all[i] == before[i]);
            }
        }
    }
}

proof fn lemma_corners(turns: Seq<Option<Turn>>, join: Join, first: int, k: int, p: int)
    requires
        0 <= first,
        k <= turns.len() <= usize::MAX,
    ensures
        first <= p < k && turns[p] is Some && !(turns[p]->0.joint(join) is Nothing) ==> corners(
            turns,
            join,
            first,
            k,
        ).contains(Piece::Corner { point: p as usize, joint: turns[p]->0.joint(join) }),
        forall|i: int|
            0 <= i < corners(turns, join, first, k).len() ==> {
                let c = #[trigger] corners(turns, join, first, k)[i];
                &&& c is Corner
                &&& first <= c->point < k
                &&& turns[c->point as int] is Some
                &&& c->joint == turns[c->point as int]->0.joint(join)
                &&& !(c->joint is Nothing)
            },
    decreases k - first,
{
    if k > first {
        lemma_corners(turns, join, first, k - 1, p);
        let before = corners(turns, join, first, k - 1);
        let all = corners(turns, join, first, k);
        if first <= p < k && turns[p] is Some && !(turns[p]->0.joint(join) is Nothing) {
            let piece = Piece::Corner { point: p as usize, joint: turns[p]->0.joint(join) };
            if p < k - 1 {
                let i = choose|i: int| 0 <= i < before.len() && before[i] == piece;
                assert(all[i] == piece);
            } else {
                assert(all[all.len() - 1] == piece);
            }
        }
        assert forall|i: int| 0 <= i < all.len() implies {
            let c = #[trigger] all[i];
            &&& c is Corner
            &&& first <= c->point < k
            &&& turns[c->point as int] is Some
            &&& c->joint == turns[c->point as int]->0.joint(join)
            &&& !(c->joint is Nothing)
        } by {
            if i < before.len() {
                assert(all[i] == before[i]);
            }
        }
    }
}

proof fn lemma_part_of<T>(a: Seq<T>, b: Seq<T>, c: Seq<T>, x: T)
    ensures
        (a + b + c).contains(x) <==> a.contains(x) || b.contains(x) || c.contains(x),
{
    let all = a + b + c;
    if a.contains(x) {
        let i = choose|i: int| 0 <= i < a.len() && a[i] == x;
        assert(all[i] == x);
    }
    if b.contains(x) {
        let i = choose|i: int| 0 <= i < b.len() && b[i] == x;
        assert(all[a.len() + i] == x);
    }
    if c.contains(x) {
        let i = choose|i: int| 0 <= i < c.len() && c[i] == x;
        assert(all[a.len() + b.len() + i] == x);
    }
    if all.contains(x) {
        let i = choose|i: int| 0 <= i < all.len() && all[i] == x;
        if i < a.len() {
            assert(a[i] == x);
        } else if i < a.len() + b.len() {
            assert(b[i - a.len()] == x);
        } else {
            assert(c[i - a.len() - b.len()] == x);
        }
    }
}

/// The corners that pieces fill: every point of a closed path, and of an open one all but its ends.
spec fn filled_corners(turns: Seq<Option<Turn>>, closed: bool, join: Join) -> Seq<Piece> {
    if closed {
        corners(turns, join, 0, turns.len() as int)
    } else {
        corners(turns, join, 1, turns.len() - 1)
    }
}

spec fn capped_ends(directed: Seq<bool>, closed: bool, cap: Cap) -> Seq<Piece> {
    if closed || directed.len() == 0 {
        Seq::empty()
    } else {
        ends(directed[0], directed.last(), stroke::step_of(cap))
    }
}

/// Every segment with a direction has its box and no other has one.
pub proof fn law_segments_have_their_boxes(
    directed: Seq<bool>,
    turns: Seq<Option<Turn>>,
    closed: bool,
    cap: Cap,
    join: Join,
    s: usize,
)
    requires
        directed.len() <= usize::MAX,
        turns.len() <= usize::MAX,
    ensures
        all_pieces(directed, turns, closed, cap, join).contains(Piece::Box { segment: s }) <==> s
            < directed.len() && directed[s as int],
{
    let a = boxes(directed, directed.len() as int);
    let b = filled_corners(turns, closed, join);
    let c = capped_ends(directed, closed, cap);
    lemma_part_of(a, b, c, Piece::Box { segment: s });
    lemma_boxes(directed, directed.len() as int, s as int);
    lemma_corners(turns, join, 0, turns.len() as int, 0);
    lemma_corners(turns, join, 1, turns.len() - 1, 0);
}

/// A corner is filled where the path turns there, with what its turn and the join ask for: at every point
/// of a closed path, and between the ends of an open one.
pub proof fn law_turns_are_filled(
    directed: Seq<bool>,
    turns: Seq<Option<Turn>>,
    closed: bool,
    cap: Cap,
    join: Join,
    p: usize,
    joint: Joint,
)
    requires
        directed.len() <= usize::MAX,
        turns.len() <= usize::MAX,
    ensures
        all_pieces(directed, turns, closed, cap, join).contains(Piece::Corner { point: p, joint }) <==> p
            < turns.len() && (closed || 0 < p < turns.len() - 1) && turns[p as int] is Some
            && turns[p as int]->0.joint(join) == joint && !(joint is Nothing),
{
    let a = boxes(directed, directed.len() as int);
    let b = filled_corners(turns, closed, join);
    let c = capped_ends(directed, closed, cap);
    lemma_part_of(a, b, c, Piece::Corner { point: p, joint });
    lemma_boxes(directed, directed.len() as int, 0);
    lemma_corners(turns, join, 0, turns.len() as int, p as int);
    lemma_corners(turns, join, 1, turns.len() - 1, p as int);
}

/// A closed path has no caps. An open one has a cap at each end whose segment has a direction: none for
/// butt caps, a half circle for round ones and two corners for square ones.
pub proof fn law_open_ends_are_capped(
    directed: Seq<bool>,
    turns: Seq<Option<Turn>>,
    closed: bool,
    cap: Cap,
    join: Join,
    start: bool,
    step: CapStep,
)
    requires
        directed.len() <= usize::MAX,
        turns.len() <= usize::MAX,
    ensures
        all_pieces(directed, turns, closed, cap, join).contains(Piece::End { start, cap: step }) <==> {
            &&& !closed
            &&& directed.len() > 0
            &&& if start {
                directed[0]
            } else {
                directed[directed.len() - 1]
            }
            &&& (step is HalfCircle && cap is Round) || (step is Corners && cap is Square)
        },
{
    let a = boxes(directed, directed.len() as int);
    let b = filled_corners(turns, closed, join);
    let c = capped_ends(directed, closed, cap);
    let piece = Piece::End { start, cap: step };
    lemma_part_of(a, b, c, piece);
    lemma_boxes(directed, directed.len() as int, 0);
    lemma_corners(turns, join, 0, turns.len() as int, 0);
    lemma_corners(turns, join, 1, turns.len() - 1, 0);
    if !closed && directed.len() > 0 {
        let (first, last) = (directed[0], directed.last());
        let s = stroke::step_of(cap);
        if s != CapStep::Nothing {
            if first {
                assert(c[0] == (Piece::End { start: true, cap: s }));
            }
            if last {
                assert(c[c.len() - 1] == (Piece::End { start: false, cap: s }));
            }
        }
    }
}

/// Boxes come first, then corners, then caps, so that what fills a corner or an end lies over the boxes;
/// and boxes and corners come in the order of the path.
pub proof fn law_pieces_come_in_order(
    directed: Seq<bool>,
    turns: Seq<Option<Turn>>,
    closed: bool,
    cap: Cap,
    join: Join,
    i: int,
    j: int,
)
    requires
        directed.len() <= usize::MAX,
        turns.len() <= usize::MAX,
        0 <= i < j < all_pieces(directed, turns, closed, cap, join).len(),
    ensures
        ({
            let x = all_pieces(directed, turns, closed, cap, join)[i];
            let y = all_pieces(directed, turns, closed, cap, join)[j];
            &&& y is Box ==> x is Box && x->segment < y->segment
            &&& x is End ==> y is End && x->start && !y->start
            &&& x is Corner && y is Corner ==> x->point < y->point
        }),
{
    let a = boxes(directed, directed.len() as int);
    let b = filled_corners(turns, closed, join);
    let c = capped_ends(directed, closed, cap);
    let all = all_pieces(directed, turns, closed, cap, join);
    assert(all == a + b + c);
    lemma_boxes(directed, directed.len() as int, 0);
    lemma_boxes_sorted(directed, directed.len() as int);
    lemma_corners(turns, join, 0, turns.len() as int, 0);
    lemma_corners(turns, join, 1, turns.len() - 1, 0);
    lemma_corners_sorted(turns, join, 0, turns.len() as int);
    lemma_corners_sorted(turns, join, 1, turns.len() - 1);
    let (x, y) = (all[i], all[j]);
    if j < a.len() {
        assert(x == a[i] && y == a[j]);
    } else if j < a.len() + b.len() {
        assert(y == b[j - a.len()]);
        if i < a.len() {
            assert(x == a[i]);
        } else {
            assert(x == b[i - a.len()]);
        }
    } else {
        assert(y == c[j - a.len() - b.len()]);
        if i < a.len() {
            assert(x == a[i]);
        } else if i < a.len() + b.len() {
            assert(x == b[i - a.len()]);
        } else {
            assert(x == c[i - a.len() - b.len()]);
        }
    }
}

proof fn lemma_boxes_sorted(directed: Seq<bool>, k: int)
    requires
        0 <= k <= directed.len() <= usize::MAX,
    ensures
        forall|i: int, j: int|
            0 <= i < j < boxes(directed, k).len() ==> (#[trigger] boxes(directed, k)[i])->segment < (
            #[trigger] boxes(directed, k)[j])->segment,
    decreases k,
{
    if k > 0 {
        lemma_boxes_sorted(directed, k - 1);
        lemma_boxes(directed, k - 1, 0);
        let before = boxes(directed, k - 1);
        let all = boxes(directed, k);
        assert forall|i: int, j: int| 0 <= i < j < all.len() implies (#[trigger] all[i])->segment < (
        #[trigger] all[j])->segment by {
            assert(all[i] == before[i]);
            if j < before.len() {
                assert(all[j] == before[j]);
            }
        }
    }
}

proof fn lemma_corners_sorted(turns: Seq<Option<Turn>>, join: Join, first: int, k: int)
    requires
        0 <= first,
        k <= turns.len() <= usize::MAX,
    ensures
        forall|i: int, j: int|
            0 <= i < j < corners(turns, join, first, k).len() ==> (#[trigger] corners(
                turns,
                join,
                first,
                k,
            )[i])->point < (#[trigger] corners(turns, join, first, k)[j])->point,
    decreases k - first,
{
    if k > first {
        lemma_corners_sorted(turns, join, first, k - 1);
        lemma_corners(turns, join, first, k - 1, 0);
        let before = corners(turns, join, first, k - 1);
        let all = corners(turns, join, first, k);
        assert forall|i: int, j: int| 0 <= i < j < all.len() implies (#[trigger] all[i])->point < (
        #[trigger] all[j])->point by {
            assert(all[i] == before[i]);
            if j < before.len() {
                assert(all[j] == before[j]);
            }
        }
    }
}

} // verus!
