//! Trimming: keeping a part of every outline of a group.

use crate::scene;
use crate::scene::{Job, Piece, Scene};
use vstd::prelude::*;

verus! {

/// What is known of a trim's start and end along the path, which runs from zero to one, once its
/// offset is added to both.
#[derive(Clone, Copy, Debug, PartialEq, Eq, Structural)]
pub struct TrimFacts {
    /// True where start and end coincide.
    pub empty: bool,
    /// True where start and end are a whole path apart.
    pub full: bool,
    /// True where the offset is not negative.
    pub forward: bool,
    /// True where the start lies past the end of the path.
    pub start_past: bool,
    /// True where the end lies past the end of the path.
    pub end_past: bool,
    /// True where the start lies before the start of the path.
    pub start_before: bool,
    /// True where the end lies before the start of the path.
    pub end_before: bool,
}

/// The part of a path that a trim keeps.
#[derive(Clone, Copy, Debug, PartialEq, Eq, Structural)]
pub enum TrimWindow {
    /// Nothing.
    Nothing,
    /// All of it.
    Whole,
    /// What lies between start and end, once each is moved by whole paths; where the window wraps it
    /// runs from the greater through the path's end to the lesser.
    Part {
        /// How far the start is moved.
        start_shift: i8,
        /// How far the end is moved.
        end_shift: i8,
        /// True where the window wraps.
        wraps: bool,
    },
}

impl TrimFacts {
    /// How far the start is moved.
    pub open spec fn start_shift(self) -> i8 {
        if self.forward {
            if self.start_past {
                -1i8
            } else {
                0
            }
        } else if self.start_before {
            1
        } else {
            0
        }
    }

    /// How far the end is moved.
    pub open spec fn end_shift(self) -> i8 {
        if self.forward {
            if self.end_past {
                -1i8
            } else {
                0
            }
        } else if self.end_before {
            1
        } else {
            0
        }
    }

    /// The part that is kept. The window wraps where only one of its ends was moved.
    pub open spec fn window(self) -> TrimWindow {
        if self.empty {
            TrimWindow::Nothing
        } else if self.full {
            TrimWindow::Whole
        } else {
            TrimWindow::Part {
                start_shift: self.start_shift(),
                end_shift: self.end_shift(),
                wraps: self.start_shift() != self.end_shift(),
            }
        }
    }

    /// Decides which part is kept.
    pub fn decide(self) -> (w: TrimWindow)
        ensures
            w == self.window(),
    {
        if self.empty {
            return TrimWindow::Nothing;
        }
        if self.full {
            return TrimWindow::Whole;
        }
        let (start_moves, end_moves) = if self.forward {
            (self.start_past, self.end_past)
        } else {
            (self.start_before, self.end_before)
        };
        let by: i8 = if self.forward {
            -1
        } else {
            1
        };
        TrimWindow::Part {
            start_shift: if start_moves {
                by
            } else {
                0
            },
            end_shift: if end_moves {
                by
            } else {
                0
            },
            wraps: start_moves != end_moves,
        }
    }
}

/// The window lies on the path: for a start and an end on it and an offset of less than a whole path,
/// measured in parts of which the path has `unit`, the moved ends lie on the path again.
pub proof fn law_window_stays_on_the_path(f: TrimFacts, unit: int, start: int, end: int, offset: int)
    requires
        unit > 0,
        0 <= start <= unit,
        0 <= end <= unit,
        -unit < offset < unit,
        f.forward == (offset >= 0),
        f.start_past == (start + offset > unit),
        f.end_past == (end + offset > unit),
        f.start_before == (start + offset < 0),
        f.end_before == (end + offset < 0),
    ensures
        f.start_shift() == -1 ==> 0 <= start + offset - unit <= unit,
        f.start_shift() == 0 ==> 0 <= start + offset <= unit,
        f.start_shift() == 1 ==> 0 <= start + offset + unit <= unit,
        f.end_shift() == -1 ==> 0 <= end + offset - unit <= unit,
        f.end_shift() == 0 ==> 0 <= end + offset <= unit,
        f.end_shift() == 1 ==> 0 <= end + offset + unit <= unit,
{
}

/// What becomes of an outline: the pieces that are kept of it, or `blank` where none is.
pub struct Cut<G> {
    /// What takes its place where nothing is kept.
    pub blank: G,
    /// The pieces.
    pub pieces: Vec<G>,
}

impl<G> Cut<G> {
    /// The outlines that take the place of the one that was cut.
    pub open spec fn outlines(self) -> Seq<Piece<G>> {
        scene::cut_into(self.blank, self.pieces@)
    }

    /// How many outlines there are more than before.
    pub open spec fn extra(self) -> int {
        self.outlines().len() - 1
    }
}

/// The outlines that take the place of those from `a` up to and without `b`.
pub open spec fn cut_range<G>(cuts: Seq<Cut<G>>, a: int, b: int) -> Seq<Piece<G>>
    decreases b - a,
{
    if b <= a {
        Seq::empty()
    } else {
        cuts[a].outlines() + cut_range(cuts, a + 1, b)
    }
}

/// How many outlines there are more among those from `a` up to and without `b`.
pub open spec fn extras<G>(cuts: Seq<Cut<G>>, a: int, b: int) -> int
    decreases b - a,
{
    if b <= a {
        0
    } else {
        cuts[a].extra() + extras(cuts, a + 1, b)
    }
}

/// A paint's range after the outlines from `first + from` on were cut.
pub open spec fn moved<G, P>(j: Job<P>, first: int, cuts: Seq<Cut<G>>, from: int) -> Job<P> {
    Job {
        paint: j.paint,
        start: (j.start + extras(cuts, from, j.start - first)) as usize,
        end: (j.end + extras(cuts, from, j.end - first)) as usize,
    }
}

proof fn lemma_extras<G>(cuts: Seq<Cut<G>>, a: int, b: int)
    requires
        0 <= a,
        b <= cuts.len(),
        forall|i: int| 0 <= i < cuts.len() ==> (#[trigger] cuts[i]).pieces@.len() <= 2,
    ensures
        0 <= extras(cuts, a, b),
        a <= b ==> extras(cuts, a, b) <= b - a,
        a <= b ==> cut_range(cuts, a, b).len() == b - a + extras(cuts, a, b),
    decreases b - a,
{
    if a < b {
        lemma_extras(cuts, a + 1, b);
        assert(cuts[a].pieces@.len() <= 2);
    }
}

proof fn lemma_range_splits<G>(cuts: Seq<Cut<G>>, a: int, m: int, b: int)
    requires
        a <= m <= b,
    ensures
        cut_range(cuts, a, b) == cut_range(cuts, a, m) + cut_range(cuts, m, b),
        extras(cuts, a, b) == extras(cuts, a, m) + extras(cuts, m, b),
    decreases m - a,
{
    if a < m {
        lemma_range_splits(cuts, a + 1, m, b);
        assert(cut_range(cuts, a, b) =~= cut_range(cuts, a, m) + cut_range(cuts, m, b));
    } else {
        assert(cut_range(cuts, a, b) =~= cut_range(cuts, a, m) + cut_range(cuts, m, b));
    }
}

impl<G, P> Scene<G, P> {
    /// Cuts every outline of the innermost group. Pieces stay inside every range that covered what
    /// they were cut from.
    pub fn trim(&mut self, cuts: Vec<Cut<G>>)
        requires
            old(self).wf(),
            cuts@.len() == old(self).arena@.len() - old(self).scope().arena,
            forall|i: int| 0 <= i < cuts@.len() ==> (#[trigger] cuts@[i]).pieces@.len() <= 2,
            2 * old(self).arena@.len() + 2 <= usize::MAX,
        ensures
            final(self).wf(),
            final(self).scopes@ == old(self).scopes@,
            final(self).arena@ == old(self).arena@.take(old(self).scope().arena as int) + cut_range(
                cuts@,
                0,
                cuts@.len() as int,
            ),
            final(self).pending@ == Seq::new(
                old(self).pending@.len(),
                |j: int| moved(old(self).pending@[j], old(self).scope().arena as int, cuts@, 0),
            ),
    {
        let ghost arena = self.arena@;
        let ghost jobs = self.pending@;
        let ghost first = self.scope().arena as int;
        let ghost all = cuts@;
        let ghost n = cuts@.len() as int;
        let start: usize = self.scopes[self.scopes.len() - 1].arena;
        let mut rest = cuts;
        assert(arena.take(first + n) + cut_range(all, n, n) =~= arena);
        assert forall|j: int| 0 <= j < jobs.len() implies #[trigger] self.pending@[j] == moved(
            jobs[j],
            first,
            all,
            n,
        ) by {
            assert(jobs[j].start <= jobs[j].end <= arena.len());
        }
        while rest.len() > 0
            invariant
                self.wf(),
                old(self).wf(),
                self.scopes@ == old(self).scopes@,
                first == start == old(self).scope().arena,
                arena == old(self).arena@,
                jobs == old(self).pending@,
                n == all.len() == arena.len() - first,
                2 * arena.len() + 2 <= usize::MAX,
                forall|i: int| 0 <= i < n ==> (#[trigger] all[i]).pieces@.len() <= 2,
                rest@.len() <= n,
                rest@ == all.take(rest@.len() as int),
                self.arena@ == arena.take(first + rest@.len()) + cut_range(all, rest@.len() as int, n),
                self.pending@.len() == jobs.len(),
                forall|j: int|
                    0 <= j < jobs.len() ==> #[trigger] self.pending@[j] == moved(
                        jobs[j],
                        first,
                        all,
                        rest@.len() as int,
                    ),
            decreases rest@.len(),
        {
            let ghost k = rest@.len() as int;
            let ghost before = self.arena@;
            let ghost was = self.pending@;
            match rest.pop() {
                Some(cut) => {
                    assert(cut == all[k - 1]);
                    proof {
                        lemma_extras(all, k, n);
                    }
                    let i: usize = start + rest.len();
                    let _ = self.splice(i, cut.blank, cut.pieces);
                    proof {
                        assert(before.take(first + k - 1) =~= arena.take(first + k - 1));
                        assert(before.skip(first + k) =~= cut_range(all, k, n));
                        assert(self.arena@ =~= arena.take(first + k - 1) + cut_range(all, k - 1, n));
                        assert(rest@ =~= all.take(k - 1));
                        assert forall|j: int| 0 <= j < jobs.len() implies #[trigger] self.pending@[j]
                            == moved(jobs[j], first, all, k - 1) by {
                            let job = jobs[j];
                            assert(job.start <= job.end <= arena.len());
                            assert(self.pending@[j] == scene::shifted_job(
                                was[j],
                                i as int,
                                all[k - 1].extra(),
                            ));
                            lemma_moved(job.start as int, first, all, k);
                            lemma_moved(job.end as int, first, all, k);
                        }
                    }
                },
                None => {},
            }
        }
        assert(self.pending@ =~= Seq::new(jobs.len(), |j: int| moved(jobs[j], first, all, 0)));
    }

    /// Empties every outline of the innermost group.
    pub fn trim_away(&mut self, blanks: Vec<G>)
        requires
            old(self).wf(),
            blanks@.len() == old(self).arena@.len() - old(self).scope().arena,
        ensures
            final(self).wf(),
            final(self).scopes@ == old(self).scopes@,
            final(self).pending@ == old(self).pending@,
            final(self).arena@ == Seq::new(
                old(self).arena@.len(),
                |i: int|
                    if i < old(self).scope().arena {
                        old(self).arena@[i]
                    } else {
                        Piece {
                            geometry: blanks@[i - old(self).scope().arena],
                            closed: old(self).arena@[i].closed,
                        }
                    },
            ),
    {
        let ghost arena = self.arena@;
        let ghost all = blanks@;
        let start: usize = self.scopes[self.scopes.len() - 1].arena;
        let count: usize = self.arena.len();
        let mut rest = blanks;
        while rest.len() > 0
            invariant
                self.wf(),
                self.scopes@ == old(self).scopes@,
                self.pending@ == old(self).pending@,
                start == old(self).scope().arena,
                arena == old(self).arena@,
                count == arena.len(),
                all.len() == arena.len() - start,
                rest@.len() <= all.len(),
                rest@ == all.take(rest@.len() as int),
                self.arena@ == Seq::new(
                    arena.len(),
                    |i: int|
                        if i < start + rest@.len() {
                            arena[i]
                        } else {
                            Piece { geometry: all[i - start], closed: arena[i].closed }
                        },
                ),
            decreases rest@.len(),
        {
            let ghost k = rest@.len() as int;
            match rest.pop() {
                Some(blank) => {
                    let i: usize = start + rest.len();
                    self.replace(i, blank);
                    assert(rest@ =~= all.take(k - 1));
                    assert(self.arena@ =~= Seq::new(
                        arena.len(),
                        |i: int|
                            if i < start + rest@.len() {
                                arena[i]
                            } else {
                                Piece { geometry: all[i - start], closed: arena[i].closed }
                            },
                    ));
                },
                None => {},
            }
        }
    }
}

/// One more cut, of an outline before those already cut, moves what lies behind it.
proof fn lemma_moved<G>(x: int, first: int, cuts: Seq<Cut<G>>, k: int)
    requires
        0 < k <= cuts.len(),
        0 <= first,
        x <= first + cuts.len(),
        forall|i: int| 0 <= i < cuts.len() ==> (#[trigger] cuts[i]).pieces@.len() <= 2,
    ensures
        scene::shifted(x + extras(cuts, k, x - first), first + k - 1, cuts[k - 1].extra()) == x + extras(
            cuts,
            k - 1,
            x - first,
        ),
        0 <= extras(cuts, k, x - first),
        x - first >= k ==> extras(cuts, k, x - first) <= x - first - k,
{
    lemma_extras(cuts, k, x - first);
    lemma_extras(cuts, k - 1, x - first);
}

/// What a paint of the group covers is, after a trim, what was kept of what it covered before.
pub proof fn law_trimming_keeps_coverage<G, P>(
    arena: Seq<Piece<G>>,
    j: Job<P>,
    first: int,
    cuts: Seq<Cut<G>>,
)
    requires
        0 <= first <= j.start <= j.end <= arena.len(),
        cuts.len() == arena.len() - first,
        2 * arena.len() + 2 <= usize::MAX,
        forall|i: int| 0 <= i < cuts.len() ==> (#[trigger] cuts[i]).pieces@.len() <= 2,
    ensures
        ({
            let after = arena.take(first) + cut_range(cuts, 0, cuts.len() as int);
            scene::covered(after, moved(j, first, cuts, 0)) == cut_range(
                cuts,
                j.start - first,
                j.end - first,
            )
        }),
{
    let n = cuts.len() as int;
    let (a, b) = (j.start - first, j.end - first);
    lemma_range_splits(cuts, 0, a, n);
    lemma_range_splits(cuts, a, b, n);
    lemma_range_splits(cuts, 0, b, n);
    lemma_range_splits(cuts, 0, a, b);
    lemma_extras(cuts, 0, a);
    lemma_extras(cuts, a, b);
    lemma_extras(cuts, 0, b);
    let after = arena.take(first) + cut_range(cuts, 0, n);
    assert(scene::covered(after, moved(j, first, cuts, 0)) =~= cut_range(cuts, a, b));
}

/// Where `t` lies in a window from `s` to `e`: between them, or outside where the window wraps.
pub open spec fn in_window(wraps: bool, s: int, e: int, t: int) -> bool {
    let (low, high) = if s < e {
        (s, e)
    } else {
        (e, s)
    };
    if wraps {
        t <= low || t >= high
    } else {
        low <= t <= high
    }
}

/// A trim keeps exactly what lies between its start and its end, moved by its offset, where the path goes
/// on at its start once it has come to its end. Positions are measured in parts of which the path has
/// `unit`; it is cut at neither of its own ends.
pub proof fn law_trims_keep_what_lies_between(
    f: TrimFacts,
    unit: int,
    start: int,
    end: int,
    offset: int,
    t: int,
)
    requires
        unit > 0,
        0 <= start <= unit,
        0 <= end <= unit,
        0 < end - start < unit || 0 < start - end < unit,
        -unit < offset < unit,
        0 < t < unit,
        !f.empty,
        !f.full,
        f.forward == (offset >= 0),
        f.start_past == (start + offset > unit),
        f.end_past == (end + offset > unit),
        f.start_before == (start + offset < 0),
        f.end_before == (end + offset < 0),
    ensures
        f.window() is Part,
        ({
            let w = f.window();
            let low = if start < end {
                start + offset
            } else {
                end + offset
            };
            let high = if start < end {
                end + offset
            } else {
                start + offset
            };
            let s = start + offset + unit * w->start_shift;
            let e = end + offset + unit * w->end_shift;
            in_window(w->wraps, s, e, t) <==> low <= t <= high || low <= t + unit <= high || low <= t
                - unit <= high
        }),
{
    assert(unit * 0 == 0);
    assert(unit * 1 == unit);
    assert(unit * -1 == -unit);
}

/// A trim whose start and end coincide keeps nothing, and one a whole path apart keeps all of it.
pub proof fn law_trims_may_keep_nothing_or_all(f: TrimFacts)
    ensures
        f.empty ==> f.window() is Nothing,
        !f.empty && f.full ==> f.window() is Whole,
        !f.empty && !f.full ==> f.window() is Part,
{
}

/// Cutting an outline leaves its pieces in their order, all of them open; where none is kept an empty
/// outline takes its place, so that paints still cover as many outlines.
pub proof fn law_cuts_leave_open_pieces<G>(cut: Cut<G>, i: int)
    ensures
        cut.outlines().len() > 0,
        cut.pieces@.len() > 0 ==> cut.outlines().len() == cut.pieces@.len(),
        cut.pieces@.len() == 0 ==> cut.outlines().len() == 1 && cut.outlines()[0].geometry == cut.blank,
        0 <= i < cut.outlines().len() ==> !cut.outlines()[i].closed,
        0 <= i < cut.pieces@.len() ==> cut.outlines()[i].geometry == cut.pieces@[i],
{
}

} // verus!
