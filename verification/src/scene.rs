//! The geometry and the paints of a shape layer, as a walk over its shapes collects them.
//!
//! Geometry goes into an arena in the order of the walk. A paint covers the geometry of its scope
//! that stands before it. Modifiers change the arena while the walk goes on, so paints hold index
//! ranges, and the ranges move along.

use crate::shape::{Group, Shape};
use vstd::prelude::*;

verus! {

/// One outline in the arena.
pub struct Piece<G> {
    /// The outline.
    pub geometry: G,
    /// True where its end leads back to its start.
    pub closed: bool,
}

/// A paint, and the range of the arena that it covers.
pub struct Job<P> {
    /// The paint.
    pub paint: P,
    /// The first covered index.
    pub start: usize,
    /// The index behind the last covered one.
    pub end: usize,
}

/// Where a group starts.
#[derive(Clone, Copy, Debug, PartialEq, Eq, Structural)]
pub struct Scope {
    /// Its first index in the arena.
    pub arena: usize,
    /// Its first paint.
    pub jobs: usize,
}

/// What a walk has collected.
pub struct Scene<G, P> {
    /// The outlines.
    pub arena: Vec<Piece<G>>,
    /// The paints, in the order of the walk.
    pub pending: Vec<Job<P>>,
    /// The open groups, the innermost last.
    pub scopes: Vec<Scope>,
}

/// The outline `g`, open.
pub open spec fn open_piece<G>(g: G) -> Piece<G> {
    Piece { geometry: g, closed: false }
}

/// Outlines, all open.
pub open spec fn open_pieces<G>(g: Seq<G>) -> Seq<Piece<G>> {
    Seq::new(g.len(), |i: int| open_piece(g[i]))
}

/// What takes the place of an outline that is cut into `pieces`.
pub open spec fn cut_into<G>(blank: G, pieces: Seq<G>) -> Seq<Piece<G>> {
    if pieces.len() == 0 {
        seq![open_piece(blank)]
    } else {
        open_pieces(pieces)
    }
}

/// An index after `extra` entries were put behind `at`.
pub open spec fn shifted(i: int, at: int, extra: int) -> int {
    if i > at {
        i + extra
    } else {
        i
    }
}

/// A job after `extra` entries were put behind `at`.
pub open spec fn shifted_job<P>(j: Job<P>, at: int, extra: int) -> Job<P> {
    Job {
        paint: j.paint,
        start: shifted(j.start as int, at, extra) as usize,
        end: shifted(j.end as int, at, extra) as usize,
    }
}

/// What a job covers.
pub open spec fn covered<G, P>(arena: Seq<Piece<G>>, j: Job<P>) -> Seq<Piece<G>> {
    if j.start <= j.end <= arena.len() {
        arena.subrange(j.start as int, j.end as int)
    } else if j.start <= arena.len() < j.end {
        arena.skip(j.start as int)
    } else {
        Seq::empty()
    }
}

/// The outlines and paints of one copy that a repeater makes.
pub struct Copied<G, P> {
    /// The outlines of the scope, placed for this copy.
    pub geometry: Vec<G>,
    /// The paints of the scope, for this copy.
    pub paints: Vec<P>,
}

/// The outlines `g` with the ends of `base`.
pub open spec fn like<G>(g: Seq<G>, base: Seq<Piece<G>>) -> Seq<Piece<G>> {
    Seq::new(g.len(), |i: int| Piece { geometry: g[i], closed: base[i].closed })
}

/// The jobs `base`, with other paints and moved by `shift`.
pub open spec fn moved_jobs<P>(base: Seq<Job<P>>, paints: Seq<P>, shift: int) -> Seq<Job<P>> {
    Seq::new(
        paints.len(),
        |i: int|
            Job {
                paint: paints[i],
                start: (base[i].start + shift) as usize,
                end: (base[i].end + shift) as usize,
            },
    )
}

/// The outlines of all copies.
pub open spec fn copied_pieces<G, P>(copies: Seq<Copied<G, P>>, base: Seq<Piece<G>>) -> Seq<Piece<G>>
    decreases copies.len(),
{
    if copies.len() == 0 {
        Seq::empty()
    } else {
        copied_pieces(copies.drop_last(), base) + like(copies.last().geometry@, base)
    }
}

/// The jobs of all copies: those of the `i`th copy cover the `i`th block of outlines behind the
/// originals.
pub open spec fn copied_jobs<G, P>(
    copies: Seq<Copied<G, P>>,
    base: Seq<Job<P>>,
    block: int,
) -> Seq<Job<P>>
    decreases copies.len(),
{
    if copies.len() == 0 {
        Seq::empty()
    } else {
        copied_jobs(copies.drop_last(), base, block) + moved_jobs(
            base,
            copies.last().paints@,
            block * copies.len(),
        )
    }
}

/// Jobs that cover nothing any more.
pub open spec fn disarmed<P>(jobs: Seq<Job<P>>) -> Seq<Job<P>> {
    Seq::new(jobs.len(), |i: int| Job { paint: jobs[i].paint, start: jobs[i].start, end: jobs[i].start })
}

impl<G, P> Scene<G, P> {
    /// The innermost group.
    pub open spec fn scope(self) -> Scope {
        self.scopes@.last()
    }

    /// True where a group is open, groups start inside what was collected and inside each other,
    /// and paints cover ranges of the arena that do not reach out of their groups.
    pub open spec fn wf(self) -> bool {
        &&& self.scopes@.len() > 0
        &&& forall|i: int|
            0 <= i < self.scopes@.len() ==> (#[trigger] self.scopes@[i]).arena <= self.arena@.len()
                && self.scopes@[i].jobs <= self.pending@.len()
        &&& forall|i: int, k: int|
            0 <= i < k < self.scopes@.len() ==> (#[trigger] self.scopes@[i]).arena <= (
            #[trigger] self.scopes@[k]).arena
        &&& forall|i: int, j: int|
            0 <= i < self.scopes@.len() && self.scopes@[i].jobs <= j < self.pending@.len() ==> (
            #[trigger] self.scopes@[i]).arena <= (#[trigger] self.pending@[j]).start
        &&& forall|i: int|
            0 <= i < self.pending@.len() ==> (#[trigger] self.pending@[i]).start
                <= self.pending@[i].end <= self.arena@.len()
    }

    /// Nothing, in the outermost group.
    pub fn new() -> (s: Scene<G, P>)
        ensures
            s.wf(),
            s.arena@.len() == 0,
            s.pending@.len() == 0,
            s.scopes@ == seq![Scope { arena: 0usize, jobs: 0usize }],
    {
        let mut scopes: Vec<Scope> = Vec::new();
        scopes.push(Scope { arena: 0, jobs: 0 });
        Scene { arena: Vec::new(), pending: Vec::new(), scopes }
    }

    /// Opens a group.
    pub fn enter(&mut self)
        requires
            old(self).wf(),
        ensures
            final(self).wf(),
            final(self).arena@ == old(self).arena@,
            final(self).pending@ == old(self).pending@,
            final(self).scopes@ == old(self).scopes@.push(
                Scope {
                    arena: old(self).arena@.len() as usize,
                    jobs: old(self).pending@.len() as usize,
                },
            ),
    {
        let scope = Scope { arena: self.arena.len(), jobs: self.pending.len() };
        self.scopes.push(scope);
    }

    /// Closes the innermost group.
    pub fn leave(&mut self)
        requires
            old(self).wf(),
            old(self).scopes@.len() > 1,
        ensures
            final(self).wf(),
            final(self).arena@ == old(self).arena@,
            final(self).pending@ == old(self).pending@,
            final(self).scopes@ == old(self).scopes@.drop_last(),
    {
        let _ = self.scopes.pop();
    }

    /// Adds an outline.
    pub fn push(&mut self, geometry: G, closed: bool)
        requires
            old(self).wf(),
        ensures
            final(self).wf(),
            final(self).arena@ == old(self).arena@.push(Piece { geometry, closed }),
            final(self).pending@ == old(self).pending@,
            final(self).scopes@ == old(self).scopes@,
    {
        self.arena.push(Piece { geometry, closed });
    }

    /// Adds a paint. It covers what the group holds so far.
    pub fn paint(&mut self, paint: P)
        requires
            old(self).wf(),
        ensures
            final(self).wf(),
            final(self).arena@ == old(self).arena@,
            final(self).pending@ == old(self).pending@.push(
                Job {
                    paint,
                    start: old(self).scope().arena,
                    end: old(self).arena@.len() as usize,
                },
            ),
            final(self).scopes@ == old(self).scopes@,
    {
        let scope = self.scopes[self.scopes.len() - 1];
        let end: usize = self.arena.len();
        self.pending.push(Job { paint, start: scope.arena, end });
    }

    /// Puts another outline in the place of one of the group.
    pub fn replace(&mut self, i: usize, geometry: G)
        requires
            old(self).wf(),
            i < old(self).arena@.len(),
        ensures
            final(self).wf(),
            final(self).arena@ == old(self).arena@.update(
                i as int,
                Piece { geometry, closed: old(self).arena@[i as int].closed },
            ),
            final(self).pending@ == old(self).pending@,
            final(self).scopes@ == old(self).scopes@,
    {
        let closed = self.arena[i].closed;
        self.arena.set(i, Piece { geometry, closed });
    }

    /// Cuts the outline at `i` into pieces, all of them open; `blank` takes its place where none is
    /// left. Further pieces are put right behind it, so that they stay inside every range that
    /// covers it. Returns the index of the next outline that was there before.
    pub fn splice(&mut self, i: usize, blank: G, pieces: Vec<G>) -> (next: usize)
        requires
            old(self).wf(),
            i < old(self).arena@.len(),
            old(self).arena@.len() + pieces@.len() <= usize::MAX,
            old(self).scope().arena <= i,
        ensures
            final(self).wf(),
            ({
                let cut = cut_into(blank, pieces@);
                let extra = cut.len() - 1;
                &&& final(self).arena@ == old(self).arena@.take(i as int) + cut + old(
                    self,
                ).arena@.skip(i + 1)
                &&& final(self).pending@ == Seq::new(
                    old(self).pending@.len(),
                    |j: int| shifted_job(old(self).pending@[j], i as int, extra),
                )
                &&& next == i + 1 + extra
            }),
            final(self).scopes@ == old(self).scopes@,
    {
        let ghost arena = self.arena@;
        let ghost jobs = self.pending@;
        let mut rest = pieces;
        let ghost all = rest@;
        if rest.len() == 0 {
            self.arena.set(i, Piece { geometry: blank, closed: false });
            assert(self.arena@ =~= arena.take(i as int) + cut_into(blank, all) + arena.skip(i + 1));
            assert(self.pending@ =~= Seq::new(
                jobs.len(),
                |j: int| shifted_job(jobs[j], i as int, 0),
            ));
            return i + 1;
        }
        let first = rest.remove(0);
        self.arena.set(i, Piece { geometry: first, closed: false });
        let extra: usize = rest.len();
        let ghost tail = rest@;
        assert(all =~= seq![first] + tail);
        assert(self.arena@ =~= arena.take(i as int) + seq![open_piece(first)] + arena.skip(i + 1));
        assert(open_pieces(tail.skip(tail.len() as int)) =~= Seq::empty());
        assert(arena.take(i as int) + seq![open_piece(first)] + open_pieces(
            tail.skip(tail.len() as int),
        ) + arena.skip(i + 1) =~= self.arena@);
        while rest.len() > 0
            invariant
                i < arena.len(),
                arena.len() + all.len() <= usize::MAX,
                extra == tail.len(),
                tail.len() < all.len(),
                rest@.len() <= tail.len(),
                rest@ == tail.take(rest@.len() as int),
                self.arena@ == arena.take(i as int) + seq![open_piece(first)] + open_pieces(
                    tail.skip(rest@.len() as int),
                ) + arena.skip(i + 1),
                self.pending@ == jobs,
                self.scopes@ == old(self).scopes@,
            decreases rest@.len(),
        {
            let ghost n = rest@.len() as int;
            match rest.pop() {
                Some(g) => {
                    self.arena.insert(i + 1, Piece { geometry: g, closed: false });
                    proof {
                        assert(g == tail[n - 1]);
                        assert(open_pieces(tail.skip(n - 1)) =~= seq![open_piece(g)] + open_pieces(
                            tail.skip(n),
                        ));
                        assert(self.arena@ =~= arena.take(i as int) + seq![open_piece(first)]
                            + open_pieces(tail.skip(n - 1)) + arena.skip(i + 1));
                        assert(rest@ =~= tail.take(n - 1));
                    }
                },
                None => {},
            }
        }
        assert(tail.skip(0) =~= tail);
        assert(open_pieces(all) =~= seq![open_piece(first)] + open_pieces(tail));
        assert(self.arena@ =~= arena.take(i as int) + cut_into(blank, all) + arena.skip(i + 1));
        let n: usize = self.pending.len();
        let mut k: usize = 0;
        while k < n
            invariant
                n == jobs.len() == self.pending@.len(),
                k <= n,
                i < arena.len(),
                arena.len() + extra <= usize::MAX,
                forall|j: int|
                    0 <= j < n ==> (#[trigger] jobs[j]).start <= jobs[j].end <= arena.len(),
                forall|j: int|
                    0 <= j < k ==> #[trigger] self.pending@[j] == shifted_job(
                        jobs[j],
                        i as int,
                        extra as int,
                    ),
                forall|j: int| k <= j < n ==> #[trigger] self.pending@[j] == jobs[j],
                self.arena@ == arena.take(i as int) + cut_into(blank, all) + arena.skip(i + 1),
                self.scopes@ == old(self).scopes@,
            decreases n - k,
        {
            let (start, end) = (self.pending[k].start, self.pending[k].end);
            assert(jobs[k as int].start == start && jobs[k as int].end == end);
            let start: usize = if start > i {
                start + extra
            } else {
                start
            };
            let end: usize = if end > i {
                end + extra
            } else {
                end
            };
            set_range(&mut self.pending, k, start, end);
            k += 1;
        }
        assert(self.pending@ =~= Seq::new(
            jobs.len(),
            |j: int| shifted_job(jobs[j], i as int, extra as int),
        ));
        i + 1 + extra
    }
}

/// Gives a job another range.
fn set_range<P>(jobs: &mut Vec<Job<P>>, k: usize, start: usize, end: usize)
    requires
        k < old(jobs)@.len(),
    ensures
        final(jobs)@ == old(jobs)@.update(
            k as int,
            Job { paint: old(jobs)@[k as int].paint, start, end },
        ),
{
    let job = &mut jobs[k];
    job.start = start;
    job.end = end;
}

/// What a paint covers is, after a cut, what it covered before with the pieces in the place of the
/// outline that was cut; a paint that did not cover it covers the same as before.
pub proof fn law_cutting_keeps_coverage<G, P>(
    arena: Seq<Piece<G>>,
    j: Job<P>,
    i: int,
    cut: Seq<Piece<G>>,
)
    requires
        0 <= i < arena.len(),
        cut.len() > 0,
        j.start <= j.end <= arena.len(),
        arena.len() + cut.len() <= usize::MAX,
    ensures
        ({
            let after = arena.take(i) + cut + arena.skip(i + 1);
            let k = shifted_job(j, i, cut.len() - 1);
            if j.start <= i < j.end {
                covered(after, k) == arena.subrange(j.start as int, i) + cut + arena.subrange(
                    i + 1,
                    j.end as int,
                )
            } else {
                covered(after, k) == covered(arena, j)
            }
        }),
{
    let after = arena.take(i) + cut + arena.skip(i + 1);
    let extra = cut.len() - 1;
    let k = shifted_job(j, i, extra);
    if j.start <= i < j.end {
        assert(covered(after, k) =~= arena.subrange(j.start as int, i) + cut + arena.subrange(
            i + 1,
            j.end as int,
        ));
    } else {
        assert(covered(after, k) =~= covered(arena, j));
    }
}

/// Where the blocks of copies stand.
proof fn lemma_copied_len<G, P>(copies: Seq<Copied<G, P>>, base: Seq<Piece<G>>)
    requires
        forall|c: int| 0 <= c < copies.len() ==> (#[trigger] copies[c]).geometry@.len() == base.len(),
    ensures
        copied_pieces(copies, base).len() == base.len() * copies.len(),
    decreases copies.len(),
{
    if copies.len() > 0 {
        let short = copies.drop_last();
        assert forall|c: int| 0 <= c < short.len() implies (#[trigger] short[c]).geometry@.len()
            == base.len() by {
            assert(short[c] == copies[c]);
        }
        lemma_copied_len(short, base);
        assert(copies.last() == copies[copies.len() - 1]);
        let (n, b) = (copies.len() as int, base.len() as int);
        assert(b * (n - 1) + b == b * n) by (nonlinear_arith);
    } else {
        assert(base.len() * 0 == 0);
    }
}

impl<G, P> Scene<G, P> {
    /// The outlines of the innermost group.
    pub open spec fn group_pieces(self) -> Seq<Piece<G>> {
        self.arena@.skip(self.scope().arena as int)
    }

    /// The paints of the innermost group.
    pub open spec fn group_jobs(self) -> Seq<Job<P>> {
        self.pending@.skip(self.scope().jobs as int)
    }

    /// Where the innermost group's outlines and paints start.
    pub fn group_start(&self) -> (s: Scope)
        requires
            self.wf(),
        ensures
            s == self.scope(),
    {
        self.scopes[self.scopes.len() - 1]
    }

    /// Replaces what the innermost group holds by copies: each has the group's outlines anew and
    /// paints for them. The originals become `blanks`, and their paints cover nothing any more.
    pub fn repeat(&mut self, copies: Vec<Copied<G, P>>, blanks: Vec<G>)
        requires
            old(self).wf(),
            blanks@.len() == old(self).group_pieces().len(),
            forall|c: int|
                0 <= c < copies@.len() ==> (#[trigger] copies@[c]).geometry@.len() == old(
                    self,
                ).group_pieces().len() && copies@[c].paints@.len() == old(self).group_jobs().len(),
            old(self).arena@.len() + old(self).group_pieces().len() * copies@.len() <= usize::MAX,
        ensures
            final(self).wf(),
            final(self).scopes@ == old(self).scopes@,
            ({
                let base = old(self).group_pieces();
                let jobs = old(self).group_jobs();
                let scope = old(self).scope();
                &&& final(self).arena@ == old(self).arena@.take(scope.arena as int) + like(
                    blanks@,
                    base,
                ) + copied_pieces(copies@, base)
                &&& final(self).pending@ == old(self).pending@.take(scope.jobs as int) + disarmed(
                    jobs,
                ) + copied_jobs(copies@, jobs, base.len() as int)
            }),
    {
        let scope = self.group_start();
        let ghost arena = self.arena@;
        let ghost pending = self.pending@;
        let ghost base = self.group_pieces();
        let ghost jobs = self.group_jobs();
        let ghost all = copies@;
        let base_end: usize = self.arena.len();
        let jobs_end: usize = self.pending.len();
        let block: usize = base_end - scope.arena;
        let n: usize = copies.len();
        proof {
            assert(pending.take(scope.jobs as int) + jobs =~= pending);
            assert(arena.take(scope.arena as int) + base =~= arena);
            assert(all.take(0) =~= Seq::empty());
            assert(arena + copied_pieces(all.take(0), base) =~= arena);
            assert(pending + copied_jobs(all.take(0), jobs, block as int) =~= pending);
        }
        let mut rest = copies;
        let mut c: usize = 0;
        while c < n
            invariant
                n == all.len(),
                c <= n,
                rest@ == all.skip(c as int),
                base.len() == block,
                base_end == arena.len(),
                jobs_end == pending.len(),
                scope.arena + block == base_end,
                scope.jobs + jobs.len() == jobs_end,
                base == arena.skip(scope.arena as int),
                jobs == pending.skip(scope.jobs as int),
                forall|k: int|
                    0 <= k < all.len() ==> (#[trigger] all[k]).geometry@.len() == block
                        && all[k].paints@.len() == jobs.len(),
                arena.len() + block * n <= usize::MAX,
                self.scopes@ == old(self).scopes@,
                forall|j: int|
                    0 <= j < jobs.len() ==> (#[trigger] jobs[j]).start <= jobs[j].end
                        <= arena.len(),
                self.arena@ == arena + copied_pieces(all.take(c as int), base),
                self.pending@ == pending + copied_jobs(all.take(c as int), jobs, block as int),
                self.arena@.len() == arena.len() + block * c,
            decreases n - c,
        {
            let copy = rest.remove(0);
            let ghost so_far = self.arena@;
            let ghost jobs_so_far = self.pending@;
            proof {
                assert(copy == all[c as int]);
                assert(rest@ =~= all.skip(c + 1));
                assert(all.take(c + 1).drop_last() =~= all.take(c as int));
                assert(all.take(c + 1).last() == copy);
                let (b, x, y) = (block as int, c as int, n as int);
                assert(b * x + b <= b * y && b * x + b == b * (x + 1)) by (nonlinear_arith)
                    requires
                        b >= 0,
                        x + 1 <= y,
                ;
            }
            let shift: usize = self.arena.len() - scope.arena;
            assert(shift == block * (c + 1));
            append_copy(&mut self.arena, scope.arena, copy.geometry);
            assert forall|j: int| scope.jobs <= j < scope.jobs + copy.paints@.len() implies (
            #[trigger] self.pending@[j]).start + shift <= usize::MAX && self.pending@[j].end + shift
                <= usize::MAX by {
                assert(self.pending@[j] == jobs[j - scope.jobs]);
            }
            append_jobs(&mut self.pending, scope.jobs, copy.paints, shift);
            c += 1;
            proof {
                assert(self.arena@ =~= arena + copied_pieces(all.take(c as int), base));
                assert(self.pending@ =~= pending + copied_jobs(
                    all.take(c as int),
                    jobs,
                    block as int,
                ));
            }
        }
        assert(all.take(n as int) =~= all);
        let ghost repeated = self.arena@;
        let ghost repeated_jobs = self.pending@;
        let ghost given = blanks@;
        blank_out(&mut self.arena, scope.arena, blanks);
        disarm(&mut self.pending, scope.jobs, jobs_end);
        proof {
            assert(self.arena@ =~= arena.take(scope.arena as int) + like(blanks@, base)
                + copied_pieces(all, base));
            assert(self.pending@ =~= pending.take(scope.jobs as int) + disarmed(jobs)
                + copied_jobs(all, jobs, block as int));
            lemma_copied_ranges(all, jobs, block as int, scope.arena as int, arena.len() as int);
            let copied = copied_jobs(all, jobs, block as int);
            assert forall|i: int, j: int|
                0 <= i < self.scopes@.len() && self.scopes@[i].jobs <= j < self.pending@.len() implies (
            #[trigger] self.scopes@[i]).arena <= (#[trigger] self.pending@[j]).start by {
                if j < pending.len() {
                    assert(self.pending@[j].start == pending[j].start);
                } else {
                    assert(self.pending@[j] == copied[j - pending.len()]);
                    assert(self.scopes@[i].arena <= scope.arena);
                }
            }
        }
    }
}

/// Puts outlines behind the arena, with the ends of those from `from` on.
fn append_copy<G>(arena: &mut Vec<Piece<G>>, from: usize, geometry: Vec<G>)
    requires
        from + geometry@.len() <= old(arena)@.len(),
        old(arena)@.len() + geometry@.len() <= usize::MAX,
    ensures
        final(arena)@ == old(arena)@ + like(
            geometry@,
            old(arena)@.subrange(from as int, from + geometry@.len()),
        ),
{
    let ghost before = arena@;
    let ghost all = geometry@;
    let n: usize = geometry.len();
    let mut rest = geometry;
    let mut k: usize = 0;
    assert(before + like(all.take(0), before.subrange(from as int, from as int)) =~= before);
    while k < n
        invariant
            n == all.len(),
            k <= n,
            rest@ == all.skip(k as int),
            from + n <= before.len(),
            before.len() + n <= usize::MAX,
            arena@ == before + like(
                all.take(k as int),
                before.subrange(from as int, from + k),
            ),
        decreases n - k,
    {
        let g = rest.remove(0);
        let closed = arena[from + k].closed;
        arena.push(Piece { geometry: g, closed });
        k += 1;
        assert(rest@ =~= all.skip(k as int));
        assert(arena@ =~= before + like(all.take(k as int), before.subrange(from as int, from + k)));
    }
    assert(all.take(n as int) =~= all);
}

/// Puts jobs behind the others, like those from `from` on but with other paints and moved.
fn append_jobs<P>(jobs: &mut Vec<Job<P>>, from: usize, paints: Vec<P>, shift: usize)
    requires
        from + paints@.len() <= old(jobs)@.len(),
        forall|j: int|
            from <= j < from + paints@.len() ==> (#[trigger] old(jobs)@[j]).start + shift
                <= usize::MAX && old(jobs)@[j].end + shift <= usize::MAX,
    ensures
        final(jobs)@ == old(jobs)@ + moved_jobs(
            old(jobs)@.subrange(from as int, from + paints@.len()),
            paints@,
            shift as int,
        ),
{
    let ghost before = jobs@;
    let ghost all = paints@;
    let len: usize = jobs.len();
    let n: usize = paints.len();
    let mut rest = paints;
    let mut k: usize = 0;
    assert(before + moved_jobs(
        before.subrange(from as int, from as int),
        all.take(0),
        shift as int,
    ) =~= before);
    while k < n
        invariant
            n == all.len(),
            k <= n,
            rest@ == all.skip(k as int),
            from + n <= before.len() == len,
            forall|j: int|
                from <= j < from + n ==> (#[trigger] before[j]).start + shift <= usize::MAX
                    && before[j].end + shift <= usize::MAX,
            jobs@ == before + moved_jobs(
                before.subrange(from as int, from + k),
                all.take(k as int),
                shift as int,
            ),
        decreases n - k,
    {
        let p = rest.remove(0);
        assert(jobs@[from + k] == before[from + k]);
        let (start, end) = (jobs[from + k].start, jobs[from + k].end);
        jobs.push(Job { paint: p, start: start + shift, end: end + shift });
        k += 1;
        assert(rest@ =~= all.skip(k as int));
        assert(jobs@ =~= before + moved_jobs(
            before.subrange(from as int, from + k),
            all.take(k as int),
            shift as int,
        ));
    }
    assert(all.take(n as int) =~= all);
}

/// Puts other outlines in the place of those from `from` on.
fn blank_out<G>(arena: &mut Vec<Piece<G>>, from: usize, blanks: Vec<G>)
    requires
        from + blanks@.len() <= old(arena)@.len(),
    ensures
        final(arena)@ == old(arena)@.take(from as int) + like(
            blanks@,
            old(arena)@.subrange(from as int, from + blanks@.len()),
        ) + old(arena)@.skip(from + blanks@.len()),
{
    let ghost before = arena@;
    let ghost all = blanks@;
    let len: usize = arena.len();
    let n: usize = blanks.len();
    let mut rest = blanks;
    let mut k: usize = 0;
    while k < n
        invariant
            n == all.len(),
            k <= n,
            rest@ == all.skip(k as int),
            from + n <= before.len() == len,
            arena@.len() == before.len(),
            forall|j: int|
                0 <= j < before.len() ==> #[trigger] arena@[j] == (if from <= j < from + k {
                    Piece { geometry: all[j - from], closed: before[j].closed }
                } else {
                    before[j]
                }),
        decreases n - k,
    {
        let g = rest.remove(0);
        let closed = arena[from + k].closed;
        arena.set(from + k, Piece { geometry: g, closed });
        k += 1;
        assert(rest@ =~= all.skip(k as int));
    }
    assert(arena@ =~= before.take(from as int) + like(
        all,
        before.subrange(from as int, from + all.len()),
    ) + before.skip(from + all.len()));
}

/// Lets jobs cover nothing any more.
fn disarm<P>(jobs: &mut Vec<Job<P>>, from: usize, to: usize)
    requires
        from <= to <= old(jobs)@.len(),
    ensures
        final(jobs)@ == old(jobs)@.take(from as int) + disarmed(
            old(jobs)@.subrange(from as int, to as int),
        ) + old(jobs)@.skip(to as int),
{
    let ghost before = jobs@;
    let mut k: usize = from;
    while k < to
        invariant
            from <= k <= to <= before.len(),
            jobs@.len() == before.len(),
            forall|j: int|
                0 <= j < before.len() ==> #[trigger] jobs@[j] == (if from <= j < k {
                    Job { paint: before[j].paint, start: before[j].start, end: before[j].start }
                } else {
                    before[j]
                }),
        decreases to - k,
    {
        let start: usize = jobs[k].start;
        set_range(jobs, k, start, start);
        k += 1;
    }
    assert(jobs@ =~= before.take(from as int) + disarmed(before.subrange(from as int, to as int))
        + before.skip(to as int));
}

/// The ranges of copied jobs lie inside the arena, and none starts before those that were copied.
proof fn lemma_copied_ranges<G, P>(
    copies: Seq<Copied<G, P>>,
    jobs: Seq<Job<P>>,
    block: int,
    first: int,
    len: int,
)
    requires
        block >= 0,
        forall|j: int| 0 <= j < jobs.len() ==> first <= (#[trigger] jobs[j]).start,
        len + block * copies.len() <= usize::MAX,
        forall|c: int| 0 <= c < copies.len() ==> (#[trigger] copies[c]).paints@.len() == jobs.len(),
        forall|j: int| 0 <= j < jobs.len() ==> (#[trigger] jobs[j]).start <= jobs[j].end <= len,
    ensures
        forall|j: int|
            0 <= j < copied_jobs(copies, jobs, block).len() ==> first <= (#[trigger] copied_jobs(
                copies,
                jobs,
                block,
            )[j]).start <= copied_jobs(copies, jobs, block)[j].end <= len + block * copies.len(),
    decreases copies.len(),
{
    if copies.len() > 0 {
        let short = copies.drop_last();
        let (n, b) = (copies.len() as int, block);
        assert(b * (n - 1) <= b * n && 0 <= b * n) by (nonlinear_arith)
            requires
                b >= 0,
                n >= 0,
        ;
        assert forall|c: int| 0 <= c < short.len() implies (#[trigger] short[c]).paints@.len()
            == jobs.len() by {
            assert(short[c] == copies[c]);
        }
        lemma_copied_ranges(short, jobs, block, first, len);
        let all = copied_jobs(copies, jobs, block);
        let front = copied_jobs(short, jobs, block);
        let last = moved_jobs(jobs, copies.last().paints@, block * copies.len());
        assert(copies.last() == copies[copies.len() - 1]);
        assert forall|j: int| 0 <= j < all.len() implies first <= (#[trigger] all[j]).start
            <= all[j].end <= len + block * copies.len() by {
            if j < front.len() {
                assert(all[j] == front[j]);
            } else {
                assert(all[j] == last[j - front.len()]);
                assert(jobs[j - front.len()].end <= len);
            }
        }
    }
}

/// The `c`th block of copied outlines is the `c`th copy.
proof fn lemma_copied_block<G, P>(copies: Seq<Copied<G, P>>, base: Seq<Piece<G>>, c: int)
    requires
        forall|k: int| 0 <= k < copies.len() ==> (#[trigger] copies[k]).geometry@.len() == base.len(),
        0 <= c < copies.len(),
    ensures
        base.len() * (c + 1) <= copied_pieces(copies, base).len(),
        copied_pieces(copies, base).subrange(base.len() * c, base.len() * (c + 1)) == like(
            copies[c].geometry@,
            base,
        ),
    decreases copies.len(),
{
    let short = copies.drop_last();
    let front = copied_pieces(short, base);
    let last = like(copies.last().geometry@, base);
    let b = base.len() as int;
    assert forall|k: int| 0 <= k < short.len() implies (#[trigger] short[k]).geometry@.len()
        == base.len() by {
        assert(short[k] == copies[k]);
    }
    lemma_copied_len(short, base);
    lemma_copied_len(copies, base);
    assert(copies.last() == copies[copies.len() - 1]);
    assert(b * (c + 1) == b * c + b && b * c >= 0) by (nonlinear_arith)
        requires
            b >= 0,
            c >= 0,
    ;
    if c + 1 < copies.len() {
        lemma_copied_block(short, base, c);
        assert(short[c] == copies[c]);
        assert(copied_pieces(copies, base).subrange(b * c, b * (c + 1)) =~= front.subrange(
            b * c,
            b * (c + 1),
        ));
    } else {
        assert(copied_pieces(copies, base).subrange(b * c, b * (c + 1)) =~= last);
    }
}

/// A copied paint covers the copies of what its original covered: `front` is the arena up to the end
/// of the originals, which start at `scope`.
pub proof fn law_copies_cover_copies<G, P>(
    front: Seq<Piece<G>>,
    base: Seq<Piece<G>>,
    copies: Seq<Copied<G, P>>,
    jobs: Seq<Job<P>>,
    scope: int,
    c: int,
    j: int,
)
    requires
        0 <= scope,
        front.len() == scope + base.len(),
        forall|k: int| 0 <= k < copies.len() ==> (#[trigger] copies[k]).geometry@.len() == base.len(),
        0 <= c < copies.len(),
        0 <= j < jobs.len() == copies[c].paints@.len(),
        scope <= jobs[j].start <= jobs[j].end <= front.len(),
        front.len() + base.len() * copies.len() <= usize::MAX,
    ensures
        covered(
            front + copied_pieces(copies, base),
            moved_jobs(jobs, copies[c].paints@, base.len() * (c + 1))[j],
        ) == like(copies[c].geometry@, base).subrange(
            jobs[j].start - scope,
            jobs[j].end - scope,
        ),
{
    let b = base.len() as int;
    let n = copies.len() as int;
    let all = copied_pieces(copies, base);
    let arena = front + all;
    let job = moved_jobs(jobs, copies[c].paints@, b * (c + 1))[j];
    lemma_copied_len(copies, base);
    lemma_copied_block(copies, base, c);
    assert(b * (c + 1) <= b * n && b * (c + 1) == b * c + b) by (nonlinear_arith)
        requires
            b >= 0,
            c + 1 <= n,
    ;
    let block = all.subrange(b * c, b * (c + 1));
    assert(covered(arena, job) =~= block.subrange(jobs[j].start - scope, jobs[j].end - scope)) by {
        assert(job.start == jobs[j].start + b * (c + 1));
        assert(job.end == jobs[j].end + b * (c + 1));
        assert(arena.len() == front.len() + b * n);
        assert(job.end <= arena.len());
        assert forall|k: int| 0 <= k < job.end - job.start implies #[trigger] covered(
            arena,
            job,
        )[k] == block[jobs[j].start - scope + k] by {
            assert(job.start + k - front.len() == b * c + jobs[j].start - scope + k);
        }
    }
}

impl<G, P> Scene<G, P> {
    /// The `k`th paint to be drawn, with the range of the arena that it covers. What is listed last
    /// is drawn first.
    pub fn draw_at(&self, k: usize) -> (r: (usize, usize, usize))
        requires
            self.wf(),
            k < self.pending@.len(),
        ensures
            r.0 == self.pending@.len() - 1 - k,
            r.1 <= r.2 <= self.arena@.len(),
            covered(self.arena@, self.pending@[r.0 as int]) == self.arena@.subrange(
                r.1 as int,
                r.2 as int,
            ),
    {
        let i: usize = self.pending.len() - 1 - k;
        (i, self.pending[i].start, self.pending[i].end)
    }
}

/// One step of a walk over shapes.
pub enum WalkOp<'a> {
    /// A group starts.
    Enter(&'a Group),
    /// The group ends.
    Leave,
    /// A shape that is no group.
    Item(&'a Shape),
}

/// How deep groups are walked. What lies deeper is left out.
pub const MAX_WALK_DEPTH: usize = 40;

/// The walk over the first `n` of the shapes at a depth.
pub open spec fn walk_of<'a>(shapes: Seq<Shape>, n: nat, depth: int) -> Seq<WalkOp<'a>>
    decreases MAX_WALK_DEPTH + 1 - depth, n,
{
    if n == 0 || n > shapes.len() || depth > MAX_WALK_DEPTH {
        Seq::empty()
    } else {
        let before = walk_of(shapes, (n - 1) as nat, depth);
        match shapes[n - 1] {
            Shape::Group(g) => before.push(WalkOp::Enter(&g)) + walk_of(
                g.shapes@,
                g.shapes@.len(),
                depth + 1,
            ) + seq![WalkOp::Leave],
            _ => before.push(WalkOp::Item(&shapes[n - 1])),
        }
    }
}

/// The walk over shapes, in the order in which they are listed.
pub fn walk<'a>(shapes: &'a Vec<Shape>, depth: usize, ops: &mut Vec<WalkOp<'a>>)
    ensures
        final(ops)@ == old(ops)@ + walk_of(shapes@, shapes@.len(), depth as int),
    decreases MAX_WALK_DEPTH + 1 - depth,
{
    let ghost before = ops@;
    if depth > MAX_WALK_DEPTH {
        assert(before + walk_of(shapes@, shapes@.len(), depth as int) =~= before);
        return;
    }
    let n: usize = shapes.len();
    let mut i: usize = 0;
    assert(before + walk_of(shapes@, 0, depth as int) =~= before);
    while i < n
        invariant
            n == shapes@.len(),
            i <= n,
            depth <= MAX_WALK_DEPTH,
            ops@ == before + walk_of(shapes@, i as nat, depth as int),
        decreases n - i,
    {
        let ghost so_far = walk_of::<'a>(shapes@, i as nat, depth as int);
        match &shapes[i] {
            Shape::Group(g) => {
                ops.push(WalkOp::Enter(g));
                walk(&g.shapes, depth + 1, ops);
                ops.push(WalkOp::Leave);
                assert(ops@ =~= before + (so_far.push(WalkOp::Enter(g)) + walk_of(
                    g.shapes@,
                    g.shapes@.len(),
                    depth + 1,
                ) + seq![WalkOp::Leave]));
            },
            shape => {
                ops.push(WalkOp::Item(shape));
                assert(ops@ =~= before + so_far.push(WalkOp::Item(shape)));
            },
        }
        i += 1;
    }
}

/// True for a shape that paints.
pub open spec fn is_paint(shape: Shape) -> bool {
    shape is Fill || shape is Stroke || shape is GradientFill || shape is GradientStroke
}

/// The paints among the first `n` steps of a walk.
pub open spec fn paints_in<'a>(ops: Seq<WalkOp<'a>>, n: int) -> Seq<&'a Shape>
    decreases n,
{
    if n <= 0 {
        Seq::empty()
    } else {
        let before = paints_in(ops, n - 1);
        match ops[n - 1] {
            WalkOp::Item(shape) => if is_paint(*shape) {
                before.push(shape)
            } else {
                before
            },
            _ => before,
        }
    }
}

/// Lists the paints among shapes, in the order in which they are walked.
pub fn paints<'a>(shapes: &'a Vec<Shape>) -> (v: Vec<&'a Shape>)
    ensures
        v@ == paints_in(
            walk_of(shapes@, shapes@.len(), 0),
            walk_of::<'a>(shapes@, shapes@.len(), 0).len() as int,
        ),
{
    let mut ops: Vec<WalkOp<'a>> = Vec::new();
    walk(shapes, 0, &mut ops);
    assert(ops@ =~= walk_of(shapes@, shapes@.len(), 0));
    let mut v: Vec<&'a Shape> = Vec::new();
    let mut i: usize = 0;
    while i < ops.len()
        invariant
            i <= ops@.len(),
            v@ == paints_in(ops@, i as int),
        decreases ops@.len() - i,
    {
        match &ops[i] {
            WalkOp::Item(shape) => {
                let paints = match shape {
                    Shape::Fill(_) | Shape::Stroke(_) | Shape::GradientFill(_)
                    | Shape::GradientStroke(_) => true,
                    _ => false,
                };
                if paints {
                    v.push(*shape);
                }
            },
            _ => {},
        }
        i += 1;
    }
    v
}

/// How many of the first `n` paints show.
pub open spec fn shown_count(shown: Seq<bool>, n: int) -> nat
    decreases n,
{
    if n <= 0 {
        0
    } else if shown[n - 1] {
        shown_count(shown, n - 1) + 1
    } else {
        shown_count(shown, n - 1)
    }
}

proof fn lemma_shown_count(shown: Seq<bool>, k: int, n: int)
    requires
        k <= n,
    ensures
        shown_count(shown, k) <= shown_count(shown, n),
    decreases n - k,
{
    if k < n {
        lemma_shown_count(shown, k, n - 1);
    }
}

/// Tells whether more than one paint shows.
pub fn many_paints(shown: &[bool]) -> (r: bool)
    ensures
        r == (shown_count(shown@, shown@.len() as int) > 1),
{
    let mut seen = false;
    let mut i: usize = 0;
    while i < shown.len()
        invariant
            i <= shown@.len(),
            shown_count(shown@, i as int) == (if seen {
                1nat
            } else {
                0
            }),
        decreases shown@.len() - i,
    {
        if shown[i] {
            if seen {
                proof {
                    lemma_shown_count(shown@, i + 1, shown@.len() as int);
                }
                return true;
            }
            seen = true;
        }
        i += 1;
    }
    false
}

/// How many groups are open after `ops`, where `open` were open before.
pub open spec fn open_groups<'a>(ops: Seq<WalkOp<'a>>, open: int) -> int
    decreases ops.len(),
{
    if ops.len() == 0 {
        open
    } else {
        let before = open_groups(ops.drop_last(), open);
        match ops.last() {
            WalkOp::Enter(_) => before + 1,
            WalkOp::Leave => before - 1,
            WalkOp::Item(_) => before,
        }
    }
}

proof fn lemma_open_groups_append<'a>(a: Seq<WalkOp<'a>>, b: Seq<WalkOp<'a>>, open: int)
    ensures
        open_groups(a + b, open) == open_groups(b, open_groups(a, open)),
    decreases b.len(),
{
    if b.len() == 0 {
        assert(a + b =~= a);
    } else {
        assert((a + b).drop_last() =~= a + b.drop_last());
        lemma_open_groups_append(a, b.drop_last(), open);
    }
}

/// A walk closes every group that it opens, and at no point more than it opened.
pub proof fn law_walk_is_balanced<'a>(shapes: Seq<Shape>, n: nat, depth: int, open: int, cut: int)
    requires
        0 <= cut <= walk_of::<'a>(shapes, n, depth).len(),
    ensures
        open_groups(walk_of::<'a>(shapes, n, depth), open) == open,
        open_groups(walk_of::<'a>(shapes, n, depth).take(cut), open) >= open,
    decreases MAX_WALK_DEPTH + 1 - depth, n,
{
    let all = walk_of::<'a>(shapes, n, depth);
    if n == 0 || n > shapes.len() || depth > MAX_WALK_DEPTH {
        assert(all.take(cut) =~= all);
    } else {
        let m = (n - 1) as nat;
        let before = walk_of::<'a>(shapes, m, depth);
        if cut <= before.len() {
            law_walk_is_balanced(shapes, m, depth, open, cut);
        }
        law_walk_is_balanced(shapes, m, depth, open, before.len() as int);
        match shapes[n - 1] {
            Shape::Group(g) => {
                let inner = walk_of::<'a>(g.shapes@, g.shapes@.len(), depth + 1);
                let entered = before.push(WalkOp::Enter(&g));
                assert(entered.drop_last() =~= before);
                law_walk_is_balanced(g.shapes@, g.shapes@.len(), depth + 1, open + 1, 0);
                lemma_open_groups_append(entered, inner, open);
                assert(all.drop_last() =~= entered + inner);
                if cut <= before.len() {
                    assert(all.take(cut) =~= before.take(cut));
                } else if cut == all.len() {
                    assert(all.take(cut) =~= all);
                } else {
                    let k = cut - entered.len();
                    law_walk_is_balanced(g.shapes@, g.shapes@.len(), depth + 1, open + 1, k);
                    lemma_open_groups_append(entered, inner.take(k), open);
                    assert(all.take(cut) =~= entered + inner.take(k));
                }
            },
            _ => {
                assert(all.drop_last() =~= before);
                if cut <= before.len() {
                    assert(all.take(cut) =~= before.take(cut));
                } else {
                    assert(all.take(cut) =~= all);
                }
            },
        }
    }
}

/// What a list of dash values means.
pub struct Dash<T> {
    /// Dashes and gaps by turns.
    pub pattern: Vec<T>,
    /// How far the pattern is moved along the path.
    pub offset: Option<T>,
}

/// The dashes and gaps that a list of values stands for. They are taken in order, and the last is
/// the offset. Where their number is even, the last gap is missing, and the dash before takes its
/// place.
pub open spec fn dash_pattern_of<T>(values: Seq<T>) -> Seq<T> {
    if values.len() <= 1 {
        Seq::empty()
    } else if values.len() % 2 == 0 {
        values.update(values.len() - 1, values[values.len() - 2])
    } else {
        values.drop_last()
    }
}

/// Tells dashes, gaps and the offset of a list of values apart.
pub fn dash_pattern<T: Copy>(values: &[T]) -> (d: Dash<T>)
    ensures
        d.pattern@ == dash_pattern_of(values@),
        d.offset == (if values@.len() <= 1 {
            None
        } else {
            Some(values@.last())
        }),
{
    let n: usize = values.len();
    let mut pattern: Vec<T> = Vec::new();
    if n <= 1 {
        assert(pattern@ =~= Seq::empty());
        return Dash { pattern, offset: None };
    }
    let mut i: usize = 0;
    while i < n - 1
        invariant
            n == values@.len(),
            n >= 2,
            i <= n - 1,
            pattern@ == values@.take(i as int),
        decreases n - i,
    {
        pattern.push(values[i]);
        i += 1;
        assert(pattern@ =~= values@.take(i as int));
    }
    if n % 2 == 0 {
        pattern.push(values[n - 2]);
        assert(pattern@ =~= values@.update(n - 1, values@[n - 2]));
    } else {
        assert(pattern@ =~= values@.drop_last());
    }
    Dash { pattern, offset: Some(values[n - 1]) }
}

/// A pattern always has as many gaps as dashes.
pub proof fn law_dashes_and_gaps_alternate<T>(values: Seq<T>)
    ensures
        dash_pattern_of(values).len() % 2 == 0,
{
}

proof fn lemma_walk_prefix<'a>(a: Seq<Shape>, b: Seq<Shape>, n: nat, depth: int)
    requires
        n <= a.len(),
        n <= b.len(),
        forall|i: int| 0 <= i < n ==> a[i] == b[i],
    ensures
        walk_of::<'a>(a, n, depth) == walk_of::<'a>(b, n, depth),
    decreases n,
{
    if n > 0 && depth <= MAX_WALK_DEPTH {
        lemma_walk_prefix(a, b, (n - 1) as nat, depth);
    }
}

/// Shapes are walked in the order in which they are listed: the walk over a list and one more shape is
/// the walk over the list and then over that shape. A shape that is no group is one step, and a group is
/// entered, walked and left.
pub proof fn law_shapes_are_walked_in_order<'a>(shapes: Seq<Shape>, shape: Shape, depth: int)
    requires
        depth <= 40,
    ensures
        walk_of::<'a>(shapes.push(shape), shapes.len() + 1, depth) == walk_of::<'a>(
            shapes,
            shapes.len(),
            depth,
        ) + walk_of::<'a>(seq![shape], 1, depth),
        !(shape is Group) ==> walk_of::<'a>(seq![shape], 1, depth) == seq![WalkOp::Item(&shape)],
        shape matches Shape::Group(g) ==> walk_of::<'a>(seq![shape], 1, depth) == seq![
            WalkOp::Enter(&g),
        ] + walk_of::<'a>(g.shapes@, g.shapes@.len(), depth + 1) + seq![WalkOp::Leave],
{
    let more = shapes.push(shape);
    let n = shapes.len();
    lemma_walk_prefix(more, shapes, n, depth);
    let one = seq![shape];
    assert(walk_of::<'a>(one, 0, depth) =~= Seq::empty());
    assert(more[n as int] == shape);
    match shape {
        Shape::Group(g) => {
            let inner = walk_of::<'a>(g.shapes@, g.shapes@.len(), depth + 1);
            assert(walk_of::<'a>(one, 1, depth) =~= seq![WalkOp::Enter(&g)] + inner + seq![
                WalkOp::Leave,
            ]);
            assert(walk_of::<'a>(more, n + 1, depth) =~= walk_of::<'a>(shapes, n, depth)
                + walk_of::<'a>(one, 1, depth));
        },
        _ => {
            assert(walk_of::<'a>(one, 1, depth) =~= seq![WalkOp::Item(&shape)]);
            assert(walk_of::<'a>(more, n + 1, depth) =~= walk_of::<'a>(shapes, n, depth)
                + walk_of::<'a>(one, 1, depth));
        },
    }
}

/// Shapes nested deeper than forty groups are left out.
pub proof fn law_deep_shapes_are_left_out<'a>(shapes: Seq<Shape>, n: nat, depth: int)
    requires
        depth > 40,
    ensures
        walk_of::<'a>(shapes, n, depth).len() == 0,
{
}

/// The four shapes that paint are fills and strokes, in one color or in a gradient.
pub proof fn law_four_shapes_paint(shape: Shape)
    ensures
        is_paint(shape) <==> match shape {
            Shape::Fill(_) => true,
            Shape::Stroke(_) => true,
            Shape::GradientFill(_) => true,
            Shape::GradientStroke(_) => true,
            _ => false,
        },
{
}

/// The paints of a walk are its steps that paint, in their order: one more step adds itself or nothing.
pub proof fn law_paints_are_the_steps_that_paint<'a>(ops: Seq<WalkOp<'a>>, n: int)
    requires
        0 <= n < ops.len(),
    ensures
        paints_in(ops, 0).len() == 0,
        match ops[n] {
            WalkOp::Item(shape) => paints_in(ops, n + 1) == paints_in(ops, n) + (if shape is Fill
                || shape is Stroke || shape is GradientFill || shape is GradientStroke {
                seq![shape]
            } else {
                Seq::empty()
            }),
            _ => paints_in(ops, n + 1) == paints_in(ops, n),
        },
{
    assert(paints_in(ops, n + 1) =~= match ops[n] {
        WalkOp::Item(shape) => paints_in(ops, n) + (if is_paint(*shape) {
            seq![shape]
        } else {
            Seq::empty()
        }),
        _ => paints_in(ops, n),
    });
}

/// More than one paint shows exactly where two of them do.
pub proof fn law_many_paints_are_two(shown: Seq<bool>, i: int, j: int)
    requires
        0 <= i < j < shown.len(),
    ensures
        shown[i] && shown[j] ==> shown_count(shown, shown.len() as int) > 1,
        (forall|k: int| 0 <= k < shown.len() && k != i ==> !#[trigger] shown[k]) ==> shown_count(
            shown,
            shown.len() as int,
        ) <= 1,
        (forall|k: int| 0 <= k < shown.len() ==> !#[trigger] shown[k]) ==> shown_count(
            shown,
            shown.len() as int,
        ) == 0,
{
    let n = shown.len() as int;
    lemma_shown_count(shown, 0, i);
    lemma_shown_count(shown, i + 1, j);
    lemma_shown_count(shown, j + 1, n);
    if forall|k: int| 0 <= k < n && k != i ==> !#[trigger] shown[k] {
        lemma_none_shown(shown, 0, i);
        lemma_none_shown(shown, i + 1, n);
    }
    if forall|k: int| 0 <= k < n ==> !#[trigger] shown[k] {
        lemma_none_shown(shown, 0, n);
    }
}

proof fn lemma_none_shown(shown: Seq<bool>, a: int, b: int)
    requires
        0 <= a <= b <= shown.len(),
        forall|k: int| a <= k < b ==> !#[trigger] shown[k],
    ensures
        shown_count(shown, b) == shown_count(shown, a),
    decreases b - a,
{
    if a < b {
        lemma_none_shown(shown, a, b - 1);
        assert(!shown[b - 1]);
    }
}

/// A list of dash values stands for its dashes and gaps in their order. The last value is the offset and
/// no part of the pattern; where that leaves a dash without a gap, the gap is as long as the dash. One
/// value alone, or none, is no pattern.
pub proof fn law_dash_values_stand_in_order<T: Copy>(values: &[T], d: Dash<T>, i: int)
    requires
        call_ensures(dash_pattern::<T>, (values,), d),
    ensures
        values@.len() <= 1 ==> d.pattern@.len() == 0 && d.offset is None,
        values@.len() > 1 ==> d.offset == Some(values@[values@.len() - 1]),
        values@.len() > 1 && 0 <= i < values@.len() - 1 ==> d.pattern@[i] == values@[i],
        values@.len() > 1 && values@.len() % 2 == 1 ==> d.pattern@.len() == values@.len() - 1,
        values@.len() > 1 && values@.len() % 2 == 0 ==> d.pattern@.len() == values@.len()
            && d.pattern@.last() == values@[values@.len() - 2],
{
}

/// Of two paints the one that is listed later is drawn first, so that what is listed first lies on top.
pub proof fn law_what_is_listed_first_lies_on_top<G, P>(
    s: &Scene<G, P>,
    a: usize,
    b: usize,
    x: (usize, usize, usize),
    y: (usize, usize, usize),
)
    requires
        call_ensures(Scene::<G, P>::draw_at, (s, a), x),
        call_ensures(Scene::<G, P>::draw_at, (s, b), y),
        a < b < s.pending@.len(),
    ensures
        x.0 > y.0,
        x.0 < s.pending@.len(),
        b == s.pending@.len() - 1 ==> y.0 == 0,
        a == 0 ==> x.0 == s.pending@.len() - 1,
{
}

/// A paint that is disarmed covers nothing and stays the paint it was.
pub proof fn law_disarmed_paints_cover_nothing<G, P>(arena: Seq<Piece<G>>, jobs: Seq<Job<P>>, i: int)
    requires
        0 <= i < jobs.len(),
    ensures
        disarmed(jobs).len() == jobs.len(),
        covered(arena, disarmed(jobs)[i]).len() == 0,
        disarmed(jobs)[i].paint == jobs[i].paint,
{
}

/// A paint covers the outlines from its start up to its end.
pub proof fn law_paints_cover_their_range<G, P>(arena: Seq<Piece<G>>, j: Job<P>, i: int)
    requires
        j.start <= j.end <= arena.len(),
    ensures
        covered(arena, j).len() == j.end - j.start,
        0 <= i < j.end - j.start ==> covered(arena, j)[i] == arena[j.start + i],
{
}

/// The paints of copies stand copy after copy, each with the copy's own paint, moved on by one block of
/// outlines for every copy.
pub proof fn law_copied_paints_stand_in_order<G, P>(
    copies: Seq<Copied<G, P>>,
    base: Seq<Job<P>>,
    block: int,
    c: int,
    j: int,
)
    requires
        0 <= c < copies.len(),
        0 <= j < base.len(),
        0 <= block,
        forall|k: int| 0 <= k < copies.len() ==> (#[trigger] copies[k]).paints@.len() == base.len(),
        base[j].end + block * copies.len() <= usize::MAX,
        base[j].start <= base[j].end,
    ensures
        copied_jobs(copies, base, block).len() == base.len() * copies.len(),
        ({
            let job = copied_jobs(copies, base, block)[base.len() * c + j];
            &&& job.paint == copies[c].paints@[j]
            &&& job.start == base[j].start + block * (c + 1)
            &&& job.end == base[j].end + block * (c + 1)
        }),
    decreases copies.len(),
{
    let n = copies.len() as int;
    let m = base.len() as int;
    let short = copies.drop_last();
    assert forall|k: int| 0 <= k < short.len() implies (#[trigger] short[k]).paints@.len()
        == base.len() by {
        assert(short[k] == copies[k]);
    }
    lemma_copied_jobs_len(short, base, block);
    assert(copies.last() == copies[n - 1]);
    assert(m * (n - 1) + m == m * n) by (nonlinear_arith);
    if c < n - 1 {
        assert(block * (n - 1) <= block * n) by (nonlinear_arith)
            requires
                0 <= block,
        ;
        law_copied_paints_stand_in_order(short, base, block, c, j);
        assert(0 <= m * c + j < m * (n - 1)) by (nonlinear_arith)
            requires
                0 <= c < n - 1,
                0 <= j < m,
        ;
        assert(short[c] == copies[c]);
    } else {
        assert(0 <= block * n) by (nonlinear_arith)
            requires
                0 <= block,
                0 <= n,
        ;
    }
}

proof fn lemma_copied_jobs_len<G, P>(copies: Seq<Copied<G, P>>, base: Seq<Job<P>>, block: int)
    requires
        forall|k: int| 0 <= k < copies.len() ==> (#[trigger] copies[k]).paints@.len() == base.len(),
    ensures
        copied_jobs(copies, base, block).len() == base.len() * copies.len(),
    decreases copies.len(),
{
    let (n, m) = (copies.len() as int, base.len() as int);
    if n > 0 {
        let short = copies.drop_last();
        assert forall|k: int| 0 <= k < short.len() implies (#[trigger] short[k]).paints@.len()
            == base.len() by {
            assert(short[k] == copies[k]);
        }
        lemma_copied_jobs_len(short, base, block);
        assert(copies.last() == copies[n - 1]);
        assert(m * (n - 1) + m == m * n) by (nonlinear_arith);
    } else {
        assert(m * 0 == 0);
    }
}

} // verus!
