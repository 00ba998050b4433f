//! Dirty rectangles: the pixels of a plane that may differ from its clear color.

use vstd::prelude::*;

verus! {

/// An inclusive rectangle of written pixels. A rectangle whose bounds cross is empty.
#[derive(Clone, Copy, Debug, PartialEq, Eq, Structural)]
pub struct DirtyBox {
    /// First column.
    pub x0: usize,
    /// First row.
    pub y0: usize,
    /// Last column.
    pub x1: usize,
    /// Last row.
    pub y1: usize,
}

impl DirtyBox {
    /// True for a rectangle without pixels.
    pub open spec fn is_empty_spec(self) -> bool {
        self.x0 > self.x1 || self.y0 > self.y1
    }

    /// True where the rectangle holds the pixel in column `x` of row `y`.
    pub open spec fn holds(self, x: int, y: int) -> bool {
        self.x0 <= x <= self.x1 && self.y0 <= y <= self.y1
    }

    /// True where the rectangle has no pixel outside a canvas of `w` by `h` pixels.
    pub open spec fn within(self, w: int, h: int) -> bool {
        self.is_empty_spec() || (self.x1 < w && self.y1 < h)
    }

    /// The rectangle without pixels.
    pub fn empty() -> (b: DirtyBox)
        ensures
            b == (DirtyBox { x0: usize::MAX, y0: usize::MAX, x1: 0, y1: 0 }),
            b.is_empty_spec(),
    {
        DirtyBox { x0: usize::MAX, y0: usize::MAX, x1: 0, y1: 0 }
    }

    /// True for a rectangle without pixels.
    pub fn is_empty(&self) -> (r: bool)
        ensures
            r == self.is_empty_spec(),
    {
        self.x0 > self.x1 || self.y0 > self.y1
    }

    /// Takes in the columns `x0..x1` of row `y`.
    pub fn mark_row(&mut self, y: usize, x0: usize, x1: usize)
        ensures
            *final(self) == old(self).marked(y, x0, x1),
    {
        if x1 <= x0 {
            return;
        }
        self.x0 = min(self.x0, x0);
        self.x1 = max(self.x1, x1 - 1);
        self.y0 = min(self.y0, y);
        self.y1 = max(self.y1, y);
    }

    /// The rectangle that also takes in the columns `x0..x1` of row `y`.
    pub open spec fn marked(self, y: usize, x0: usize, x1: usize) -> DirtyBox {
        if x1 <= x0 {
            self
        } else {
            DirtyBox {
                x0: least(self.x0, x0),
                y0: least(self.y0, y),
                x1: greatest(self.x1, (x1 - 1) as usize),
                y1: greatest(self.y1, y),
            }
        }
    }

    /// Takes in another rectangle.
    pub fn union(&mut self, other: DirtyBox)
        ensures
            *final(self) == old(self).joined(other),
    {
        if other.is_empty() {
            return;
        }
        self.x0 = min(self.x0, other.x0);
        self.y0 = min(self.y0, other.y0);
        self.x1 = max(self.x1, other.x1);
        self.y1 = max(self.y1, other.y1);
    }

    /// The rectangle that also takes in another one.
    pub open spec fn joined(self, other: DirtyBox) -> DirtyBox {
        if other.is_empty_spec() {
            self
        } else {
            DirtyBox {
                x0: least(self.x0, other.x0),
                y0: least(self.y0, other.y0),
                x1: greatest(self.x1, other.x1),
                y1: greatest(self.y1, other.y1),
            }
        }
    }

    /// True where one of the rectangle's rows, laid out at stride `w`, takes in index `i`.
    pub open spec fn covers(self, w: int, i: int) -> bool {
        exists|y: int| self.y0 <= y <= self.y1 && #[trigger] self.row_covers(w, y, i)
    }

    /// True where row `y` of the rectangle, laid out at stride `w`, takes in index `i`.
    pub open spec fn row_covers(self, w: int, y: int, i: int) -> bool {
        y * w + self.x0 <= i <= y * w + self.x1
    }

    /// True where the index of every pixel of the rectangle, laid out at stride `w`, fits a `usize`.
    pub open spec fn indexable(self, w: int) -> bool {
        self.is_empty_spec() || self.y1 * w + self.x1 + 1 <= usize::MAX
    }
}

/// The smaller of two numbers.
pub open spec fn least(a: usize, b: usize) -> usize {
    if a < b {
        a
    } else {
        b
    }
}

/// The larger of two numbers.
pub open spec fn greatest(a: usize, b: usize) -> usize {
    if a > b {
        a
    } else {
        b
    }
}

/// The smaller of two numbers.
pub fn min(a: usize, b: usize) -> (r: usize)
    ensures
        r == least(a, b),
{
    if a < b {
        a
    } else {
        b
    }
}

/// The larger of two numbers.
pub fn max(a: usize, b: usize) -> (r: usize)
    ensures
        r == greatest(a, b),
{
    if a > b {
        a
    } else {
        b
    }
}

/// The marked columns are in the rectangle, and so is everything that was.
pub proof fn law_mark_row_holds(b: DirtyBox, y: usize, x0: usize, x1: usize)
    ensures
        forall|x: int| x0 <= x < x1 ==> #[trigger] b.marked(y, x0, x1).holds(x, y as int),
        forall|x: int, v: int| b.holds(x, v) ==> #[trigger] b.marked(y, x0, x1).holds(x, v),
{
}

/// Both rectangles are in their union.
pub proof fn law_union_holds(a: DirtyBox, b: DirtyBox)
    ensures
        forall|x: int, y: int| a.holds(x, y) || b.holds(x, y) ==> #[trigger] a.joined(b).holds(x, y),
{
}

/// A union stays within any canvas that both rectangles are within.
pub proof fn law_union_within(a: DirtyBox, b: DirtyBox, w: int, h: int)
    requires
        a.within(w, h),
        b.within(w, h),
        a.is_empty_spec() ==> a.x1 == 0 && a.y1 == 0,
    ensures
        a.joined(b).within(w, h),
{
}

/// Within a canvas of width `w` a rectangle takes in exactly the indices of its pixels.
pub proof fn law_covers_exactly_its_pixels(b: DirtyBox, w: int, h: int, x: int, y: int)
    requires
        b.within(w, h),
        0 <= x < w,
        0 <= y,
    ensures
        b.covers(w, y * w + x) == b.holds(x, y),
{
    let i = y * w + x;
    if b.holds(x, y) {
        assert(b.row_covers(w, y, i));
    }
    if b.covers(w, i) {
        let v = choose|v: int| b.y0 <= v <= b.y1 && #[trigger] b.row_covers(w, v, i);
        assert(v == y) by (nonlinear_arith)
            requires
                v * w + b.x0 <= y * w + x,
                y * w + x <= v * w + b.x1,
                b.x1 < w,
                0 <= x < w,
                b.x0 >= 0,
        ;
    }
}

/// The plane that keeps `old` outside a rectangle's rows and takes `new` inside them.
pub open spec fn boxed<T>(b: DirtyBox, w: int, old_plane: Seq<T>, new_plane: Seq<T>) -> Seq<T> {
    Seq::new(
        old_plane.len(),
        |i: int|
            if b.covers(w, i) {
                new_plane[i]
            } else {
                old_plane[i]
            },
    )
}

/// A plane keeps its size where part of it is replaced.
pub proof fn lemma_boxed_len<T>(b: DirtyBox, w: int, old_plane: Seq<T>, new_plane: Seq<T>)
    ensures
        boxed(b, w, old_plane, new_plane).len() == old_plane.len(),
{
}

/// What `boxed` is once the rows before `y` have been taken over.
pub open spec fn boxed_to<T>(b: DirtyBox, w: int, y: int, old_plane: Seq<T>, new_plane: Seq<T>) -> Seq<T> {
    Seq::new(
        old_plane.len(),
        |i: int|
            if exists|v: int| b.y0 <= v < y && #[trigger] b.row_covers(w, v, i) {
                new_plane[i]
            } else {
                old_plane[i]
            },
    )
}

/// One more row of `boxed_to`: the indices `lo..hi` of row `y` are taken over.
pub proof fn lemma_boxed_row<T>(
    b: DirtyBox,
    w: int,
    y: int,
    lo: int,
    hi: int,
    old_plane: Seq<T>,
    new_plane: Seq<T>,
    mid: Seq<T>,
    after: Seq<T>,
)
    requires
        b.y0 <= y <= b.y1,
        lo == y * w + b.x0,
        hi == if y * w + b.x1 + 1 < old_plane.len() {
            y * w + b.x1 + 1
        } else {
            old_plane.len() as int
        },
        mid == boxed_to(b, w, y, old_plane, new_plane),
        after.len() == old_plane.len(),
        forall|i: int| 0 <= i < after.len() ==> #[trigger] after[i] == if lo <= i < hi {
            new_plane[i]
        } else {
            mid[i]
        },
    ensures
        after == boxed_to(b, w, y + 1, old_plane, new_plane),
{
    let goal = boxed_to(b, w, y + 1, old_plane, new_plane);
    assert forall|i: int| 0 <= i < old_plane.len() implies #[trigger] after[i] == goal[i] by {
        if lo <= i < hi {
            assert(b.row_covers(w, y, i));
        } else {
            assert(!b.row_covers(w, y, i));
            if exists|v: int| b.y0 <= v < y + 1 && #[trigger] b.row_covers(w, v, i) {
                let v = choose|v: int| b.y0 <= v < y + 1 && #[trigger] b.row_covers(w, v, i);
                assert(v < y);
                assert(b.row_covers(w, v, i));
            }
        }
    }
    assert(after =~= goal);
}

/// `boxed_to` before the first row is the old plane, and after the last one it is `boxed`.
pub proof fn lemma_boxed_ends<T>(b: DirtyBox, w: int, old_plane: Seq<T>, new_plane: Seq<T>)
    ensures
        boxed_to(b, w, b.y0 as int, old_plane, new_plane) == old_plane,
        boxed_to(b, w, b.y1 + 1, old_plane, new_plane) == boxed(b, w, old_plane, new_plane),
        b.is_empty_spec() ==> boxed(b, w, old_plane, new_plane) == old_plane,
{
    assert(boxed_to(b, w, b.y0 as int, old_plane, new_plane) =~= old_plane);
    assert forall|i: int| #[trigger] b.covers(w, i) == (exists|v: int| b.y0 <= v < b.y1 + 1 && #[trigger] b.row_covers(w, v, i)) by {
        if b.covers(w, i) {
            let v = choose|v: int| b.y0 <= v <= b.y1 && #[trigger] b.row_covers(w, v, i);
            assert(b.y0 <= v < b.y1 + 1 && b.row_covers(w, v, i));
        }
    }
    assert(boxed_to(b, w, b.y1 + 1, old_plane, new_plane) =~= boxed(b, w, old_plane, new_plane));
    if b.is_empty_spec() {
        assert(boxed(b, w, old_plane, new_plane) =~= old_plane);
    }
}

/// The rows of a rectangle that is no wider than the stride do not overlap.
pub proof fn lemma_rows_disjoint(b: DirtyBox, w: int, u: int, v: int, i: int)
    requires
        b.x1 < w,
        u < v,
    ensures
        !(b.row_covers(w, u, i) && b.row_covers(w, v, i)),
{
    assert(u * w + w <= v * w) by (nonlinear_arith)
        requires
            u + 1 <= v,
            w >= 0,
    ;
}

/// The first index and the end of row `y` of a rectangle in a plane of `len` elements at stride `w`.
pub fn box_row(b: DirtyBox, w: usize, y: usize, len: usize) -> (r: (usize, usize))
    requires
        !b.is_empty_spec(),
        b.indexable(w as int),
        b.y0 <= y <= b.y1,
    ensures
        r.0 == y * w + b.x0,
        r.1 == if y * w + b.x1 + 1 < len {
            y * w + b.x1 + 1
        } else {
            len as int
        },
{
    proof {
        vstd::arithmetic::mul::lemma_mul_inequality(y as int, b.y1 as int, w as int);
        vstd::arithmetic::mul::lemma_mul_nonnegative(y as int, w as int);
    }
    let base: usize = y * w;
    (base + b.x0, min(base + b.x1 + 1, len))
}

/// The plane of `n` elements that all are `v`.
pub open spec fn constant<T>(n: nat, v: T) -> Seq<T> {
    Seq::new(n, |i: int| v)
}

/// Fills a rectangle of a plane of stride `w` with `v`.
pub fn fill_rows_u8(buf: &mut [u8], w: usize, b: DirtyBox, v: u8)
    requires
        b.indexable(w as int),
    ensures
        final(buf)@ == boxed(b, w as int, old(buf)@, constant(old(buf)@.len(), v)),
{
    let ghost before = buf@;
    let ghost goal = constant(before.len(), v);
    proof {
        lemma_boxed_ends(b, w as int, before, goal);
    }
    if b.is_empty() {
        return;
    }
    let len: usize = buf.len();
    let mut y: usize = b.y0;
    loop
        invariant_except_break
            buf@ == boxed_to(b, w as int, y as int, before, goal),
        invariant
            !b.is_empty_spec(),
            b.indexable(w as int),
            b.y0 <= y <= b.y1,
            len == before.len(),
            goal == constant(before.len(), v),
        ensures
            buf@ == boxed_to(b, w as int, b.y1 + 1, before, goal),
        decreases b.y1 - y,
    {
        let (lo, hi) = box_row(b, w, y, len);
        let ghost mid = buf@;
        let mut i: usize = lo;
        while i < hi
            invariant
                lo <= i,
                hi <= len,
                i <= hi || i == lo,
                buf@.len() == len,
                mid.len() == len,
                goal == constant(len as nat, v),
                forall|j: int| 0 <= j < len ==> #[trigger] buf@[j] == if lo <= j < i {
                    goal[j]
                } else {
                    mid[j]
                },
            decreases hi - i,
        {
            buf[i] = v;
            i = i + 1;
        }
        proof {
            lemma_boxed_row(b, w as int, y as int, lo as int, hi as int, before, goal, mid, buf@);
        }
        if y == b.y1 {
            break;
        }
        y = y + 1;
    }
}

/// The smaller of two numbers is one of them and exceeds neither; the larger is the other one.
pub proof fn law_least_and_greatest_bound_both(a: usize, b: usize)
    ensures
        least(a, b) <= a && least(a, b) <= b,
        greatest(a, b) >= a && greatest(a, b) >= b,
        least(a, b) + greatest(a, b) == a + b,
        least(a, b) == a || least(a, b) == b,
{
}

/// Marking a row takes in no more than it has to: any rectangle that holds the old pixels and the
/// marked columns holds all of the new rectangle. The rectangle without pixels becomes the row.
pub proof fn law_marking_takes_in_no_more(b: DirtyBox, c: DirtyBox, y: usize, x0: usize, x1: usize)
    requires
        x0 < x1,
        b.is_empty_spec() ==> b == (DirtyBox { x0: usize::MAX, y0: usize::MAX, x1: 0, y1: 0 }),
        forall|x: int, v: int| b.x0 <= x <= b.x1 && b.y0 <= v <= b.y1 ==> #[trigger] c.holds(x, v),
        forall|x: int| x0 <= x < x1 ==> #[trigger] c.holds(x, y as int),
    ensures
        forall|x: int, v: int| #[trigger] b.marked(y, x0, x1).holds(x, v) ==> c.holds(x, v),
{
    assert(c.holds(x0 as int, y as int));
    assert(c.holds(x1 - 1, y as int));
    if !b.is_empty_spec() {
        assert(c.holds(b.x0 as int, b.y0 as int));
        assert(c.holds(b.x1 as int, b.y1 as int));
    }
}

/// Marking no columns changes nothing.
pub proof fn law_marking_nothing_changes_nothing(b: DirtyBox, y: usize, x0: usize, x1: usize)
    requires
        x1 <= x0,
    ensures
        b.marked(y, x0, x1) == b,
{
}

/// A union is the smallest rectangle that holds both; one with nothing in it adds nothing.
pub proof fn law_union_takes_in_no_more(a: DirtyBox, b: DirtyBox, c: DirtyBox)
    requires
        a.is_empty_spec() ==> a == (DirtyBox { x0: usize::MAX, y0: usize::MAX, x1: 0, y1: 0 }),
        forall|x: int, y: int| a.holds(x, y) || b.holds(x, y) ==> #[trigger] c.holds(x, y),
    ensures
        forall|x: int, y: int| #[trigger] a.joined(b).holds(x, y) ==> c.holds(x, y),
        b.x0 > b.x1 || b.y0 > b.y1 ==> a.joined(b) == a,
{
    if !a.is_empty_spec() {
        assert(a.holds(a.x0 as int, a.y0 as int) && c.holds(a.x0 as int, a.y0 as int));
        assert(a.holds(a.x1 as int, a.y1 as int) && c.holds(a.x1 as int, a.y1 as int));
    }
    if !b.is_empty_spec() {
        assert(b.holds(b.x0 as int, b.y0 as int) && c.holds(b.x0 as int, b.y0 as int));
        assert(b.holds(b.x1 as int, b.y1 as int) && c.holds(b.x1 as int, b.y1 as int));
    }
}

/// A rectangle is empty exactly where it holds no pixel.
pub proof fn law_empty_rectangles_hold_nothing(b: DirtyBox)
    ensures
        b.is_empty_spec() <==> forall|x: int, y: int| !(#[trigger] b.holds(x, y)),
{
    if !b.is_empty_spec() {
        assert(b.holds(b.x0 as int, b.y0 as int));
    }
}

/// A plane that is replaced inside a rectangle is the new plane at the rectangle's pixels and the
/// old plane at all others.
pub proof fn law_replacing_stays_inside<T>(
    b: DirtyBox,
    w: int,
    h: int,
    old_plane: Seq<T>,
    new_plane: Seq<T>,
    x: int,
    y: int,
)
    requires
        b.within(w, h),
        0 <= x < w,
        0 <= y < h,
        old_plane.len() == w * h,
    ensures
        boxed(b, w, old_plane, new_plane).len() == w * h,
        0 <= y * w + x < w * h,
        boxed(b, w, old_plane, new_plane)[y * w + x] == (if b.x0 <= x <= b.x1 && b.y0 <= y
            <= b.y1 {
            new_plane[y * w + x]
        } else {
            old_plane[y * w + x]
        }),
{
    law_covers_exactly_its_pixels(b, w, h, x, y);
    assert(0 <= y * w + x < w * h) by (nonlinear_arith)
        requires
            0 <= x < w,
            0 <= y < h,
    ;
}

/// A constant plane has one value everywhere.
pub proof fn law_constant_planes_have_one_value<T>(n: nat, v: T, i: int)
    requires
        0 <= i < n,
    ensures
        constant(n, v).len() == n,
        constant(n, v)[i] == v,
{
}

} // verus!
