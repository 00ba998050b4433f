//! Which cells of an accumulation buffer were written, so that reading and clearing it costs what was
//! drawn rather than what could be.
//!
//! A row of a surface `width` pixels wide holds `width + 1` cells: what lands on the right edge has a
//! cell of its own.

use vstd::prelude::*;

verus! {

/// The columns written in a row, first and last, or none of them.
#[derive(Clone, Copy, Debug, PartialEq, Eq, Structural)]
pub struct Columns {
    /// The first column written.
    pub first: usize,
    /// The last column written.
    pub last: usize,
    /// True where none was.
    pub empty: bool,
}

/// A record of what was written.
pub struct Touched {
    /// Pixels in a row.
    pub width: usize,
    /// Rows.
    pub height: usize,
    /// The first row written; past every row where none was.
    pub top: usize,
    /// The last row written.
    pub bottom: usize,
    /// The columns written in each row.
    pub rows: Vec<Columns>,
}

/// A row in which nothing was written.
pub open spec fn untouched() -> Columns {
    Columns { first: usize::MAX, last: 0, empty: true }
}

/// The columns of a row with another write taken in.
pub open spec fn widened(c: Columns, first: usize, last: usize) -> Columns {
    Columns {
        first: if c.empty || first < c.first {
            first
        } else {
            c.first
        },
        last: if c.empty || last > c.last {
            last
        } else {
            c.last
        },
        empty: false,
    }
}

/// The pixels of a row that may be covered, up to and without the second.
pub open spec fn swept(c: Columns, width: int) -> Option<(int, int)> {
    let lo = if c.first < width {
        c.first as int
    } else if width > 0 {
        width - 1
    } else {
        0
    };
    let hi = if c.last + 1 < width {
        c.last + 1
    } else {
        width
    };
    if c.empty || hi <= lo {
        None
    } else {
        Some((lo, hi))
    }
}

/// The cells of a row that are cleared, up to and without the second: one more than was written, for
/// what a write spills into the next cell.
pub open spec fn cleared(c: Columns, width: int) -> Option<(int, int)> {
    let hi = if c.last + 2 < width + 1 {
        c.last + 2
    } else {
        width + 1
    };
    if c.empty || hi <= c.first {
        None
    } else {
        Some((c.first as int, hi))
    }
}

impl Touched {
    /// True where every row written lies between the first and the last, and no column past the edge.
    pub open spec fn wf(self) -> bool {
        &&& self.width < usize::MAX - 2
        &&& self.rows@.len() == self.height
        &&& self.height > 0 ==> self.bottom < self.height
        &&& forall|y: int|
            #![trigger self.rows@[y]]
            0 <= y < self.height && !self.rows@[y].empty ==> self.top <= y <= self.bottom
                && self.rows@[y].first <= self.rows@[y].last <= self.width
        &&& forall|y: int|
            #![trigger self.rows@[y]]
            0 <= y < self.height && self.rows@[y].empty ==> self.rows@[y] == untouched()
    }

    /// True where nothing was written.
    pub open spec fn is_clear(self) -> bool {
        &&& self.top == usize::MAX
        &&& self.bottom == 0
        &&& forall|y: int| 0 <= y < self.height ==> #[trigger] self.rows@[y] == untouched()
    }

    /// A record of a clear surface.
    pub fn new(width: usize, height: usize) -> (t: Touched)
        requires
            width < usize::MAX - 2,
        ensures
            t.wf(),
            t.is_clear(),
            t.width == width,
            t.height == height,
    {
        let mut rows: Vec<Columns> = Vec::new();
        let mut y: usize = 0;
        while y < height
            invariant
                y <= height,
                rows@.len() == y,
                forall|k: int| 0 <= k < y ==> #[trigger] rows@[k] == untouched(),
            decreases height - y,
        {
            rows.push(Columns { first: usize::MAX, last: 0, empty: true });
            y += 1;
        }
        Touched { width, height, top: usize::MAX, bottom: 0, rows }
    }

    /// Notes that an edge runs through the rows from `start` up to and without `end`.
    pub fn note_rows(&mut self, start: usize, end: usize)
        requires
            old(self).wf(),
        ensures
            final(self).wf(),
            final(self).width == old(self).width,
            final(self).height == old(self).height,
            final(self).rows@ == old(self).rows@,
            final(self).top == (if start < old(self).top {
                start
            } else {
                old(self).top
            }),
            ({
                let last = if end < old(self).height {
                    end
                } else if old(self).height > 0 {
                    (old(self).height - 1) as usize
                } else {
                    0
                };
                final(self).bottom == (if last > old(self).bottom {
                    last
                } else {
                    old(self).bottom
                })
            }),
    {
        if start < self.top {
            self.top = start;
        }
        let last: usize = if end < self.height {
            end
        } else if self.height > 0 {
            self.height - 1
        } else {
            0
        };
        if last > self.bottom {
            self.bottom = last;
        }
    }

    /// Notes a write in a row that an edge runs through.
    pub fn note(&mut self, y: usize, first: usize, last: usize)
        requires
            old(self).wf(),
            y < old(self).height,
            old(self).top <= y <= old(self).bottom,
            first <= last <= old(self).width,
        ensures
            final(self).wf(),
            final(self).width == old(self).width,
            final(self).height == old(self).height,
            final(self).top == old(self).top,
            final(self).bottom == old(self).bottom,
            final(self).rows@ == old(self).rows@.update(
                y as int,
                widened(old(self).rows@[y as int], first, last),
            ),
    {
        let c = self.rows[y];
        let w = Columns {
            first: if c.empty || first < c.first {
                first
            } else {
                c.first
            },
            last: if c.empty || last > c.last {
                last
            } else {
                c.last
            },
            empty: false,
        };
        self.rows.set(y, w);
    }

    /// The rows that may hold coverage, first and last.
    pub fn row_range(&self) -> (r: Option<(usize, usize)>)
        requires
            self.wf(),
        ensures
            r == (if self.height > 0 && self.top <= self.bottom {
                Some((self.top, self.bottom))
            } else {
                None
            }),
    {
        if self.height > 0 && self.top <= self.bottom {
            Some((self.top, self.bottom))
        } else {
            None
        }
    }

    /// The pixels of a row that may be covered.
    pub fn sweep_range(&self, y: usize) -> (r: Option<(usize, usize)>)
        requires
            self.wf(),
            y < self.height,
        ensures
            r is Some == swept(self.rows@[y as int], self.width as int) is Some,
            r matches Some(p) ==> (p.0 as int, p.1 as int) == swept(
                self.rows@[y as int],
                self.width as int,
            )->0,
    {
        let c = self.rows[y];
        if c.empty {
            return None;
        }
        let lo: usize = if c.first < self.width {
            c.first
        } else if self.width > 0 {
            self.width - 1
        } else {
            0
        };
        let hi: usize = if c.last + 1 < self.width {
            c.last + 1
        } else {
            self.width
        };
        if hi <= lo {
            None
        } else {
            Some((lo, hi))
        }
    }

    /// The cells of a row that have to be cleared.
    pub fn clear_range(&self, y: usize) -> (r: Option<(usize, usize)>)
        requires
            self.wf(),
            y < self.height,
        ensures
            r is Some == cleared(self.rows@[y as int], self.width as int) is Some,
            r matches Some(p) ==> (p.0 as int, p.1 as int) == cleared(
                self.rows@[y as int],
                self.width as int,
            )->0,
    {
        let c = self.rows[y];
        if c.empty {
            return None;
        }
        let hi: usize = if c.last + 2 < self.width + 1 {
            c.last + 2
        } else {
            self.width + 1
        };
        if hi <= c.first {
            None
        } else {
            Some((c.first, hi))
        }
    }

    /// Forgets what was written.
    pub fn reset(&mut self)
        requires
            old(self).wf(),
        ensures
            final(self).wf(),
            final(self).is_clear(),
            final(self).width == old(self).width,
            final(self).height == old(self).height,
    {
        if self.height > 0 && self.top <= self.bottom {
            let mut y: usize = self.top;
            let last: usize = self.bottom;
            while y <= last
                invariant
                    self.wf(),
                    self.width == old(self).width,
                    self.height == old(self).height,
                    self.top == old(self).top,
                    self.bottom == old(self).bottom,
                    last == self.bottom,
                    self.height > 0,
                    self.top <= y <= last + 1,
                    forall|k: int|
                        0 <= k < self.height && (k < y || k > last) ==> #[trigger] self.rows@[k]
                            == untouched(),
                decreases last + 1 - y,
            {
                self.rows.set(y, Columns { first: usize::MAX, last: 0, empty: true });
                y += 1;
            }
        }
        self.top = usize::MAX;
        self.bottom = 0;
    }

    /// Makes the record one of a surface of another size.
    pub fn reshape(&mut self, width: usize, height: usize)
        requires
            width < usize::MAX - 2,
        ensures
            final(self).wf(),
            final(self).is_clear(),
            final(self).width == width,
            final(self).height == height,
    {
        *self = Touched::new(width, height);
    }
}

/// Clearing undoes every write: a cell that was written, or that the write spilled into, is among
/// those that are cleared, and its row among those that are visited.
pub proof fn law_every_write_is_cleared(t: Touched, y: int, cell: int)
    requires
        t.wf(),
        0 <= y < t.height,
        !t.rows@[y].empty,
        t.rows@[y].first <= cell <= t.rows@[y].last + 1,
        cell <= t.width,
    ensures
        t.top <= y <= t.bottom,
        cleared(t.rows@[y], t.width as int) matches Some(r) && r.0 <= cell < r.1,
{
}

/// Noting a write never forgets an earlier one.
pub proof fn law_writes_accumulate(c: Columns, first: usize, last: usize, cell: int)
    requires
        first <= last,
        (!c.empty && c.first <= cell <= c.last) || first <= cell <= last,
    ensures
        widened(c, first, last).first <= cell <= widened(c, first, last).last,
{
}

/// The pixels that are swept are those between the first and the last write that lie on the surface.
pub proof fn law_writes_on_the_surface_are_swept(c: Columns, width: int, x: int)
    requires
        !c.empty,
        c.first <= c.last,
        c.first < width,
    ensures
        swept(c, width) is Some,
        (swept(c, width)->0).0 <= x < (swept(c, width)->0).1 <==> c.first <= x <= c.last && x < width,
{
}

/// The cells that are cleared are those between the first write and one behind the last, up to the cell
/// behind the surface; where nothing was written nothing is swept or cleared.
pub proof fn law_writes_are_cleared_with_one_more(c: Columns, width: int, x: int)
    requires
        c.first <= c.last,
        c.first <= width,
    ensures
        !c.empty ==> cleared(c, width) is Some,
        !c.empty ==> ((cleared(c, width)->0).0 <= x < (cleared(c, width)->0).1 <==> c.first <= x <= c.last
            + 1 && x <= width),
        c.empty ==> cleared(c, width) is None && swept(c, width) is None,
{
}

/// A write widens a row no more than it has to.
pub proof fn law_writes_widen_no_more(c: Columns, first: usize, last: usize)
    requires
        first <= last,
        !c.empty ==> c.first <= c.last,
    ensures
        ({
            let w = widened(c, first, last);
            &&& !w.empty
            &&& w.first <= first && last <= w.last
            &&& c.empty ==> w.first == first && w.last == last
            &&& !c.empty ==> w.first <= c.first && c.last <= w.last
            &&& !c.empty ==> (w.first == first || w.first == c.first) && (w.last == last || w.last
                == c.last)
        }),
        untouched().empty,
{
}

} // verus!
