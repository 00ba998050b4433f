//! Counters that tell where rendering time goes.

use vstd::prelude::*;

verus! {

/// Counts of what rendering did.
pub struct RenderStats {
    /// Rasterizer choices: sparse, dense by extent, dense by density.
    pub mode: [u64; 3],
    /// Pixels by where they came from.
    pub px: [u64; 12],
    /// Strokes: open outlines, closed outlines, open and closed ones in pieces, contours made.
    pub stroke: [u64; 5],
    /// Gradient pixels: linear, radial, focal, and radial and focal ones in batches.
    pub gradient: [u64; 5],
}

/// A counter after `n` more; it starts over at zero past its largest value.
pub open spec fn counted(old_count: u64, n: int) -> u64 {
    ((old_count + n) % 0x1_0000_0000_0000_0000) as u64
}

/// Counters after `n` more of the `i`th; there is nothing to count past the last.
pub open spec fn bumped(counts: Seq<u64>, i: int, n: int) -> Seq<u64> {
    if i < counts.len() {
        counts.update(i, counted(counts[i], n))
    } else {
        counts
    }
}

fn count_up(c: u64, n: usize) -> (r: u64)
    ensures
        r == counted(c, n as int),
{
    let sum: u128 = c as u128 + n as u128;
    let wrapped: u128 = sum % 0x1_0000_0000_0000_0000;
    wrapped as u64
}

impl RenderStats {
    /// Counters at zero.
    pub fn new() -> (s: RenderStats)
        ensures
            forall|i: int| 0 <= i < 3 ==> #[trigger] s.mode@[i] == 0,
            forall|i: int| 0 <= i < 12 ==> #[trigger] s.px@[i] == 0,
            forall|i: int| 0 <= i < 5 ==> #[trigger] s.stroke@[i] == 0,
            forall|i: int| 0 <= i < 5 ==> #[trigger] s.gradient@[i] == 0,
    {
        RenderStats { mode: [0; 3], px: [0; 12], stroke: [0; 5], gradient: [0; 5] }
    }

    /// Counts rasterizer choices.
    pub fn mode_stat(&mut self, i: usize, n: usize)
        ensures
            final(self).mode@ == bumped(old(self).mode@, i as int, n as int),
            final(self).px == old(self).px,
            final(self).stroke == old(self).stroke,
            final(self).gradient == old(self).gradient,
    {
        if i < 3 {
            let c = count_up(self.mode[i], n);
            self.mode[i] = c;
        }
    }

    /// Counts pixels.
    pub fn px_stat(&mut self, i: usize, n: usize)
        ensures
            final(self).px@ == bumped(old(self).px@, i as int, n as int),
            final(self).mode == old(self).mode,
            final(self).stroke == old(self).stroke,
            final(self).gradient == old(self).gradient,
    {
        if i < 12 {
            let c = count_up(self.px[i], n);
            self.px[i] = c;
        }
    }

    /// Counts strokes.
    pub fn stroke_stat(&mut self, i: usize, n: usize)
        ensures
            final(self).stroke@ == bumped(old(self).stroke@, i as int, n as int),
            final(self).mode == old(self).mode,
            final(self).px == old(self).px,
            final(self).gradient == old(self).gradient,
    {
        if i < 5 {
            let c = count_up(self.stroke[i], n);
            self.stroke[i] = c;
        }
    }

    /// Counts gradient pixels.
    pub fn grad_stat(&mut self, i: usize, n: usize)
        ensures
            final(self).gradient@ == bumped(old(self).gradient@, i as int, n as int),
            final(self).mode == old(self).mode,
            final(self).px == old(self).px,
            final(self).stroke == old(self).stroke,
    {
        if i < 5 {
            let c = count_up(self.gradient[i], n);
            self.gradient[i] = c;
        }
    }
}

/// The rasterizer choices so far.
pub fn mode_stats(s: &RenderStats) -> (r: [u64; 3])
    ensures
        r@ == s.mode@,
{
    s.mode
}

/// The pixels so far.
pub fn px_stats(s: &RenderStats) -> (r: [u64; 12])
    ensures
        r@ == s.px@,
{
    s.px
}

/// The strokes so far.
pub fn stroke_stats(s: &RenderStats) -> (r: [u64; 5])
    ensures
        r@ == s.stroke@,
{
    s.stroke
}

/// The gradient pixels so far.
pub fn gradient_stats(s: &RenderStats) -> (r: [u64; 5])
    ensures
        r@ == s.gradient@,
{
    s.gradient
}

/// How long a frame is measured at least, in nanoseconds.
pub const MEASURE_NANOS: u64 = 2000000;

/// How often a frame is measured at most.
pub const MEASURE_MAX: u64 = 500;

/// How often a frame that took `nanos` is rendered again to be measured: often enough to fill the
/// least time, where one rendering does not.
pub open spec fn measured_again(nanos: int) -> int {
    let quick = if nanos < 1000 {
        1000
    } else {
        nanos
    };
    let n = MEASURE_NANOS as int / quick + 1;
    if nanos >= MEASURE_NANOS {
        0
    } else if n < MEASURE_MAX {
        n
    } else {
        MEASURE_MAX as int
    }
}

/// Tells how often a frame is rendered again to be measured.
pub fn repeats(nanos: u64) -> (n: u64)
    ensures
        n == measured_again(nanos as int),
        nanos < MEASURE_NANOS ==> n > 0,
{
    if nanos >= MEASURE_NANOS {
        return 0;
    }
    let quick: u64 = if nanos < 1000 {
        1000
    } else {
        nanos
    };
    proof {
        let q = quick as int;
        assert(0 <= 2000000int / q <= 2000000) by (nonlinear_arith)
            requires
                q >= 1000,
        ;
    }
    let n: u64 = MEASURE_NANOS / quick + 1;
    if n < MEASURE_MAX {
        n
    } else {
        MEASURE_MAX
    }
}

/// How a shape is rasterized.
#[derive(Clone, Copy, Debug, PartialEq, Eq, Structural)]
pub enum Mode {
    /// Cell by cell along its edges.
    Sparse,
    /// In a plane of its own.
    Dense,
}

/// Shapes no larger than this either way are rasterized densely.
pub const MODE_S_MIN_EXTENT: usize = 42;

/// How many times longer its edges could be before a shape's area is too small to rasterize it
/// sparsely. Small canvases take denser shapes.
pub open spec fn density_of(canvas_px: int) -> u32 {
    if canvas_px <= 448 * 448 {
        12
    } else {
        6
    }
}

/// The density that a canvas takes.
pub fn edge_density(canvas_px: usize) -> (d: u32)
    ensures
        d == density_of(canvas_px as int),
{
    if canvas_px <= 448 * 448 {
        12
    } else {
        6
    }
}

/// Chooses how a shape is rasterized, and counts the choice where the shape has an area: sparsely
/// where it is neither `small` nor has too many edges for its area.
pub fn choose_mode(s: &mut RenderStats, has_area: bool, small: bool, few_edges: bool) -> (m: Mode)
    ensures
        m == (if has_area && !small && few_edges {
            Mode::Sparse
        } else {
            Mode::Dense
        }),
        final(s).mode@ == (if !has_area {
            old(s).mode@
        } else if small {
            bumped(old(s).mode@, 1, 1)
        } else if few_edges {
            bumped(old(s).mode@, 0, 1)
        } else {
            bumped(old(s).mode@, 2, 1)
        }),
        final(s).px == old(s).px,
        final(s).stroke == old(s).stroke,
        final(s).gradient == old(s).gradient,
{
    if !has_area {
        return Mode::Dense;
    }
    if small {
        s.mode_stat(1, 1);
        return Mode::Dense;
    }
    if few_edges {
        s.mode_stat(0, 1);
        Mode::Sparse
    } else {
        s.mode_stat(2, 1);
        Mode::Dense
    }
}

/// A counter counts up by what is counted, and starts over past its largest value; the other
/// counters stay.
pub proof fn law_one_counter_counts(counts: Seq<u64>, i: int, k: int, n: int)
    requires
        0 <= i < counts.len(),
        0 <= k < counts.len(),
        0 <= n <= u64::MAX,
    ensures
        bumped(counts, i, n).len() == counts.len(),
        counts[i] + n <= u64::MAX ==> bumped(counts, i, n)[i] == counts[i] + n,
        counts[i] + n > u64::MAX ==> bumped(counts, i, n)[i] == counts[i] + n - u64::MAX - 1,
        k != i ==> bumped(counts, i, n)[k] == counts[k],
        bumped(counts, counts.len() as int, n) == counts,
{
    let sum = counts[i] + n;
    let m = 0x1_0000_0000_0000_0000int;
    if sum > u64::MAX {
        vstd::arithmetic::div_mod::lemma_fundamental_div_mod_converse(sum, m, 1, sum - m);
    } else {
        vstd::arithmetic::div_mod::lemma_fundamental_div_mod_converse(sum, m, 0, sum);
    }
}

/// A frame is rendered again until two milliseconds are filled, at most 500 times; one that takes that
/// long is not rendered again.
pub proof fn law_quick_frames_are_measured_often(nanos: int)
    requires
        0 <= nanos,
    ensures
        nanos >= 2000000 ==> measured_again(nanos) == 0,
        nanos < 2000000 ==> 1 <= measured_again(nanos) <= 500,
        4009 <= nanos < 2000000 ==> measured_again(nanos) * nanos > 2000000 && (measured_again(nanos)
            - 1) * nanos <= 2000000,
        nanos <= 4000 ==> measured_again(nanos) == 500,
{
    if 1000 <= nanos {
        let q = 2000000int / nanos;
        vstd::arithmetic::div_mod::lemma_fundamental_div_mod(2000000, nanos);
        assert(q * nanos <= 2000000 && (q + 1) * nanos > 2000000) by (nonlinear_arith)
            requires
                2000000 == nanos * q + 2000000int % nanos,
                0 <= 2000000int % nanos < nanos,
        ;
        if nanos >= 4009 {
            assert(q < 499) by (nonlinear_arith)
                requires
                    q * nanos <= 2000000,
                    nanos >= 4009,
            ;
        }
        if nanos <= 4000 {
            assert(q >= 500) by (nonlinear_arith)
                requires
                    (q + 1) * nanos > 2000000,
                    1000 <= nanos <= 4000,
            ;
        }
        assert(q >= 0) by (nonlinear_arith)
            requires
                (q + 1) * nanos > 2000000,
                nanos > 0,
        ;
    }
}

/// Canvases of up to 448 by 448 pixels take shapes that are twice as dense.
pub proof fn law_small_canvases_take_denser_shapes(canvas_px: int)
    ensures
        canvas_px <= 200704 ==> density_of(canvas_px) == 12,
        canvas_px > 200704 ==> density_of(canvas_px) == 6,
{
}

} // verus!
