//! Layer masks: folding a stack of coverage planes into one mask plane.

use vstd::prelude::*;
use crate::argb;
use crate::argb::mul255;
use crate::canvas::row_bounds;
use crate::dirty;
use crate::dirty::{box_row, fill_rows_u8, DirtyBox};
use crate::fill;
use crate::scratch::RenderScratch;

verus! {

/// One mask of a layer: how it combines, and its coverage plane.
pub struct MaskPlane {
    /// The mode letter: `a` adds, `s` subtracts, `i` intersects, `f` takes the difference; any other
    /// mode contributes nothing.
    pub mode: u8,
    /// True where the mask's coverage is inverted.
    pub invert: bool,
    /// The mask's opacity.
    pub opacity: u8,
    /// Coverage of every pixel of the canvas.
    pub coverage: Vec<u8>,
}

/// True for a mode that contributes to a mask.
pub open spec fn is_effective(mode: u8) -> bool {
    mode == 0x61 || mode == 0x73 || mode == 0x69 || mode == 0x66
}

/// True for a mode that starts from an empty mask when it comes first.
pub open spec fn is_additive(mode: u8) -> bool {
    mode == 0x61 || mode == 0x66
}

/// What one mask contributes at a pixel with coverage `t`.
pub open spec fn contribution(invert: bool, opacity: u8, t: u8) -> int {
    argb::div255((if invert {
        255 - t
    } else {
        t as int
    }) * opacity)
}

/// The running mask value `cur` after a mask that contributes `c`.
pub open spec fn mask_step(mode: u8, cur: int, c: int) -> int {
    if mode == 0x73 {
        argb::div255(cur * (255 - c))
    } else if mode == 0x69 {
        argb::div255(cur * c)
    } else if mode == 0x66 {
        if cur > c {
            cur - c
        } else {
            c - cur
        }
    } else {
        c + argb::div255((255 - c) * cur)
    }
}

/// The value that a mask stack starts from: full where its first effective mask takes away, else
/// empty.
pub open spec fn mask_seed(masks: Seq<MaskPlane>) -> int
    decreases masks.len(),
{
    if masks.len() == 0 {
        0
    } else if is_effective(masks[0].mode) {
        if is_additive(masks[0].mode) {
            0
        } else {
            255
        }
    } else {
        mask_seed(masks.skip(1))
    }
}

/// The value of pixel `i` after the first `n` masks of a stack.
pub open spec fn mask_value(masks: Seq<MaskPlane>, n: int, i: int) -> int
    decreases n,
{
    if n <= 0 {
        mask_seed(masks)
    } else {
        let cur = mask_value(masks, n - 1, i);
        let m = masks[n - 1];
        if is_effective(m.mode) {
            mask_step(m.mode, cur, contribution(m.invert, m.opacity, m.coverage@[i]))
        } else {
            cur
        }
    }
}

/// The values of a mask stack after its first `n` masks, for a canvas of `len` pixels.
pub open spec fn mask_plane(masks: Seq<MaskPlane>, n: int, len: nat) -> Seq<u8> {
    Seq::new(len, |i: int| mask_value(masks, n, i) as u8)
}

/// True where `mask` holds the stack's value at every pixel inside the rectangle.
pub open spec fn mask_built(masks: Seq<MaskPlane>, w: int, b: DirtyBox, mask: Seq<u8>) -> bool {
    forall|i: int| 0 <= i < mask.len() && b.covers(w, i) ==> #[trigger] mask[i] == mask_value(masks, masks.len() as int, i)
}

proof fn lemma_mask_step(mode: u8, cur: int, c: int)
    requires
        argb::is_channel(cur),
        argb::is_channel(c),
    ensures
        argb::is_channel(mask_step(mode, cur, c)),
{
    argb::lemma_mul255(cur, 255 - c);
    argb::lemma_mul255(cur, c);
    argb::lemma_mul255(255 - c, cur);
}

/// One fold step at one pixel.
pub fn fold_mask(mode: u8, invert: bool, opacity: u8, t: u8, cur: u8) -> (r: u8)
    ensures
        r == mask_step(mode, cur as int, contribution(invert, opacity, t)),
{
    let sample: u32 = if invert {
        255 - t as u32
    } else {
        t as u32
    };
    let c: u32 = mul255(sample, opacity as u32);
    let cur: u32 = cur as u32;
    proof {
        lemma_mask_step(mode, cur as int, c as int);
    }
    let next: u32 = if mode == 0x73 {
        mul255(cur, 255 - c)
    } else if mode == 0x69 {
        mul255(cur, c)
    } else if mode == 0x66 {
        if cur > c {
            cur - c
        } else {
            c - cur
        }
    } else {
        c + mul255(255 - c, cur)
    };
    next as u8
}

proof fn lemma_mask_value(masks: Seq<MaskPlane>, n: int, i: int)
    requires
        n <= masks.len(),
    ensures
        argb::is_channel(mask_value(masks, n, i)),
    decreases n,
{
    if n <= 0 {
        lemma_mask_seed(masks);
    } else {
        lemma_mask_value(masks, n - 1, i);
        let m = masks[n - 1];
        let t = m.coverage@[i];
        argb::lemma_mul255(
            if m.invert {
                255 - t
            } else {
                t as int
            },
            m.opacity as int,
        );
        lemma_mask_step(m.mode, mask_value(masks, n - 1, i), contribution(m.invert, m.opacity, t));
    }
}

proof fn lemma_mask_seed(masks: Seq<MaskPlane>)
    ensures
        mask_seed(masks) == 0 || mask_seed(masks) == 255,
    decreases masks.len(),
{
    if masks.len() > 0 && !is_effective(masks[0].mode) {
        lemma_mask_seed(masks.skip(1));
    }
}

/// True for a mode that contributes to a mask.
pub fn effective(mode: u8) -> (r: bool)
    ensures
        r == is_effective(mode),
{
    mode == 0x61 || mode == 0x73 || mode == 0x69 || mode == 0x66
}

/// The value that a mask stack starts from.
fn seed_of(masks: &[MaskPlane]) -> (v: u8)
    ensures
        v == mask_seed(masks@),
{
    let mut k: usize = 0;
    assert(masks@.skip(0) =~= masks@);
    while k < masks.len()
        invariant
            k <= masks@.len(),
            mask_seed(masks@.skip(k as int)) == mask_seed(masks@),
        decreases masks@.len() - k,
    {
        let mode: u8 = masks[k].mode;
        assert(masks@.skip(k as int).skip(1) =~= masks@.skip(k + 1));
        assert(masks@.skip(k as int)[0] == masks@[k as int]);
        if effective(mode) {
            return if mode == 0x61 || mode == 0x66 {
                0
            } else {
                255
            };
        }
        k = k + 1;
    }
    assert(masks@.skip(k as int).len() == 0);
    0
}

/// Folds one mask into the accumulator, inside a rectangle.
fn accumulate(acc: &mut [u8], mask: &MaskPlane, w: usize, b: DirtyBox, masks: Ghost<Seq<MaskPlane>>, n: Ghost<int>)
    requires
        b.indexable(w as int),
        b.is_empty_spec() || b.x1 < w,
        mask.coverage@.len() == old(acc)@.len(),
        0 <= n@ < masks@.len(),
        masks@[n@] == *mask,
        is_effective(mask.mode),
        forall|i: int| 0 <= i < old(acc)@.len() && b.covers(w as int, i) ==> #[trigger] old(acc)@[i] == mask_value(masks@, n@, i),
    ensures
        final(acc)@.len() == old(acc)@.len(),
        forall|i: int| 0 <= i < final(acc)@.len() && b.covers(w as int, i) ==> #[trigger] final(acc)@[i] == mask_value(
            masks@,
            n@ + 1,
            i,
        ),
{
    let ghost before = acc@;
    let ghost goal = mask_plane(masks@, n@ + 1, before.len());
    proof {
        dirty::lemma_boxed_ends(b, w as int, before, goal);
    }
    if b.is_empty() {
        return;
    }
    let len: usize = acc.len();
    let mut y: usize = b.y0;
    loop
        invariant_except_break
            acc@ == dirty::boxed_to(b, w as int, y as int, before, goal),
        invariant
            !b.is_empty_spec(),
            b.indexable(w as int),
            b.x1 < w,
            b.y0 <= y <= b.y1,
            len == before.len(),
            mask.coverage@.len() == len,
            0 <= n@ < masks@.len(),
            masks@[n@] == *mask,
            is_effective(mask.mode),
            goal == mask_plane(masks@, n@ + 1, before.len()),
            forall|i: int| 0 <= i < len && b.covers(w as int, i) ==> #[trigger] before[i] == mask_value(masks@, n@, i),
        ensures
            acc@ == dirty::boxed_to(b, w as int, b.y1 + 1, before, goal),
        decreases b.y1 - y,
    {
        let (lo, hi) = box_row(b, w, y, len);
        let ghost mid = acc@;
        proof {
            assert forall|j: int| lo <= j < hi implies #[trigger] mid[j] == mask_value(masks@, n@, j) by {
                assert(b.row_covers(w as int, y as int, j));
                assert(b.covers(w as int, j));
                if exists|v: int| b.y0 <= v < y && #[trigger] b.row_covers(w as int, v, j) {
                    let v = choose|v: int| b.y0 <= v < y && #[trigger] b.row_covers(w as int, v, j);
                    dirty::lemma_rows_disjoint(b, w as int, v, y as int, j);
                }
                assert(before[j] == mask_value(masks@, n@, j));
            }
        }
        let mut i: usize = lo;
        while i < hi
            invariant
                lo <= i,
                hi <= len,
                i <= hi || i == lo,
                acc@.len() == len,
                mid.len() == len,
                mask.coverage@.len() == len,
                0 <= n@ < masks@.len(),
                masks@[n@] == *mask,
                is_effective(mask.mode),
                goal == mask_plane(masks@, n@ + 1, len as nat),
                forall|j: int| lo <= j < hi ==> #[trigger] mid[j] == mask_value(masks@, n@, j),
                forall|j: int| 0 <= j < len ==> #[trigger] acc@[j] == if lo <= j < i {
                    goal[j]
                } else {
                    mid[j]
                },
            decreases hi - i,
        {
            let cur: u8 = acc[i];
            assert(mid[i as int] == mask_value(masks@, n@, i as int));
            acc[i] = fold_mask(mask.mode, mask.invert, mask.opacity, mask.coverage[i], cur);
            i = i + 1;
        }
        proof {
            dirty::lemma_boxed_row(b, w as int, y as int, lo as int, hi as int, before, goal, mid, acc@);
        }
        if y == b.y1 {
            break;
        }
        y = y + 1;
    }
    proof {
        assert forall|i: int| 0 <= i < acc@.len() && b.covers(w as int, i) implies #[trigger] acc@[i] == mask_value(
            masks@,
            n@ + 1,
            i,
        ) by {
            lemma_mask_value(masks@, n@ + 1, i);
        }
    }
}

/// Folds a mask stack into one plane of a canvas of `w` by `h` pixels. Only the rectangle is built:
/// bytes outside it are whatever the pooled plane held.
pub fn build_mask(scratch: &mut RenderScratch, masks: &[MaskPlane], w: usize, h: usize, bound: DirtyBox) -> (mask: Vec<u8>)
    requires
        old(scratch).wf(),
        w * h <= usize::MAX,
        bound.within(w as int, h as int),
        forall|k: int| 0 <= k < masks@.len() ==> (#[trigger] masks@[k]).coverage@.len() == w * h,
    ensures
        final(scratch).wf(),
        final(scratch).cov_cache == old(scratch).cov_cache,
        mask@.len() == w * h,
        mask_built(masks@, w as int, bound, mask@),
{
    proof {
        if !bound.is_empty_spec() {
            assert(bound.y1 * w + bound.x1 + 1 <= w * h) by (nonlinear_arith)
                requires
                    bound.x1 + 1 <= w,
                    bound.y1 + 1 <= h,
                    bound.x1 >= 0,
                    bound.y1 >= 0,
            ;
        }
    }
    let seed: u8 = seed_of(masks);
    let mut acc: Vec<u8> = scratch.take_u8_uninit(w * h);
    fill_rows_u8(acc.as_mut_slice(), w, bound, seed);
    let mut k: usize = 0;
    while k < masks.len()
        invariant
            k <= masks@.len(),
            acc@.len() == w * h,
            bound.indexable(w as int),
            bound.is_empty_spec() || bound.x1 < w,
            forall|j: int| 0 <= j < masks@.len() ==> (#[trigger] masks@[j]).coverage@.len() == w * h,
            forall|i: int| 0 <= i < acc@.len() && bound.covers(w as int, i) ==> #[trigger] acc@[i] == mask_value(
                masks@,
                k as int,
                i,
            ),
        decreases masks@.len() - k,
    {
        if effective(masks[k].mode) {
            accumulate(acc.as_mut_slice(), &masks[k], w, bound, Ghost(masks@), Ghost(k as int));
        }
        k = k + 1;
    }
    acc
}

/// Bounding a mask build changes nothing inside the bound: two builds of one stack agree wherever
/// both were built.
pub proof fn law_bounded_mask_is_exact(
    masks: Seq<MaskPlane>,
    w: int,
    bound: DirtyBox,
    full: DirtyBox,
    bounded_mask: Seq<u8>,
    full_mask: Seq<u8>,
)
    requires
        mask_built(masks, w, bound, bounded_mask),
        mask_built(masks, w, full, full_mask),
        bounded_mask.len() == full_mask.len(),
    ensures
        forall|i: int|
            0 <= i < full_mask.len() && bound.covers(w, i) && full.covers(w, i) ==> #[trigger] bounded_mask[i] == full_mask[i],
{
    assert forall|i: int| 0 <= i < full_mask.len() && bound.covers(w, i) && full.covers(w, i) implies #[trigger] bounded_mask[i]
        == full_mask[i] by {
        assert(full_mask[i] == mask_value(masks, masks.len() as int, i));
    }
}

/// Outside its own shape a lone mask has one value: what it adds, keeps or takes there depends on its
/// mode, its inversion and its opacity alone.
pub proof fn law_outside_value(m: MaskPlane, i: int)
    requires
        is_effective(m.mode),
        0 <= i < m.coverage@.len(),
        m.coverage@[i] == 0,
    ensures
        mask_value(seq![m], 1, i) == (if m.mode == 0x73 {
            if m.invert {
                255 - m.opacity
            } else {
                255
            }
        } else if m.invert {
            m.opacity as int
        } else {
            0
        }),
{
    let masks = seq![m];
    reveal_with_fuel(mask_value, 2);
    let o = m.opacity as int;
    assert(argb::div255(255 * o) == o);
    assert(argb::div255(0) == 0);
    assert(argb::div255(255 * (255 - o)) == 255 - o);
    assert(argb::div255(255 * 255int) == 255);
    assert(0 * o == 0);
    assert((255 - o) * 0 == 0);
    let c = contribution(m.invert, m.opacity, 0);
    assert(c == (if m.invert {
        o
    } else {
        0
    }));
    assert(mask_value(masks, 1, i) == mask_step(m.mode, mask_seed(masks), c));
    assert(masks[0] == m);
    assert(mask_seed(masks) == (if is_additive(m.mode) {
        0int
    } else {
        255int
    }));
}

/// The plane that `plane` becomes when bytes are written from `lo` on; bytes that do not all fit are
/// not written.
pub open spec fn written_at(plane: Seq<u8>, lo: int, bytes: Seq<u8>) -> Seq<u8> {
    if lo + bytes.len() > plane.len() {
        plane
    } else {
        Seq::new(
            plane.len(),
            |i: int|
                if lo <= i < lo + bytes.len() {
                    bytes[i - lo]
                } else {
                    plane[i]
                },
        )
    }
}

/// The coverage plane of `len` pixels that the first `n` rows of a rasterization unfold to.
pub open spec fn unfolded(
    rows: Seq<(u32, u32, u32)>,
    data: Seq<u8>,
    w: int,
    len: nat,
    n: int,
) -> Seq<u8>
    decreases n,
{
    if n <= 0 {
        dirty::constant(len, 0)
    } else {
        let row = fill::row_segment(rows, data, n - 1);
        written_at(unfolded(rows, data, w, len, n - 1), row.lo(w), row.cov)
    }
}

/// Unfolds the rows of a rasterization to a coverage plane of `len` pixels, `w` in a row. Rows outside
/// the plane are dropped.
pub fn unfold_rows(rows: &[(u32, u32, u32)], data: &[u8], w: usize, len: usize) -> (plane: Vec<u8>)
    requires
        fill::row_offset(rows@, rows@.len() as int) == data@.len(),
    ensures
        plane@ == unfolded(rows@, data@, w as int, len as nat, rows@.len() as int),
{
    let mut plane: Vec<u8> = Vec::new();
    plane.resize(len, 0);
    assert(plane@ =~= dirty::constant(len as nat, 0u8));
    let total: usize = data.len();
    let mut off: usize = 0;
    let mut k: usize = 0;
    while k < rows.len()
        invariant
            k <= rows@.len(),
            off == fill::row_offset(rows@, k as int),
            fill::row_offset(rows@, rows@.len() as int) == total,
            data@.len() == total,
            plane@.len() == len,
            plane@ == unfolded(rows@, data@, w as int, len as nat, k as int),
        decreases rows@.len() - k,
    {
        let (y, x0, n) = rows[k];
        let ghost row = fill::row_segment(rows@, data@, k as int);
        proof {
            fill::lemma_row_offset_monotone(rows@, k + 1, rows@.len() as int);
            assert(row.cov.len() == n);
        }
        let ghost before = plane@;
        match row_bounds(y as usize, x0 as usize, n as usize, w, len) {
            None => {},
            Some((lo, hi)) => {
                let mut i: usize = lo;
                while i < hi
                    invariant
                        lo <= i <= hi <= len,
                        hi == lo + n,
                        off + n <= total,
                        total == data@.len(),
                        plane@.len() == len,
                        before.len() == len,
                        row.cov == data@.subrange(off as int, off + n),
                        forall|j: int|
                            0 <= j < len ==> #[trigger] plane@[j] == (if lo <= j < i {
                                row.cov[j - lo]
                            } else {
                                before[j]
                            }),
                    decreases hi - i,
                {
                    plane.set(i, data[off + (i - lo)]);
                    i += 1;
                }
                assert(plane@ =~= written_at(before, row.lo(w as int), row.cov));
            },
        }
        off = off + n as usize;
        k += 1;
    }
    plane
}

/// The modes that have an effect are the letters `a`, `s`, `i` and `f`.
pub proof fn law_four_modes_have_an_effect(mode: u8)
    ensures
        is_effective(mode) <==> mode as char == 'a' || mode as char == 's' || mode as char == 'i'
            || mode as char == 'f',
{
}

/// A mask contributes its coverage, or what its coverage leaves where it is inverted, by its opacity.
pub proof fn law_contribution_is_rounded(invert: bool, opacity: u8, t: u8)
    ensures
        argb::nearest(contribution(false, opacity, t), t * opacity),
        argb::nearest(contribution(true, opacity, t), (255 - t) * opacity),
        0 <= contribution(invert, opacity, t) <= opacity,
        contribution(false, 255, t) == t,
        contribution(true, 255, t) == 255 - t,
        contribution(false, opacity, 255) == opacity,
        contribution(true, opacity, 0) == opacity,
{
    argb::lemma_mul255(t as int, opacity as int);
    argb::lemma_mul255(255 - t, opacity as int);
    argb::lemma_mul255(t as int, 255);
    argb::lemma_mul255(255 - t, 255);
    argb::lemma_mul255(255, opacity as int);
    argb::lemma_mul255(0, opacity as int);
}

/// How a mask is folded in. Adding leaves uncovered the share that both leave uncovered; subtracting
/// leaves the share that the mask does not take; intersecting leaves the share that both cover; and the
/// difference is how far they are apart.
pub proof fn law_each_mode_has_its_own_fold(cur: int, c: int)
    requires
        argb::is_channel(cur),
        argb::is_channel(c),
    ensures
        argb::nearest(255 - mask_step(0x61, cur, c), (255 - cur) * (255 - c)),
        argb::nearest(mask_step(0x73, cur, c), cur * (255 - c)),
        argb::nearest(mask_step(0x69, cur, c), cur * c),
        mask_step(0x66, cur, c) >= 0,
        mask_step(0x66, cur, c) == cur - c || mask_step(0x66, cur, c) == c - cur,
{
    assert((255 - cur) * (255 - c) == 255 * (255 - c) - (255 - c) * cur) by (nonlinear_arith);
    argb::lemma_mul255(255 - c, cur);
    argb::lemma_mul255(cur, 255 - c);
    argb::lemma_mul255(cur, c);
}

/// Adding never takes away, subtracting and intersecting never add, and a value stays a value.
pub proof fn law_folds_go_one_way(cur: int, c: int)
    requires
        argb::is_channel(cur),
        argb::is_channel(c),
    ensures
        cur <= mask_step(0x61, cur, c) <= 255,
        c <= mask_step(0x61, cur, c),
        0 <= mask_step(0x73, cur, c) <= cur,
        0 <= mask_step(0x69, cur, c) <= cur,
        mask_step(0x69, cur, c) <= c,
        mask_step(0x61, 0, c) == c,
        mask_step(0x66, 0, c) == c,
        mask_step(0x73, 255, c) == 255 - c,
        mask_step(0x69, 255, c) == c,
        mask_step(0x73, 0, c) == 0,
        mask_step(0x69, 0, c) == 0,
{
    argb::lemma_mul255(255 - c, cur);
    argb::lemma_mul255(cur, 255 - c);
    argb::lemma_mul255(cur, c);
    argb::lemma_mul255(255, 255 - c);
    argb::lemma_mul255(255, c);
    argb::lemma_mul255(0, 255 - c);
    argb::lemma_mul255(0, c);
    argb::lemma_mul255(255 - c, 0);
    argb::lemma_mul255(255 - cur, 255 - c);
    law_each_mode_has_its_own_fold(cur, c);
    argb::law_division_is_rounded_to_nearest(
        (255 - cur) * (255 - c),
        255 - mask_step(0x61, cur, c),
    );
}

/// True where `masks[k]` is the first of a stack that has an effect.
pub open spec fn is_first_effective(masks: Seq<MaskPlane>, k: int) -> bool {
    &&& 0 <= k < masks.len()
    &&& is_effective(masks[k].mode)
    &&& forall|j: int| 0 <= j < k ==> !is_effective((#[trigger] masks[j]).mode)
}

proof fn lemma_seed_of_first(masks: Seq<MaskPlane>, k: int)
    requires
        is_first_effective(masks, k),
    ensures
        mask_seed(masks) == (if masks[k].mode == 0x61 || masks[k].mode == 0x66 {
            0int
        } else {
            255
        }),
    decreases k,
{
    if k > 0 {
        assert(!is_effective(masks[0].mode));
        let rest = masks.skip(1);
        assert forall|j: int| 0 <= j < k - 1 implies !is_effective((#[trigger] rest[j]).mode) by {
            assert(rest[j] == masks[j + 1]);
        }
        assert(rest[k - 1] == masks[k]);
        lemma_seed_of_first(rest, k - 1);
    }
}

proof fn lemma_ineffective_prefix(masks: Seq<MaskPlane>, n: int, i: int)
    requires
        n <= masks.len(),
        forall|j: int| 0 <= j < n ==> !is_effective((#[trigger] masks[j]).mode),
    ensures
        mask_value(masks, n, i) == mask_seed(masks),
    decreases n,
{
    if n > 0 {
        lemma_ineffective_prefix(masks, n - 1, i);
        assert(!is_effective(masks[n - 1].mode));
    }
}

/// The first mask that has an effect starts the stack, whatever masks follow it: one that adds, takes
/// the difference or intersects leaves its contribution, and one that subtracts leaves the rest.
pub proof fn law_first_mask_starts_the_stack(masks: Seq<MaskPlane>, k: int, i: int)
    requires
        is_first_effective(masks, k),
    ensures
        ({
            let m = masks[k];
            let c = contribution(m.invert, m.opacity, m.coverage@[i]);
            mask_value(masks, k + 1, i) == (if m.mode == 0x73 {
                255 - c
            } else {
                c
            })
        }),
{
    let m = masks[k];
    let t = m.coverage@[i];
    let c = contribution(m.invert, m.opacity, t);
    lemma_ineffective_prefix(masks, k, i);
    lemma_seed_of_first(masks, k);
    law_contribution_is_rounded(m.invert, m.opacity, t);
    law_folds_go_one_way(0, c);
    assert(mask_value(masks, k + 1, i) == mask_step(m.mode, mask_value(masks, k, i), c));
}

/// A mask whose mode has no effect leaves a stack as it is, and a stack of such masks alone hides
/// everything.
pub proof fn law_modes_without_effect_change_nothing(masks: Seq<MaskPlane>, n: int, i: int)
    requires
        0 < n <= masks.len(),
        !is_effective(masks[n - 1].mode),
    ensures
        mask_value(masks, n, i) == mask_value(masks, n - 1, i),
        (forall|j: int| 0 <= j < masks.len() ==> !is_effective((#[trigger] masks[j]).mode))
            ==> mask_value(masks, masks.len() as int, i) == 0,
{
    if forall|j: int| 0 <= j < masks.len() ==> !is_effective((#[trigger] masks[j]).mode) {
        lemma_ineffective_prefix(masks, masks.len() as int, i);
        lemma_no_seed(masks);
    }
}

proof fn lemma_no_seed(masks: Seq<MaskPlane>)
    requires
        forall|j: int| 0 <= j < masks.len() ==> !is_effective((#[trigger] masks[j]).mode),
    ensures
        mask_seed(masks) == 0,
    decreases masks.len(),
{
    if masks.len() > 0 {
        let rest = masks.skip(1);
        assert forall|j: int| 0 <= j < rest.len() implies !is_effective((#[trigger] rest[j]).mode) by {
            assert(rest[j] == masks[j + 1]);
        }
        lemma_no_seed(rest);
    }
}

/// Each further mask that has an effect is folded into what the masks before it leave.
pub proof fn law_masks_are_folded_in_turn(masks: Seq<MaskPlane>, n: int, i: int)
    requires
        0 < n <= masks.len(),
        is_effective(masks[n - 1].mode),
    ensures
        ({
            let m = masks[n - 1];
            let before = mask_value(masks, n - 1, i);
            let after = mask_value(masks, n, i);
            let c = contribution(m.invert, m.opacity, m.coverage@[i]);
            &&& m.mode == 0x61 ==> argb::nearest(255 - after, (255 - before) * (255 - c))
            &&& m.mode == 0x73 ==> argb::nearest(after, before * (255 - c))
            &&& m.mode == 0x69 ==> argb::nearest(after, before * c)
            &&& m.mode == 0x66 ==> after >= 0 && (after == before - c || after == c - before)
        }),
{
    let m = masks[n - 1];
    let t = m.coverage@[i];
    lemma_mask_value(masks, n - 1, i);
    law_contribution_is_rounded(m.invert, m.opacity, t);
    law_each_mode_has_its_own_fold(
        mask_value(masks, n - 1, i),
        contribution(m.invert, m.opacity, t),
    );
}

/// Nothing shows where the first mask adds nothing, however many masks that subtract or intersect
/// follow it.
pub proof fn law_nothing_shows_outside_the_first_mask(masks: Seq<MaskPlane>, k: int, n: int, i: int)
    requires
        is_first_effective(masks, k),
        k < n <= masks.len(),
        masks[k].mode == 0x61,
        !masks[k].invert,
        masks[k].coverage@[i] == 0,
        forall|j: int|
            k < j < n ==> (#[trigger] masks[j]).mode == 0x73 || masks[j].mode == 0x69,
    ensures
        mask_value(masks, n, i) == 0,
    decreases n,
{
    let m = masks[n - 1];
    let t = m.coverage@[i];
    law_contribution_is_rounded(m.invert, m.opacity, t);
    law_contribution_is_rounded(masks[k].invert, masks[k].opacity, 0);
    if n == k + 1 {
        law_first_mask_starts_the_stack(masks, k, i);
        argb::lemma_mul255(0, masks[k].opacity as int);
    } else {
        law_nothing_shows_outside_the_first_mask(masks, k, n - 1, i);
        assert(m.mode == 0x73 || m.mode == 0x69);
        law_folds_go_one_way(0, contribution(m.invert, m.opacity, t));
    }
}

/// A mask that was built holds, inside its rectangle, what its one effective mask leaves of full.
pub proof fn law_built_masks_hold_the_stack(
    masks: Seq<MaskPlane>,
    w: int,
    b: DirtyBox,
    mask: Seq<u8>,
    k: int,
    i: int,
)
    requires
        mask_built(masks, w, b, mask),
        is_first_effective(masks, k),
        forall|j: int| k < j < masks.len() ==> !is_effective((#[trigger] masks[j]).mode),
        0 <= i < mask.len(),
        b.covers(w, i),
    ensures
        ({
            let m = masks[k];
            let c = contribution(m.invert, m.opacity, m.coverage@[i]);
            mask[i] == (if m.mode == 0x73 {
                255 - c
            } else {
                c
            })
        }),
{
    law_first_mask_starts_the_stack(masks, k, i);
    lemma_ineffective_tail(masks, k + 1, masks.len() as int, i);
    assert(mask[i] == mask_value(masks, masks.len() as int, i));
}

proof fn lemma_ineffective_tail(masks: Seq<MaskPlane>, k: int, n: int, i: int)
    requires
        0 <= k <= n <= masks.len(),
        forall|j: int| k <= j < n ==> !is_effective((#[trigger] masks[j]).mode),
    ensures
        mask_value(masks, n, i) == mask_value(masks, k, i),
    decreases n - k,
{
    if k < n {
        lemma_ineffective_tail(masks, k, n - 1, i);
        assert(!is_effective(masks[n - 1].mode));
    }
}

/// A row that lies on the canvas is found in the unfolded plane byte for byte, as long as no later row
/// covers it; and where no row lies there is no coverage.
pub proof fn law_unfolded_rows_keep_their_place(
    rows: Seq<(u32, u32, u32)>,
    data: Seq<u8>,
    w: int,
    len: nat,
    n: int,
    k: int,
    i: int,
)
    requires
        0 <= n <= rows.len(),
        0 <= i < len,
        forall|j: int|
            k < j < n ==> !((#[trigger] fill::row_segment(rows, data, j)).lo(w) <= i < fill::row_segment(
                rows,
                data,
                j,
            ).hi(w)),
    ensures
        unfolded(rows, data, w, len, n).len() == len,
        0 <= k < n && fill::row_segment(rows, data, k).hi(w) <= len && fill::row_segment(
            rows,
            data,
            k,
        ).lo(w) <= i < fill::row_segment(rows, data, k).hi(w) ==> unfolded(rows, data, w, len, n)[i]
            == fill::row_segment(rows, data, k).cov[i - fill::row_segment(rows, data, k).lo(w)],
        k < 0 ==> unfolded(rows, data, w, len, n)[i] == 0,
    decreases n,
{
    if n > 0 {
        let row = fill::row_segment(rows, data, n - 1);
        law_unfolded_rows_keep_their_place(rows, data, w, len, n - 1, k, i);
        if k < n - 1 {
            assert(!(row.lo(w) <= i < row.hi(w)));
        }
    }
}

} // verus!
