//! Uniform-coverage spans, packed into words, and the row planes that they unfold to.

use vstd::prelude::*;
use crate::plane::{CovEntry, EntryView, PlaneData, PlaneSeq};

verus! {

/// The row of a packed span.
pub open spec fn span_y(s: u64) -> int {
    s as int / 0x1000_0000_0000
}

/// The first column of a packed span.
pub open spec fn span_x(s: u64) -> int {
    s as int / 0x100_0000 % 0x10_0000
}

/// The number of columns of a packed span.
pub open spec fn span_len(s: u64) -> int {
    s as int / 0x100 % 0x1_0000
}

/// The coverage byte of a packed span.
pub open spec fn span_cov(s: u64) -> int {
    s as int % 0x100
}

/// The column after the last one of a packed span.
pub open spec fn span_end(s: u64) -> int {
    span_x(s) + span_len(s)
}

/// True where the fields have the widths that a packed span gives them: 20 bits of row, 20 of
/// column, 16 of length.
pub open spec fn span_fits(y: int, x0: int, len: int) -> bool {
    0 <= y < 0x10_0000 && 0 <= x0 < 0x10_0000 && 0 <= len < 0x1_0000
}

/// Packs one uniform-coverage span: `y:20 | x0:20 | len:16 | cov:8`.
pub fn pack_span(y: usize, x0: usize, len: usize, cov: u8) -> (s: u64)
    ensures
        s == ((y as u64) << 44) | ((x0 as u64) << 24) | ((len as u64) << 8) | cov as u64,
        span_fits(y as int, x0 as int, len as int) ==> span_y(s) == y && span_x(s) == x0 && span_len(s) == len
            && span_cov(s) == cov,
{
    let (a, b, c, d): (u64, u64, u64, u64) = (y as u64, x0 as u64, len as u64, cov as u64);
    let s: u64 = (a << 44) | (b << 24) | (c << 8) | d;
    proof {
        assert(a < 0x10_0000 && b < 0x10_0000 && c < 0x1_0000 && d < 0x100 ==> s == a * 0x1000_0000_0000 + b * 0x100_0000
            + c * 0x100 + d) by (bit_vector)
            requires
                s == (a << 44) | (b << 24) | (c << 8) | d,
        ;
    }
    s
}

/// The fields of a packed span: row, first column, length, coverage.
pub fn unpack_span(s: u64) -> (f: (usize, usize, usize, u8))
    ensures
        f.0 == span_y(s),
        f.1 == span_x(s),
        f.2 == span_len(s),
        f.3 == span_cov(s),
        span_fits(f.0 as int, f.1 as int, f.2 as int),
{
    proof {
        assert(s >> 44 == s / 0x1000_0000_0000 && (s >> 24) & 0xf_ffff == s / 0x100_0000 % 0x10_0000 && (s >> 8) & 0xffff
            == s / 0x100 % 0x1_0000 && s & 0xff == s % 0x100) by (bit_vector);
    }
    ((s >> 44) as usize, ((s >> 24) & 0xf_ffff) as usize, ((s >> 8) & 0xffff) as usize, (s & 0xff) as u8)
}

/// A packed span is put together from its own fields.
pub proof fn law_span_fields_determine_span(s: u64, t: u64)
    requires
        span_y(s) == span_y(t),
        span_x(s) == span_x(t),
        span_len(s) == span_len(t),
        span_cov(s) == span_cov(t),
    ensures
        s == t,
{
}

/// True where span `a` comes before span `b`: in an earlier row, or in the same row and ending at or
/// before the start of `b`.
pub open spec fn span_before(a: u64, b: u64) -> bool {
    span_y(a) < span_y(b) || (span_y(a) == span_y(b) && span_end(a) <= span_x(b))
}

/// True for a span list as a rasterizer emits it: each span comes before those that follow it.
pub open spec fn spans_sorted(spans: Seq<u64>) -> bool {
    forall|i: int, j: int|
        #![trigger spans[i], spans[j]]
        0 <= i < j < spans.len() ==> span_before(spans[i], spans[j])
}

/// The coverage that the spans `lo..hi` give column `x`: that of the first span over it, or zero.
pub open spec fn cover_in(spans: Seq<u64>, lo: int, hi: int, x: int) -> int
    decreases hi - lo,
{
    if lo >= hi {
        0
    } else if span_x(spans[lo]) <= x < span_end(spans[lo]) {
        span_cov(spans[lo])
    } else {
        cover_in(spans, lo + 1, hi, x)
    }
}

/// The end of the run of spans from `j` on that lie in row `y`.
pub open spec fn row_end(spans: Seq<u64>, y: int, j: int) -> int
    decreases spans.len() - j,
{
    if 0 <= j < spans.len() && span_y(spans[j]) == y {
        row_end(spans, y, j + 1)
    } else {
        j
    }
}

/// Where the run of spans in one row ends, and what lies on either side of that.
pub proof fn lemma_row_end(spans: Seq<u64>, y: int, j: int)
    requires
        0 <= j <= spans.len(),
    ensures
        j <= row_end(spans, y, j) <= spans.len(),
        forall|k: int| j <= k < row_end(spans, y, j) ==> span_y(#[trigger] spans[k]) == y,
        row_end(spans, y, j) < spans.len() ==> span_y(spans[row_end(spans, y, j)]) != y,
    decreases spans.len() - j,
{
    if j < spans.len() && span_y(spans[j]) == y {
        lemma_row_end(spans, y, j + 1);
    }
}

/// The end of the row that starts at span `i`.
pub open spec fn next_row(spans: Seq<u64>, i: int) -> int {
    row_end(spans, span_y(spans[i]), i + 1)
}

/// The extent of the row made of the spans `i..j`: from its first column to its last.
pub open spec fn row_extent(spans: Seq<u64>, i: int, j: int) -> int {
    span_end(spans[j - 1]) - span_x(spans[i])
}

/// The row records `(y, x0, len)` of the spans from `i` on: one for each run of spans in one row.
pub open spec fn plane_rows(spans: Seq<u64>, i: int) -> Seq<(u32, u32, u32)>
    decreases spans.len() - i,
{
    if i < 0 || i >= spans.len() {
        Seq::empty()
    } else {
        proof {
            lemma_row_end(spans, span_y(spans[i]), i + 1);
        }
        let j = next_row(spans, i);
        seq![(span_y(spans[i]) as u32, span_x(spans[i]) as u32, row_extent(spans, i, j) as u32)] + plane_rows(spans, j)
    }
}

/// The coverage bytes of one row: each column from its first to its last, zero in the gaps.
pub open spec fn row_bytes(spans: Seq<u64>, i: int, j: int) -> Seq<u8> {
    Seq::new(row_extent(spans, i, j) as nat, |c: int| cover_in(spans, i, j, span_x(spans[i]) + c) as u8)
}

/// The coverage bytes of the spans from `i` on, row after row.
pub open spec fn plane_bytes(spans: Seq<u64>, i: int) -> Seq<u8>
    decreases spans.len() - i,
{
    if i < 0 || i >= spans.len() {
        Seq::empty()
    } else {
        proof {
            lemma_row_end(spans, span_y(spans[i]), i + 1);
        }
        let j = next_row(spans, i);
        row_bytes(spans, i, j) + plane_bytes(spans, j)
    }
}


/// A sorted row reaches from its first span to its last.
pub proof fn lemma_sorted_row(spans: Seq<u64>, i: int, j: int)
    requires
        spans_sorted(spans),
        0 <= i < j <= spans.len(),
        forall|k: int| i <= k < j ==> span_y(#[trigger] spans[k]) == span_y(spans[i]),
    ensures
        0 <= row_extent(spans, i, j) <= 0x11_0000,
        forall|k: int| i <= k < j ==> span_x(spans[i]) <= span_x(#[trigger] spans[k]) && span_end(spans[k]) <= span_end(spans[j - 1]),
{
    assert forall|k: int| i <= k < j implies span_x(spans[i]) <= span_x(#[trigger] spans[k]) && span_end(spans[k])
        <= span_end(spans[j - 1]) by {
        assert(span_x(spans[i]) <= span_end(spans[i]));
        assert(span_x(spans[j - 1]) <= span_end(spans[j - 1]));
    }
    assert(span_x(spans[i]) <= span_x(spans[j - 1]));
}

proof fn lemma_cover_step(spans: Seq<u64>, i: int, k: int, x: int)
    requires
        0 <= i <= k < spans.len(),
    ensures
        cover_in(spans, i, k + 1, x) == if cover_hit(spans, i, k, x) {
            cover_in(spans, i, k, x)
        } else if span_x(spans[k]) <= x < span_end(spans[k]) {
            span_cov(spans[k])
        } else {
            0
        },
        !cover_hit(spans, i, k, x) ==> cover_in(spans, i, k, x) == 0,
    decreases k - i,
{
    if i < k {
        lemma_cover_step(spans, i + 1, k, x);
    } else {
        assert(cover_in(spans, i + 1, k + 1, x) == 0);
    }
}

/// True where one of the spans `lo..hi` lies over column `x`.
spec fn cover_hit(spans: Seq<u64>, lo: int, hi: int, x: int) -> bool
    decreases hi - lo,
{
    lo < hi && (span_x(spans[lo]) <= x < span_end(spans[lo]) || cover_hit(spans, lo + 1, hi, x))
}

proof fn lemma_cover_hit(spans: Seq<u64>, lo: int, hi: int, x: int)
    ensures
        cover_hit(spans, lo, hi, x) <==> exists|m: int| lo <= m < hi && span_x(#[trigger] spans[m]) <= x < span_end(spans[m]),
    decreases hi - lo,
{
    if lo < hi {
        lemma_cover_hit(spans, lo + 1, hi, x);
        if span_x(spans[lo]) <= x < span_end(spans[lo]) {
            assert(span_x(spans[lo]) <= x);
        }
    }
}

/// The coverage of one more span at the end of a run: a column that an earlier span covers keeps its
/// coverage, and any other gets that of the last span, if it is covered by it.
pub proof fn lemma_cover_last(spans: Seq<u64>, i: int, k: int, x: int)
    requires
        0 <= i <= k < spans.len(),
    ensures
        cover_in(spans, i, k + 1, x) == if exists|m: int| i <= m < k && span_x(#[trigger] spans[m]) <= x < span_end(spans[m]) {
            cover_in(spans, i, k, x)
        } else if span_x(spans[k]) <= x < span_end(spans[k]) {
            span_cov(spans[k])
        } else {
            0
        },
{
    lemma_cover_step(spans, i, k, x);
    lemma_cover_hit(spans, i, k, x);
}

/// A column that no span of a run lies over has no coverage.
pub proof fn lemma_cover_none(spans: Seq<u64>, i: int, j: int, x: int)
    requires
        0 <= i <= j <= spans.len(),
        forall|m: int| i <= m < j ==> !(span_x(#[trigger] spans[m]) <= x < span_end(spans[m])),
    ensures
        cover_in(spans, i, j, x) == 0,
    decreases j - i,
{
    if i < j {
        lemma_cover_none(spans, i + 1, j, x);
    }
}

/// Counts the rows and the coverage bytes that a span list unfolds to. A number of bytes that no
/// buffer could hold is given as the top of the range.
pub fn pre_size(spans: &[u64]) -> (n: (usize, usize))
    requires
        spans_sorted(spans@),
    ensures
        n.0 == plane_rows(spans@, 0).len(),
        n.1 == if plane_bytes(spans@, 0).len() < usize::MAX {
            plane_bytes(spans@, 0).len()
        } else {
            usize::MAX as nat
        },
{
    let mut nrows: usize = 0;
    let mut nbytes: usize = 0;
    let ghost mut counted: nat = 0;
    let mut i: usize = 0;
    while i < spans.len()
        invariant
            spans_sorted(spans@),
            i <= spans@.len(),
            nrows <= i,
            nrows + plane_rows(spans@, i as int).len() == plane_rows(spans@, 0).len(),
            counted + plane_bytes(spans@, i as int).len() == plane_bytes(spans@, 0).len(),
            nbytes == if counted < usize::MAX {
                counted
            } else {
                usize::MAX as nat
            },
        decreases spans@.len() - i,
    {
        let (j, x_end) = scan_row(spans, i);
        let (_y, x0, _len, _cov) = unpack_span(spans[i]);
        proof {
            lemma_row_end(spans@, span_y(spans@[i as int]), i + 1);
            lemma_sorted_row(spans@, i as int, j as int);
            counted = counted + (x_end - x0) as nat;
        }
        nrows = nrows + 1;
        nbytes = nbytes.saturating_add(x_end - x0);
        i = j;
    }
    (nrows, nbytes)
}

/// Finds the end of the row that starts at span `i`, and the column after its last.
fn scan_row(spans: &[u64], i: usize) -> (r: (usize, usize))
    requires
        i < spans@.len(),
    ensures
        r.0 == next_row(spans@, i as int),
        i < r.0 <= spans@.len(),
        r.1 == span_end(spans@[r.0 - 1]),
        r.1 <= 0x11_0000,
        forall|k: int| i <= k < r.0 ==> span_y(#[trigger] spans@[k]) == span_y(spans@[i as int]),
{
    let (y, x0, len0, _cov) = unpack_span(spans[i]);
    let mut j: usize = i + 1;
    let mut x_end: usize = x0 + len0;
    proof {
        lemma_row_end(spans@, y as int, i + 1);
    }
    while j < spans.len()
        invariant_except_break
            i < j <= spans@.len(),
            row_end(spans@, y as int, j as int) == next_row(spans@, i as int),
            x_end == span_end(spans@[j - 1]),
            x_end <= 0x11_0000,
            y == span_y(spans@[i as int]),
        ensures
            j == next_row(spans@, i as int),
            i < j <= spans@.len(),
            x_end == span_end(spans@[j - 1]),
            x_end <= 0x11_0000,
        decreases spans@.len() - j,
    {
        let (yy, xx, ll, _cv) = unpack_span(spans[j]);
        if yy != y {
            break;
        }
        x_end = xx + ll;
        j = j + 1;
    }
    (j, x_end)
}

/// Unfolds a span list to a row plane: one row for each run of spans in one row, with zero coverage
/// in the gaps.
pub fn spans_to_cov_entry(spans: &[u64]) -> (entry: CovEntry)
    requires
        spans_sorted(spans@),
        plane_bytes(spans@, 0).len() <= usize::MAX,
    ensures
        entry@ == (EntryView { rows: plane_rows(spans@, 0), data: PlaneSeq::Cov(plane_bytes(spans@, 0)) }),
{
    let (mut rows, mut data): (Vec<(u32, u32, u32)>, Vec<u8>) = if spans.len() >= 64 {
        let (nrows, nbytes) = pre_size(spans);
        (Vec::with_capacity(nrows), Vec::with_capacity(nbytes))
    } else {
        (Vec::new(), Vec::new())
    };
    let mut i: usize = 0;
    while i < spans.len()
        invariant
            spans_sorted(spans@),
            i <= spans@.len(),
            rows@ + plane_rows(spans@, i as int) == plane_rows(spans@, 0),
            data@ + plane_bytes(spans@, i as int) == plane_bytes(spans@, 0),
            plane_bytes(spans@, 0).len() <= usize::MAX,
        decreases spans@.len() - i,
    {
        let (y, x0, _len, _cov) = unpack_span(spans[i]);
        let (j, x_end) = scan_row(spans, i);
        proof {
            lemma_row_end(spans@, span_y(spans@[i as int]), i + 1);
            lemma_sorted_row(spans@, i as int, j as int);
        }
        let ghost rows0 = rows@;
        let ghost data0 = data@;
        let width: usize = x_end - x0;
        rows.push((y as u32, x0 as u32, width as u32));
        let base: usize = data.len();
        assert(plane_bytes(spans@, i as int) == row_bytes(spans@, i as int, j as int) + plane_bytes(spans@, j as int));
        assert(row_bytes(spans@, i as int, j as int).len() == width);
        data.resize(base + width, 0);
        fill_row(&mut data, base, spans, i, j);
        assert(data@ =~= data0 + row_bytes(spans@, i as int, j as int));
        assert(rows@ + plane_rows(spans@, j as int) =~= rows0 + plane_rows(spans@, i as int));
        assert(data@ + plane_bytes(spans@, j as int) =~= data0 + plane_bytes(spans@, i as int));
        i = j;
    }
    assert(rows@ =~= plane_rows(spans@, 0));
    assert(data@ =~= plane_bytes(spans@, 0));
    CovEntry { rows, data: PlaneData::Cov(data) }
}

/// Writes the coverage of one row's spans over the zeros at `base`.
fn fill_row(data: &mut Vec<u8>, base: usize, spans: &[u64], i: usize, j: usize)
    requires
        spans_sorted(spans@),
        i < j <= spans@.len(),
        forall|k: int| i <= k < j ==> span_y(#[trigger] spans@[k]) == span_y(spans@[i as int]),
        old(data)@.len() == base + row_extent(spans@, i as int, j as int),
        forall|c: int| base <= c < old(data)@.len() ==> #[trigger] old(data)@[c] == 0,
    ensures
        final(data)@.len() == old(data)@.len(),
        forall|c: int| 0 <= c < base ==> #[trigger] final(data)@[c] == old(data)@[c],
        forall|c: int| base <= c < final(data)@.len() ==> #[trigger] final(data)@[c] == row_bytes(spans@, i as int, j as int)[c - base],
{
    let ghost before = data@;
    let total: usize = data.len();
    let (_y, x0, _len0, _cov0) = unpack_span(spans[i]);
    let mut k: usize = i;
    proof {
        lemma_sorted_row(spans@, i as int, j as int);
    }
    while k < j
        invariant
            spans_sorted(spans@),
            i <= k <= j <= spans@.len(),
            i < j,
            x0 == span_x(spans@[i as int]),
            forall|m: int| i <= m < j ==> span_y(#[trigger] spans@[m]) == span_y(spans@[i as int]),
            forall|m: int| i <= m < j ==> x0 <= span_x(#[trigger] spans@[m]) && span_end(spans@[m]) <= span_end(spans@[j - 1]),
            data@.len() == before.len(),
            before.len() == total,
            total == base + row_extent(spans@, i as int, j as int),
            forall|c: int| 0 <= c < base ==> #[trigger] data@[c] == before[c],
            forall|c: int| base <= c < data@.len() ==> #[trigger] data@[c] == cover_in(spans@, i as int, k as int, x0 + c - base),
        decreases j - k,
    {
        let (_yy, xx, ll, cv) = unpack_span(spans[k]);
        assert(x0 <= span_x(spans@[k as int]) && span_end(spans@[k as int]) <= span_end(spans@[j - 1]));
        let lo: usize = base + (xx - x0);
        let ghost mid = data@;
        let mut c: usize = 0;
        while c < ll
            invariant
                c <= ll,
                lo + ll <= total,
                data@.len() == total,
                data@.len() == mid.len(),
                forall|m: int| 0 <= m < mid.len() ==> #[trigger] data@[m] == if lo <= m < lo + c {
                    cv
                } else {
                    mid[m]
                },
            decreases ll - c,
        {
            data.set(lo + c, cv);
            c = c + 1;
        }
        proof {
            assert forall|m: int| base <= m < data@.len() implies #[trigger] data@[m] == cover_in(
                spans@,
                i as int,
                k + 1,
                x0 + m - base,
            ) by {
                let x = x0 + m - base;
                lemma_cover_step(spans@, i as int, k as int, x);
                lemma_cover_hit(spans@, i as int, k as int, x);
                if lo <= m < lo + ll {
                    assert forall|q: int| i <= q < k implies !(span_x(#[trigger] spans@[q]) <= x < span_end(spans@[q])) by {
                        assert(span_end(spans@[q]) <= span_x(spans@[k as int]));
                    }
                }
                assert(mid[m] == cover_in(spans@, i as int, k as int, x));
            }
        }
        k = k + 1;
    }
}

/// True for a span capture whose average span is shorter than four pixels; such a capture is kept as
/// rows.
pub fn spans_fragmented(spans: &[u64], px_total: usize) -> (r: bool)
    ensures
        r == (spans@.len() * 4 > px_total),
{
    spans.len() > px_total / 4
}

/// A span is packed as row, column, length and coverage, from the top bits down, in fields of 20, 20,
/// 16 and 8 bits.
pub proof fn law_spans_are_packed_by_field(s: u64)
    ensures
        s == span_y(s) * 0x1000_0000_0000 + span_x(s) * 0x100_0000 + span_len(s) * 0x100 + span_cov(s),
        0 <= span_y(s) < 0x10_0000,
        0 <= span_x(s) < 0x10_0000,
        0 <= span_len(s) < 0x1_0000,
        0 <= span_cov(s) < 0x100,
        span_end(s) == span_x(s) + span_len(s),
{
}

/// A column of a row gets the coverage of the span that lies over it, and none where no span does.
pub proof fn law_columns_have_their_span(spans: Seq<u64>, i: int, j: int, k: int, x: int)
    requires
        spans_sorted(spans),
        0 <= i <= k < j <= spans.len(),
        forall|m: int| i <= m < j ==> span_y(#[trigger] spans[m]) == span_y(spans[i]),
        span_x(spans[k]) <= x < span_x(spans[k]) + span_len(spans[k]),
    ensures
        cover_in(spans, i, j, x) == span_cov(spans[k]),
    decreases k - i,
{
    if i < k {
        assert(span_before(spans[i], spans[k]));
        assert(span_y(spans[k]) == span_y(spans[i]));
        assert(span_y(spans[i + 1]) == span_y(spans[i]));
        law_columns_have_their_span(spans, i + 1, j, k, x);
    }
}

} // verus!
