//! What a cache holds of a drawing paints what the drawing itself paints.

use vstd::prelude::*;
use crate::canvas;
use crate::canvas::{Paint, Segment};
use crate::cov_cache;
use crate::cov_cache::CovCache;
use crate::dirty::DirtyBox;
use crate::fill;
use crate::plane::{EntryView, PlaneSeq};
use crate::renderer::RendererView;
use crate::replay;
use crate::spans;

verus! {

/// The coverage of an outline as a rasterizer gives it.
pub enum Drawn {
    /// Spans, in the order of their rows and columns.
    Spans(Seq<u64>),
    /// Rows, each with its place and length, and their bytes one after another.
    Rows(Seq<(u32, u32, u32)>, Seq<u8>),
}

impl Drawn {
    /// True where spans are sorted and every row of those on the canvas has its ends, and where rows have
    /// all their bytes.
    pub open spec fn wf(self, w: int, len: nat) -> bool {
        match self {
            Drawn::Spans(list) => {
                &&& spans::spans_sorted(list)
                &&& replay::rows_have_ends(fill::fitting_spans(list, w, len, list.len() as int))
            },
            Drawn::Rows(rows, data) => fill::row_offset(rows, rows.len() as int) == data.len(),
        }
    }

    /// The segments that lie on a canvas of `len` pixels.
    pub open spec fn segments(self, w: int, len: nat) -> Seq<Segment> {
        match self {
            Drawn::Spans(list) => canvas::span_segments(
                fill::fitting_spans(list, w, len, list.len() as int),
            ),
            Drawn::Rows(rows, data) => fill::fitting_rows(rows, data, w, len, rows.len() as int).2,
        }
    }

    /// The plane that drawing offers to the cache.
    pub open spec fn plane(self, w: int, len: nat) -> EntryView {
        match self {
            Drawn::Spans(list) => fill::captured_plane(
                fill::fitting_spans(list, w, len, list.len() as int),
            ),
            Drawn::Rows(rows, data) => {
                let fit = fill::fitting_rows(rows, data, w, len, rows.len() as int);
                EntryView { rows: fit.0, data: PlaneSeq::Cov(fit.1) }
            },
        }
    }

    /// The source plane that replaying that plane under a gradient offers to the cache.
    pub open spec fn sources(self, w: int, len: nat, paint: Paint) -> EntryView {
        fill::captured_sources(fill::plane_segments(self.plane(w, len)), w, paint, len)
    }
}

/// True where a cache holds nothing under `key` but the plane of a drawing, and nothing under `src_key`
/// but its source plane.
pub open spec fn remembers(
    cache: CovCache,
    key: u128,
    src_key: u128,
    drawn: Drawn,
    w: int,
    len: nat,
    paint: Paint,
) -> bool {
    let resident = cache.resident();
    &&& resident.contains_key(key) ==> resident[key] == drawn.plane(w, len)
    &&& resident.contains_key(src_key) ==> resident[src_key] == drawn.sources(w, len, paint)
}

/// True where a cache finds nothing that it did not find before.
pub open spec fn only_forgets(before: CovCache, after: CovCache) -> bool {
    forall|k: u128| #[trigger]
        after.resident().contains_key(k) ==> before.resident().contains_key(k)
            && after.resident()[k] == before.resident()[k]
}

/// True where `after` comes of `before` in one step: planes are forgotten, or one is offered, and what is
/// offered under the keys of a drawing is that drawing's.
pub open spec fn cache_step(
    before: CovCache,
    after: CovCache,
    key: u128,
    src_key: u128,
    drawn: Drawn,
    w: int,
    len: nat,
    paint: Paint,
) -> bool {
    ||| only_forgets(before, after)
    ||| exists|k: u128, entry: EntryView|
        {
            &&& #[trigger] after.offered_from(before, k, entry)
            &&& k == key ==> entry == drawn.plane(w, len)
            &&& k == src_key ==> entry == drawn.sources(w, len, paint)
        }
}

/// True where the states of a cache take such a step from the `i`th on to the next.
pub open spec fn run_step(
    states: Seq<CovCache>,
    i: int,
    key: u128,
    src_key: u128,
    drawn: Drawn,
    w: int,
    len: nat,
    paint: Paint,
) -> bool {
    cache_step(states[i], states[i + 1], key, src_key, drawn, w, len, paint)
}

proof fn lemma_insert_adds_only(
    before: CovCache,
    after: CovCache,
    key: u128,
    entry: EntryView,
    sz: usize,
)
    requires
        after.inserted_from(before, key, entry, sz),
    ensures
        forall|k: u128| #[trigger]
            after.resident().contains_key(k) ==> (k == key && after.resident()[k] == entry) || (
            before.resident().contains_key(k) && after.resident()[k] == before.resident()[k]),
{
    if !(before.frozen || sz > cov_cache::COV_ENTRY_MAX) {
        let young = cov_cache::views(after.young@);
        assert forall|k: u128| #[trigger] after.resident().contains_key(k) implies (k == key
            && after.resident()[k] == entry) || (before.resident().contains_key(k)
            && after.resident()[k] == before.resident()[k]) by {
            assert(young.contains_key(k) == after.young@.contains_key(k));
            assert(young.contains_key(key));
            if k == key {
                assert(young[k] == entry);
            } else if after.young@.contains_key(k) {
                assert(cov_cache::views(before.young@).contains_key(k));
                assert(young[k] == cov_cache::views(before.young@)[k]);
            } else if before.young@.contains_key(k) {
                assert(cov_cache::views(before.young@).contains_key(k));
            }
        }
    }
}

proof fn lemma_step_remembers(
    before: CovCache,
    after: CovCache,
    key: u128,
    src_key: u128,
    drawn: Drawn,
    w: int,
    len: nat,
    paint: Paint,
)
    requires
        remembers(before, key, src_key, drawn, w, len, paint),
        cache_step(before, after, key, src_key, drawn, w, len, paint),
    ensures
        remembers(after, key, src_key, drawn, w, len, paint),
{
    if !only_forgets(before, after) {
        let (k, entry) = choose|k: u128, entry: EntryView|
            {
                &&& #[trigger] after.offered_from(before, k, entry)
                &&& k == key ==> entry == drawn.plane(w, len)
                &&& k == src_key ==> entry == drawn.sources(w, len, paint)
            };
        let sz = choose|sz: usize| #![trigger after.inserted_from(before, k, entry, sz)]
            sz >= cov_cache::COV_ENTRY_OVERHEAD && (cov_cache::entry_size_min(entry) <= usize::MAX
                ==> sz >= cov_cache::entry_size_min(entry)) && after.inserted_from(
                before,
                k,
                entry,
                sz,
            );
        lemma_insert_adds_only(before, after, k, entry, sz);
    }
}

/// A cache that starts empty and is only ever offered a drawing's own planes under the drawing's keys
/// holds nothing else there, whatever it is offered under other keys and whatever it forgets.
pub proof fn law_what_is_cached_was_drawn(
    states: Seq<CovCache>,
    n: int,
    key: u128,
    src_key: u128,
    drawn: Drawn,
    w: int,
    len: nat,
    paint: Paint,
)
    requires
        0 <= n < states.len(),
        states[0].resident() == Map::<u128, EntryView>::empty(),
        forall|i: int|
            0 <= i < n ==> #[trigger] run_step(states, i, key, src_key, drawn, w, len, paint),
    ensures
        remembers(states[n], key, src_key, drawn, w, len, paint),
    decreases n,
{
    if n > 0 {
        law_what_is_cached_was_drawn(states, n - 1, key, src_key, drawn, w, len, paint);
        let before = states[n - 1];
        assert(run_step(states, n - 1, key, src_key, drawn, w, len, paint));
        lemma_step_remembers(before, states[n], key, src_key, drawn, w, len, paint);
    }
}

/// Drawing, and drawing from the cache, are steps that keep to the drawing's own planes.
pub proof fn law_drawing_is_remembered(
    before: CovCache,
    after: CovCache,
    key: u128,
    src_key: u128,
    drawn: Drawn,
    w: int,
    len: nat,
    paint: Paint,
)
    requires
        key != src_key,
        remembers(before, key, src_key, drawn, w, len, paint),
        ({
            ||| after == before
            ||| after == before.with_hit()
            ||| after.offered_from(before, key, drawn.plane(w, len))
            ||| before.resident().contains_key(key) && after.offered_from(
                before.with_hit(),
                src_key,
                fill::captured_sources(
                    fill::plane_segments(before.resident()[key]),
                    w,
                    paint,
                    len,
                ),
            )
        }),
    ensures
        remembers(after, key, src_key, drawn, w, len, paint),
{
    let hit = before.with_hit();
    assert(hit.resident() =~= before.resident());
    if after.offered_from(before, key, drawn.plane(w, len)) {
        lemma_step_remembers(before, after, key, src_key, drawn, w, len, paint);
    } else if before.resident().contains_key(key) && after.offered_from(
        hit,
        src_key,
        drawn.sources(w, len, paint),
    ) {
        lemma_step_remembers(hit, after, key, src_key, drawn, w, len, paint);
    }
}

/// A drawing's planes paint and mark what the drawing itself paints and marks.
proof fn lemma_planes_are_fresh(
    pixels: Seq<u32>,
    b: DirtyBox,
    drawn: Drawn,
    w: int,
    paint: Paint,
)
    requires
        drawn.wf(w, pixels.len()),
        paint.wf(pixels.len()),
    ensures
        ({
            let len = pixels.len();
            let cover = fill::plane_segments(drawn.plane(w, len));
            let sources = drawn.sources(w, len, paint);
            let fresh = canvas::paint_segments(pixels, drawn.segments(w, len), w, paint);
            let marked = canvas::mark_segments(b, drawn.segments(w, len), w, len);
            &&& canvas::paint_segments(pixels, cover, w, paint) == fresh
            &&& canvas::mark_segments(b, cover, w, len) == marked
            &&& sources.data is Src
            &&& fill::over_rows(pixels, sources.rows, sources.data->Src_0, w, 0, 0) == fresh
            &&& fill::mark_rows(b, sources.rows, sources.data->Src_0.len(), w, len, 0, 0) == marked
        }),
{
    let len = pixels.len();
    match drawn {
        Drawn::Spans(list) => {
            let n = list.len() as int;
            fill::lemma_fitting_sorted(list, w, len, n);
            let fit = fill::fitting_spans(list, w, len, n);
            replay::law_cached_span_gradient_is_fresh(pixels, b, fit, w, paint);
        },
        Drawn::Rows(rows, data) => {
            replay::law_cached_row_gradient_is_fresh(pixels, b, rows, data, w, paint);
        },
    }
}

/// A gradient that the cache has, by its coverage or by its sources, leaves exactly the pixels and the
/// rectangle that drawing it with an empty cache leaves.
pub proof fn law_cached_gradient_is_fresh(
    cache: CovCache,
    key: u128,
    src_key: u128,
    pixels: Seq<u32>,
    b: DirtyBox,
    drawn: Drawn,
    w: int,
    paint: Paint,
)
    requires
        drawn.wf(w, pixels.len()),
        paint.wf(pixels.len()),
        remembers(cache, key, src_key, drawn, w, pixels.len(), paint),
        cache.resident().contains_key(key) || cache.resident().contains_key(src_key),
    ensures
        fill::gradient_from(cache.resident(), key, src_key, pixels, b, w, paint) == (
            canvas::paint_segments(pixels, drawn.segments(w, pixels.len()), w, paint),
            canvas::mark_segments(b, drawn.segments(w, pixels.len()), w, pixels.len()),
        ),
{
    lemma_planes_are_fresh(pixels, b, drawn, w, paint);
}

/// On a renderer, too, what comes from the cache is what is drawn afresh.
pub proof fn law_cached_draw_is_fresh(v: RendererView, drawn: Drawn, paint: Paint)
    requires
        drawn.wf(v.width as int, v.active().len()),
        paint.wf(v.active().len()),
    ensures
        ({
            let (w, len) = (v.width as int, v.active().len());
            let sources = drawn.sources(w, len, paint);
            let fresh = v.painted(drawn.segments(w, len), paint);
            &&& v.painted(fill::plane_segments(drawn.plane(w, len)), paint) == fresh
            &&& sources.data is Src
            &&& v.sourced(sources.rows, sources.data->Src_0) == fresh
        }),
{
    lemma_planes_are_fresh(v.active(), v.first_box(), drawn, v.width as int, paint);
}

} // verus!
