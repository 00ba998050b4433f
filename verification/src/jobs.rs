//! Replaying recorded paints from the plane cache.

use crate::canvas;
use crate::canvas::Paint;
use crate::cov_cache;
use crate::cov_cache::{CovCache, COV_ENTRY_MAX};
use crate::dirty::DirtyBox;
use crate::fill;
use crate::fill::{fill_cached, fill_gradient_cached};
use crate::plane::{EntryView, PlaneSeq};
use std::collections::{HashMap, HashSet};
use vstd::prelude::*;

verus! {

broadcast use vstd::std_specs::hash::group_hash_axioms;

/// One recorded paint: everything but its geometry, which comes from the cache.
pub enum ReplayJob<'a> {
    /// A solid fill.
    Solid {
        /// The key of its coverage.
        key: u128,
        /// Red.
        sr: u32,
        /// Green.
        sg: u32,
        /// Blue.
        sb: u32,
        /// Alpha.
        sa: u32,
    },
    /// A gradient fill.
    Gradient {
        /// The key of its coverage.
        key: u128,
        /// The key of its painted pixels.
        src_key: u128,
        /// The premultiplied lookup table.
        lut: &'a [u32],
        /// The table index of each pixel.
        index: &'a [u32],
    },
}

impl<'a> ReplayJob<'a> {
    /// The paint of the job.
    pub open spec fn paint(self) -> Paint<'a> {
        match self {
            ReplayJob::Solid { key, sr, sg, sb, sa } => Paint::Solid { sr, sg, sb, sa },
            ReplayJob::Gradient { key, src_key, lut, index } => Paint::Gradient { lut, index },
        }
    }

    /// True where what the job needs is in the cache.
    pub open spec fn present(self, resident: Map<u128, EntryView>) -> bool {
        match self {
            ReplayJob::Solid { key, .. } => resident.contains_key(key),
            ReplayJob::Gradient { key, src_key, .. } => resident.contains_key(src_key)
                || resident.contains_key(key),
        }
    }

    /// Whether what the job needs is in the cache.
    fn is_present(&self, cache: &CovCache) -> (r: bool)
        ensures
            r == self.present(cache.resident()),
    {
        match self {
            ReplayJob::Solid { key, .. } => cache.contains(*key),
            ReplayJob::Gradient { key, src_key, .. } => cache.contains(*src_key) || cache.contains(
                *key,
            ),
        }
    }
}

/// A cache, a canvas and what has been written to it.
pub struct Painted {
    pub cache: CovCache,
    pub pixels: Seq<u32>,
    pub dirty: DirtyBox,
}

/// True where painting `job` turns `before` into `after`.
pub open spec fn job_step(before: Painted, job: ReplayJob, w: int, after: Painted) -> bool {
    let len = before.pixels.len();
    let resident = before.cache.resident();
    match job {
        ReplayJob::Solid { key, .. } => {
            let segs = fill::plane_segments(resident[key]);
            &&& after.cache == before.cache.with_hit()
            &&& after.pixels == canvas::paint_segments(before.pixels, segs, w, job.paint())
            &&& after.dirty == canvas::mark_segments(before.dirty, segs, w, len)
        },
        ReplayJob::Gradient { key, src_key, .. } => if resident.contains_key(src_key) {
            let e = resident[src_key];
            &&& after.cache == before.cache.with_hit()
            &&& match e.data {
                PlaneSeq::Src(data) => {
                    &&& after.pixels == fill::over_rows(before.pixels, e.rows, data, w, 0, 0)
                    &&& after.dirty == fill::mark_rows(
                        before.dirty,
                        e.rows,
                        data.len(),
                        w,
                        len,
                        0,
                        0,
                    )
                },
                _ => after.pixels == before.pixels && after.dirty == before.dirty,
            }
        } else {
            let e = resident[key];
            let segs = fill::plane_segments(e);
            &&& after.pixels == canvas::paint_segments(before.pixels, segs, w, job.paint())
            &&& after.dirty == canvas::mark_segments(before.dirty, segs, w, len)
            &&& if e.data is Src || before.cache.frozen || fill::sources_bytes(e) > COV_ENTRY_MAX {
                after.cache == before.cache.with_hit()
            } else {
                after.cache.offered_from(
                    before.cache.with_hit(),
                    src_key,
                    fill::captured_sources(segs, w, job.paint(), len),
                )
            }
        },
    }
}

/// True where painting `jobs` one after another turns `before` into `after`.
pub open spec fn job_run(before: Painted, jobs: Seq<ReplayJob>, w: int, after: Painted) -> bool
    decreases jobs.len(),
{
    if jobs.len() == 0 {
        after == before
    } else {
        exists|mid: Painted|
            job_run(before, jobs.drop_last(), w, mid) && #[trigger] job_step(
                mid,
                jobs.last(),
                w,
                after,
            )
    }
}

/// The cache as it is with its generations held in place.
pub open spec fn pinned(c: CovCache) -> CovCache {
    CovCache { pinned: true, ..c }
}

/// A step drops nothing from the cache.
proof fn lemma_step_keeps(before: Painted, job: ReplayJob, w: int, after: Painted)
    requires
        before.cache.wf(),
        job.present(before.cache.resident()),
        job_step(before, job, w, after),
    ensures
        forall|k: u128| #[trigger]
            before.cache.resident().contains_key(k) ==> after.cache.resident().contains_key(k),
        after.pixels.len() == before.pixels.len(),
{
    let hit = before.cache.with_hit();
    match job {
        ReplayJob::Solid { key, .. } => {
            let segs = fill::plane_segments(before.cache.resident()[key]);
            canvas::lemma_paint_len(before.pixels, segs, w, job.paint());
        },
        ReplayJob::Gradient { key, src_key, .. } => {
            let e = before.cache.resident()[src_key];
            let segs = fill::plane_segments(before.cache.resident()[key]);
            canvas::lemma_paint_len(before.pixels, segs, w, job.paint());
            match e.data {
                PlaneSeq::Src(data) => {
                    fill::lemma_over_len(before.pixels, e.rows, data, w, 0, 0);
                },
                _ => {},
            }
        },
    }
    assert(hit.resident() =~= before.cache.resident());
    match job {
        ReplayJob::Gradient { key, src_key, .. } => {
            let resident = before.cache.resident();
            if !resident.contains_key(src_key) {
                let e = resident[key];
                let segs = fill::plane_segments(e);
                if !(e.data is Src || before.cache.frozen || fill::sources_bytes(e)
                    > COV_ENTRY_MAX) {
                    let entry = fill::captured_sources(
                        segs,
                        w,
                        job.paint(),
                        before.pixels.len(),
                    );
                    let sz = choose|sz: usize|
                        #![trigger after.cache.inserted_from(hit, src_key, entry, sz)]
                        sz >= cov_cache::COV_ENTRY_OVERHEAD && (cov_cache::entry_size_min(entry)
                            <= usize::MAX ==> sz >= cov_cache::entry_size_min(entry))
                            && after.cache.inserted_from(hit, src_key, entry, sz);
                    cov_cache::law_insert_keeps_residents(hit, after.cache, src_key, entry, sz);
                    assert forall|k: u128| #[trigger]
                        before.cache.resident().contains_key(k) implies after.cache.resident().contains_key(
                        k,
                    ) by {
                        assert(k != src_key);
                    }
                }
            }
        },
        _ => {},
    }
}

proof fn lemma_run_push(
    before: Painted,
    jobs: Seq<ReplayJob>,
    job: ReplayJob,
    w: int,
    mid: Painted,
    after: Painted,
)
    requires
        job_run(before, jobs, w, mid),
        job_step(mid, job, w, after),
    ensures
        job_run(before, jobs.push(job), w, after),
{
    assert(jobs.push(job).drop_last() =~= jobs);
    assert(jobs.push(job).last() == job);
    assert(job_step(mid, jobs.push(job).last(), w, after));
}

/// Replays recorded paints straight from the cache. Where anything that they need is gone, nothing
/// is painted and the caller is told.
pub fn replay_jobs(
    cache: &mut CovCache,
    jobs: &[ReplayJob],
    pixels: &mut [u32],
    dirty_box: &mut DirtyBox,
    w: usize,
) -> (done: bool)
    requires
        old(cache).wf(),
        forall|i: int|
            0 <= i < jobs@.len() ==> (#[trigger] jobs@[i]).paint().wf(old(pixels)@.len()),
    ensures
        final(cache).wf(),
        done == (forall|i: int|
            0 <= i < jobs@.len() ==> (#[trigger] jobs@[i]).present(old(cache).resident())),
        !done ==> {
            &&& *final(cache) == *old(cache)
            &&& final(pixels)@ == old(pixels)@
            &&& *final(dirty_box) == *old(dirty_box)
        },
        done ==> exists|held: CovCache|
            {
                &&& #[trigger] job_run(
                    Painted {
                        cache: pinned(*old(cache)),
                        pixels: old(pixels)@,
                        dirty: *old(dirty_box),
                    },
                    jobs@,
                    w as int,
                    Painted { cache: held, pixels: final(pixels)@, dirty: *final(dirty_box) },
                )
                &&& ({
                    let free = CovCache { pinned: false, ..held };
                    if free.rotates() {
                        final(cache).rotated_from(free)
                    } else {
                        *final(cache) == free
                    }
                })
            },
{
    let n: usize = jobs.len();
    let mut i: usize = 0;
    while i < n
        invariant
            n == jobs@.len(),
            i <= n,
            forall|j: int| 0 <= j < i ==> (#[trigger] jobs@[j]).present(cache.resident()),
            *cache == *old(cache),
            pixels@ == old(pixels)@,
            *dirty_box == *old(dirty_box),
            cache.wf(),
        decreases n - i,
    {
        if !jobs[i].is_present(cache) {
            assert(!jobs@[i as int].present(old(cache).resident()));
            return false;
        }
        i += 1;
    }
    cache.pinned = true;
    assert(cache.resident() =~= old(cache).resident());
    let ghost start = Painted { cache: *cache, pixels: pixels@, dirty: *dirty_box };
    assert(start.cache == pinned(*old(cache)));
    let mut k: usize = 0;
    assert(jobs@.take(0) =~= Seq::empty());
    while k < n
        invariant
            n == jobs@.len(),
            k <= n,
            cache.wf(),
            pixels@.len() == start.pixels.len(),
            forall|j: int|
                0 <= j < jobs@.len() ==> (#[trigger] jobs@[j]).paint().wf(start.pixels.len()),
            forall|j: int| 0 <= j < n ==> (#[trigger] jobs@[j]).present(cache.resident()),
            job_run(
                start,
                jobs@.take(k as int),
                w as int,
                Painted { cache: *cache, pixels: pixels@, dirty: *dirty_box },
            ),
        decreases n - k,
    {
        let ghost mid = Painted { cache: *cache, pixels: pixels@, dirty: *dirty_box };
        assert(jobs@[k as int].present(cache.resident()));
        assert(jobs@[k as int].paint().wf(pixels@.len()));
        match &jobs[k] {
            ReplayJob::Solid { key, sr, sg, sb, sa } => {
                let paint = Paint::Solid { sr: *sr, sg: *sg, sb: *sb, sa: *sa };
                let _ = fill_cached(cache, *key, pixels, dirty_box, w, &paint);
            },
            ReplayJob::Gradient { key, src_key, lut, index } => {
                let _ = fill_gradient_cached(
                    cache,
                    *key,
                    *src_key,
                    pixels,
                    dirty_box,
                    w,
                    *lut,
                    *index,
                );
            },
        }
        let ghost after = Painted { cache: *cache, pixels: pixels@, dirty: *dirty_box };
        proof {
            assert(job_step(mid, jobs@[k as int], w as int, after));
            lemma_step_keeps(mid, jobs@[k as int], w as int, after);
            lemma_run_push(start, jobs@.take(k as int), jobs@[k as int], w as int, mid, after);
            assert(jobs@.take(k as int).push(jobs@[k as int]) =~= jobs@.take(k + 1));
            assert forall|j: int| 0 <= j < n implies (#[trigger] jobs@[j]).present(
                cache.resident(),
            ) by {
                assert(jobs@[j].present(mid.cache.resident()));
            }
        }
        k += 1;
    }
    assert(jobs@.take(n as int) =~= jobs@);
    let ghost held = *cache;
    cache.pinned = false;
    cache.rotate_if_needed();
    assert(job_run(
        start,
        jobs@,
        w as int,
        Painted { cache: held, pixels: pixels@, dirty: *dirty_box },
    ));
    true
}

/// How many layers' paints are kept.
pub const JOBS_CACHE_CAP: usize = 1024;

/// How many keys are remembered.
pub const JOBS_SEEN_CAP: usize = 4096;

/// Recorded paints of still layers by their keys.
#[verifier::reject_recursive_types(J)]
pub struct JobsCache<J> {
    /// The paints.
    pub jobs: HashMap<u128, Vec<J>>,
    /// The keys that were met.
    pub seen: HashSet<u128>,
}

impl<J> JobsCache<J> {
    /// A cache that holds nothing.
    pub fn new() -> (c: JobsCache<J>)
        ensures
            c.jobs@ == Map::<u128, Vec<J>>::empty(),
            c.seen@ == Set::<u128>::empty(),
    {
        JobsCache { jobs: HashMap::new(), seen: HashSet::new() }
    }

    /// The paints recorded under a key.
    pub fn recorded(&self, key: u128) -> (r: Option<&Vec<J>>)
        ensures
            match r {
                Some(jobs) => self.jobs@.contains_key(key) && *jobs == self.jobs@[key],
                None => !self.jobs@.contains_key(key),
            },
    {
        self.jobs.get(&key)
    }

    /// Whether the paints of a key are to be recorded: at once where there is only one frame to
    /// show, else the second time that the key is met.
    pub fn should_record(&mut self, key: u128, at_once: bool) -> (r: bool)
        ensures
            final(self).jobs@ == old(self).jobs@,
            r == (at_once || old(self).seen@.contains(key)),
            final(self).seen@ == (if r {
                old(self).seen@
            } else if old(self).seen@.len() >= JOBS_SEEN_CAP {
                Set::<u128>::empty().insert(key)
            } else {
                old(self).seen@.insert(key)
            }),
    {
        if at_once || self.seen.contains(&key) {
            return true;
        }
        if self.seen.len() >= JOBS_SEEN_CAP {
            self.seen.clear();
        }
        self.seen.insert(key);
        false
    }

    /// Keeps the paints of a key.
    pub fn record(&mut self, key: u128, jobs: Vec<J>)
        ensures
            final(self).seen@ == old(self).seen@,
            final(self).jobs@ == (if old(self).jobs@.len() >= JOBS_CACHE_CAP {
                Map::<u128, Vec<J>>::empty()
            } else {
                old(self).jobs@
            }).insert(key, jobs),
    {
        if self.jobs.len() >= JOBS_CACHE_CAP {
            self.jobs.clear();
        }
        self.jobs.insert(key, jobs);
    }
}

/// Where the coverage of a paint comes from.
#[derive(Clone, Copy, Debug, PartialEq, Eq, Structural)]
pub enum Source {
    /// From the cache: its outlines are not needed.
    Cached,
    /// From its outlines.
    Fresh {
        /// True where one outline, not dashed, is all that is painted.
        solo: bool,
    },
}

/// Decides where the coverage of a paint comes from. `src_key` is the key of a gradient's painted
/// pixels, `outlines` the number of outlines that the paint covers and `dashes` the length of its dash
/// pattern. A paint that is being recorded needs its outlines in any case: it is to be drawn when the
/// cache has let its coverage go.
pub fn materialize(
    cache: &CovCache,
    key: u128,
    src_key: Option<u128>,
    outlines: usize,
    dashes: usize,
    recording: bool,
) -> (s: Source)
    ensures
        s == (if !recording && (cache.resident().contains_key(key) || (src_key is Some
            && cache.resident().contains_key(src_key->0))) {
            Source::Cached
        } else {
            Source::Fresh { solo: outlines == 1 && dashes == 0 }
        }),
{
    let painted = match src_key {
        Some(k) => cache.contains(k),
        None => false,
    };
    if !recording && (painted || cache.contains(key)) {
        Source::Cached
    } else {
        Source::Fresh { solo: outlines == 1 && dashes == 0 }
    }
}

/// A recorded solid is painted in its own color, and needs its coverage; a recorded gradient in its own
/// table, and needs its coverage or its painted pixels.
pub proof fn law_jobs_need_their_planes(job: ReplayJob, resident: Map<u128, EntryView>)
    ensures
        job is Solid ==> (job.present(resident) <==> resident.contains_key(job->Solid_key)),
        job is Gradient ==> (job.present(resident) <==> resident.contains_key(job->Gradient_key)
            || resident.contains_key(job->src_key)),
        job is Solid ==> job.paint() is Solid && job.paint()->sr == job->sr && job.paint()->sg
            == job->sg && job.paint()->sb == job->sb && job.paint()->sa == job->sa,
        job is Gradient ==> job.paint() is Gradient && job.paint()->lut@ == job->lut@
            && job.paint()->index@ == job->index@,
{
}

/// A recorded solid leaves what painting its cached coverage leaves, a recorded gradient what its painted
/// pixels leave, or else its coverage; and jobs are painted one after another, the last on top.
pub proof fn law_jobs_are_painted_in_turn(before: Painted, mid: Painted, after: Painted, jobs: Seq<ReplayJob>, job: ReplayJob, w: int)
    requires
        job_run(before, jobs, w, mid),
        job_step(mid, job, w, after),
    ensures
        job_run(before, jobs.push(job), w, after),
        job_run(before, Seq::empty(), w, after) ==> after == before,
        job is Solid ==> after.pixels == canvas::paint_segments(
            mid.pixels,
            fill::plane_segments(mid.cache.resident()[job->Solid_key]),
            w,
            job.paint(),
        ),
        job is Gradient && !mid.cache.resident().contains_key(job->src_key) ==> after.pixels
            == canvas::paint_segments(
            mid.pixels,
            fill::plane_segments(mid.cache.resident()[job->Gradient_key]),
            w,
            job.paint(),
        ),
        job is Gradient && mid.cache.resident().contains_key(job->src_key)
            && mid.cache.resident()[job->src_key].data is Src ==> after.pixels == fill::over_rows(
            mid.pixels,
            mid.cache.resident()[job->src_key].rows,
            mid.cache.resident()[job->src_key].data->Src_0,
            w,
            0,
            0,
        ),
{
    assert(jobs.push(job).drop_last() =~= jobs);
    assert(jobs.push(job).last() == job);
}

} // verus!
