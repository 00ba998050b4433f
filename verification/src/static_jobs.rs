//! Recorded paints of layers that stand still.
//!
//! The paints of such a layer depend on what its context holds and on nothing else. They are kept
//! under a signature of that context and replayed only where the whole context is the same, so two
//! contexts with one signature cost a replay and never show a wrong one.

use crate::cov_cache::capacity_of;
use crate::hash;
use crate::hash::{same_words, ChainKey};
use crate::shape::Shape;
use crate::still;
use crate::still::shapes_static;
use std::collections::{HashMap, HashSet};
use vstd::prelude::*;

verus! {

broadcast use vstd::std_specs::hash::group_hash_axioms;

/// How many bytes recorded paints may take up.
pub const STATIC_JOB_CACHE_BYTES: usize = 1048576;

/// How many bytes the paints of one layer may take up.
pub const STATIC_JOB_ENTRY_BYTES: usize = 262144;

/// How many layers are kept, and how many signatures are remembered.
pub const STATIC_JOB_CACHE_ENTRIES: usize = 256;

/// All that the paints of a still layer depend on. Numbers with a fraction stand as their bits.
pub struct StaticContext {
    /// Which composition it is.
    pub composition: u64,
    /// Which layer it is.
    pub layer: u64,
    /// The matrix.
    pub matrix: Vec<u32>,
    /// The opacity.
    pub opacity: u32,
    /// The colour that replaces others, and whether there is one.
    pub color: Vec<u32>,
    /// The width of the canvas.
    pub width: usize,
    /// The height of the canvas.
    pub height: usize,
    /// Whether edges are smooth.
    pub antialias: bool,
    /// How far a curve may be off.
    pub curve_tolerance: u32,
    /// The corners of the clips, one after another.
    pub clip: Vec<u32>,
}

/// The contents of a [`StaticContext`].
#[verifier::ext_equal]
pub struct ContextView {
    pub composition: u64,
    pub layer: u64,
    pub matrix: Seq<u32>,
    pub opacity: u32,
    pub color: Seq<u32>,
    pub width: usize,
    pub height: usize,
    pub antialias: bool,
    pub curve_tolerance: u32,
    pub clip: Seq<u32>,
}

impl View for StaticContext {
    type V = ContextView;

    open spec fn view(&self) -> ContextView {
        ContextView {
            composition: self.composition,
            layer: self.layer,
            matrix: self.matrix@,
            opacity: self.opacity,
            color: self.color@,
            width: self.width,
            height: self.height,
            antialias: self.antialias,
            curve_tolerance: self.curve_tolerance,
            clip: self.clip@,
        }
    }
}

impl ContextView {
    /// The words that a context's signature is made of.
    pub open spec fn words(self) -> Seq<u64> {
        seq![
            self.composition,
            self.layer,
            self.width as u64,
            self.height as u64,
            if self.antialias {
                1u64
            } else {
                0u64
            },
            self.curve_tolerance as u64,
            self.opacity as u64,
        ] + hash::widened(self.matrix) + hash::widened(self.color) + hash::widened(self.clip)
    }

    /// The signature of a context.
    pub open spec fn signature(self) -> u128 {
        ChainKey::start().chained_all(self.words()).key()
    }
}

impl StaticContext {
    /// The signature of the context.
    pub fn signature(&self) -> (k: u128)
        ensures
            k == self@.signature(),
    {
        let mut k = ChainKey::new();
        let ghost head = seq![
            self.composition,
            self.layer,
            self.width as u64,
            self.height as u64,
            if self.antialias {
                1u64
            } else {
                0u64
            },
            self.curve_tolerance as u64,
            self.opacity as u64,
        ];
        k.mix(self.composition);
        k.mix(self.layer);
        k.mix(self.width as u64);
        k.mix(self.height as u64);
        k.mix(
            if self.antialias {
                1
            } else {
                0
            },
        );
        k.mix(self.curve_tolerance as u64);
        k.mix(self.opacity as u64);
        proof {
            let s = ChainKey::start();
            reveal_with_fuel(ChainKey::chained_all, 8);
            assert(head.drop_last() =~= head.take(6));
            assert(head.take(6).drop_last() =~= head.take(5));
            assert(head.take(5).drop_last() =~= head.take(4));
            assert(head.take(4).drop_last() =~= head.take(3));
            assert(head.take(3).drop_last() =~= head.take(2));
            assert(head.take(2).drop_last() =~= head.take(1));
            assert(head.take(1).drop_last() =~= Seq::<u64>::empty());
            assert(k == s.chained_all(head));
        }
        k.mix_words(self.matrix.as_slice());
        k.mix_words(self.color.as_slice());
        k.mix_words(self.clip.as_slice());
        proof {
            let s = ChainKey::start();
            let (m, c, q) = (
                hash::widened(self.matrix@),
                hash::widened(self.color@),
                hash::widened(self.clip@),
            );
            hash::law_chaining_concatenates(s, head, m);
            hash::law_chaining_concatenates(s, head + m, c);
            hash::law_chaining_concatenates(s, head + m + c, q);
        }
        k.finish()
    }

    /// Whether two contexts are the same.
    pub fn same(&self, other: &StaticContext) -> (r: bool)
        ensures
            r == (self@ == other@),
    {
        let r = self.composition == other.composition && self.layer == other.layer && same_words(
            self.matrix.as_slice(),
            other.matrix.as_slice(),
        ) && self.opacity == other.opacity && same_words(
            self.color.as_slice(),
            other.color.as_slice(),
        ) && self.width == other.width && self.height == other.height && self.antialias
            == other.antialias && self.curve_tolerance == other.curve_tolerance && same_words(
            self.clip.as_slice(),
            other.clip.as_slice(),
        );
        assert(r ==> self@ =~= other@);
        r
    }
}

/// The recorded paints of one layer.
pub struct CachedLayer<J> {
    /// What they depend on.
    pub context: StaticContext,
    /// The paints, in the order in which they are drawn.
    pub jobs: Vec<J>,
    /// How many bytes they take up.
    pub bytes: usize,
}

/// The recorded paints of layers that stand still.
#[verifier::reject_recursive_types(J)]
pub struct StaticJobCache<J> {
    /// The layers by the signatures of their contexts.
    pub entries: HashMap<u128, CachedLayer<J>>,
    /// Signatures that were met once.
    pub seen: HashSet<u128>,
    /// Signatures that are not worth recording.
    pub rejected: HashSet<u128>,
    /// Which layers stand still.
    pub static_flags: HashMap<u128, bool>,
    /// How many bytes the entries take up.
    pub bytes: usize,
}

/// The bytes that layers take up together.
pub open spec fn kept_bytes<J>(layers: Map<u128, CachedLayer<J>>) -> int
    decreases layers.dom().len(),
    when layers.dom().finite()
{
    if layers.dom().len() == 0 {
        0
    } else {
        let k = layers.dom().choose();
        layers[k].bytes + kept_bytes(layers.remove(k))
    }
}

/// The bytes of any one layer and those of the others make up the whole.
proof fn lemma_kept_bytes<J>(layers: Map<u128, CachedLayer<J>>, k: u128)
    requires
        layers.dom().finite(),
        layers.contains_key(k),
    ensures
        kept_bytes(layers) == layers[k].bytes + kept_bytes(layers.remove(k)),
        kept_bytes(layers.remove(k)) >= 0,
    decreases layers.dom().len(),
{
    let first = layers.dom().choose();
    assert(layers.dom().contains(first));
    if first == k {
        lemma_kept_nonnegative(layers.remove(k));
    } else {
        let rest = layers.remove(first);
        lemma_kept_bytes(rest, k);
        lemma_kept_nonnegative(layers.remove(k));
        lemma_kept_bytes(layers.remove(k), first);
        assert(rest.remove(k) =~= layers.remove(k).remove(first));
    }
}

/// Layers never take up less than nothing.
proof fn lemma_kept_nonnegative<J>(layers: Map<u128, CachedLayer<J>>)
    requires
        layers.dom().finite(),
    ensures
        kept_bytes(layers) >= 0,
    decreases layers.dom().len(),
{
    if layers.dom().len() > 0 {
        let k = layers.dom().choose();
        assert(layers.dom().contains(k));
        lemma_kept_nonnegative(layers.remove(k));
    }
}

/// A set with one more element, emptied first where it is full.
pub open spec fn remembered(s: Set<u128>, k: u128) -> Set<u128> {
    if s.len() >= STATIC_JOB_CACHE_ENTRIES {
        Set::empty().insert(k)
    } else {
        s.insert(k)
    }
}

impl<J> StaticJobCache<J> {
    /// True where the bytes of the layers are counted exactly and the limits are kept.
    pub open spec fn wf(self) -> bool {
        &&& self.bytes == kept_bytes(self.entries@)
        &&& self.bytes <= STATIC_JOB_CACHE_BYTES
        &&& self.entries@.len() <= STATIC_JOB_CACHE_ENTRIES
        &&& self.seen@.finite() && self.seen@.len() <= STATIC_JOB_CACHE_ENTRIES
        &&& self.rejected@.finite() && self.rejected@.len() <= STATIC_JOB_CACHE_ENTRIES
        &&& self.static_flags@.len() <= STATIC_JOB_CACHE_ENTRIES
        &&& forall|k: u128| #[trigger]
            self.entries@.contains_key(k) ==> self.entries@[k].bytes <= STATIC_JOB_ENTRY_BYTES
    }

    /// The paints that are replayed for a context, where there are some.
    pub open spec fn hit(self, signature: u128, context: ContextView) -> Option<Seq<J>> {
        if self.entries@.contains_key(signature) && self.entries@[signature].context@ == context {
            Some(self.entries@[signature].jobs@)
        } else {
            None
        }
    }

    /// A cache that holds nothing.
    pub fn new() -> (c: StaticJobCache<J>)
        ensures
            c.wf(),
            c.entries@ == Map::<u128, CachedLayer<J>>::empty(),
            c.seen@ == Set::<u128>::empty(),
            c.rejected@ == Set::<u128>::empty(),
            c.static_flags@ == Map::<u128, bool>::empty(),
            c.bytes == 0,
    {
        StaticJobCache {
            entries: HashMap::new(),
            seen: HashSet::new(),
            rejected: HashSet::new(),
            static_flags: HashMap::new(),
            bytes: 0,
        }
    }

    /// Whether a layer is known to stand still, where it was asked before.
    pub fn known_static(&self, key: u128) -> (r: Option<bool>)
        ensures
            r == (if self.static_flags@.contains_key(key) {
                Some(self.static_flags@[key])
            } else {
                None
            }),
    {
        match self.static_flags.get(&key) {
            Some(flag) => Some(*flag),
            None => None,
        }
    }

    /// Remembers whether a layer stands still.
    pub fn note_static(&mut self, key: u128, is_static: bool)
        requires
            old(self).wf(),
        ensures
            final(self).wf(),
            final(self).entries@ == old(self).entries@,
            final(self).seen@ == old(self).seen@,
            final(self).rejected@ == old(self).rejected@,
            final(self).bytes == old(self).bytes,
            final(self).static_flags@ == (if old(self).static_flags@.len()
                >= STATIC_JOB_CACHE_ENTRIES {
                Map::<u128, bool>::empty()
            } else {
                old(self).static_flags@
            }).insert(key, is_static),
    {
        if self.static_flags.len() >= STATIC_JOB_CACHE_ENTRIES {
            self.static_flags.clear();
        }
        self.static_flags.insert(key, is_static);
    }

    /// Whether a layer stands still. It is looked at once and then known by its key.
    pub fn layer_is_static(&mut self, key: u128, shapes: &Vec<Shape>) -> (r: bool)
        requires
            old(self).wf(),
        ensures
            final(self).wf(),
            final(self).entries@ == old(self).entries@,
            final(self).seen@ == old(self).seen@,
            final(self).rejected@ == old(self).rejected@,
            final(self).bytes == old(self).bytes,
            r == (if old(self).static_flags@.contains_key(key) {
                old(self).static_flags@[key]
            } else {
                still::shapes_still(shapes@)
            }),
            final(self).static_flags@ == (if old(self).static_flags@.contains_key(key) {
                old(self).static_flags@
            } else if old(self).static_flags@.len() >= STATIC_JOB_CACHE_ENTRIES {
                Map::<u128, bool>::empty().insert(key, r)
            } else {
                old(self).static_flags@.insert(key, r)
            }),
    {
        match self.known_static(key) {
            Some(flag) => flag,
            None => {
                let flag = shapes_static(shapes);
                self.note_static(key, flag);
                flag
            },
        }
    }

    /// The paints to replay for a context. A signature that another context shares is a miss.
    pub fn replay(&self, signature: u128, context: &StaticContext) -> (r: Option<&Vec<J>>)
        ensures
            match r {
                Some(jobs) => self.hit(signature, context@) == Some(jobs@),
                None => self.hit(signature, context@) is None,
            },
    {
        match self.entries.get(&signature) {
            Some(entry) => {
                if entry.context.same(context) {
                    Some(&entry.jobs)
                } else {
                    None
                }
            },
            None => None,
        }
    }

    /// Whether the paints of a signature are to be recorded: the second time that it is met.
    pub fn should_record(&mut self, signature: u128) -> (r: bool)
        requires
            old(self).wf(),
        ensures
            final(self).wf(),
            final(self).entries@ == old(self).entries@,
            final(self).rejected@ == old(self).rejected@,
            final(self).static_flags@ == old(self).static_flags@,
            final(self).bytes == old(self).bytes,
            r == (!old(self).rejected@.contains(signature) && old(self).seen@.contains(signature)),
            final(self).seen@ == (if old(self).rejected@.contains(signature) {
                old(self).seen@
            } else if r {
                old(self).seen@.remove(signature)
            } else {
                remembered(old(self).seen@, signature)
            }),
    {
        if self.rejected.contains(&signature) {
            return false;
        }
        if self.seen.remove(&signature) {
            return true;
        }
        assert(self.seen@ =~= old(self).seen@);
        if self.seen.len() >= STATIC_JOB_CACHE_ENTRIES {
            self.seen.clear();
        }
        self.seen.insert(signature);
        false
    }

    /// Remembers that a signature is not worth recording.
    fn reject(&mut self, signature: u128)
        requires
            old(self).rejected@.finite(),
            old(self).rejected@.len() <= STATIC_JOB_CACHE_ENTRIES,
        ensures
            final(self).rejected@.finite(),
            final(self).rejected@.len() <= STATIC_JOB_CACHE_ENTRIES,
            final(self).entries@ == old(self).entries@,
            final(self).seen@ == old(self).seen@,
            final(self).static_flags@ == old(self).static_flags@,
            final(self).bytes == old(self).bytes,
            final(self).rejected@ == remembered(old(self).rejected@, signature),
    {
        if self.rejected.len() >= STATIC_JOB_CACHE_ENTRIES {
            self.rejected.clear();
        }
        self.rejected.insert(signature);
    }

    /// The bytes that stay when the entry of a signature leaves.
    pub open spec fn bytes_without(self, signature: u128) -> int {
        if self.entries@.contains_key(signature) {
            self.bytes - self.entries@[signature].bytes
        } else {
            self.bytes as int
        }
    }

    /// Keeps the paints of a context, where they are small enough and there is room. Otherwise the
    /// signature is not recorded again, and an entry that it had is gone.
    pub fn insert(&mut self, signature: u128, context: StaticContext, jobs: Vec<J>, bytes: usize)
        requires
            old(self).wf(),
        ensures
            final(self).wf(),
            final(self).seen@ == old(self).seen@,
            final(self).static_flags@ == old(self).static_flags@,
            ({
                let others = old(self).entries@.remove(signature);
                let left = old(self).bytes_without(signature);
                if bytes > STATIC_JOB_ENTRY_BYTES {
                    &&& final(self).entries@ == old(self).entries@
                    &&& final(self).bytes == old(self).bytes
                    &&& final(self).rejected@ == remembered(old(self).rejected@, signature)
                } else if others.len() >= STATIC_JOB_CACHE_ENTRIES || left + bytes
                    > STATIC_JOB_CACHE_BYTES {
                    &&& final(self).entries@ == others
                    &&& final(self).bytes == left
                    &&& final(self).rejected@ == remembered(old(self).rejected@, signature)
                } else {
                    &&& final(self).entries@ == others.insert(
                        signature,
                        CachedLayer { context, jobs, bytes },
                    )
                    &&& final(self).bytes == left + bytes
                    &&& final(self).rejected@ == old(self).rejected@
                    &&& final(self).hit(signature, context@) == Some(jobs@)
                }
            }),
    {
        if bytes > STATIC_JOB_ENTRY_BYTES {
            self.reject(signature);
            return;
        }
        let ghost before = self.entries@;
        proof {
            if before.contains_key(signature) {
                lemma_kept_bytes(before, signature);
            }
        }
        match self.entries.remove(&signature) {
            Some(previous) => {
                self.bytes = self.bytes.saturating_sub(previous.bytes);
            },
            None => {
                assert(before.remove(signature) =~= before);
            },
        }
        if self.entries.len() >= STATIC_JOB_CACHE_ENTRIES || self.bytes.saturating_add(bytes)
            > STATIC_JOB_CACHE_BYTES {
            self.reject(signature);
            return;
        }
        self.bytes = self.bytes.saturating_add(bytes);
        self.entries.insert(signature, CachedLayer { context, jobs, bytes });
        proof {
            lemma_kept_bytes(self.entries@, signature);
            assert(self.entries@.remove(signature) =~= before.remove(signature));
        }
    }
}

/// Canvases no larger than this either way have the paints of still layers recorded apart from where
/// the layers stand.
pub const PARAMETRIC_MAX_EXTENT: usize = 320;

/// True where the paints of a layer are recorded apart from where it stands: it stands still, nothing
/// clips it, and the canvas is small.
pub open spec fn is_parametric(still: bool, clips: int, width: int, height: int) -> bool {
    still && clips == 0 && width <= PARAMETRIC_MAX_EXTENT && height <= PARAMETRIC_MAX_EXTENT
}

/// Tells whether the paints of a layer are recorded apart from where it stands.
pub fn parametric(still: bool, clips: usize, width: usize, height: usize) -> (r: bool)
    ensures
        r == is_parametric(still, clips as int, width as int, height as int),
{
    still && clips == 0 && width <= PARAMETRIC_MAX_EXTENT && height <= PARAMETRIC_MAX_EXTENT
}

/// How the shapes of a layer are drawn.
#[derive(Clone, Copy, Debug, PartialEq, Eq, Structural)]
pub enum Approach {
    /// Its recorded paints are replayed.
    Replay,
    /// Its shapes are walked, and what they paint is recorded and replayed.
    Record,
    /// Its shapes are walked.
    Walk,
}

impl<J> StaticJobCache<J> {
    /// How the shapes of a layer with that context are drawn.
    pub open spec fn approach_to(self, still: bool, signature: u128, context: ContextView) -> Approach {
        if !still {
            Approach::Walk
        } else if self.hit(signature, context) is Some {
            Approach::Replay
        } else if !self.rejected@.contains(signature) && self.seen@.contains(signature) {
            Approach::Record
        } else {
            Approach::Walk
        }
    }

    /// Decides how the shapes of a layer are drawn. A still layer is replayed where its paints were
    /// recorded, recorded the second time that its signature is met, and walked otherwise.
    pub fn approach(&mut self, still: bool, signature: u128, context: &StaticContext) -> (a: Approach)
        requires
            old(self).wf(),
        ensures
            final(self).wf(),
            a == old(self).approach_to(still, signature, context@),
            final(self).entries@ == old(self).entries@,
            final(self).rejected@ == old(self).rejected@,
            final(self).static_flags@ == old(self).static_flags@,
            final(self).bytes == old(self).bytes,
            final(self).seen@ == (if a is Record {
                old(self).seen@.remove(signature)
            } else if still && a is Walk && !old(self).rejected@.contains(signature) {
                remembered(old(self).seen@, signature)
            } else {
                old(self).seen@
            }),
    {
        if !still {
            return Approach::Walk;
        }
        if self.replay(signature, context).is_some() {
            return Approach::Replay;
        }
        if self.should_record(signature) {
            Approach::Record
        } else {
            Approach::Walk
        }
    }
}

/// What was recorded for a context is replayed for it, and for no other.
pub proof fn law_replay_needs_the_same_context<J>(
    cache: StaticJobCache<J>,
    signature: u128,
    recorded: ContextView,
    asked: ContextView,
)
    requires
        cache.hit(signature, recorded) is Some,
    ensures
        cache.approach_to(true, signature, recorded) is Replay,
        asked != recorded ==> !(cache.approach_to(true, signature, asked) is Replay),
{
}

/// What one recorded paint holds, counted in what was set aside for it.
pub struct JobSize {
    /// Outlines.
    pub contours: usize,
    /// Points.
    pub points: usize,
    /// Marks of points.
    pub anchors: usize,
    /// Which lookup table it uses, if any.
    pub lut: Option<u64>,
}

/// How many bytes each of these takes up.
pub struct UnitSizes {
    /// A layer's entry.
    pub entry: usize,
    /// A clip.
    pub clip: usize,
    /// A paint.
    pub job: usize,
    /// An outline.
    pub contour: usize,
    /// A point.
    pub point: usize,
    /// A mark of a point.
    pub anchor: usize,
    /// A lookup table.
    pub lut: usize,
    /// A place in the list of lookup tables.
    pub table: usize,
}

/// The lookup tables that the first `k` paints use, each once.
pub open spec fn tables(jobs: Seq<JobSize>, k: int) -> Seq<u64>
    decreases k,
{
    if k <= 0 {
        Seq::empty()
    } else {
        let before = tables(jobs, k - 1);
        match jobs[k - 1].lut {
            Some(t) => if before.contains(t) {
                before
            } else {
                before.push(t)
            },
            None => before,
        }
    }
}

/// The bytes of the outlines of the first `k` paints.
pub open spec fn outline_bytes(jobs: Seq<JobSize>, units: UnitSizes, k: int) -> int
    decreases k,
{
    if k <= 0 {
        0
    } else {
        outline_bytes(jobs, units, k - 1) + jobs[k - 1].contours * units.contour + jobs[k - 1].points
            * units.point + jobs[k - 1].anchors * units.anchor
    }
}

/// The bytes that the paints of a layer take up, where the list of their lookup tables has room for
/// `listed`. A lookup table that several paints share counts once.
pub open spec fn layer_bytes(
    clips: int,
    room: int,
    listed: int,
    jobs: Seq<JobSize>,
    units: UnitSizes,
) -> int {
    units.entry + clips * units.clip + room * units.job + outline_bytes(jobs, units, jobs.len() as int)
        + tables(jobs, jobs.len() as int).len() * units.lut + listed * units.table
}

/// A sum that stops at the largest machine word.
pub open spec fn capped(n: int) -> int {
    if n > usize::MAX {
        usize::MAX as int
    } else {
        n
    }
}

fn charge_for(bytes: usize, count: usize, each: usize, Ghost(exact): Ghost<int>) -> (r: usize)
    requires
        bytes == capped(exact),
        exact >= 0,
    ensures
        r == capped(exact + count * each),
        exact + count * each >= 0,
{
    assert(count * each >= 0) by (nonlinear_arith);
    match count.checked_mul(each) {
        Some(p) => bytes.saturating_add(p),
        None => usize::MAX,
    }
}

fn has_table(seen: &Vec<u64>, t: u64) -> (r: bool)
    ensures
        r == seen@.contains(t),
{
    let mut i: usize = 0;
    while i < seen.len()
        invariant
            i <= seen@.len(),
            forall|k: int| 0 <= k < i ==> #[trigger] seen@[k] != t,
        decreases seen@.len() - i,
    {
        if seen[i] == t {
            assert(seen@[i as int] == t);
            return true;
        }
        i += 1;
    }
    false
}

/// Lists the lookup tables that paints use, each once.
pub fn list_tables(jobs: &[JobSize]) -> (list: Vec<u64>)
    ensures
        list@ == tables(jobs@, jobs@.len() as int),
{
    let mut list: Vec<u64> = Vec::new();
    let mut k: usize = 0;
    while k < jobs.len()
        invariant
            k <= jobs@.len(),
            list@ == tables(jobs@, k as int),
        decreases jobs@.len() - k,
    {
        if let Some(t) = jobs[k].lut {
            if !has_table(&list, t) {
                list.push(t);
            }
        }
        k += 1;
    }
    list
}

/// Counts the bytes that the paints of a layer take up, for `clips` clips, room for `room` paints,
/// and a list of lookup tables with room for `listed`.
pub fn count_bytes(
    clips: usize,
    room: usize,
    listed: usize,
    jobs: &[JobSize],
    units: &UnitSizes,
) -> (bytes: usize)
    ensures
        bytes == capped(layer_bytes(clips as int, room as int, listed as int, jobs@, *units)),
{
    let ghost mut exact: int = units.entry as int;
    let mut bytes: usize = units.entry;
    bytes = charge_for(bytes, clips, units.clip, Ghost(exact));
    proof {
        exact = exact + clips * units.clip;
    }
    bytes = charge_for(bytes, room, units.job, Ghost(exact));
    proof {
        exact = exact + room * units.job;
    }
    let ghost base = exact;
    let mut k: usize = 0;
    while k < jobs.len()
        invariant
            k <= jobs@.len(),
            exact == base + outline_bytes(jobs@, *units, k as int),
            exact >= 0,
            bytes == capped(exact),
        decreases jobs@.len() - k,
    {
        let job = &jobs[k];
        bytes = charge_for(bytes, job.contours, units.contour, Ghost(exact));
        proof {
            exact = exact + job.contours * units.contour;
        }
        bytes = charge_for(bytes, job.points, units.point, Ghost(exact));
        proof {
            exact = exact + job.points * units.point;
        }
        bytes = charge_for(bytes, job.anchors, units.anchor, Ghost(exact));
        proof {
            exact = exact + job.anchors * units.anchor;
        }
        k += 1;
    }
    let count: usize = list_tables(jobs).len();
    bytes = charge_for(bytes, count, units.lut, Ghost(exact));
    proof {
        exact = exact + count * units.lut;
    }
    charge_for(bytes, listed, units.table, Ghost(exact))
}

/// Counts the bytes that the paints of a layer take up, for `clips` clips and room for `room` paints.
/// The list of their lookup tables counts with the room that it was given, which the allocator decides.
pub fn static_jobs_bytes(clips: usize, room: usize, jobs: &[JobSize], units: &UnitSizes) -> (bytes: usize)
    ensures
        exists|listed: usize|
            {
                &&& listed >= tables(jobs@, jobs@.len() as int).len()
                &&& bytes == capped(
                    #[trigger] layer_bytes(clips as int, room as int, listed as int, jobs@, *units),
                )
            },
{
    let listed: usize = capacity_of(&list_tables(jobs));
    count_bytes(clips, room, listed, jobs, units)
}

/// Contexts that differ in anything that paints depend on differ in the words that they are signed by.
pub proof fn law_contexts_are_told_apart(a: ContextView, b: ContextView)
    requires
        a.words() == b.words(),
        a.matrix.len() == b.matrix.len(),
        a.color.len() == b.color.len(),
        a.width <= u64::MAX && b.width <= u64::MAX,
        a.height <= u64::MAX && b.height <= u64::MAX,
    ensures
        a == b,
{
    let (x, y) = (a.words(), b.words());
    let (m, c) = (a.matrix.len() as int, a.color.len() as int);
    assert(x[0] == y[0] && x[1] == y[1] && x[2] == y[2] && x[3] == y[3] && x[4] == y[4] && x[5]
        == y[5] && x[6] == y[6]);
    assert(x.len() == 7 + m + c + a.clip.len());
    assert(y.len() == 7 + m + c + b.clip.len());
    assert(a.matrix =~= b.matrix) by {
        assert forall|i: int| 0 <= i < m implies a.matrix[i] == b.matrix[i] by {
            assert(x[7 + i] == a.matrix[i] as u64);
            assert(y[7 + i] == b.matrix[i] as u64);
        }
    }
    assert(a.color =~= b.color) by {
        assert forall|i: int| 0 <= i < c implies a.color[i] == b.color[i] by {
            assert(x[7 + m + i] == a.color[i] as u64);
            assert(y[7 + m + i] == b.color[i] as u64);
        }
    }
    assert(a.clip =~= b.clip) by {
        assert forall|i: int| 0 <= i < a.clip.len() implies a.clip[i] == b.clip[i] by {
            assert(x[7 + m + c + i] == a.clip[i] as u64);
            assert(y[7 + m + c + i] == b.clip[i] as u64);
        }
    }
}

/// A still layer is walked the first time it is met and recorded the second time, unless it was turned
/// down; what is recorded is replayed for the same context and no other. A layer that moves is walked.
pub proof fn law_still_layers_are_recorded_the_second_time<J>(
    c: StaticJobCache<J>,
    signature: u128,
    context: ContextView,
)
    ensures
        c.approach_to(false, signature, context) is Walk,
        c.approach_to(true, signature, context) is Replay <==> c.entries@.contains_key(signature)
            && c.entries@[signature].context@ == context,
        c.approach_to(true, signature, context) is Record <==> !(c.entries@.contains_key(signature)
            && c.entries@[signature].context@ == context) && c.seen@.contains(signature)
            && !c.rejected@.contains(signature),
        c.hit(signature, context) is Some ==> c.hit(signature, context)->0
            == c.entries@[signature].jobs@,
{
}

/// Paints are recorded apart from where a layer stands exactly where it is still, nothing clips it, and
/// neither side of the canvas is longer than 320 pixels.
pub proof fn law_small_still_layers_are_parametric(still: bool, clips: int, width: int, height: int)
    ensures
        is_parametric(still, clips, width, height) <==> still && clips == 0 && width < 321 && height
            < 321,
{
}

/// What is remembered is kept up to 256 elements; one more, and only that one is left.
pub proof fn law_full_sets_start_over(s: Set<u128>, k: u128, other: u128)
    requires
        other != k,
    ensures
        remembered(s, k).contains(k),
        s.len() < 256 ==> remembered(s, k).contains(other) == s.contains(other),
        s.len() >= 256 ==> !remembered(s, k).contains(other),
{
}

/// The bytes of outlines add up, each contour, point and mark at its own size.
pub proof fn law_outlines_add_up(jobs: Seq<JobSize>, units: UnitSizes, k: int)
    requires
        0 < k <= jobs.len(),
    ensures
        outline_bytes(jobs, units, 0) == 0,
        outline_bytes(jobs, units, k) - outline_bytes(jobs, units, k - 1) == jobs[k - 1].contours
            * units.contour + jobs[k - 1].points * units.point + jobs[k - 1].anchors * units.anchor,
{
}

/// Every lookup table that a paint uses is listed, and none twice.
pub proof fn law_tables_are_listed_once(jobs: Seq<JobSize>, k: int, t: u64)
    requires
        0 <= k <= jobs.len(),
    ensures
        tables(jobs, k).contains(t) <==> exists|i: int| 0 <= i < k && (#[trigger] jobs[i]).lut == Some(t),
        forall|i: int, j: int|
            0 <= i < j < tables(jobs, k).len() ==> #[trigger] tables(jobs, k)[i] != #[trigger] tables(jobs, k)[j],
    decreases k,
{
    if k > 0 {
        law_tables_are_listed_once(jobs, k - 1, t);
        let before = tables(jobs, k - 1);
        let after = tables(jobs, k);
        let last = jobs[k - 1].lut;
        if last is Some {
            law_tables_are_listed_once(jobs, k - 1, last->0);
            if !before.contains(last->0) {
                assert(after == before.push(last->0));
                assert(after[before.len() as int] == last->0);
                if before.contains(t) {
                    let i = choose|i: int| 0 <= i < before.len() && before[i] == t;
                    assert(after[i] == t);
                }
                if after.contains(t) && !before.contains(t) {
                    let i = choose|i: int| 0 <= i < after.len() && after[i] == t;
                    if i < before.len() {
                        assert(before[i] == t);
                    }
                    assert(jobs[k - 1].lut == Some(t));
                }
                assert forall|i: int, j: int| 0 <= i < j < after.len() implies #[trigger] after[i]
                    != #[trigger] after[j] by {
                    if j < before.len() {
                        assert(before[i] != before[j]);
                    } else {
                        assert(before.contains(before[i]));
                    }
                }
            }
        }
    }
}

/// A layer costs its entry, its clips, its paints, its outlines, its tables and the list of them, each
/// at its own size.
pub proof fn law_layers_cost_their_parts(clips: int, room: int, listed: int, jobs: Seq<JobSize>, units: UnitSizes)
    ensures
        layer_bytes(clips + 1, room, listed, jobs, units) == layer_bytes(
            clips,
            room,
            listed,
            jobs,
            units,
        ) + units.clip,
        layer_bytes(clips, room + 1, listed, jobs, units) == layer_bytes(
            clips,
            room,
            listed,
            jobs,
            units,
        ) + units.job,
        layer_bytes(clips, room, listed + 1, jobs, units) == layer_bytes(
            clips,
            room,
            listed,
            jobs,
            units,
        ) + units.table,
        layer_bytes(0, 0, 0, jobs, units) == units.entry + outline_bytes(
            jobs,
            units,
            jobs.len() as int,
        ) + tables(jobs, jobs.len() as int).len() * units.lut,
        layer_bytes(0, 0, 0, Seq::empty(), units) == units.entry,
{
    let (c, j, t, l) = (
        units.clip as int,
        units.job as int,
        units.table as int,
        units.lut as int,
    );
    assert((clips + 1) * c == clips * c + c) by (nonlinear_arith);
    assert((room + 1) * j == room * j + j) by (nonlinear_arith);
    assert((listed + 1) * t == listed * t + t) by (nonlinear_arith);
    assert(0 * c == 0 && 0 * j == 0 && 0 * t == 0 && 0 * l == 0);
    let none = Seq::<JobSize>::empty();
    assert(tables(none, 0).len() == 0);
}

} // verus!
