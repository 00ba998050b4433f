//! A byte-budgeted cache of planes, keyed by 128-bit content keys.
//!
//! Inserts go to a young generation. The first time it outgrows half the budget it becomes the old
//! generation; the second time the cache freezes: its residents stay as they are and nothing new is
//! admitted. A frozen set is judged once per era of frames: one that kept hitting is renewed, a
//! dead one is cleared and the cache learns again.

use std::collections::HashMap;
use vstd::prelude::*;
use crate::plane::{CovEntry, EntryView, PlaneData, PlaneSeq};

verus! {

broadcast use vstd::std_specs::hash::group_hash_axioms;

/// Young-generation overflows before the resident set freezes.
pub const FREEZE_ROTATIONS: u32 = 2;

/// Frames per frozen era.
pub const FREEZE_ERA_FRAMES: u32 = 180;

/// The budget of a cache that no canvas has set one for.
pub const COV_CACHE_BUDGET: usize = 3145728;

/// Entries bigger than this are not cached.
pub const COV_ENTRY_MAX: usize = 262144;

/// Bytes that the map's bookkeeping takes for one entry.
pub const COV_ENTRY_OVERHEAD: usize = 64;

/// A byte-budgeted map from content keys to planes.
pub struct CovCache {
    /// Byte budget; 0 stands for the default.
    pub budget: usize,
    /// True where an entry's spare capacity is given back when it is admitted.
    pub shrink_entries: bool,
    /// While set, generations do not rotate.
    pub pinned: bool,
    /// The generation that inserts go to.
    pub young: HashMap<u128, CovEntry>,
    /// The generation before.
    pub old: HashMap<u128, CovEntry>,
    /// Bytes accounted to the young generation.
    pub young_bytes: usize,
    /// Lookups that found an entry.
    pub hits: u32,
    /// Entries admitted.
    pub inserts: u32,
    /// Young-generation overflows since the cache last learned from scratch.
    pub rotations: u32,
    /// True while the resident set is frozen.
    pub frozen: bool,
    /// Frames of the current frozen era.
    pub era_frames: u32,
    /// Hits of the current frozen era.
    pub era_hits: u32,
}

/// `n + 1`, or `n` at the top of the range.
pub open spec fn saturating_inc(n: u32) -> u32 {
    if n == u32::MAX {
        n
    } else {
        (n + 1) as u32
    }
}

/// `a + b`, or the top of the range.
pub open spec fn saturating_sum(a: usize, b: usize) -> usize {
    if a + b > usize::MAX {
        usize::MAX
    } else {
        (a + b) as usize
    }
}

/// The least number of bytes that a plane is accounted with.
pub open spec fn entry_size_min(e: EntryView) -> int {
    (match e.data {
        PlaneSeq::Cov(v) => v.len(),
        PlaneSeq::Spans(v) => v.len() * 8,
        PlaneSeq::Src(v) => v.len() * 4,
    }) + e.rows.len() * 12 + COV_ENTRY_OVERHEAD
}

impl CovCache {
    /// The cache's invariant: only a frozen cache has overflowed twice, the old generation is empty
    /// before the first overflow, and a frozen era ends on time.
    pub open spec fn wf(self) -> bool {
        &&& self.rotations <= FREEZE_ROTATIONS
        &&& self.frozen == (self.rotations == FREEZE_ROTATIONS)
        &&& self.rotations == 0 ==> self.old@ == Map::<u128, CovEntry>::empty()
        &&& self.frozen ==> self.era_frames < FREEZE_ERA_FRAMES
    }

    /// The planes that a lookup finds: the young generation's, then the old one's.
    pub open spec fn resident(self) -> Map<u128, EntryView> {
        Map::new(
            |k: u128| self.young@.contains_key(k) || self.old@.contains_key(k),
            |k: u128|
                if self.young@.contains_key(k) {
                    self.young@[k]@
                } else {
                    self.old@[k]@
                },
        )
    }

    /// The byte budget in force.
    pub open spec fn budget_in_force(self) -> usize {
        if self.budget == 0 {
            COV_CACHE_BUDGET
        } else {
            self.budget
        }
    }

    /// An empty cache with the given byte budget; 0 stands for the default.
    pub fn with_budget(budget: usize) -> (c: CovCache)
        ensures
            c.wf(),
            c.resident() == Map::<u128, EntryView>::empty(),
            c.budget == budget,
            !c.frozen,
            !c.pinned,
            !c.shrink_entries,
            c.young_bytes == 0,
            c.rotations == 0,
            c.hits == 0,
            c.inserts == 0,
    {
        let c = CovCache {
            budget,
            shrink_entries: false,
            pinned: false,
            young: HashMap::new(),
            old: HashMap::new(),
            young_bytes: 0,
            hits: 0,
            inserts: 0,
            rotations: 0,
            frozen: false,
            era_frames: 0,
            era_hits: 0,
        };
        assert(c.resident() =~= Map::<u128, EntryView>::empty());
        c
    }

    /// The cache with one more hit counted.
    pub open spec fn with_hit(self) -> CovCache {
        CovCache {
            hits: saturating_inc(self.hits),
            era_hits: if self.frozen {
                saturating_inc(self.era_hits)
            } else {
                self.era_hits
            },
            ..self
        }
    }

    /// Counts a hit.
    fn note_hit(&mut self)
        ensures
            *final(self) == old(self).with_hit(),
    {
        self.hits = self.hits.saturating_add(1);
        if self.frozen {
            self.era_hits = self.era_hits.saturating_add(1);
        }
    }

    /// Looks a key up in either generation and counts a hit. An entry stays in the generation that
    /// it is in.
    pub fn get(&mut self, key: u128) -> (r: Option<&CovEntry>)
        requires
            old(self).wf(),
        ensures
            final(self).wf(),
            final(self).resident() == old(self).resident(),
            match r {
                Some(e) => {
                    &&& old(self).resident().contains_key(key)
                    &&& e@ == old(self).resident()[key]
                    &&& *final(self) == old(self).with_hit()
                },
                None => {
                    &&& !old(self).resident().contains_key(key)
                    &&& *final(self) == *old(self)
                },
            },
    {
        if self.young.contains_key(&key) {
            self.note_hit();
            return self.young.get(&key);
        }
        if self.old.contains_key(&key) {
            self.note_hit();
            return self.old.get(&key);
        }
        None
    }

    /// True where a lookup of the key would find an entry.
    pub fn contains(&self, key: u128) -> (r: bool)
        ensures
            r == self.resident().contains_key(key),
    {
        self.young.contains_key(&key) || self.old.contains_key(&key)
    }

    /// The bytes that a plane is accounted with: its vectors' capacities and the map's overhead.
    pub fn size_of(e: &CovEntry) -> (sz: usize)
        ensures
            entry_size_min(e@) <= usize::MAX ==> sz >= entry_size_min(e@),
            sz >= COV_ENTRY_OVERHEAD,
    {
        let rows: usize = capacity_of(&e.rows);
        match &e.data {
            PlaneData::Cov(v) => size_for(capacity_of(v), 1, rows),
            PlaneData::Spans(v) => size_for(capacity_of(v), 8, rows),
            PlaneData::Src(v) => size_for(capacity_of(v), 4, rows),
        }
    }

    /// Sets the byte budget for a canvas of `w` by `h` pixels, and whether entries are trimmed.
    pub fn set_budget_for_canvas(&mut self, w: usize, h: usize)
        requires
            old(self).wf(),
        ensures
            final(self).wf(),
            final(self).budget == canvas_budget(w * h),
            final(self).shrink_entries == (w * h > SMALL_CANVAS_PX),
            final(self).resident() == old(self).resident(),
            *final(self) == (CovCache {
                budget: final(self).budget,
                shrink_entries: final(self).shrink_entries,
                ..*old(self)
            }),
    {
        let px: usize = times(w, h);
        self.shrink_entries = px > SMALL_CANVAS_PX;
        self.budget = if px <= MEDIUM_CANVAS_PX {
            1048576
        } else {
            524288
        };
    }

    /// Sets the byte budget for a canvas of `w` by `h` pixels from budgets for small, medium and large
    /// canvases, and whether entries are trimmed.
    pub fn set_budgets_for_canvas(&mut self, w: usize, h: usize, budgets: [usize; 3])
        requires
            old(self).wf(),
        ensures
            final(self).wf(),
            final(self).resident() == old(self).resident(),
            *final(self) == (CovCache {
                budget: if w * h <= SMALL_CANVAS_PX {
                    budgets[0]
                } else if w * h <= MEDIUM_CANVAS_PX {
                    budgets[1]
                } else {
                    budgets[2]
                },
                shrink_entries: w * h > SMALL_CANVAS_PX,
                ..*old(self)
            }),
    {
        let px: usize = times(w, h);
        self.shrink_entries = px > SMALL_CANVAS_PX;
        self.budget = if px <= SMALL_CANVAS_PX {
            budgets[0]
        } else if px <= MEDIUM_CANVAS_PX {
            budgets[1]
        } else {
            budgets[2]
        };
    }

    /// Rotates the generations once the young one has outgrown half the budget; the second overflow
    /// freezes the cache instead.
    pub fn rotate_if_needed(&mut self)
        requires
            old(self).wf(),
        ensures
            final(self).wf(),
            old(self).rotates() ==> final(self).rotated_from(*old(self)),
            !old(self).rotates() ==> *final(self) == *old(self),
    {
        if self.pinned || self.frozen {
            return;
        }
        let budget: usize = if self.budget == 0 {
            COV_CACHE_BUDGET
        } else {
            self.budget
        };
        if self.young_bytes > budget / 2 {
            self.rotations = self.rotations + 1;
            if self.rotations >= FREEZE_ROTATIONS {
                self.frozen = true;
                self.era_frames = 0;
                self.era_hits = 0;
            } else {
                let mut young: HashMap<u128, CovEntry> = HashMap::new();
                core::mem::swap(&mut young, &mut self.young);
                self.old = young;
                self.young_bytes = 0;
            }
        }
    }

    /// True where the next look at the generations finds the young one over half the budget.
    pub open spec fn rotates(self) -> bool {
        !self.pinned && !self.frozen && self.young_bytes > self.budget_in_force() / 2
    }

    /// What one overflow makes of a cache: the first turns the young generation into the old one,
    /// the second freezes both.
    pub open spec fn rotated_from(self, before: CovCache) -> bool {
        &&& self.rotations == before.rotations + 1
        &&& self.budget == before.budget
        &&& self.shrink_entries == before.shrink_entries
        &&& self.pinned == before.pinned
        &&& self.hits == before.hits
        &&& self.inserts == before.inserts
        &&& if before.rotations + 1 >= FREEZE_ROTATIONS {
            &&& self.frozen
            &&& self.era_frames == 0
            &&& self.era_hits == 0
            &&& self.young@ == before.young@
            &&& self.old@ == before.old@
            &&& self.young_bytes == before.young_bytes
        } else {
            &&& !self.frozen
            &&& self.era_frames == before.era_frames
            &&& self.era_hits == before.era_hits
            &&& self.young@ == Map::<u128, CovEntry>::empty()
            &&& self.old@ == before.young@
            &&& self.young_bytes == 0
        }
    }

    /// True while the cache is still learning; false while it is frozen.
    pub fn capture_enabled(&self) -> (r: bool)
        ensures
            r == !self.frozen,
    {
        !self.frozen
    }

    /// Counts a frame. At the end of a frozen era a set that hit at least half as often as it has
    /// entries is renewed; any other is cleared, and the cache learns from scratch.
    pub fn frame_tick(&mut self)
        requires
            old(self).wf(),
        ensures
            final(self).wf(),
            final(self).ticked_from(*old(self)),
    {
        if self.frozen {
            self.era_frames = self.era_frames + 1;
            if self.era_frames >= FREEZE_ERA_FRAMES {
                let resident: usize = self.young.len().saturating_add(self.old.len());
                let half: usize = resident / 2;
                let needed: usize = if half < 1 {
                    1
                } else {
                    half
                };
                if (self.era_hits as usize) >= needed {
                    self.era_frames = 0;
                    self.era_hits = 0;
                } else {
                    self.young.clear();
                    self.old.clear();
                    self.young_bytes = 0;
                    self.frozen = false;
                    self.hits = 0;
                    self.inserts = 0;
                    self.rotations = 0;
                    assert(self.resident() =~= Map::<u128, EntryView>::empty());
                }
            }
        }
    }

    /// True where the era's hits keep a frozen set alive.
    pub open spec fn productive(self) -> bool {
        self.era_hits >= 1 && self.era_hits >= saturating_sum(self.young@.len() as usize, self.old@.len() as usize) / 2
    }

    /// What one frame makes of a cache.
    pub open spec fn ticked_from(self, before: CovCache) -> bool {
        if !before.frozen {
            self == before
        } else if before.era_frames + 1 < FREEZE_ERA_FRAMES {
            self == (CovCache { era_frames: (before.era_frames + 1) as u32, ..before })
        } else if before.productive() {
            self == (CovCache { era_frames: 0, era_hits: 0, ..before })
        } else {
            &&& self.resident() == Map::<u128, EntryView>::empty()
            &&& !self.frozen
            &&& self.young_bytes == 0
            &&& self.rotations == 0
            &&& self.hits == 0
            &&& self.inserts == 0
            &&& self.era_frames == FREEZE_ERA_FRAMES
            &&& self.era_hits == before.era_hits
            &&& self.budget == before.budget
            &&& self.shrink_entries == before.shrink_entries
            &&& self.pinned == before.pinned
        }
    }

    /// What admitting `entry` under `key`, accounted with `sz` bytes, makes of a cache. A frozen
    /// cache admits nothing, nor does any cache admit an entry over the size limit.
    pub open spec fn inserted_from(self, before: CovCache, key: u128, entry: EntryView, sz: usize) -> bool {
        if before.frozen || sz > COV_ENTRY_MAX {
            self == before
        } else {
            let bytes = saturating_sum(before.young_bytes, sz);
            let overflow = !before.pinned && bytes > before.budget_in_force() / 2;
            let rotate = overflow && before.rotations + 1 < FREEZE_ROTATIONS;
            let freeze = overflow && !rotate;
            &&& views(self.young@) == (if rotate {
                Map::<u128, EntryView>::empty()
            } else {
                views(before.young@)
            }).insert(key, entry)
            &&& self.old@ == if rotate {
                before.young@
            } else {
                before.old@
            }
            &&& self.young_bytes == if rotate {
                0
            } else {
                bytes
            }
            &&& self.rotations == if overflow {
                before.rotations + 1
            } else {
                before.rotations as int
            }
            &&& self.frozen == freeze
            &&& self.era_frames == if freeze {
                0
            } else {
                before.era_frames
            }
            &&& self.era_hits == if freeze {
                0
            } else {
                before.era_hits
            }
            &&& self.inserts == saturating_inc(before.inserts)
            &&& self.hits == before.hits
            &&& self.budget == before.budget
            &&& self.shrink_entries == before.shrink_entries
            &&& self.pinned == before.pinned
        }
    }

    /// Admits an entry that is accounted with `sz` bytes.
    pub fn insert_sized(&mut self, key: u128, entry: CovEntry, sz: usize)
        requires
            old(self).wf(),
        ensures
            final(self).wf(),
            final(self).inserted_from(*old(self), key, entry@, sz),
    {
        if self.frozen {
            return;
        }
        if sz > COV_ENTRY_MAX {
            return;
        }
        let ghost before = *self;
        let entry: CovEntry = if self.shrink_entries {
            trimmed(entry)
        } else {
            entry
        };
        self.inserts = self.inserts.saturating_add(1);
        self.young_bytes = self.young_bytes.saturating_add(sz);
        self.rotate_if_needed();
        let ghost mid = self.young@;
        self.young.insert(key, entry);
        assert(views(self.young@) =~= views(mid).insert(key, entry@));
        assert(views(Map::<u128, CovEntry>::empty()) =~= Map::<u128, EntryView>::empty());
    }

    /// What offering `entry` under `key` makes of a cache, whatever its vectors' capacities are: it is
    /// admitted under some size that is at least the size of its contents.
    pub open spec fn offered_from(self, before: CovCache, key: u128, entry: EntryView) -> bool {
        exists|sz: usize|
            #![trigger self.inserted_from(before, key, entry, sz)]
            sz >= COV_ENTRY_OVERHEAD && (entry_size_min(entry) <= usize::MAX ==> sz >= entry_size_min(entry))
                && self.inserted_from(before, key, entry, sz)
    }

    /// Admits an entry under the size that its vectors' capacities give it.
    pub fn insert(&mut self, key: u128, entry: CovEntry)
        requires
            old(self).wf(),
        ensures
            final(self).wf(),
            final(self).offered_from(*old(self), key, entry@),
    {
        if self.frozen {
            assert(self.inserted_from(*old(self), key, entry@, usize::MAX));
            return;
        }
        let sz: usize = Self::size_of(&entry);
        self.insert_sized(key, entry, sz);
    }
}

/// The contents of a map's planes.
pub open spec fn views(m: Map<u128, CovEntry>) -> Map<u128, EntryView> {
    Map::new(|k: u128| m.contains_key(k), |k: u128| m[k]@)
}

/// Canvases of at most this many pixels keep their entries' spare capacity.
pub const SMALL_CANVAS_PX: usize = 25600;

/// Canvases of at most this many pixels get the larger budget.
pub const MEDIUM_CANVAS_PX: usize = 200704;

/// The byte budget of a canvas of `px` pixels.
pub open spec fn canvas_budget(px: int) -> usize {
    if px <= MEDIUM_CANVAS_PX {
        1048576
    } else {
        524288
    }
}

/// `a * b`, or the top of the range.
fn times(a: usize, b: usize) -> (r: usize)
    ensures
        a * b <= usize::MAX ==> r == a * b,
        a * b > usize::MAX ==> r == usize::MAX,
{
    match a.checked_mul(b) {
        Some(n) => n,
        None => usize::MAX,
    }
}

/// The bytes that a plane is accounted with whose vectors have room for `data` elements of `each` bytes
/// and for `rows` rows.
pub open spec fn accounted(data: int, each: int, rows: int) -> int {
    data * each + rows * 12 + COV_ENTRY_OVERHEAD
}

/// Counts the bytes that a plane is accounted with, or gives the top of the range.
pub fn size_for(data: usize, each: usize, rows: usize) -> (sz: usize)
    ensures
        sz == (if accounted(data as int, each as int, rows as int) < usize::MAX {
            accounted(data as int, each as int, rows as int)
        } else {
            usize::MAX as int
        }),
        sz >= COV_ENTRY_OVERHEAD,
{
    assert(data * each >= 0) by (nonlinear_arith);
    times(data, each).saturating_add(times(rows, 12)).saturating_add(COV_ENTRY_OVERHEAD)
}

/// `Vec::capacity`: the number of elements that the vector holds without reallocating, which is at
/// least its length. How much more it is depends on the allocator and is left open.
#[verifier::external_body]
pub(crate) fn capacity_of<T>(v: &Vec<T>) -> (n: usize)
    ensures
        n >= v@.len(),
{
    v.capacity()
}

/// `Vec::shrink_to_fit`: gives spare capacity back and keeps the elements.
#[verifier::external_body]
fn shrink_vec<T>(v: &mut Vec<T>)
    ensures
        final(v)@ == old(v)@,
{
    v.shrink_to_fit()
}

/// The same entry without spare capacity.
fn trimmed(entry: CovEntry) -> (r: CovEntry)
    ensures
        r@ == entry@,
{
    let mut rows: Vec<(u32, u32, u32)> = entry.rows;
    shrink_vec(&mut rows);
    let data: PlaneData = match entry.data {
        PlaneData::Cov(v) => {
            let mut v: Vec<u8> = v;
            shrink_vec(&mut v);
            PlaneData::Cov(v)
        },
        PlaneData::Spans(v) => {
            let mut v: Vec<u64> = v;
            shrink_vec(&mut v);
            PlaneData::Spans(v)
        },
        PlaneData::Src(v) => {
            let mut v: Vec<u32> = v;
            shrink_vec(&mut v);
            PlaneData::Src(v)
        },
    };
    CovEntry { rows, data }
}

/// Admission drops nothing: every other resident plane is still found after it, and an admitted
/// plane is found under its key.
pub proof fn law_insert_keeps_residents(before: CovCache, after: CovCache, key: u128, entry: EntryView, sz: usize)
    requires
        before.wf(),
        after.inserted_from(before, key, entry, sz),
    ensures
        forall|k: u128|
            k != key && before.resident().contains_key(k) ==> #[trigger] after.resident().contains_key(k)
                && after.resident()[k] == before.resident()[k],
        !before.frozen && sz <= COV_ENTRY_MAX ==> after.resident().contains_key(key) && after.resident()[key] == entry,
{
    if !before.frozen && sz <= COV_ENTRY_MAX {
        let overflow = !before.pinned && saturating_sum(before.young_bytes, sz) > before.budget_in_force() / 2;
        assert forall|k: u128| k != key && before.resident().contains_key(k) implies #[trigger] after.resident().contains_key(k)
            && after.resident()[k] == before.resident()[k] by {
            if overflow && before.rotations + 1 < FREEZE_ROTATIONS {
                assert(before.young@.contains_key(k));
                assert(!views(after.young@).contains_key(k));
            } else {
                assert(views(after.young@).contains_key(k) == views(before.young@).contains_key(k));
                if before.young@.contains_key(k) {
                    assert(views(before.young@)[k] == before.young@[k]@);
                    assert(views(after.young@)[k] == views(before.young@)[k]);
                }
            }
        }
        assert(views(after.young@).contains_key(key));
        assert(views(after.young@)[key] == entry);
    }
}

/// A frozen cache admits nothing.
pub proof fn law_frozen_admits_nothing(before: CovCache, after: CovCache, key: u128, entry: EntryView, sz: usize)
    requires
        before.wf(),
        before.frozen,
        after.inserted_from(before, key, entry, sz),
    ensures
        after == before,
{
}

/// One plane that is offered to a cache: its key, its contents and the bytes it is accounted with.
pub struct Offer {
    /// The key.
    pub key: u128,
    /// The contents.
    pub entry: EntryView,
    /// The accounted bytes.
    pub sz: usize,
}

/// True where `states` are the states of a cache that is offered `offers` one after another.
pub open spec fn admission_run(states: Seq<CovCache>, offers: Seq<Offer>) -> bool {
    &&& states.len() == offers.len() + 1
    &&& forall|i: int|
        0 <= i < offers.len() ==> (#[trigger] states[i + 1]).inserted_from(
            states[i],
            offers[i].key,
            offers[i].entry,
            offers[i].sz,
        )
}

/// The bytes of the first `n` offers.
pub open spec fn offered_bytes(offers: Seq<Offer>, n: int) -> int
    decreases n,
{
    if n <= 0 {
        0
    } else {
        offered_bytes(offers, n - 1) + offers[n - 1].sz
    }
}

proof fn lemma_offered_bytes_monotone(offers: Seq<Offer>, i: int, n: int)
    requires
        0 <= i <= n,
    ensures
        0 <= offered_bytes(offers, i) <= offered_bytes(offers, n),
    decreases n,
{
    if i < n {
        lemma_offered_bytes_monotone(offers, i, n - 1);
    } else if n > 0 {
        lemma_offered_bytes_monotone(offers, n - 1, n - 1);
    }
}

/// A working set that fits half the budget never freezes the cache and never rotates it, and every
/// admitted plane of it stays resident.
pub proof fn law_fitting_set_never_freezes(states: Seq<CovCache>, offers: Seq<Offer>, n: int)
    requires
        admission_run(states, offers),
        states[0].wf(),
        !states[0].frozen,
        states[0].young_bytes + offered_bytes(offers, offers.len() as int) <= states[0].budget_in_force() / 2,
        0 <= n <= offers.len(),
    ensures
        states[n].wf(),
        !states[n].frozen,
        states[n].rotations == states[0].rotations,
        states[n].budget == states[0].budget,
        states[n].young_bytes <= states[0].young_bytes + offered_bytes(offers, n),
        forall|i: int|
            0 <= i < n && offers[i].sz <= COV_ENTRY_MAX ==> states[n].resident().contains_key(#[trigger] offers[i].key),
        forall|k: u128| states[0].resident().contains_key(k) ==> #[trigger] states[n].resident().contains_key(k),
    decreases n,
{
    if n > 0 {
        law_fitting_set_never_freezes(states, offers, n - 1);
        lemma_offered_bytes_monotone(offers, n, offers.len() as int);
        let before = states[n - 1];
        let o = offers[n - 1];
        assert(states[n - 1 + 1].inserted_from(before, o.key, o.entry, o.sz));
        law_insert_keeps_residents(before, states[n], o.key, o.entry, o.sz);
        if o.sz <= COV_ENTRY_MAX {
            assert(states[n].resident().contains_key(o.key));
        }
        assert forall|i: int| 0 <= i < n && offers[i].sz <= COV_ENTRY_MAX implies states[n].resident().contains_key(
            #[trigger] offers[i].key,
        ) by {
            if i < n - 1 {
                assert(before.resident().contains_key(offers[i].key));
            }
        }
        assert forall|k: u128| states[0].resident().contains_key(k) implies #[trigger] states[n].resident().contains_key(k) by {
            assert(before.resident().contains_key(k));
        }
    }
}

/// A plane costs a byte for each byte of coverage, eight for each span, four for each source, twelve
/// for each row, and 64 more.
pub proof fn law_planes_cost_what_they_hold(e: EntryView, data: int, each: int, rows: int)
    ensures
        e.data is Cov ==> entry_size_min(e) == e.data->Cov_0.len() + 12 * e.rows.len() + 64,
        e.data is Spans ==> entry_size_min(e) == 8 * e.data->Spans_0.len() + 12 * e.rows.len() + 64,
        e.data is Src ==> entry_size_min(e) == 4 * e.data->Src_0.len() + 12 * e.rows.len() + 64,
        accounted(data, each, rows) == data * each + 12 * rows + 64,
{
}

/// Canvases of up to 448 by 448 pixels have a megabyte, larger ones half of it; a cache without a
/// canvas has three.
pub proof fn law_canvases_have_their_budgets(px: int, c: CovCache)
    ensures
        px <= 448 * 448 ==> canvas_budget(px) == 1024 * 1024,
        px > 448 * 448 ==> 2 * canvas_budget(px) == 1024 * 1024,
        c.budget > 0 ==> c.budget_in_force() == c.budget,
        c.budget == 0 ==> c.budget_in_force() == 3 * 1024 * 1024,
{
}

/// A plane is found in the young generation or else in the old one, and nowhere else.
pub proof fn law_the_young_are_found_first(c: CovCache, k: u128)
    ensures
        c.resident().contains_key(k) <==> c.young@.contains_key(k) || c.old@.contains_key(k),
        c.young@.contains_key(k) ==> c.resident()[k] == c.young@[k]@,
        !c.young@.contains_key(k) && c.old@.contains_key(k) ==> c.resident()[k] == c.old@[k]@,
{
}

/// What is admitted is found again under its key, and takes the place of what was there. Planes of
/// more than 256 KiB are not admitted.
pub proof fn law_admitted_planes_are_found(
    before: CovCache,
    after: CovCache,
    key: u128,
    entry: EntryView,
    sz: usize,
)
    requires
        before.wf(),
        after.inserted_from(before, key, entry, sz),
    ensures
        !before.frozen && sz <= 256 * 1024 ==> after.resident().contains_key(key)
            && after.resident()[key] == entry,
        sz > 256 * 1024 ==> after == before,
{
    if !before.frozen && sz <= COV_ENTRY_MAX {
        assert(views(after.young@).contains_key(key));
        assert(views(after.young@)[key] == entry);
    }
}

/// A young generation of more than half the budget is full. The first that is full becomes the old
/// one, and with the second the cache freezes; a pinned cache does neither.
pub proof fn law_the_second_overflow_freezes(
    before: CovCache,
    after: CovCache,
    key: u128,
    entry: EntryView,
    sz: usize,
)
    requires
        before.wf(),
        !before.frozen,
        sz <= 256 * 1024,
        before.young_bytes + sz <= usize::MAX,
        after.inserted_from(before, key, entry, sz),
    ensures
        ({
            let full = 2 * (before.young_bytes + sz) > before.budget_in_force() + 1;
            let fits = 2 * (before.young_bytes + sz) <= before.budget_in_force();
            &&& before.pinned || fits ==> after.rotations == before.rotations && !after.frozen
                && after.young_bytes == before.young_bytes + sz && after.old@ == before.old@
            &&& !before.pinned && full && before.rotations == 0 ==> after.rotations == 1
                && !after.frozen && after.young_bytes == 0 && after.old@ == before.young@
            &&& !before.pinned && full && before.rotations == 1 ==> after.frozen && after.old@
                == before.old@ && after.young_bytes == before.young_bytes + sz
        }),
{
}

/// A frozen cache counts 180 frames. If by the last of them it was hit at least once, and at least
/// half as often as it holds planes, it counts again; otherwise it is emptied. A cache that is not
/// frozen counts nothing.
pub proof fn law_frozen_caches_are_judged(before: CovCache, after: CovCache)
    requires
        before.wf(),
        after.ticked_from(before),
        before.young@.len() + before.old@.len() <= usize::MAX,
    ensures
        !before.frozen ==> after == before,
        before.frozen && before.era_frames < 179 ==> after.frozen && after.era_frames
            == before.era_frames + 1 && after.resident() == before.resident() && after.era_hits
            == before.era_hits,
        before.frozen && before.era_frames == 179 ==> {
            let planes = before.young@.len() + before.old@.len();
            &&& before.era_hits >= 1 && 2 * before.era_hits >= planes ==> after.frozen
                && after.era_frames == 0 && after.era_hits == 0 && after.resident()
                == before.resident()
            &&& before.era_hits == 0 || 2 * before.era_hits + 1 < planes ==> !after.frozen
                && after.rotations == 0 && after.young_bytes == 0 && after.resident() == Map::<
                u128,
                EntryView,
            >::empty()
        },
{
}

/// Hits are counted one by one up to the top of the range; those of an era only while frozen.
pub proof fn law_hits_are_counted(c: CovCache)
    ensures
        c.hits < u32::MAX ==> c.with_hit().hits == c.hits + 1,
        c.hits == u32::MAX ==> c.with_hit().hits == u32::MAX,
        c.frozen && c.era_hits < u32::MAX ==> c.with_hit().era_hits == c.era_hits + 1,
        !c.frozen ==> c.with_hit().era_hits == c.era_hits,
        c.with_hit().resident() == c.resident(),
        c.with_hit().frozen == c.frozen,
{
    assert(c.with_hit().resident() =~= c.resident());
}

} // verus!
