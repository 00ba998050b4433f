//! Gradient lookup tables, remembered by exactly what they were built from.

use crate::hash::same_words;
use vstd::prelude::*;

verus! {

/// The most tables that are remembered. One more, and all are forgotten.
pub const LUT_CACHE_CAP: usize = 512;

/// A remembered table.
pub struct LutEntry {
    /// What it was built from.
    pub key: Vec<u32>,
    /// The table.
    pub lut: Vec<u32>,
}

/// The tables remembered.
pub struct LutCache {
    /// The tables.
    pub entries: Vec<LutEntry>,
}

/// What a table is built from: the number of colors, the opacity and the stops, bit by bit.
pub open spec fn key_words(color_count: u32, opacity_bits: u32, stop_bits: Seq<u32>) -> Seq<u32> {
    seq![color_count, opacity_bits] + stop_bits
}

/// The remembered table of a key.
pub open spec fn table_of(entries: Seq<LutEntry>, key: Seq<u32>) -> Option<Seq<u32>> {
    if exists|i: int| 0 <= i < entries.len() && #[trigger] entries[i].key@ == key {
        Some(entries[choose|i: int| 0 <= i < entries.len() && #[trigger] entries[i].key@ == key].lut@)
    } else {
        None
    }
}

/// Writes down what a table is built from.
pub fn lut_key(color_count: u32, opacity_bits: u32, stop_bits: &[u32]) -> (key: Vec<u32>)
    ensures
        key@ == key_words(color_count, opacity_bits, stop_bits@),
{
    let mut key: Vec<u32> = Vec::new();
    key.push(color_count);
    key.push(opacity_bits);
    let mut i: usize = 0;
    assert(key@ =~= key_words(color_count, opacity_bits, stop_bits@.take(0)));
    while i < stop_bits.len()
        invariant
            i <= stop_bits@.len(),
            key@ == key_words(color_count, opacity_bits, stop_bits@.take(i as int)),
        decreases stop_bits@.len() - i,
    {
        key.push(stop_bits[i]);
        i += 1;
        assert(key@ =~= key_words(color_count, opacity_bits, stop_bits@.take(i as int)));
    }
    assert(stop_bits@.take(i as int) =~= stop_bits@);
    key
}

impl LutCache {
    /// True where no key occurs twice and no more tables are remembered than may be.
    pub open spec fn wf(self) -> bool {
        &&& self.entries@.len() <= LUT_CACHE_CAP
        &&& forall|i: int, j: int|
            0 <= i < j < self.entries@.len() ==> (#[trigger] self.entries@[i]).key@ != (
            #[trigger] self.entries@[j]).key@
    }

    /// The remembered table of a key.
    pub open spec fn table(self, key: Seq<u32>) -> Option<Seq<u32>> {
        table_of(self.entries@, key)
    }

    /// A cache that remembers nothing.
    pub fn new() -> (c: LutCache)
        ensures
            c.wf(),
            c.entries@.len() == 0,
            forall|key: Seq<u32>| #[trigger] c.table(key) is None,
    {
        LutCache { entries: Vec::new() }
    }

    /// Looks a table up.
    pub fn get(&self, key: &[u32]) -> (r: Option<&Vec<u32>>)
        requires
            self.wf(),
        ensures
            r is Some == self.table(key@) is Some,
            r matches Some(lut) ==> lut@ == self.table(key@)->0,
    {
        let mut i: usize = 0;
        while i < self.entries.len()
            invariant
                self.wf(),
                i <= self.entries@.len(),
                forall|k: int| 0 <= k < i ==> (#[trigger] self.entries@[k]).key@ != key@,
            decreases self.entries@.len() - i,
        {
            if same_words(self.entries[i].key.as_slice(), key) {
                proof {
                    lemma_table_at(self.entries@, i as int);
                    assert(self.entries@[i as int].key@ == key@);
                }
                return Some(&self.entries[i].lut);
            }
            i += 1;
        }
        None
    }

    /// Remembers a table that was not. A full cache forgets the others first.
    pub fn insert(&mut self, key: Vec<u32>, lut: Vec<u32>)
        requires
            old(self).wf(),
            old(self).table(key@) is None,
        ensures
            final(self).wf(),
            final(self).table(key@) == Some(lut@),
            old(self).entries@.len() < LUT_CACHE_CAP ==> final(self).entries@.len() == old(
                self,
            ).entries@.len() + 1,
            old(self).entries@.len() >= LUT_CACHE_CAP ==> final(self).entries@.len() == 1,
            forall|k: Seq<u32>|
                k != key@ ==> #[trigger] final(self).table(k) == (if old(self).entries@.len()
                    < LUT_CACHE_CAP {
                    old(self).table(k)
                } else {
                    None
                }),
    {
        if self.entries.len() >= LUT_CACHE_CAP {
            self.entries = Vec::new();
        }
        let ghost before = self.entries@;
        let ghost key_view = key@;
        let ghost lut_view = lut@;
        self.entries.push(LutEntry { key, lut });
        proof {
            let n = before.len() as int;
            assert(self.entries@[n].key@ == key_view);
            assert forall|i: int| 0 <= i < n implies (#[trigger] self.entries@[i]).key@ != key_view by {
                if self.entries@[i].key@ == key_view {
                    assert(old(self).entries@[i].key@ == key_view);
                }
            }
            lemma_table_at(self.entries@, n);
            assert forall|k: Seq<u32>| k != key_view implies #[trigger] self.table(k) == table_of(
                before,
                k,
            ) by {
                lemma_table_pushed(before, self.entries@[n], k);
                assert(self.entries@ =~= before.push(self.entries@[n]));
            }
        }
    }
}

/// Where no key occurs twice, each entry holds its key's table.
proof fn lemma_table_at(entries: Seq<LutEntry>, i: int)
    requires
        0 <= i < entries.len(),
        forall|a: int, b: int|
            0 <= a < b < entries.len() ==> (#[trigger] entries[a]).key@ != (#[trigger] entries[b]).key@,
    ensures
        table_of(entries, entries[i].key@) == Some(entries[i].lut@),
{
    let key = entries[i].key@;
    let j = choose|j: int| 0 <= j < entries.len() && #[trigger] entries[j].key@ == key;
    assert(entries[i].key@ == key);
    assert(0 <= j < entries.len() && entries[j].key@ == key);
    if j < i {
        assert(entries[j].key@ != entries[i].key@);
    }
    if i < j {
        assert(entries[i].key@ != entries[j].key@);
    }
}

/// Another entry leaves the tables of other keys as they are.
proof fn lemma_table_pushed(entries: Seq<LutEntry>, e: LutEntry, k: Seq<u32>)
    requires
        e.key@ != k,
        forall|a: int, b: int|
            0 <= a < b < entries.len() ==> (#[trigger] entries[a]).key@ != (#[trigger] entries[b]).key@,
        forall|a: int| 0 <= a < entries.len() ==> (#[trigger] entries[a]).key@ != e.key@,
    ensures
        table_of(entries.push(e), k) == table_of(entries, k),
{
    let more = entries.push(e);
    assert forall|a: int, b: int| 0 <= a < b < more.len() implies (#[trigger] more[a]).key@ != (
    #[trigger] more[b]).key@ by {
        assert(more[a] == entries[a]);
        if b < entries.len() {
            assert(more[b] == entries[b]);
        }
    }
    if exists|i: int| 0 <= i < entries.len() && #[trigger] entries[i].key@ == k {
        let i = choose|i: int| 0 <= i < entries.len() && #[trigger] entries[i].key@ == k;
        assert(more[i] == entries[i]);
        lemma_table_at(entries, i);
        lemma_table_at(more, i);
    } else {
        if exists|i: int| 0 <= i < more.len() && #[trigger] more[i].key@ == k {
            let i = choose|i: int| 0 <= i < more.len() && #[trigger] more[i].key@ == k;
            if i < entries.len() {
                assert(entries[i].key@ == k);
            }
        }
    }
}

/// Tables built from different numbers never share a key.
pub proof fn law_keys_are_exact(
    c0: u32,
    o0: u32,
    s0: Seq<u32>,
    c1: u32,
    o1: u32,
    s1: Seq<u32>,
)
    requires
        key_words(c0, o0, s0) == key_words(c1, o1, s1),
    ensures
        c0 == c1,
        o0 == o1,
        s0 == s1,
{
    let a = key_words(c0, o0, s0);
    let b = key_words(c1, o1, s1);
    assert(a[0] == c0 && b[0] == c1);
    assert(a[1] == o0 && b[1] == o1);
    assert(a.len() == b.len());
    assert forall|i: int| 0 <= i < s0.len() implies s0[i] == s1[i] by {
        assert(a[i + 2] == s0[i]);
        assert(b[i + 2] == s1[i]);
    }
    assert(s0 =~= s1);
}

/// A table that is remembered is found under its own key, and under no other.
pub proof fn law_tables_are_found_under_their_key(c: LutCache, i: int, key: Seq<u32>)
    requires
        c.wf(),
        0 <= i < c.entries@.len(),
    ensures
        c.table(c.entries@[i].key@) == Some(c.entries@[i].lut@),
        (forall|k: int| 0 <= k < c.entries@.len() ==> (#[trigger] c.entries@[k]).key@ != key)
            ==> c.table(key) is None,
        c.entries@.len() <= 512,
{
    let mine = c.entries@[i].key@;
    assert(exists|k: int| 0 <= k < c.entries@.len() && #[trigger] c.entries@[k].key@ == mine);
    let k = choose|k: int| 0 <= k < c.entries@.len() && #[trigger] c.entries@[k].key@ == mine;
    assert(k == i) by {
        if k < i {
            assert(c.entries@[k].key@ != c.entries@[i].key@);
        } else if i < k {
            assert(c.entries@[i].key@ != c.entries@[k].key@);
        }
    }
}

} // verus!
