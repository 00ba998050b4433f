//! 128-bit content keys over sequences of words.

use vstd::prelude::*;
use crate::style::{Cap, FillRule, Join};

verus! {

/// Two independent 64-bit streams that together make a 128-bit key.
#[derive(Clone, Copy, Debug, PartialEq, Eq, Structural)]
pub struct Hasher128 {
    /// The first stream.
    pub h1: u64,
    /// The second stream.
    pub h2: u64,
}

/// The two halves of a 32-bit word swapped.
pub open spec fn swap_halves(w: u32) -> u32 {
    (w << 16) | (w >> 16)
}

impl Hasher128 {
    /// The streams before any word.
    pub open spec fn start() -> Hasher128 {
        Hasher128 { h1: 0xcbf2_9ce4_8422_2325, h2: 0x9e37_79b9_7f4a_7c15 }
    }

    /// The streams after one more word.
    pub open spec fn mixed(self, w: u32) -> Hasher128 {
        Hasher128 {
            h1: (self.h1 ^ (w as u64)).wrapping_mul(0x0000_0100_0000_01b3),
            h2: (self.h2 ^ (swap_halves(w) as u64)).wrapping_mul(0xff51_afd7_ed55_8ccd),
        }
    }

    /// The streams after a sequence of words.
    pub open spec fn mixed_all(self, words: Seq<u32>) -> Hasher128
        decreases words.len(),
    {
        if words.len() == 0 {
            self
        } else {
            self.mixed_all(words.drop_last()).mixed(words.last())
        }
    }

    /// The key that the streams make.
    pub open spec fn key(self) -> u128 {
        ((self.h1 as u128) << 64) | (self.h2 as u128)
    }

    /// The streams before any word.
    pub fn new() -> (h: Hasher128)
        ensures
            h == Hasher128::start(),
    {
        Hasher128 { h1: 0xcbf2_9ce4_8422_2325, h2: 0x9e37_79b9_7f4a_7c15 }
    }

    /// Takes in one word.
    pub fn mix(&mut self, w: u32)
        ensures
            *final(self) == old(self).mixed(w),
    {
        let swapped: u32 = (w << 16) | (w >> 16);
        self.h1 = (self.h1 ^ (w as u64)).wrapping_mul(0x0000_0100_0000_01b3);
        self.h2 = (self.h2 ^ (swapped as u64)).wrapping_mul(0xff51_afd7_ed55_8ccd);
    }

    /// Takes in a sequence of words.
    pub fn mix_all(&mut self, words: &[u32])
        ensures
            *final(self) == old(self).mixed_all(words@),
    {
        let ghost before = *self;
        let mut i: usize = 0;
        while i < words.len()
            invariant
                i <= words@.len(),
                *self == before.mixed_all(words@.take(i as int)),
            decreases words@.len() - i,
        {
            self.mix(words[i]);
            assert(words@.take(i + 1).drop_last() =~= words@.take(i as int));
            i = i + 1;
        }
        assert(words@.take(i as int) =~= words@);
    }

    /// The key of the words taken in.
    pub fn finish(&self) -> (k: u128)
        ensures
            k == self.key(),
    {
        ((self.h1 as u128) << 64) | (self.h2 as u128)
    }
}

/// Taking in two sequences one after the other is taking in their concatenation.
pub proof fn law_mixing_concatenates(h: Hasher128, a: Seq<u32>, b: Seq<u32>)
    ensures
        h.mixed_all(a).mixed_all(b) == h.mixed_all(a + b),
    decreases b.len(),
{
    if b.len() == 0 {
        assert(a + b =~= a);
    } else {
        law_mixing_concatenates(h, a, b.drop_last());
        assert((a + b).drop_last() =~= a + b.drop_last());
    }
}

/// One more word.
pub proof fn lemma_mix_push(h: Hasher128, a: Seq<u32>, w: u32)
    ensures
        h.mixed_all(a).mixed(w) == h.mixed_all(a.push(w)),
{
    assert(a.push(w).drop_last() =~= a);
}

/// The words of what determines coverage besides a paint's own geometry: the canvas size, whether
/// edges are smoothed, and the clip quads' corner bits.
pub open spec fn clip_words(w: usize, h: usize, antialias: bool, clip: Seq<u32>) -> Seq<u32> {
    seq![w as u32, h as u32, if antialias {
        1u32
    } else {
        0u32
    }] + clip
}

/// The streams over everything besides a paint's own geometry that determines coverage.
pub fn clip_sig(w: usize, h: usize, antialias: bool, clip: &[u32]) -> (s: Hasher128)
    ensures
        s == Hasher128::start().mixed_all(clip_words(w, h, antialias, clip@)),
{
    let mut s: Hasher128 = Hasher128::new();
    let aa: u32 = if antialias {
        1
    } else {
        0
    };
    s.mix(w as u32);
    s.mix(h as u32);
    s.mix(aa);
    proof {
        let e = Seq::<u32>::empty();
        lemma_mix_push(Hasher128::start(), e, w as u32);
        lemma_mix_push(Hasher128::start(), e.push(w as u32), h as u32);
        lemma_mix_push(Hasher128::start(), e.push(w as u32).push(h as u32), aa);
        assert(e.push(w as u32).push(h as u32).push(aa) =~= seq![w as u32, h as u32, aa]);
        law_mixing_concatenates(Hasher128::start(), seq![w as u32, h as u32, aa], clip@);
    }
    s.mix_all(clip);
    s
}

/// A contour's geometry as bits: `x` and `y` of each point in turn, and whether each point is an
/// authored anchor.
pub struct ContourBits {
    /// The coordinates' bits, two words for each point.
    pub points: Vec<u32>,
    /// The anchor flags.
    pub anchors: Vec<bool>,
    /// True for a closed contour.
    pub closed: bool,
}

/// The words of one filled contour.
pub open spec fn fill_contour_words(c: ContourBits) -> Seq<u32> {
    c.points@.push((c.points@.len() / 2) as u32)
}

/// The words of a list of filled contours.
pub open spec fn fill_geometry_words(contours: Seq<ContourBits>, n: int) -> Seq<u32>
    decreases n,
{
    if n <= 0 {
        Seq::empty()
    } else {
        fill_geometry_words(contours, n - 1) + fill_contour_words(contours[n - 1])
    }
}

/// The word of a fill rule.
pub open spec fn rule_word(rule: FillRule) -> u32 {
    match rule {
        FillRule::NonZero => 1,
        FillRule::EvenOdd => 2,
    }
}

/// The coverage key of a fill: the clip signature, the fill tag, the rule and the exact bits of the
/// unclipped geometry.
pub fn fill_key(sig: Hasher128, rule: FillRule, contours: &[ContourBits]) -> (k: u128)
    ensures
        k == sig.mixed(1).mixed(rule_word(rule)).mixed_all(fill_geometry_words(contours@, contours@.len() as int)).key(),
{
    let mut h: Hasher128 = sig;
    h.mix(1);
    h.mix(
        match rule {
            FillRule::NonZero => 1,
            FillRule::EvenOdd => 2,
        },
    );
    let ghost base = h;
    let mut i: usize = 0;
    while i < contours.len()
        invariant
            i <= contours@.len(),
            h == base.mixed_all(fill_geometry_words(contours@, i as int)),
        decreases contours@.len() - i,
    {
        let c: &ContourBits = &contours[i];
        h.mix_all(c.points.as_slice());
        h.mix((c.points.len() / 2) as u32);
        proof {
            let before = fill_geometry_words(contours@, i as int);
            let count = (c.points@.len() / 2) as u32;
            law_mixing_concatenates(base, before, c.points@);
            lemma_mix_push(base, before + c.points@, count);
            assert((before + c.points@).push(count) =~= before + fill_contour_words(*c));
        }
        i = i + 1;
    }
    h.finish()
}

/// The four words of a 128-bit key, low word first.
pub open spec fn key_words(key: u128) -> Seq<u32> {
    seq![key as u32, (key >> 32) as u32, (key >> 64) as u32, (key >> 96) as u32]
}

/// The two words of a 64-bit id, low word first.
pub open spec fn id_words(id: u64) -> Seq<u32> {
    seq![id as u32, (id >> 32) as u32]
}

/// The key under which the paints of a still layer are recorded: the clip signature, the bits of the
/// matrix and of the opacity, and the layer's id.
pub fn replay_key(sig: Hasher128, matrix: [u32; 6], opacity: u32, layer: u64) -> (k: u128)
    ensures
        k == sig.mixed_all(seq![4u32] + matrix@ + seq![opacity] + id_words(layer)).key(),
{
    let mut h: Hasher128 = sig;
    let tail: [u32; 3] = [opacity, layer as u32, (layer >> 32) as u32];
    h.mix(4);
    h.mix_all(&matrix);
    h.mix_all(&tail);
    proof {
        let tag = seq![4u32];
        lemma_mix_push(sig, Seq::empty(), 4);
        assert(Seq::<u32>::empty().push(4) =~= tag);
        law_mixing_concatenates(sig, tag, matrix@);
        law_mixing_concatenates(sig, tag + matrix@, tail@);
        assert(tag + matrix@ + tail@ =~= tag + matrix@ + seq![opacity] + id_words(layer));
    }
    h.finish()
}

/// The source-plane key of a gradient: the coverage key, the lookup table's id and the hash of the
/// gradient's map.
pub fn src_key_of(key: u128, lut_id: u64, map_hash: u64) -> (k: u128)
    ensures
        k == Hasher128::start().mixed_all(seq![3u32] + key_words(key) + id_words(lut_id) + id_words(map_hash)).key(),
{
    let words: [u32; 9] = [
        3,
        key as u32,
        (key >> 32) as u32,
        (key >> 64) as u32,
        (key >> 96) as u32,
        lut_id as u32,
        (lut_id >> 32) as u32,
        map_hash as u32,
        (map_hash >> 32) as u32,
    ];
    let mut h: Hasher128 = Hasher128::new();
    assert(words@ =~= seq![3u32] + key_words(key) + id_words(lut_id) + id_words(map_hash));
    h.mix_all(&words);
    h.finish()
}

/// The hash of a gradient's map: its inverse matrix, its parameters and the tag of its kind.
pub fn content_hash(inverse: &[u32], params: &[u32], tag: u32) -> (k: u64)
    ensures
        k == Hasher128::start().mixed_all((inverse@ + params@).push(tag)).key() as u64,
{
    let mut h: Hasher128 = Hasher128::new();
    h.mix_all(inverse);
    h.mix_all(params);
    h.mix(tag);
    proof {
        law_mixing_concatenates(Hasher128::start(), inverse@, params@);
        lemma_mix_push(Hasher128::start(), inverse@ + params@, tag);
    }
    h.finish() as u64
}

/// The id of a gradient's lookup table: the color count, the opacity bits and the stop bits.
pub fn lut_id(color_count: u32, opacity: u32, stops: &[u32]) -> (k: u64)
    ensures
        k == Hasher128::start().mixed_all(seq![color_count, opacity] + stops@).key() as u64,
{
    let mut h: Hasher128 = Hasher128::new();
    h.mix(color_count);
    h.mix(opacity);
    proof {
        let e = Seq::<u32>::empty();
        lemma_mix_push(Hasher128::start(), e, color_count);
        lemma_mix_push(Hasher128::start(), e.push(color_count), opacity);
        assert(e.push(color_count).push(opacity) =~= seq![color_count, opacity]);
        law_mixing_concatenates(Hasher128::start(), seq![color_count, opacity], stops@);
    }
    h.mix_all(stops);
    h.finish() as u64
}

/// The anchor flags packed into words: the full words of 32 flags each, and the bits of the word
/// that is still open, after the first `n` flags.
pub open spec fn packed_anchors(anchors: Seq<bool>, n: int) -> (Seq<u32>, u32)
    decreases n,
{
    if n <= 0 {
        (Seq::empty(), 0)
    } else {
        let (full, open_bits) = packed_anchors(anchors, n - 1);
        let bits = (open_bits << 1) | (if anchors[n - 1] {
            1u32
        } else {
            0u32
        });
        if (n - 1) % 32 == 31 {
            (full.push(bits), 0)
        } else {
            (full, bits)
        }
    }
}

/// The words of one stroked contour.
pub open spec fn stroke_contour_words(c: ContourBits) -> Seq<u32> {
    let packed = packed_anchors(c.anchors@, c.anchors@.len() as int);
    c.points@ + packed.0 + seq![packed.1, c.anchors@.len() as u32, (c.points@.len() / 2) as u32, if c.closed {
        1u32
    } else {
        0u32
    }]
}

/// The words of a list of stroked contours.
pub open spec fn stroke_geometry_words(contours: Seq<ContourBits>, n: int) -> Seq<u32>
    decreases n,
{
    if n <= 0 {
        Seq::empty()
    } else {
        stroke_geometry_words(contours, n - 1) + stroke_contour_words(contours[n - 1])
    }
}

/// The word of a cap.
pub open spec fn cap_word(cap: Cap) -> u32 {
    match cap {
        Cap::Butt => 1,
        Cap::Round => 2,
        Cap::Square => 3,
    }
}

/// The word of a join.
pub open spec fn join_word(join: Join) -> u32 {
    match join {
        Join::Miter => 1,
        Join::Round => 2,
        Join::Bevel => 3,
    }
}

/// The words of a stroke's parameters.
pub open spec fn stroke_style_words(
    half_width: u32,
    miter_limit: u32,
    cap: Cap,
    join: Join,
    pattern: Seq<u32>,
    dash_offset: u32,
) -> Seq<u32> {
    seq![2u32, half_width, miter_limit, cap_word(cap), join_word(join)] + pattern + seq![pattern.len() as u32, dash_offset]
}

/// Takes in the packed anchor flags of a contour.
fn mix_anchors(h: &mut Hasher128, anchors: &[bool])
    ensures
        ({
            let packed = packed_anchors(anchors@, anchors@.len() as int);
            *final(h) == old(h).mixed_all(packed.0.push(packed.1))
        }),
{
    let ghost base = *h;
    let mut bits: u32 = 0;
    let mut i: usize = 0;
    while i < anchors.len()
        invariant
            i <= anchors@.len(),
            bits == packed_anchors(anchors@, i as int).1,
            *h == base.mixed_all(packed_anchors(anchors@, i as int).0),
        decreases anchors@.len() - i,
    {
        bits = (bits << 1) | (if anchors[i] {
            1
        } else {
            0
        });
        if i % 32 == 31 {
            proof {
                lemma_mix_push(base, packed_anchors(anchors@, i as int).0, bits);
            }
            h.mix(bits);
            bits = 0;
        }
        i = i + 1;
    }
    proof {
        lemma_mix_push(base, packed_anchors(anchors@, i as int).0, bits);
    }
    h.mix(bits);
}

/// The coverage key of a stroke: the clip signature, every stroke parameter, and the geometry with
/// its anchor flags.
pub fn stroke_key(
    sig: Hasher128,
    half_width: u32,
    miter_limit: u32,
    cap: Cap,
    join: Join,
    pattern: &[u32],
    dash_offset: u32,
    contours: &[ContourBits],
) -> (k: u128)
    ensures
        k == sig.mixed_all(stroke_style_words(half_width, miter_limit, cap, join, pattern@, dash_offset)).mixed_all(
            stroke_geometry_words(contours@, contours@.len() as int),
        ).key(),
{
    let mut h: Hasher128 = sig;
    let cw: u32 = match cap {
        Cap::Butt => 1,
        Cap::Round => 2,
        Cap::Square => 3,
    };
    let jw: u32 = match join {
        Join::Miter => 1,
        Join::Round => 2,
        Join::Bevel => 3,
    };
    let head: [u32; 5] = [2, half_width, miter_limit, cw, jw];
    h.mix_all(&head);
    h.mix_all(pattern);
    let tail: [u32; 2] = [pattern.len() as u32, dash_offset];
    h.mix_all(&tail);
    proof {
        law_mixing_concatenates(sig, head@, pattern@);
        law_mixing_concatenates(sig, head@ + pattern@, tail@);
        assert(head@ + pattern@ + tail@ =~= stroke_style_words(half_width, miter_limit, cap, join, pattern@, dash_offset));
    }
    let ghost base = h;
    let mut i: usize = 0;
    while i < contours.len()
        invariant
            i <= contours@.len(),
            h == base.mixed_all(stroke_geometry_words(contours@, i as int)),
        decreases contours@.len() - i,
    {
        let c: &ContourBits = &contours[i];
        let closed: u32 = if c.closed {
            1
        } else {
            0
        };
        h.mix_all(c.points.as_slice());
        mix_anchors(&mut h, c.anchors.as_slice());
        let counts: [u32; 3] = [c.anchors.len() as u32, (c.points.len() / 2) as u32, closed];
        h.mix_all(&counts);
        proof {
            let before = stroke_geometry_words(contours@, i as int);
            let packed = packed_anchors(c.anchors@, c.anchors@.len() as int);
            law_mixing_concatenates(base, before, c.points@);
            law_mixing_concatenates(base, before + c.points@, packed.0.push(packed.1));
            law_mixing_concatenates(base, before + c.points@ + packed.0.push(packed.1), counts@);
            assert(before + c.points@ + packed.0.push(packed.1) + counts@ =~= before + stroke_contour_words(*c));
        }
        i = i + 1;
    }
    h.finish()
}

/// Two chained 64-bit streams that together make a 128-bit key.
#[derive(Clone, Copy, Debug, PartialEq, Eq, Structural)]
pub struct ChainKey {
    /// The low stream.
    pub lo: u64,
    /// The high stream, which also takes in the low one.
    pub hi: u64,
}

/// A 64-bit word rotated left by 17 bits.
pub open spec fn rotate17(x: u64) -> u64 {
    (x << 17) | (x >> 47)
}

impl ChainKey {
    /// The streams before any word.
    pub open spec fn start() -> ChainKey {
        ChainKey { lo: 0xcbf2_9ce4_8422_2325, hi: 0x9e37_79b9_7f4a_7c15 }
    }

    /// The streams after one more word.
    pub open spec fn chained(self, word: u64) -> ChainKey {
        let lo = (self.lo ^ word).wrapping_mul(0x100_0000_01b3);
        ChainKey { lo, hi: (self.hi ^ rotate17(lo).wrapping_add(word)).wrapping_mul(0x9e37_79b1_85eb_ca87) }
    }

    /// The streams after a sequence of words.
    pub open spec fn chained_all(self, words: Seq<u64>) -> ChainKey
        decreases words.len(),
    {
        if words.len() == 0 {
            self
        } else {
            self.chained_all(words.drop_last()).chained(words.last())
        }
    }

    /// The key that the streams make.
    pub open spec fn key(self) -> u128 {
        ((self.hi as u128) << 64) | (self.lo as u128)
    }

    /// The streams before any word.
    pub fn new() -> (k: ChainKey)
        ensures
            k == ChainKey::start(),
    {
        ChainKey { lo: 0xcbf2_9ce4_8422_2325, hi: 0x9e37_79b9_7f4a_7c15 }
    }

    /// Takes in one word.
    pub fn mix(&mut self, word: u64)
        ensures
            *final(self) == old(self).chained(word),
    {
        let lo: u64 = (self.lo ^ word).wrapping_mul(0x100_0000_01b3);
        let turned: u64 = (lo << 17) | (lo >> 47);
        self.hi = (self.hi ^ turned.wrapping_add(word)).wrapping_mul(0x9e37_79b1_85eb_ca87);
        self.lo = lo;
    }

    /// Takes in a sequence of 32-bit words.
    pub fn mix_words(&mut self, words: &[u32])
        ensures
            *final(self) == old(self).chained_all(widened(words@)),
    {
        let ghost before = *self;
        let mut i: usize = 0;
        while i < words.len()
            invariant
                i <= words@.len(),
                *self == before.chained_all(widened(words@.take(i as int))),
            decreases words@.len() - i,
        {
            self.mix(words[i] as u64);
            assert(widened(words@.take(i + 1)).drop_last() =~= widened(words@.take(i as int)));
            assert(widened(words@.take(i + 1)).last() == words@[i as int] as u64);
            i = i + 1;
        }
        assert(words@.take(i as int) =~= words@);
    }

    /// The key of the words taken in.
    pub fn finish(&self) -> (k: u128)
        ensures
            k == self.key(),
    {
        ((self.hi as u128) << 64) | (self.lo as u128)
    }
}

/// Words widened to 64 bits.
pub open spec fn widened(words: Seq<u32>) -> Seq<u64> {
    words.map_values(|w: u32| w as u64)
}

/// Chaining two sequences one after the other is chaining their concatenation.
pub proof fn law_chaining_concatenates(k: ChainKey, a: Seq<u64>, b: Seq<u64>)
    ensures
        k.chained_all(a).chained_all(b) == k.chained_all(a + b),
    decreases b.len(),
{
    if b.len() == 0 {
        assert(a + b =~= a);
    } else {
        law_chaining_concatenates(k, a, b.drop_last());
        assert((a + b).drop_last() =~= a + b.drop_last());
    }
}

/// The key of geometry that is moved by a translation with the given coordinate bits. `still` is
/// true for the zero translation, which keeps the key.
pub fn translated_key(key: u128, still: bool, tx: u32, ty: u32) -> (k: u128)
    ensures
        k == if still {
            key
        } else {
            (ChainKey { lo: key as u64, hi: (key >> 64) as u64 }).chained(tx as u64).chained(ty as u64).key()
        },
{
    if still {
        return key;
    }
    let mut k: ChainKey = ChainKey { lo: key as u64, hi: (key >> 64) as u64 };
    k.mix(tx as u64);
    k.mix(ty as u64);
    k.finish()
}

/// The coordinate bits of the first `n` contours.
pub open spec fn contour_words(contours: Seq<Vec<u32>>, n: int) -> Seq<u64>
    decreases n,
{
    if n <= 0 {
        Seq::empty()
    } else {
        contour_words(contours, n - 1) + widened(contours[n - 1]@)
    }
}

/// The streams with the fill rule taken in.
pub open spec fn with_rule(k: ChainKey, rule: FillRule) -> ChainKey {
    match rule {
        FillRule::NonZero => k,
        FillRule::EvenOdd => ChainKey { lo: k.lo ^ 1, hi: k.hi },
    }
}

/// The cache key of evaluated geometry: the points' bits of every contour, the fill rule, the canvas
/// size, and whether edges are smoothed.
pub fn geometry_key(contours: &[Vec<u32>], rule: FillRule, width: usize, height: usize, antialias: bool) -> (k: u128)
    ensures
        k == with_rule(ChainKey::start().chained_all(contour_words(contours@, contours@.len() as int)), rule).chained(
            width as u64,
        ).chained(height as u64).chained(
            if antialias {
                1
            } else {
                0
            },
        ).key(),
{
    let mut k: ChainKey = ChainKey::new();
    let mut i: usize = 0;
    while i < contours.len()
        invariant
            i <= contours@.len(),
            k == ChainKey::start().chained_all(contour_words(contours@, i as int)),
        decreases contours@.len() - i,
    {
        k.mix_words(contours[i].as_slice());
        proof {
            law_chaining_concatenates(
                ChainKey::start(),
                contour_words(contours@, i as int),
                widened(contours@[i as int]@),
            );
        }
        i = i + 1;
    }
    match rule {
        FillRule::NonZero => {},
        FillRule::EvenOdd => {
            k.lo = k.lo ^ 1;
        },
    }
    k.mix(width as u64);
    k.mix(height as u64);
    k.mix(
        if antialias {
            1
        } else {
            0
        },
    );
    k.finish()
}

/// Whether two lists of words are the same.
pub(crate) fn same_words(a: &[u32], b: &[u32]) -> (r: bool)
    ensures
        r == (a@ == b@),
{
    if a.len() != b.len() {
        return false;
    }
    let n: usize = a.len();
    let mut i: usize = 0;
    while i < n
        invariant
            n == a@.len() == b@.len(),
            i <= n,
            forall|j: int| 0 <= j < i ==> a@[j] == b@[j],
        decreases n - i,
    {
        if a[i] != b[i] {
            return false;
        }
        i += 1;
    }
    assert(a@ =~= b@);
    true
}

/// No two rules, caps or joins are taken in as the same word.
pub proof fn law_styles_have_their_own_words(r: FillRule, s: FillRule, a: Cap, b: Cap, i: Join, j: Join)
    ensures
        rule_word(r) == rule_word(s) ==> r == s,
        cap_word(a) == cap_word(b) ==> a == b,
        join_word(i) == join_word(j) ==> i == j,
{
}

/// Canvases that differ in size, smoothing or clips differ in the words that they are taken in as.
pub proof fn law_canvases_are_told_apart(w: usize, h: usize, aa: bool, clip: Seq<u32>, w2: usize, h2: usize, aa2: bool, clip2: Seq<u32>)
    requires
        w <= u32::MAX && h <= u32::MAX && w2 <= u32::MAX && h2 <= u32::MAX,
        clip_words(w, h, aa, clip) == clip_words(w2, h2, aa2, clip2),
    ensures
        w == w2,
        h == h2,
        aa == aa2,
        clip == clip2,
{
    let (a, b) = (clip_words(w, h, aa, clip), clip_words(w2, h2, aa2, clip2));
    assert(a[0] == b[0] && a[1] == b[1] && a[2] == b[2]);
    assert(a.skip(3) =~= clip);
    assert(b.skip(3) =~= clip2);
}

/// Filled contours are taken in so that where one ends and the next begins can be told: two lists with
/// the same words have the same contours.
pub proof fn law_filled_contours_are_told_apart(a: Seq<ContourBits>, b: Seq<ContourBits>, n: int, m: int)
    requires
        0 <= n <= a.len(),
        0 <= m <= b.len(),
        forall|i: int|
            0 <= i < n ==> (#[trigger] a[i]).points@.len() % 2 == 0 && a[i].points@.len() <= u32::MAX,
        forall|i: int|
            0 <= i < m ==> (#[trigger] b[i]).points@.len() % 2 == 0 && b[i].points@.len() <= u32::MAX,
        fill_geometry_words(a, n) == fill_geometry_words(b, m),
    ensures
        n == m,
        forall|i: int| 0 <= i < n ==> (#[trigger] a[i]).points@ == b[i].points@,
    decreases n,
{
    let words = fill_geometry_words(a, n);
    if n == 0 {
        if m > 0 {
            assert(fill_geometry_words(b, m).len() > 0);
        }
    } else {
        assert(words.len() > 0);
        assert(m > 0);
        let (p, q) = (a[n - 1].points@, b[m - 1].points@);
        assert(words.last() == (p.len() / 2) as u32);
        assert(words.last() == (q.len() / 2) as u32);
        assert(p.len() == q.len());
        let k = (words.len() - p.len() - 1) as int;
        assert(fill_geometry_words(a, n - 1) =~= words.take(k));
        assert(fill_geometry_words(b, m - 1) =~= words.take(k));
        assert(p =~= words.subrange(k, words.len() - 1));
        assert(q =~= words.subrange(k, words.len() - 1));
        law_filled_contours_are_told_apart(a, b, n - 1, m - 1);
    }
}

/// A stroke's words tell its width, its limit, its cap, its join, its dashes and where they start.
pub proof fn law_strokes_are_told_apart(
    half_width: u32,
    miter_limit: u32,
    cap: Cap,
    join: Join,
    pattern: Seq<u32>,
    offset: u32,
    half_width2: u32,
    miter_limit2: u32,
    cap2: Cap,
    join2: Join,
    pattern2: Seq<u32>,
    offset2: u32,
)
    requires
        stroke_style_words(half_width, miter_limit, cap, join, pattern, offset)
            == stroke_style_words(half_width2, miter_limit2, cap2, join2, pattern2, offset2),
    ensures
        half_width == half_width2,
        miter_limit == miter_limit2,
        cap == cap2,
        join == join2,
        pattern == pattern2,
        offset == offset2,
        stroke_style_words(half_width, miter_limit, cap, join, pattern, offset)[0] == 2,
{
    let a = stroke_style_words(half_width, miter_limit, cap, join, pattern, offset);
    let b = stroke_style_words(half_width2, miter_limit2, cap2, join2, pattern2, offset2);
    assert(a[1] == b[1] && a[2] == b[2] && a[3] == b[3] && a[4] == b[4]);
    assert(a.last() == b.last());
    assert(a.len() == pattern.len() + 7 && b.len() == pattern2.len() + 7);
    assert(a.subrange(5, a.len() - 2) =~= pattern);
    assert(b.subrange(5, b.len() - 2) =~= pattern2);
}

/// A stroked contour's words tell its points, how many marks it has, and whether it is closed.
pub proof fn law_stroked_contours_end_with_their_counts(c: ContourBits)
    requires
        c.points@.len() <= u32::MAX,
        c.anchors@.len() <= u32::MAX,
    ensures
        ({
            let words = stroke_contour_words(c);
            let n = words.len() as int;
            &&& words.take(c.points@.len() as int) == c.points@
            &&& words[n - 1] == 1 <==> c.closed
            &&& words[n - 2] == c.points@.len() / 2
            &&& words[n - 3] == c.anchors@.len()
            &&& n == c.points@.len() + c.anchors@.len() / 32 + 4
        }),
{
    let words = stroke_contour_words(c);
    assert(words.take(c.points@.len() as int) =~= c.points@);
    lemma_packed_len(c.anchors@, c.anchors@.len() as int);
}

proof fn lemma_packed_len(anchors: Seq<bool>, n: int)
    requires
        0 <= n,
    ensures
        packed_anchors(anchors, n).0.len() == n / 32,
    decreases n,
{
    if n > 0 {
        lemma_packed_len(anchors, n - 1);
    }
}

/// A mark is taken in as one bit behind those before it: the last of up to 32 is the lowest bit.
pub proof fn law_marks_are_packed_bit_by_bit(anchors: Seq<bool>, n: int)
    requires
        0 < n <= anchors.len(),
    ensures
        n % 32 != 0 ==> {
            let bits = packed_anchors(anchors, n).1;
            &&& bits & 1 == 1 <==> anchors[n - 1]
            &&& packed_anchors(anchors, n).0 == packed_anchors(anchors, n - 1).0
        },
        n % 32 == 0 ==> {
            &&& packed_anchors(anchors, n).0.last() & 1 == 1 <==> anchors[n - 1]
            &&& packed_anchors(anchors, n).1 == 0
            &&& packed_anchors(anchors, n).0.drop_last() == packed_anchors(anchors, n - 1).0
        },
{
    let (full, bits) = packed_anchors(anchors, n - 1);
    assert((bits << 1) | 1 != (bits << 1) | 0 && ((bits << 1) | 1) & 1 == 1 && ((bits << 1) | 0) & 1
        == 0) by (bit_vector);
    let b: u32 = if anchors[n - 1] {
        1
    } else {
        0
    };
    assert(full.push((bits << 1) | b).drop_last() =~= full);
}

/// Words that differ leave streams that differ, and streams that differ are not brought together by a
/// word: one more word loses nothing.
pub proof fn law_words_are_not_lost(h: Hasher128, g: Hasher128, v: u32, w: u32)
    ensures
        h.mixed(v).h1 == h.mixed(w).h1 ==> v == w,
        h.mixed(w).h1 == g.mixed(w).h1 ==> h.h1 == g.h1,
        h.mixed(w).h2 == g.mixed(w).h2 ==> h.h2 == g.h2,
{
    let (a, b, x, y) = (h.h1, g.h1, v as u64, w as u64);
    lemma_odd_product_1(a ^ x, a ^ y);
    lemma_odd_product_1(a ^ y, b ^ y);
    assert(a ^ x == a ^ y ==> x == y) by (bit_vector);
    assert(a ^ y == b ^ y ==> a == b) by (bit_vector);
    let (c, d, z) = (h.h2, g.h2, swap_halves(w) as u64);
    lemma_odd_product_2(c ^ z, d ^ z);
    assert(c ^ z == d ^ z ==> c == d) by (bit_vector);
}

proof fn lemma_odd_product_1(x: u64, y: u64)
    ensures
        x.wrapping_mul(0x0000_0100_0000_01b3) == y.wrapping_mul(0x0000_0100_0000_01b3) ==> x == y,
{
    if x.wrapping_mul(0x0000_0100_0000_01b3) == y.wrapping_mul(0x0000_0100_0000_01b3) {
        lemma_unique_factor(x as int, y as int, 0x0000_0100_0000_01b3, 0xce96_5057_aff6_957b);
    }
}

proof fn lemma_odd_product_2(x: u64, y: u64)
    ensures
        x.wrapping_mul(0xff51_afd7_ed55_8ccd) == y.wrapping_mul(0xff51_afd7_ed55_8ccd) ==> x == y,
{
    if x.wrapping_mul(0xff51_afd7_ed55_8ccd) == y.wrapping_mul(0xff51_afd7_ed55_8ccd) {
        lemma_unique_factor(x as int, y as int, 0xff51_afd7_ed55_8ccd, 0x4f74_430c_22a5_4005);
    }
}

/// A factor that has an inverse can be divided out.
proof fn lemma_unique_factor(x: int, y: int, c: int, inverse: int)
    requires
        0 <= x < 0x1_0000_0000_0000_0000,
        0 <= y < 0x1_0000_0000_0000_0000,
        (x * c) % 0x1_0000_0000_0000_0000 == (y * c) % 0x1_0000_0000_0000_0000,
        (c * inverse) % 0x1_0000_0000_0000_0000 == 1,
    ensures
        x == y,
{
    let m = 0x1_0000_0000_0000_0000int;
    let (k, l, t) = ((x * c) / m, (y * c) / m, (c * inverse) / m);
    let d = x - y;
    vstd::arithmetic::div_mod::lemma_fundamental_div_mod(x * c, m);
    vstd::arithmetic::div_mod::lemma_fundamental_div_mod(y * c, m);
    vstd::arithmetic::div_mod::lemma_fundamental_div_mod(c * inverse, m);
    assert(d * c == m * (k - l)) by (nonlinear_arith)
        requires
            d == x - y,
            x * c - y * c == m * k - m * l,
    ;
    let u = (k - l) * inverse - d * t;
    assert(d == m * u) by (nonlinear_arith)
        requires
            d * c == m * (k - l),
            c * inverse == m * t + 1,
            u == (k - l) * inverse - d * t,
    ;
    assert(u == 0) by (nonlinear_arith)
        requires
            d == m * u,
            -m < d < m,
            m == 0x1_0000_0000_0000_0000int,
    ;
}

/// Swapping the halves of a word puts the upper one below and the lower one above.
pub proof fn law_halves_are_swapped(w: u32)
    ensures
        swap_halves(w) == (w % 0x1_0000) * 0x1_0000 + w / 0x1_0000,
        swap_halves(swap_halves(w)) == w,
{
    assert((w << 16) | (w >> 16) == (w % 0x1_0000) * 0x1_0000 + w / 0x1_0000) by (bit_vector);
    let v: u32 = (w << 16) | (w >> 16);
    assert((v << 16) | (v >> 16) == w) by (bit_vector)
        requires
            v == (w << 16) | (w >> 16),
    ;
}

/// An id is taken in word by word, the lower first.
pub proof fn law_ids_are_taken_in_word_by_word(id: u64)
    ensures
        id_words(id).len() == 2,
        id_words(id)[0] + 0x1_0000_0000 * id_words(id)[1] == id,
{
    assert(id as u32 == id % 0x1_0000_0000 && (id >> 32) as u32 == id / 0x1_0000_0000) by (bit_vector);
}

/// A key is taken in word by word, the lowest first.
pub proof fn law_keys_are_taken_in_word_by_word(key: u128)
    ensures
        key_words(key).len() == 4,
        key_words(key)[0] + 0x1_0000_0000 * key_words(key)[1] + 0x1_0000_0000_0000_0000 * key_words(
            key,
        )[2] + 0x1_0000_0000_0000_0000_0000_0000 * key_words(key)[3] == key,
{
    assert((key as u32) + 0x1_0000_0000 * ((key >> 32) as u32) + 0x1_0000_0000_0000_0000 * ((key
        >> 64) as u32) + 0x1_0000_0000_0000_0000_0000_0000 * ((key >> 96) as u32) == key)
        by (bit_vector);
}

/// Turning a word by 17 bits moves its upper 17 bits to the bottom.
pub proof fn law_words_are_turned_by_17_bits(x: u64)
    ensures
        rotate17(x) == (x % 0x8000_0000_0000) * 0x2_0000 + x / 0x8000_0000_0000,
{
    assert((x << 17) | (x >> 47) == (x % 0x8000_0000_0000) * 0x2_0000 + x / 0x8000_0000_0000) by (bit_vector);
}

/// The two streams of a key are its upper and its lower half.
pub proof fn law_keys_hold_both_streams(h: Hasher128, k: ChainKey)
    ensures
        h.key() == h.h1 * 0x1_0000_0000_0000_0000 + h.h2,
        k.key() == k.hi * 0x1_0000_0000_0000_0000 + k.lo,
{
    let (a, b, c, d) = (h.h1, h.h2, k.hi, k.lo);
    assert(((a as u128) << 64) | (b as u128) == a * 0x1_0000_0000_0000_0000 + b) by (bit_vector);
    assert(((c as u128) << 64) | (d as u128) == c * 0x1_0000_0000_0000_0000 + d) by (bit_vector);
}

/// The contours of evaluated geometry are taken in one after another, and the fill rule changes the key.
pub proof fn law_contours_are_taken_in_turn(contours: Seq<Vec<u32>>, n: int, k: ChainKey)
    requires
        0 < n <= contours.len(),
    ensures
        contour_words(contours, 0).len() == 0,
        contour_words(contours, n) == contour_words(contours, n - 1) + widened(contours[n - 1]@),
        with_rule(k, FillRule::NonZero) == k,
        with_rule(k, FillRule::EvenOdd) != k,
        with_rule(with_rule(k, FillRule::EvenOdd), FillRule::EvenOdd) == k,
{
    let a = k.lo;
    assert(a ^ 1 != a && (a ^ 1) ^ 1 == a) by (bit_vector);
}

} // verus!
