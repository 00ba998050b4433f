//! Keys.

use tlottie::hash::{
    clip_sig, content_hash, fill_key, geometry_key, lut_id, replay_key, src_key_of, stroke_key,
    translated_key, ChainKey, ContourBits, Hasher128,
};
use tlottie::style::{Cap, FillRule, Join};

fn contour(points: &[u32], closed: bool) -> ContourBits {
    ContourBits { points: points.to_vec(), anchors: vec![true; points.len() / 2], closed }
}

#[test]
fn mixing_in_turn_is_mixing_at_once() {
    let mut a = Hasher128::new();
    a.mix(1);
    a.mix(2);
    a.mix(3);
    let mut b = Hasher128::new();
    b.mix_all(&[1, 2]);
    b.mix_all(&[3]);
    assert_eq!(a.finish(), b.finish());
    let mut c = Hasher128::new();
    c.mix_all(&[2, 1, 3]);
    assert_ne!(a.finish(), c.finish());
    let mut d = ChainKey::new();
    d.mix(7);
    d.mix_words(&[8, 9]);
    let mut e = ChainKey::new();
    e.mix(7);
    e.mix_words(&[8]);
    e.mix_words(&[9]);
    assert_eq!(d.finish(), e.finish());
}

#[test]
fn keys_tell_paints_apart() {
    let sig = || clip_sig(64, 64, true, &[]);
    let base = fill_key(sig(), FillRule::NonZero, &[contour(&[1, 2, 3, 4], true)]);
    assert_eq!(base, fill_key(sig(), FillRule::NonZero, &[contour(&[1, 2, 3, 4], true)]));
    let others = [
        fill_key(sig(), FillRule::EvenOdd, &[contour(&[1, 2, 3, 4], true)]),
        fill_key(sig(), FillRule::NonZero, &[contour(&[1, 2, 3, 5], true)]),
        fill_key(sig(), FillRule::NonZero, &[contour(&[1, 2], true), contour(&[3, 4], true)]),
        fill_key(clip_sig(64, 64, false, &[]), FillRule::NonZero, &[contour(&[1, 2, 3, 4], true)]),
        fill_key(clip_sig(64, 65, true, &[]), FillRule::NonZero, &[contour(&[1, 2, 3, 4], true)]),
        fill_key(clip_sig(64, 64, true, &[9]), FillRule::NonZero, &[contour(&[1, 2, 3, 4], true)]),
        stroke_key(sig(), 1, 2, Cap::Butt, Join::Miter, &[], 0, &[contour(&[1, 2, 3, 4], true)]),
    ];
    for k in others {
        assert_ne!(k, base);
    }
    let stroke = |cap, join, closed| {
        stroke_key(sig(), 1, 2, cap, join, &[5], 6, &[contour(&[1, 2, 3, 4], closed)])
    };
    let a = stroke(Cap::Butt, Join::Miter, true);
    assert_ne!(a, stroke(Cap::Round, Join::Miter, true));
    assert_ne!(a, stroke(Cap::Butt, Join::Round, true));
    assert_ne!(a, stroke(Cap::Butt, Join::Miter, false));
}

#[test]
fn keys_of_painted_pixels_hold_all_parts() {
    let map = content_hash(&[1, 2, 3, 4, 5, 6], &[7], 2);
    assert_ne!(map, content_hash(&[1, 2, 3, 4, 5, 6], &[7], 3));
    let lut = lut_id(2, 3, &[4, 5]);
    assert_ne!(lut, lut_id(2, 3, &[4]));
    let k = src_key_of(1 << 100, lut, map);
    assert_ne!(k, src_key_of(1, lut, map));
    assert_ne!(k, src_key_of(1 << 100, lut ^ 1, map));
    assert_ne!(k, src_key_of(1 << 100, lut, map ^ 1));
}

#[test]
fn moved_outlines_have_other_keys() {
    assert_eq!(translated_key(77, true, 0, 0), 77);
    let moved = translated_key(77, false, 1, 2);
    assert_ne!(moved, 77);
    assert_ne!(moved, translated_key(77, false, 2, 1));
    let g = geometry_key(&[vec![1, 2], vec![3]], FillRule::NonZero, 4, 5, true);
    let (mut lo, mut hi) = (0xcbf2_9ce4_8422_2325u64, 0x9e37_79b9_7f4a_7c15u64);
    for word in [1u64, 2, 3, 4, 5, 1] {
        lo = (lo ^ word).wrapping_mul(0x100_0000_01b3);
        hi ^= lo.rotate_left(17).wrapping_add(word);
        hi = hi.wrapping_mul(0x9e37_79b1_85eb_ca87);
    }
    assert_eq!(g, (u128::from(hi) << 64) | u128::from(lo));
    assert_ne!(g, geometry_key(&[vec![1, 2], vec![3]], FillRule::EvenOdd, 4, 5, true));
    assert_ne!(g, geometry_key(&[vec![1, 2], vec![3]], FillRule::NonZero, 5, 4, true));
    assert_ne!(g, geometry_key(&[vec![1, 2], vec![3]], FillRule::NonZero, 4, 5, false));
}

#[test]
fn layers_are_keyed_by_place_and_id() {
    let sig = || clip_sig(64, 64, true, &[]);
    let base = replay_key(sig(), [1, 2, 3, 4, 5, 6], 7, 9 << 32 | 8);
    let mut h = sig();
    h.mix_all(&[4, 1, 2, 3, 4, 5, 6, 7, 8, 9]);
    assert_eq!(base, h.finish());
    for k in [
        replay_key(sig(), [1, 2, 3, 4, 5, 7], 7, 9 << 32 | 8),
        replay_key(sig(), [1, 2, 3, 4, 5, 6], 8, 9 << 32 | 8),
        replay_key(sig(), [1, 2, 3, 4, 5, 6], 7, 8 << 32 | 9),
        replay_key(clip_sig(64, 64, true, &[1]), [1, 2, 3, 4, 5, 6], 7, 9 << 32 | 8),
    ] {
        assert_ne!(k, base);
    }
}
