//! The plane cache: learning, freezing and relearning.

use tlottie::cov_cache::{
    CovCache, COV_CACHE_BUDGET, COV_ENTRY_MAX, COV_ENTRY_OVERHEAD, FREEZE_ERA_FRAMES,
};
use tlottie::plane::{CovEntry, PlaneData};

fn entry(bytes: usize) -> CovEntry {
    CovEntry { rows: Vec::new(), data: PlaneData::Cov(vec![0u8; bytes]) }
}

fn cache(budget: usize) -> CovCache {
    CovCache::with_budget(budget)
}

#[test]
fn fitting_set_never_freezes() {
    let mut c = cache(1 << 20);
    for loop_pass in 0..3 {
        for k in 0..40u128 {
            if c.get(k).is_none() {
                assert_eq!(loop_pass, 0, "warm loops must hit");
                c.insert(k, entry(4 << 10));
            }
        }
        for _ in 0..60 {
            c.frame_tick();
        }
    }
    assert!(c.capture_enabled());
    assert!(c.hits >= 80, "two warm loops of 40 keys");
}

#[test]
fn oversized_loop_freezes_and_keeps_resident_hits() {
    let mut c = cache(64 << 10);
    let mut warm_hits = 0u32;
    for loop_pass in 0..4 {
        for k in 0..40u128 {
            if c.get(k).is_some() {
                if loop_pass > 0 {
                    warm_hits += 1;
                }
            } else {
                c.insert(k, entry(4 << 10));
            }
        }
        for _ in 0..45 {
            c.frame_tick();
        }
    }
    assert!(c.frozen, "over-budget periodic loop must freeze");
    assert!(warm_hits > 0, "frozen slice must replay across loops");
    assert!(
        !c.young.is_empty() || !c.old.is_empty(),
        "productive frozen set survived the era check"
    );
}

#[test]
fn dead_frozen_set_clears_and_relearns() {
    let mut c = cache(64 << 10);
    for k in 0..40u128 {
        c.insert(k, entry(4 << 10));
    }
    assert!(c.frozen, "overflow x2 freezes");
    for _ in 0..FREEZE_ERA_FRAMES {
        c.frame_tick();
    }
    assert!(!c.frozen, "dead set unfreezes");
    assert!(c.young.is_empty() && c.old.is_empty(), "dead set cleared");
    c.insert(1000, entry(4 << 10));
    assert!(c.get(1000).is_some());
}

#[test]
fn learning_old_hits_are_in_place() {
    let mut c = cache(1 << 20);
    for k in 0..70u128 {
        c.insert(k, entry(8 << 10));
    }
    assert_eq!(c.rotations, 1);
    assert!(!c.frozen);
    let yb = c.young_bytes;
    let olen = c.old.len();
    for _ in 0..3 {
        for k in 0..70u128 {
            c.get(k);
        }
    }
    assert_eq!(c.young_bytes, yb, "no promote re-accounting");
    assert_eq!(c.old.len(), olen, "old generation untouched");
    assert!(!c.frozen, "hits alone must not push toward freeze");
}

#[test]
fn frozen_hits_do_not_promote() {
    let mut c = cache(64 << 10);
    for k in 0..40u128 {
        c.insert(k, entry(4 << 10));
    }
    assert!(c.frozen);
    let yb = c.young_bytes;
    let ylen = c.young.len();
    let olen = c.old.len();
    for _ in 0..3 {
        for k in 0..40u128 {
            c.get(k);
        }
    }
    assert_eq!(c.young_bytes, yb);
    assert_eq!(c.young.len(), ylen);
    assert_eq!(c.old.len(), olen);
}

#[test]
fn oversized_entries_are_not_kept() {
    let mut c = cache(COV_CACHE_BUDGET);
    c.insert(1, entry(COV_ENTRY_MAX + 1));
    assert!(!c.contains(1));
    c.insert(2, entry(16));
    assert!(c.contains(2));
    assert_eq!(c.inserts, 1);
}

#[test]
fn planes_are_accounted_by_what_they_set_aside() {
    let mut data: Vec<u8> = Vec::with_capacity(1000);
    data.push(7);
    let e = CovEntry { rows: Vec::new(), data: PlaneData::Cov(data) };
    assert!(CovCache::size_of(&e) >= 1000 + COV_ENTRY_OVERHEAD);
}

#[test]
fn planes_of_large_canvases_give_their_slack_back() {
    let mut data: Vec<u8> = Vec::with_capacity(100_000);
    data.extend_from_slice(&[1, 2, 3]);
    let mut c = cache(1 << 20);
    c.set_budget_for_canvas(320, 320);
    c.insert(5, CovEntry { rows: vec![(0, 0, 3)], data: PlaneData::Cov(data) });
    let kept = c.get(5).unwrap();
    assert_eq!(kept.rows, vec![(0, 0, 3)]);
    match &kept.data {
        PlaneData::Cov(bytes) => {
            assert_eq!(bytes, &vec![1, 2, 3]);
            assert!(bytes.capacity() < 100_000);
        }
        _ => panic!("expected coverage"),
    }
    assert!(c.young_bytes >= 100_000, "accounted before the slack went");
}

#[test]
fn budget_follows_the_canvas() {
    let mut c = cache(1);
    c.set_budget_for_canvas(64, 64);
    let small = c.budget;
    c.set_budget_for_canvas(720, 720);
    let large = c.budget;
    assert_ne!(small, 1);
    assert_ne!(large, 1);
}
