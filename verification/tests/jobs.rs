//! Recorded paints: replay, still layers, and what they cost.

use tlottie::canvas::Paint;
use tlottie::composition::Composition;
use tlottie::cov_cache::CovCache;
use tlottie::dirty::DirtyBox;
use tlottie::fill::fill_spans;
use tlottie::jobs::{materialize, replay_jobs, JobsCache, ReplayJob, Source, JOBS_CACHE_CAP};
use tlottie::limits::Limits;
use tlottie::spans::pack_span;
use tlottie::static_jobs::{
    count_bytes, list_tables, parametric, static_jobs_bytes, Approach, JobSize, StaticContext, StaticJobCache, UnitSizes,
    PARAMETRIC_MAX_EXTENT, STATIC_JOB_CACHE_BYTES, STATIC_JOB_CACHE_ENTRIES,
    STATIC_JOB_ENTRY_BYTES,
};
use tlottie::still::shapes_static;

fn solid(key: u128) -> ReplayJob<'static> {
    ReplayJob::Solid { key, sr: 255, sg: 0, sb: 0, sa: 255 }
}

fn context(layer: u64, matrix: Vec<u32>) -> StaticContext {
    StaticContext {
        composition: 1,
        layer,
        matrix,
        opacity: 3,
        color: vec![0],
        width: 4,
        height: 5,
        antialias: true,
        curve_tolerance: 6,
        clip: vec![],
    }
}

#[test]
fn recorded_paints_are_replayed_whole_or_not_at_all() {
    let mut cache = CovCache::with_budget(0);
    let mut pixels = vec![0u32; 4];
    let mut b = DirtyBox::empty();
    let red = Paint::Solid { sr: 255, sg: 0, sb: 0, sa: 255 };
    fill_spans(&mut cache, 1, &mut pixels, &mut b, 2, &[pack_span(0, 0, 2, 255)], &red);
    let painted = pixels.clone();

    let mut pixels = vec![0u32; 4];
    let mut b = DirtyBox::empty();
    assert!(!replay_jobs(&mut cache, &[solid(1), solid(2)], &mut pixels, &mut b, 2));
    assert_eq!(pixels, vec![0; 4]);
    assert!(b.is_empty());
    assert_eq!(cache.hits, 0);
    assert!(replay_jobs(&mut cache, &[solid(1), solid(1)], &mut pixels, &mut b, 2));
    assert_eq!(pixels, painted);
    assert_eq!(cache.hits, 2);
    assert!(!cache.pinned);
}

#[test]
fn gradients_are_replayed_from_their_coverage() {
    let mut cache = CovCache::with_budget(0);
    let lut = [0xff10_2030, 0xff40_5060];
    let index = [0, 1, 0, 1];
    let paint = Paint::Gradient { lut: &lut, index: &index };
    let mut painted = vec![0u32; 4];
    let mut b = DirtyBox::empty();
    fill_spans(&mut cache, 1, &mut painted, &mut b, 2, &[pack_span(0, 0, 2, 200)], &paint);
    for round in 0..2 {
        let jobs = [ReplayJob::Gradient { key: 1, src_key: 2, lut: &lut, index: &index }];
        let mut pixels = vec![0u32; 4];
        assert_eq!(cache.contains(2), round == 1);
        assert!(replay_jobs(&mut cache, &jobs, &mut pixels, &mut b, 2));
        assert_eq!(pixels, painted);
    }
}

#[test]
fn paints_are_recorded_the_second_time() {
    let mut jobs: JobsCache<u8> = JobsCache::new();
    assert!(!jobs.should_record(1, false));
    assert!(jobs.should_record(1, false));
    assert!(jobs.should_record(2, true));
    assert!(jobs.recorded(1).is_none());
    jobs.record(1, vec![7]);
    assert_eq!(jobs.recorded(1), Some(&vec![7]));
    for k in 0..JOBS_CACHE_CAP as u128 {
        jobs.record(100 + k, vec![]);
    }
    assert!(jobs.recorded(1).is_none(), "a full cache starts anew");
}

#[test]
fn outlines_are_needed_once() {
    let mut cache = CovCache::with_budget(0);
    assert_eq!(materialize(&cache, 1, None, 1, 0, false), Source::Fresh { solo: true });
    assert_eq!(materialize(&cache, 1, Some(2), 1, 2, false), Source::Fresh { solo: false });
    assert_eq!(materialize(&cache, 1, None, 2, 0, false), Source::Fresh { solo: false });
    let mut b = DirtyBox::empty();
    let red = Paint::Solid { sr: 255, sg: 0, sb: 0, sa: 255 };
    fill_spans(&mut cache, 2, &mut [0, 0], &mut b, 2, &[pack_span(0, 0, 2, 255)], &red);
    assert_eq!(materialize(&cache, 2, None, 1, 0, false), Source::Cached);
    assert_eq!(materialize(&cache, 1, Some(2), 1, 0, false), Source::Cached);
    assert_eq!(materialize(&cache, 2, None, 1, 0, true), Source::Fresh { solo: true });
}

#[test]
fn still_layers_are_replayed_for_their_own_context() {
    let mut cache: StaticJobCache<u8> = StaticJobCache::new();
    let sig = context(1, vec![1, 2]).signature();
    assert_ne!(sig, context(2, vec![1, 2]).signature());
    assert_ne!(sig, context(1, vec![2, 1]).signature());
    assert!(context(1, vec![1, 2]).same(&context(1, vec![1, 2])));
    assert!(!context(1, vec![1, 2]).same(&context(1, vec![1])));
    assert!(!cache.should_record(sig));
    assert!(cache.should_record(sig));
    assert!(!cache.should_record(sig), "a signature that was taken is met anew");
    cache.insert(sig, context(1, vec![1, 2]), vec![7, 8], 100);
    assert_eq!(cache.replay(sig, &context(1, vec![1, 2])), Some(&vec![7, 8]));
    assert_eq!(cache.replay(sig, &context(1, vec![9])), None, "one signature, two contexts");
    assert_eq!(cache.replay(sig + 1, &context(1, vec![1, 2])), None);
    cache.insert(sig, context(1, vec![1, 2]), vec![9], 40);
    assert_eq!(cache.bytes, 40);
}

#[test]
fn still_layers_keep_their_limits() {
    let mut cache: StaticJobCache<u8> = StaticJobCache::new();
    cache.insert(1, context(1, vec![]), vec![1], STATIC_JOB_ENTRY_BYTES + 1);
    assert!(cache.replay(1, &context(1, vec![])).is_none());
    assert!(!cache.should_record(1));
    assert!(!cache.should_record(1), "not worth recording");
    let per = STATIC_JOB_CACHE_BYTES / STATIC_JOB_ENTRY_BYTES;
    for k in 0..per as u128 {
        cache.insert(10 + k, context(1, vec![]), vec![1], STATIC_JOB_ENTRY_BYTES);
    }
    assert_eq!(cache.bytes, STATIC_JOB_CACHE_BYTES);
    cache.insert(99, context(1, vec![]), vec![1], 1);
    assert!(cache.replay(99, &context(1, vec![])).is_none());
    assert_eq!(cache.known_static(5), None);
    cache.note_static(5, true);
    assert_eq!(cache.known_static(5), Some(true));
    for k in 0..STATIC_JOB_CACHE_ENTRIES as u128 {
        cache.note_static(1000 + k, false);
    }
    assert_eq!(cache.known_static(5), None);
}

#[test]
fn still_layers_are_counted_exactly() {
    let mut cache: StaticJobCache<u8> = StaticJobCache::new();
    for (signature, bytes) in [(1, 100), (2, 20), (3, 3), (2, 7)] {
        cache.insert(signature, context(1, vec![]), vec![1], bytes);
    }
    assert_eq!(cache.bytes, 100 + 7 + 3);
    assert_eq!(cache.entries.values().map(|layer| layer.bytes).sum::<usize>(), cache.bytes);
    cache.insert(3, context(1, vec![]), vec![1], STATIC_JOB_ENTRY_BYTES + 1);
    assert_eq!(cache.bytes, 110, "what is too large leaves the older entry");
    for k in 0..2 * STATIC_JOB_CACHE_ENTRIES as u128 {
        assert!(!cache.should_record(1000 + k));
        assert!(cache.seen.len() <= STATIC_JOB_CACHE_ENTRIES);
    }
}

#[test]
fn still_layers_are_walked_recorded_and_replayed() {
    let mut cache: StaticJobCache<u8> = StaticJobCache::new();
    let c = context(1, vec![1]);
    let sig = c.signature();
    assert_eq!(cache.approach(false, sig, &c), Approach::Walk);
    assert_eq!(cache.approach(true, sig, &c), Approach::Walk);
    assert_eq!(cache.approach(true, sig, &c), Approach::Record);
    cache.insert(sig, context(1, vec![1]), vec![7], 10);
    assert_eq!(cache.approach(true, sig, &c), Approach::Replay);
    assert_eq!(cache.approach(true, sig, &context(1, vec![2])), Approach::Walk);
    assert_eq!(cache.approach(false, sig, &c), Approach::Walk);
    let n = PARAMETRIC_MAX_EXTENT;
    assert!(parametric(true, 0, n, n));
    assert!(!parametric(false, 0, n, n));
    assert!(!parametric(true, 1, n, n));
    assert!(!parametric(true, 0, n, n + 1));
    assert!(cache.layer_is_static(1, &Vec::new()));
    cache.note_static(2, false);
    assert!(!cache.layer_is_static(2, &Vec::new()), "looked at once");
}

#[test]
fn shared_tables_are_counted_once() {
    let units = UnitSizes {
        entry: 1000,
        clip: 100,
        job: 10,
        contour: 7,
        point: 5,
        anchor: 3,
        lut: 4096,
        table: 8,
    };
    let job = |lut: Option<u64>| JobSize { contours: 2, points: 4, anchors: 1, lut };
    let jobs = [job(None), job(Some(1)), job(Some(2)), job(Some(1))];
    assert_eq!(list_tables(&jobs), vec![1, 2]);
    let bytes = 1000 + 300 + 80 + 4 * (14 + 20 + 3) + 2 * 4096;
    assert_eq!(count_bytes(3, 8, 0, &jobs, &units), bytes);
    assert_eq!(count_bytes(3, 8, 4, &jobs, &units), bytes + 32);
    let counted = static_jobs_bytes(3, 8, &jobs, &units);
    assert!(counted >= bytes + 16 && (counted - bytes) % 8 == 0, "the list of tables has its room");
    assert_eq!(static_jobs_bytes(3, 8, &jobs[..1], &units), 1000 + 300 + 80 + 37);
    let huge = UnitSizes { entry: usize::MAX, ..units };
    assert_eq!(static_jobs_bytes(3, 8, &jobs, &huge), usize::MAX);
}

fn shapes_are_static(shapes: &str) -> bool {
    let json = format!(
        r#"{{"fr":30,"ip":0,"op":30,"w":9,"h":9,"layers":[{{"ty":4,"shapes":[{shapes}]}}]}}"#
    );
    match Composition::parse(json.as_bytes(), &Limits::default()) {
        Ok(c) => shapes_static(&c.layers[0].shapes),
        Err(e) => panic!("refused: {e:?}"),
    }
}

#[test]
fn a_keyframe_anywhere_moves_a_layer() {
    let keys = r#"{"a":1,"k":[{"t":0,"s":[1]},{"t":9,"s":[2]}]}"#;
    let still = r#"{"a":0,"k":[1]}"#;
    for (shape, member) in [
        ("rc", "s"),
        ("el", "p"),
        ("sr", "or"),
        ("rd", "r"),
        ("tm", "o"),
        ("fl", "o"),
        ("st", "w"),
        ("gf", "h"),
        ("gs", "w"),
        ("rp", "c"),
    ] {
        let with = |v: &str| format!(r#"{{"ty":"{shape}","{member}":{v}}}"#);
        assert!(shapes_are_static(&with(still)), "{shape}");
        assert!(!shapes_are_static(&with(keys)), "{shape}");
        let group = |v: &str| format!(r#"{{"ty":"gr","it":[{}]}}"#, with(v));
        assert!(shapes_are_static(&group(still)), "{shape}");
        assert!(!shapes_are_static(&group(keys)), "{shape}");
    }
    assert!(shapes_are_static(r#"{"ty":"gr","it":[{"ty":"tr","r":{"a":0,"k":5}}]}"#));
    assert!(!shapes_are_static(&format!(r#"{{"ty":"gr","it":[{{"ty":"tr","r":{keys}}}]}}"#)));
    for member in ["p", "s", "r", "o", "sk", "sa", "so", "eo"] {
        let repeater = |v: &str| format!(r#"{{"ty":"rp","tr":{{"{member}":{v}}}}}"#);
        assert!(shapes_are_static(&repeater(still)), "{member}");
        assert!(!shapes_are_static(&repeater(keys)), "{member}");
    }
    assert!(!shapes_are_static(&format!(r#"{{"ty":"st","d":[{{"n":"d","v":{keys}}}]}}"#)));
    assert!(shapes_are_static(""));
}
