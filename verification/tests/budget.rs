//! What one frame may cost.

use std::collections::HashMap;
use tlottie::budget::{
    canvas_size, capped_mul, charge, find_layer, parent_chain, segment_count, segment_end, Budget,
    Guard, Outline, PaintKind,
};
use tlottie::composition::Composition;
use tlottie::error::{Error, Limit};
use tlottie::limits::Limits;

fn compose(json: &str) -> Composition {
    match Composition::parse(json.as_bytes(), &Limits::default()) {
        Ok(c) => c,
        Err(e) => panic!("refused: {e:?}"),
    }
}

#[test]
fn nested_surfaces_stop_before_backend_allocation() {
    let mut saves = 0;
    let mut guarded = Guard::new(1024, 1024, HashMap::new());
    for _ in 0..100 {
        if guarded.save_layer() {
            saves += 1;
        }
    }
    assert_eq!(guarded.status(), Err(Error::LimitExceeded(Limit::RenderMemory)));
    assert!(saves < 100);
}

#[test]
fn cached_geometry_still_consumes_pixel_budget() {
    let mut draws = 0;
    let mut guarded = Guard::new(1024, 1024, HashMap::new());
    for _ in 0..100 {
        if guarded.draw(1, Outline::Measured { work: 0, area: None }, PaintKind::Solid) {
            draws += 1;
        }
    }
    assert_eq!(guarded.status(), Err(Error::LimitExceeded(Limit::RenderWork)));
    assert_eq!(draws, 64);
}

#[test]
fn cached_coverage_is_charged_for_the_current_gradient_kind() {
    let mut guarded = Guard::new(1024, 1024, HashMap::new());
    guarded.draw(1, Outline::Measured { work: 4, area: Some((1024, 1024)) }, PaintKind::Solid);
    assert_eq!(guarded.status(), Ok(()));
    let costs = guarded.pixel_costs;
    for (kind, expected_draws) in
        [(PaintKind::Linear, 8), (PaintKind::Radial, 4), (PaintKind::Focal, 2)]
    {
        let mut draws = 0;
        let mut guarded = Guard::new(1024, 1024, costs.clone());
        for _ in 0..10 {
            if guarded.draw(1, Outline::Measured { work: 0, area: None }, kind) {
                draws += 1;
            }
        }
        assert_eq!(guarded.status(), Err(Error::LimitExceeded(Limit::RenderWork)));
        assert_eq!(draws, expected_draws);
    }
}

#[test]
fn charges_stop_at_the_maximum() {
    let mut counter = 3;
    assert_eq!(charge(&mut counter, 4, 7, Limit::RenderWork), Ok(()));
    assert_eq!(counter, 7);
    assert_eq!(
        charge(&mut counter, 1, 7, Limit::RenderWork),
        Err(Error::LimitExceeded(Limit::RenderWork))
    );
    assert_eq!(counter, 7);
    assert_eq!(capped_mul(usize::MAX, 2), usize::MAX);
    assert_eq!(capped_mul(6, 7), 42);
}

#[test]
fn canvases_have_a_size() {
    assert_eq!(canvas_size(3, 5), Ok(15));
    assert!(canvas_size(0, 5).is_err());
    assert!(canvas_size(8193, 1).is_err());
}

#[test]
fn paths_are_charged_by_their_segments() {
    assert_eq!(segment_count(0, true), 0);
    assert_eq!(segment_count(4, true), 4);
    assert_eq!(segment_count(4, false), 3);
    assert_eq!(segment_end(3, 4), 0);
    assert_eq!(segment_end(1, 4), 2);
    let mut budget = Budget::new();
    let counts = [Some(4), Some(2), Some(1)];
    assert_eq!(budget.path(3, 3, 3, &counts), Ok(()));
    assert!(budget.points > 0);
    assert_eq!(
        budget.path(3, 3, 3, &[None]),
        Err(Error::LimitExceeded(Limit::PathCoordinate))
    );
    let limits = Limits::default();
    assert_eq!(
        Budget::new().path(limits.max_path_points + 1, 0, 0, &[]),
        Err(Error::LimitExceeded(Limit::PathPoints))
    );
}

#[test]
fn frames_expand_only_so_far() {
    let limits = Limits::default();
    let mut budget = Budget::new();
    assert_eq!(budget.layers(limits.max_precomp_expansion), Ok(()));
    assert_eq!(budget.layers(1), Err(Error::LimitExceeded(Limit::PrecompExpansion)));
    assert_eq!(
        Budget::new().points(limits.max_render_points + 1),
        Err(Error::LimitExceeded(Limit::RenderGeometry))
    );
    assert_eq!(
        Budget::new().work(limits.max_render_work + 1),
        Err(Error::LimitExceeded(Limit::RenderWork))
    );
}

#[test]
fn parents_are_followed_to_the_root() {
    let comp = compose(
        r#"{"fr":30,"ip":0,"op":30,"w":9,"h":9,"layers":[
            {"ty":3,"ind":1,"parent":2},{"ty":3,"ind":2,"parent":3},{"ty":3,"ind":3}]}"#,
    );
    assert_eq!(find_layer(&comp.layers, 3), Some(2));
    assert_eq!(find_layer(&comp.layers, 9), None);
    assert_eq!(parent_chain(&comp.layers, &comp.layers[0]), vec![1, 2]);
    assert_eq!(Budget::new().parents(&comp.layers, &comp.layers[0]), Ok(vec![1, 2]));
    assert_eq!(parent_chain(&comp.layers, &comp.layers[2]), Vec::<usize>::new());
}

#[test]
fn circular_parents_are_refused() {
    let comp = compose(
        r#"{"fr":30,"ip":0,"op":30,"w":9,"h":9,"layers":[
            {"ty":3,"ind":1,"parent":2},{"ty":3,"ind":2,"parent":1}]}"#,
    );
    assert_eq!(
        Budget::new().parents(&comp.layers, &comp.layers[0]),
        Err(Error::LimitExceeded(Limit::ParentChainDepth))
    );
    assert!(parent_chain(&comp.layers, &comp.layers[0]).len() <= comp.layers.len());
}

#[test]
fn shapes_are_charged_before_they_are_evaluated() {
    let comp = compose(
        r#"{"fr":30,"ip":0,"op":30,"w":9,"h":9,"layers":[{"ty":4,"shapes":[
            {"ty":"gr","it":[{"ty":"rc"},{"ty":"st","d":[{"n":"d","v":{"a":0,"k":3}}]}]}]}]}"#,
    );
    let mut budget = Budget::new();
    assert_eq!(budget.shape_tree(&comp.layers[0].shapes, 0), Ok(()));
    assert!(budget.work > 0);
}

#[test]
fn weights_grow_with_the_paint() {
    let weights = [PaintKind::Solid, PaintKind::Linear, PaintKind::Radial, PaintKind::Focal]
        .map(|k| k.pixel_weight());
    assert_eq!(weights, [1, 8, 16, 32]);
}

#[test]
fn the_first_error_stays() {
    let mut guard = Guard::new(8, 8, HashMap::new());
    let small = Outline::Measured { work: 1, area: Some((1, 1)) };
    assert!(guard.accept(Ok(())));
    assert!(guard.draw(1, small, PaintKind::Solid));
    assert_eq!(guard.status(), Ok(()));
    assert!(!guard.draw(1, Outline::NotFinite, PaintKind::Solid));
    let first = Err(Error::LimitExceeded(Limit::PathCoordinate));
    assert_eq!(guard.status(), first);
    assert!(!guard.draw(1, small, PaintKind::Solid));
    assert!(!guard.apply_mask(1, small));
    assert!(!guard.save_layer());
    assert!(!guard.end_layer(false));
    assert!(!guard.end_layer(true));
    assert!(!guard.accept(Ok(())));
    assert!(!guard.accept(Err(Error::Empty)));
    assert_eq!(guard.status(), first);
}

#[test]
fn every_part_of_a_repeater_is_charged() {
    let work = |tr: &str| {
        let comp = compose(&format!(
            r#"{{"fr":30,"ip":0,"op":30,"w":9,"h":9,"layers":[{{"ty":4,"shapes":[{{"ty":"rp","tr":{tr}}}]}}]}}"#
        ));
        let mut budget = Budget::new();
        assert_eq!(budget.shape_tree(&comp.layers[0].shapes, 0), Ok(()));
        budget.work
    };
    let keys = r#"{"a":1,"k":[{"t":0,"s":[1]},{"t":9,"s":[2]}]}"#;
    let plain = work("{}");
    let one = work(&format!(r#"{{"r":{keys}}}"#)) - plain;
    assert!(one > 0);
    for member in ["a", "p", "s", "o", "sk", "sa", "so", "eo"] {
        assert_eq!(work(&format!(r#"{{"{member}":{keys}}}"#)), plain + one, "{member}");
    }
    let all = format!(r#"{{"o":{keys},"sk":{keys},"sa":{keys}}}"#);
    assert_eq!(work(&all), plain + 3 * one);
}
