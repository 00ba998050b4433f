//! Layer plans, visibility, assets, masks and colors.

use tlottie::composition::{find_override, Composition};
use tlottie::limits::Limits;
use tlottie::number::Number;
use tlottie::options::{FitzModifier, LayerColorReplacement, ParseOptions};
use tlottie::plan::{
    decide_draw, find_asset, find_shown_asset, is_complex, layer_visible, mask_steps, plan_layers,
    Draw, LayerFacts, LayerOp, MaskStep, MAX_PRECOMP_DEPTH,
};
use tlottie::style::{fill_rule, rule_of, FillRule, Rule};

fn compose(layers: &str, assets: &str) -> Composition {
    let json = format!(
        r#"{{"fr":30,"ip":0,"op":30,"w":9,"h":9,"layers":[{layers}],"assets":[{assets}]}}"#
    );
    match Composition::parse(json.as_bytes(), &Limits::default()) {
        Ok(c) => c,
        Err(e) => panic!("refused: {e:?}"),
    }
}

fn plain() -> LayerFacts {
    LayerFacts {
        visible: true,
        opacity: 255,
        own_opacity: 255,
        faded: false,
        matte: 0,
        matte_src: false,
        masked: false,
        complex: false,
        many_paints: false,
    }
}

fn number(tenths: u32) -> Number {
    let digits = tenths.to_string().bytes().map(|b| b - b'0').collect();
    Number::new(false, digits, -1).unwrap()
}

#[test]
fn layers_are_drawn_from_the_bottom() {
    let content = |layer: usize, whole: bool| LayerOp::Content { layer, whole };
    assert_eq!(plan_layers(&[plain(), plain()], 0), vec![content(1, false), content(0, false)]);
    assert_eq!(plan_layers(&[plain()], MAX_PRECOMP_DEPTH), vec![content(0, false)]);
    assert_eq!(plan_layers(&[plain()], MAX_PRECOMP_DEPTH + 1), vec![]);
    let hidden = LayerFacts { visible: false, ..plain() };
    let clear = LayerFacts { opacity: 0, ..plain() };
    let source = LayerFacts { matte_src: true, ..plain() };
    assert_eq!(plan_layers(&[hidden, clear, source], 0), vec![]);
}

#[test]
fn shared_opacity_and_masks_need_a_surface() {
    let whole = LayerOp::Content { layer: 0, whole: true };
    let faint = LayerFacts { opacity: 100, ..plain() };
    assert_eq!(plan_layers(&[faint], 0), vec![LayerOp::Content { layer: 0, whole: false }]);
    for f in [LayerFacts { many_paints: true, ..faint }, LayerFacts { complex: true, ..faint }] {
        assert_eq!(
            plan_layers(&[f], 0),
            vec![LayerOp::Save, whole, LayerOp::Over { opacity: 100 }]
        );
    }
    assert_eq!(
        plan_layers(&[LayerFacts { masked: true, ..plain() }], 0),
        vec![
            LayerOp::Save,
            whole,
            LayerOp::Masks { layer: 0 },
            LayerOp::Over { opacity: 255 },
        ]
    );
}

#[test]
fn a_matte_is_drawn_for_its_target_alone() {
    let source = LayerFacts { own_opacity: 70, ..plain() };
    let target = LayerFacts { matte: 2, opacity: 90, ..plain() };
    assert_eq!(
        plan_layers(&[source, target], 0),
        vec![
            LayerOp::Save,
            LayerOp::Content { layer: 0, whole: true },
            LayerOp::Masks { layer: 0 },
            LayerOp::Save,
            LayerOp::Content { layer: 1, whole: true },
            LayerOp::Masks { layer: 1 },
            LayerOp::Matte { kind: 2, opacity: 90, source_opacity: 70 },
        ]
    );
    assert_eq!(plan_layers(&[LayerFacts { visible: false, ..source }, target], 0), vec![]);
    assert_eq!(plan_layers(&[target], 0), vec![]);
}

#[test]
fn layers_are_skipped_direct_or_offscreen() {
    let target = LayerFacts { matte: 1, ..plain() };
    assert_eq!(decide_draw(&[plain()], 0), Draw::Direct);
    assert_eq!(decide_draw(&[plain(), target], 0), Draw::Skip);
    assert_eq!(
        decide_draw(&[plain(), target], 1),
        Draw::Offscreen { masked: false, source: Some(0) }
    );
    assert_eq!(decide_draw(&[target], 0), Draw::Offscreen { masked: false, source: None });
    let gone = LayerFacts { visible: false, ..plain() };
    assert_eq!(decide_draw(&[gone, target], 1), Draw::Skip);
    let masked = LayerFacts { masked: true, ..plain() };
    assert_eq!(decide_draw(&[masked], 0), Draw::Offscreen { masked: true, source: None });
    let faded = LayerFacts { complex: true, faded: true, ..plain() };
    assert_eq!(decide_draw(&[faded], 0), Draw::Offscreen { masked: false, source: None });
    assert_eq!(decide_draw(&[LayerFacts { complex: true, ..plain() }], 0), Draw::Direct);
}

#[test]
fn the_out_point_is_not_shown() {
    let c = compose(r#"{"ty":3,"ip":1,"op":2.5},{"ty":3,"ip":1,"op":3,"hd":true},{"ty":3}"#, "");
    let shown = |tenths: u32| layer_visible(&c.layers[0], &number(tenths));
    assert_eq!([9, 10, 24, 25].map(shown), [false, true, true, false]);
    assert!(!layer_visible(&c.layers[1], &number(15)));
    assert!(layer_visible(&c.layers[2], &number(0)));
}

#[test]
fn precompositions_name_their_assets() {
    let c = compose(
        r#"{"ty":0,"refId":"two"},{"ty":0,"refId":"one"},{"ty":0,"refId":"no"},{"ty":3,"refId":"two"}"#,
        r#"{"id":"one","layers":[{"ty":3}]},{"id":"two","layers":[{"ty":3},{"ty":3}]},{"id":"two","layers":[]}"#,
    );
    let at = |i: usize| find_shown_asset(&c.assets, &c.layers[i]);
    assert_eq!([at(0), at(1), at(2), at(3)], [Some(1), Some(0), None, None]);
    let complex = |i: usize| is_complex(&c.assets, &c.layers[i]);
    assert_eq!([complex(0), complex(1), complex(2), complex(3)], [true, false, false, false]);
    let id = c.layers[0].fields.ref_id.as_ref().unwrap();
    assert_eq!(find_asset(&c.assets, id), Some(1));
}

#[test]
fn masks_without_effect_are_left_out() {
    let step = |mask: usize, first: bool, last: bool| MaskStep { mask, first, last };
    assert_eq!(mask_steps(b"nan"), vec![step(1, true, true)]);
    assert_eq!(
        mask_steps(b"ansni"),
        vec![step(0, true, false), step(2, false, false), step(4, false, true)]
    );
    assert_eq!(mask_steps(b"nn"), vec![]);
    let c = compose(
        r#"{"ty":3,"masksProperties":[{"mode":"sub"},{"mode":""},{}]}"#,
        "",
    );
    let letters: Vec<u8> = c.layers[0].fields.masks.iter().map(|m| m.letter()).collect();
    assert_eq!(letters, b"saa");
}

#[test]
fn solids_have_their_color() {
    let c = compose(
        r##"{"ty":1,"sc":"#1aB2c3"},{"ty":1,"sc":"1ab2c3"},{"ty":1,"sc":"#1ab2cg"},{"ty":1}"##,
        "",
    );
    let colors: Vec<Option<u32>> = c.layers.iter().map(|l| l.solid_argb()).collect();
    assert_eq!(colors, vec![Some(0xff1a_b2c3), None, None, None]);
}

#[test]
fn colors_are_shown_replaced() {
    let replacement = |prefix: &str, color: u32| LayerColorReplacement {
        layer_name_prefix: prefix.to_string(),
        color,
    };
    let options = ParseOptions {
        fitz_modifier: FitzModifier::Type3,
        layer_color_replacements: vec![replacement("h", 1), replacement("hat", 2)],
    };
    let json = br#"{"fr":30,"ip":0,"op":30,"w":9,"h":9,"layers":[{"ty":3,"nm":"hat"},{"ty":3}],
        "fitz":[{"o":7,"f12":1,"f3":8,"f4":1,"f5":1,"f6":1},{"o":7,"f12":1,"f3":9,"f4":1,"f5":1,"f6":1}]}"#;
    let c = match Composition::parse_with_options(json, &Limits::default(), &options) {
        Ok(c) => c,
        Err(e) => panic!("refused: {e:?}"),
    };
    assert_eq!(c.shown_color(7), 8);
    assert_eq!(c.shown_color(6), 6);
    assert_eq!(c.layers[0].color_override, Some(2));
    assert_eq!(c.layers[1].color_override, None);
    let name = &c.layers[0].fields.name;
    assert_eq!(find_override(name, &options.layer_color_replacements), Some(2));
    assert_eq!(find_override(&None, &options.layer_color_replacements), None);
}

#[test]
fn evaluated_rules_are_the_parsed_ones() {
    for (rule, evaluated) in [(FillRule::NonZero, Rule::NonZero), (FillRule::EvenOdd, Rule::EvenOdd)]
    {
        assert_eq!(rule_of(rule), evaluated);
        assert_eq!(fill_rule(evaluated), rule);
    }
}
