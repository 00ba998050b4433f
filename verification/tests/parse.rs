//! Parsing compositions.

use tlottie::composition::{Composition, Shown};
use tlottie::decode::Values;
use tlottie::error::{Error, JsonErrorKind, Limit, Result};
use tlottie::layer::{color_below, Layer, LayerKind};
use tlottie::limits::Limits;
use tlottie::number::Number;
use tlottie::options::{FitzModifier, LayerColorReplacement, ParseOptions};
use tlottie::property::{Property, Sample};
use tlottie::shape::{Position, Shape};

const MINIMAL: &str =
    r#"{"v":"5.5.2","fr":60,"ip":0,"op":180,"w":512,"h":512,"nm":"t","layers":[]}"#;

fn parse(s: &str) -> Result<Composition> {
    Composition::parse(s.as_bytes(), &Limits::default())
}

fn accepted(r: Result<Composition>) -> Composition {
    match r {
        Ok(c) => c,
        Err(e) => panic!("refused: {e:?}"),
    }
}

fn float(n: &Number) -> f64 {
    let mut text = String::new();
    if n.is_negative() {
        text.push('-');
    }
    for d in n.digits() {
        text.push((b'0' + d) as char);
    }
    text.push('e');
    text.push_str(&n.scale().to_string());
    text.parse().unwrap()
}

fn whole(n: u32) -> Number {
    let digits = n.to_string().bytes().map(|b| b - b'0').collect();
    Number::new(false, digits, 0).unwrap()
}

/// What a property is worth at a frame that needs no interpolation.
fn eval(p: &Property<Values>, frame: u32) -> Vec<f64> {
    match p.at(&whole(frame)) {
        Sample::Exact(v) => v.items.iter().map(float).collect(),
        _ => panic!("expected an exact value"),
    }
}

#[test]
fn minimal_composition() {
    let comp = accepted(parse(MINIMAL));
    assert_eq!(comp.width, 512);
    assert_eq!(comp.height, 512);
    assert_eq!(float(&comp.frame_rate), 60.0);
    assert_eq!(comp.frame_count(), 180);
}

#[test]
fn skips_unknown_fields() {
    let comp = accepted(parse(
        r#"{"junk":{"a":[1,2,{"b":"\" }"}]},"fr":30,"ip":5,"op":65,"w":100,"h":50}"#,
    ));
    assert_eq!((comp.width, comp.height), (100, 50));
    assert_eq!(comp.frame_count(), 60);
}

#[test]
fn rejects_truncated_input() {
    let bytes = MINIMAL.as_bytes();
    for cut in 1..bytes.len() {
        let sliced = &bytes[..cut];
        assert!(
            Composition::parse(sliced, &Limits::default()).is_err(),
            "accepted truncation at {cut}"
        );
    }
}

#[test]
fn rejects_missing_header_fields() {
    assert!(matches!(
        parse(r#"{"fr":30,"ip":0,"op":60,"w":100}"#),
        Err(Error::InvalidLottie { .. })
    ));
}

#[test]
fn rejects_deep_nesting() {
    let mut s = String::from(r#"{"a":"#);
    for _ in 0..1000 {
        s.push('[');
    }
    assert!(matches!(parse(&s), Err(Error::LimitExceeded(Limit::NestingDepth))));
}

#[test]
fn rejects_oversized_dimensions() {
    assert!(matches!(
        parse(r#"{"fr":30,"ip":0,"op":60,"w":1e9,"h":100}"#),
        Err(Error::LimitExceeded(Limit::CompositionSize))
    ));
}

#[test]
fn rejects_trailing_data() {
    let with_trailer = format!("{MINIMAL}x");
    assert!(matches!(
        parse(&with_trailer),
        Err(Error::Json { kind: JsonErrorKind::TrailingData, .. })
    ));
}

#[test]
fn rejects_non_finite_numbers() {
    assert!(parse(r#"{"fr":1e999,"ip":0,"op":60,"w":10,"h":10}"#).is_err());
}

#[test]
fn parses_shape_layer() {
    let comp = accepted(parse(
        r#"{"fr":30,"ip":0,"op":30,"w":100,"h":100,"layers":[
              {"ty":4,"ind":1,"ip":0,"op":30,"st":0,
               "ks":{"o":{"a":0,"k":100},"p":{"a":0,"k":[50,50]},"a":{"a":0,"k":[0,0]},"s":{"a":0,"k":[100,100]},"r":{"a":0,"k":0}},
               "shapes":[{"ty":"gr","it":[
                  {"ty":"sh","ks":{"a":0,"k":{"c":true,"v":[[0,0],[10,0],[10,10]],"i":[[0,0],[0,0],[0,0]],"o":[[0,0],[0,0],[0,0]]}}},
                  {"ty":"fl","c":{"a":0,"k":[1,0,0,1]},"o":{"a":0,"k":100},"r":1},
                  {"ty":"tr","p":{"a":0,"k":[0,0]},"a":{"a":0,"k":[0,0]},"s":{"a":0,"k":[100,100]},"r":{"a":0,"k":0},"o":{"a":0,"k":100}}
               ]}]}
          ]}"#,
    ));
    assert_eq!(comp.layers.len(), 1);
    let Layer { kind, shapes, .. } = comp.layers.first().unwrap();
    assert_eq!(*kind, LayerKind::Shape);
    assert_eq!(shapes.len(), 1);
    let Some(Shape::Group(g)) = shapes.first() else {
        panic!("expected group");
    };
    assert_eq!(g.shapes.len(), 2);
    assert!(g.transform.is_some());
    assert!(matches!(g.shapes.first(), Some(Shape::Path(_))));
    assert!(matches!(g.shapes.get(1), Some(Shape::Fill(_))));
}

#[test]
fn parses_round_corners_modifier() {
    let comp = accepted(parse(
        r#"{"fr":30,"ip":0,"op":30,"w":100,"h":100,"layers":[
      {"ty":4,"ind":1,"ip":0,"op":30,"st":0,"ks":{},"shapes":[
        {"ty":"gr","it":[
          {"ty":"sh","ks":{"a":0,"k":{"c":true,"v":[[0,0],[20,0],[20,20]],"i":[[0,0],[0,0],[0,0]],"o":[[0,0],[0,0],[0,0]]}}},
          {"ty":"rd","r":{"a":0,"k":4}},
          {"ty":"fl","c":{"a":0,"k":[1,0,0,1]},"o":{"a":0,"k":100},"r":1}
        ]}
      ]}
    ]}"#,
    ));
    let Some(Shape::Group(group)) = comp.layers[0].shapes.first() else {
        panic!("expected shape group");
    };
    let Some(Shape::RoundCorners(round)) = group.shapes.get(1) else {
        panic!("expected round-corners modifier");
    };
    assert_eq!(eval(round.radius.as_ref().unwrap(), 0), vec![4.0]);
}

#[test]
fn parses_animated_position() {
    let comp = accepted(parse(
        r#"{"fr":30,"ip":0,"op":30,"w":100,"h":100,"layers":[
              {"ty":4,"ind":1,"ip":0,"op":30,"st":0,
               "ks":{"p":{"a":1,"k":[
                  {"t":0,"s":[0,0],"i":{"x":[0.5],"y":[0.5]},"o":{"x":[0.5],"y":[0.5]}},
                  {"t":30,"s":[100,100]}
               ]}},
               "shapes":[]}
          ]}"#,
    ));
    let layer = comp.layers.first().unwrap();
    let Some(Position::Combined(position)) =
        &layer.fields.transform.as_ref().unwrap().position
    else {
        panic!("expected both axes together");
    };
    let p0 = eval(position, 0);
    let p30 = eval(position, 30);
    assert_eq!((p0[0], p0[1]), (0.0, 0.0));
    assert_eq!((p30[0], p30[1]), (100.0, 100.0));
    match position.at(&whole(7)) {
        Sample::Between { from, to, key } => {
            assert_eq!(float(&from.items[0]), 0.0);
            assert_eq!(float(&to.items[0]), 100.0);
            assert_eq!(key, 0);
        }
        _ => panic!("expected two keyframes"),
    }
}

#[test]
fn names_every_fault() {
    assert!(matches!(
        parse(""),
        Err(Error::Json { offset: 0, kind: JsonErrorKind::UnexpectedEof })
    ));
    assert!(matches!(
        parse("[]"),
        Err(Error::Json { offset: 0, kind: JsonErrorKind::UnexpectedByte(b'[') })
    ));
    assert!(matches!(
        parse(r#"{"a":-}"#),
        Err(Error::Json { kind: JsonErrorKind::BadNumber, .. })
    ));
    assert!(parse(r#"{"a":tru}"#).is_err());
    assert!(parse(r#"{"a"}"#).is_err());
}

#[test]
fn limits_are_kept() {
    let small = |f: fn(&mut Limits)| {
        let mut limits = Limits::default();
        f(&mut limits);
        limits
    };
    let bytes = MINIMAL.as_bytes();
    assert!(matches!(
        Composition::parse(bytes, &small(|l| l.max_input_bytes = 10)),
        Err(Error::LimitExceeded(Limit::InputBytes))
    ));
    let layers = br#"{"fr":30,"ip":0,"op":30,"w":9,"h":9,"layers":[{"ty":3},{"ty":3}]}"#;
    assert!(Composition::parse(layers, &small(|l| l.max_layers = 2)).is_ok());
    assert!(matches!(
        Composition::parse(layers, &small(|l| l.max_layers = 1)),
        Err(Error::LimitExceeded(Limit::Layers))
    ));
    let shapes = br#"{"fr":30,"ip":0,"op":30,"w":9,"h":9,"layers":[{"ty":4,"shapes":[{"ty":"gr","it":[{"ty":"rc"},{"ty":"fl"}]}]}]}"#;
    assert!(Composition::parse(shapes, &small(|l| l.max_shapes_per_layer = 3)).is_ok());
    assert!(matches!(
        Composition::parse(shapes, &small(|l| l.max_shapes_per_layer = 2)),
        Err(Error::LimitExceeded(Limit::ShapesPerLayer))
    ));
    let keys = br#"{"fr":30,"ip":0,"op":30,"w":9,"h":9,"layers":[{"ty":3,"ks":{"r":{"a":1,"k":[{"t":0,"s":[1]},{"t":9,"s":[2]}]}}}]}"#;
    assert!(Composition::parse(keys, &small(|l| l.max_keyframes = 2)).is_ok());
    assert!(matches!(
        Composition::parse(keys, &small(|l| l.max_keyframes = 1)),
        Err(Error::LimitExceeded(Limit::Keyframes))
    ));
    let assets = br#"{"fr":30,"ip":0,"op":30,"w":9,"h":9,"assets":[{"id":"a","layers":[]},{"id":"b","layers":[]}]}"#;
    assert!(Composition::parse(assets, &small(|l| l.max_assets = 2)).is_ok());
    assert!(matches!(
        Composition::parse(assets, &small(|l| l.max_assets = 1)),
        Err(Error::LimitExceeded(Limit::Assets))
    ));
    assert!(matches!(
        Composition::parse(bytes, &small(|l| l.max_dimension = 511)),
        Err(Error::LimitExceeded(Limit::CompositionSize))
    ));
}

#[test]
fn layer_names_choose_colors() {
    let json = br#"{"fr":30,"ip":0,"op":30,"w":9,"h":9,"layers":[
        {"ty":4,"nm":"skin left","shapes":[]},{"ty":4,"nm":"hair","shapes":[]},{"ty":4,"shapes":[]}]}"#;
    let options = ParseOptions {
        fitz_modifier: FitzModifier::default(),
        layer_color_replacements: vec![LayerColorReplacement {
            layer_name_prefix: String::from("skin"),
            color: 0xff11_2233,
        }],
    };
    let comp = accepted(Composition::parse_with_options(json, &Limits::default(), &options));
    let colors: Vec<Option<u32>> = comp.layers.iter().map(|l| l.color_override).collect();
    assert_eq!(colors, vec![Some(0xff11_2233), None, None]);
    let plain = accepted(Composition::parse(json, &Limits::default()));
    assert!(plain.layers.iter().all(|l| l.color_override.is_none()));
}

#[test]
fn skin_tones_choose_swaps() {
    let json = br#"{"fr":30,"ip":0,"op":30,"w":9,"h":9,"fitz":[{"o":1,"f12":2,"f3":3,"f4":4,"f5":5,"f6":6}]}"#;
    let with = |m: FitzModifier| {
        let options = ParseOptions { fitz_modifier: m, layer_color_replacements: Vec::new() };
        accepted(Composition::parse_with_options(json, &Limits::default(), &options)).color_swaps
    };
    assert_eq!(with(FitzModifier::default()), vec![]);
    assert_eq!(with(FitzModifier::Type12), vec![(1, 2)]);
    assert_eq!(with(FitzModifier::Type6), vec![(1, 6)]);
}

#[test]
fn skin_tones_have_numbers() {
    assert_eq!(FitzModifier::from_u32(0), Some(FitzModifier::default()));
    assert_eq!(FitzModifier::from_u32(1), Some(FitzModifier::Type12));
    assert_eq!(FitzModifier::from_u32(5), Some(FitzModifier::Type6));
    assert_eq!(FitzModifier::from_u32(6), None);
    assert_eq!(FitzModifier::default().replacement_index(), None);
    assert_eq!(FitzModifier::Type12.replacement_index(), Some(0));
    assert_eq!(FitzModifier::Type6.replacement_index(), Some(4));
}

#[test]
fn frames_between_points_are_counted() {
    let count = |s: &str| accepted(parse(s)).frame_count();
    assert_eq!(count(r#"{"fr":30,"ip":0,"op":0,"w":9,"h":9}"#), 0);
    assert_eq!(count(r#"{"fr":30,"ip":10,"op":4,"w":9,"h":9}"#), 0);
    assert_eq!(count(r#"{"fr":30,"ip":0,"op":12.7,"w":9,"h":9}"#), 12);
}

#[test]
fn errors_have_texts() {
    let eof = Error::Json { offset: 12, kind: JsonErrorKind::UnexpectedEof };
    assert_eq!(eof.to_string(), "invalid JSON at byte 12: UnexpectedEof");
    let limit = Error::LimitExceeded(Limit::Layers);
    assert_eq!(limit.to_string(), "resource limit exceeded: Layers");
}

#[test]
fn outlines_have_a_direction() {
    let comp = accepted(parse(
        r#"{"fr":30,"ip":0,"op":30,"w":9,"h":9,"layers":[{"ty":4,"shapes":[
            {"ty":"rc","d":3},{"ty":"el","d":3},{"ty":"sr","d":3},{"ty":"rc"}]}]}"#,
    ));
    let directions: Vec<u32> = comp.layers[0]
        .shapes
        .iter()
        .map(|s| match s {
            Shape::Rect(r) => r.direction,
            Shape::Ellipse(e) => e.direction,
            Shape::Polystar(p) => p.direction,
            _ => panic!("expected an outline"),
        })
        .collect();
    assert_eq!(directions, vec![3, 3, 3, 1]);
}

const NAMED: &str = r##"{"fr":30,"ip":0,"op":30,"w":9,"h":9,
    "fitz":[{"o":255,"f12":128}],
    "layers":[{"ty":1,"nm":"sky blue","sc":"#0a0b0c","sw":3,"sh":4},{"ty":4,"nm":"ground","shapes":[]}],
    "assets":[{"id":"x","layers":[{"ty":4,"nm":"sky"}]}]}"##;

/// All that a test can tell of a composition but for the colours of its layers.
fn summary(c: &Composition) -> String {
    let layer = |l: &Layer| {
        let name = l.fields.name.as_ref().map(|t| t.bytes.clone());
        format!("{:?} {:?} {:?} {}", l.kind, name, l.solid_argb(), l.shapes.len())
    };
    let layers: Vec<String> = c.layers.iter().map(layer).collect();
    let assets: Vec<Vec<String>> =
        c.assets.iter().map(|a| a.layers.iter().map(layer).collect()).collect();
    format!(
        "{} {} {} {} {} {layers:?} {assets:?} {} {:?}",
        c.width,
        c.height,
        float(&c.frame_rate),
        float(&c.in_point),
        float(&c.out_point),
        c.fitz.len(),
        c.color_swaps
    )
}

fn colors(c: &Composition) -> Vec<Option<u32>> {
    let inner = c.assets.iter().flat_map(|a| a.layers.iter());
    c.layers.iter().chain(inner).map(|l| l.color_override).collect()
}

fn replacing(list: &[(&str, u32)]) -> ParseOptions {
    ParseOptions {
        fitz_modifier: FitzModifier::Unmodified,
        layer_color_replacements: list
            .iter()
            .map(|(prefix, color)| LayerColorReplacement {
                layer_name_prefix: prefix.to_string(),
                color: *color,
            })
            .collect(),
    }
}

#[test]
fn default_options_change_nothing() {
    let limits = Limits::default();
    let options = ParseOptions::default();
    for text in [MINIMAL, NAMED] {
        let plain = accepted(parse(text));
        let c = accepted(Composition::parse_with_options(text.as_bytes(), &limits, &options));
        assert_eq!(summary(&c), summary(&plain));
        assert_eq!(colors(&c), colors(&plain));
    }
    for text in ["", "{", "[]", r#"{"fr":30}"#] {
        let r = Composition::parse_with_options(text.as_bytes(), &limits, &options);
        assert_eq!(r.err(), parse(text).err());
    }
}

#[test]
fn replacements_change_only_colors() {
    let limits = Limits::default();
    let plain = accepted(parse(NAMED));
    assert_eq!(colors(&plain), vec![None, None, None]);
    for (list, expected) in [
        (vec![("sky", 7)], vec![Some(7), None, Some(7)]),
        (vec![("sky ", 7)], vec![Some(7), None, None]),
        (vec![("", 1), ("ground", 2)], vec![Some(1), Some(2), Some(1)]),
        (vec![("nothing", 7)], vec![None, None, None]),
    ] {
        let options = replacing(&list);
        let c = accepted(Composition::parse_with_options(NAMED.as_bytes(), &limits, &options));
        assert_eq!(summary(&c), summary(&plain));
        assert_eq!(colors(&c), expected);
    }
}

#[test]
fn colors_reach_down() {
    assert_eq!(color_below(Some(1), Some(2)), Some(1));
    assert_eq!(color_below(None, Some(2)), Some(2));
    assert_eq!(color_below(Some(1), None), Some(1));
    assert_eq!(color_below(None, None), None);
    let solid = &accepted(parse(NAMED)).layers[0];
    assert_eq!(solid.solid_shown(None), Some(0xff0a_0b0c));
    assert_eq!(solid.solid_shown(Some(9)), Some(9));
    assert_eq!(accepted(parse(NAMED)).layers[1].solid_shown(Some(9)), None);
}

#[test]
fn names_come_before_skin_tones() {
    let toned = ParseOptions { fitz_modifier: FitzModifier::Type12, ..ParseOptions::default() };
    let r = Composition::parse_with_options(NAMED.as_bytes(), &Limits::default(), &toned);
    let c = accepted(r);
    assert_eq!(c.show_paint(None, 255), Shown::Swapped(128));
    assert_eq!(c.show_paint(None, 254), Shown::Own);
    assert_eq!(c.show_paint(Some(5), 255), Shown::Replaced(5));
    assert_eq!(c.show_paint(Some(5), 254), Shown::Replaced(5));
}
