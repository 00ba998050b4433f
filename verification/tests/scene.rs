//! Walks over shapes, scenes, trims and dashes.

use tlottie::composition::Composition;
use tlottie::limits::Limits;
use tlottie::plan::{plan_layers, LayerFacts, LayerOp};
use tlottie::scene::{dash_pattern, many_paints, paints, walk, Copied, Scene, WalkOp};
use tlottie::shape::Shape;
use tlottie::trim::{Cut, TrimFacts, TrimWindow};

fn compose(json: &str) -> Composition {
    match Composition::parse(json.as_bytes(), &Limits::default()) {
        Ok(c) => c,
        Err(e) => panic!("refused: {e:?}"),
    }
}

fn names(scene: &Scene<&'static str, u32>) -> Vec<(&'static str, bool)> {
    scene.arena.iter().map(|p| (p.geometry, p.closed)).collect()
}

fn ranges(scene: &Scene<&'static str, u32>) -> Vec<(u32, usize, usize)> {
    scene.pending.iter().map(|j| (j.paint, j.start, j.end)).collect()
}

#[test]
fn borrowed_sink_receives_evaluated_geometry() {
    let comp = compose(
        r#"{"fr":30,"ip":0,"op":30,"w":100,"h":100,"layers":[
            {"ty":4,"ind":1,"ip":0,"op":30,"st":0,
             "ks":{"o":{"a":0,"k":50},"p":{"a":0,"k":[50,50]},"a":{"a":0,"k":[0,0]},"s":{"a":0,"k":[100,100]},"r":{"a":0,"k":0}},
             "shapes":[{"ty":"gr","it":[
                {"ty":"sh","ks":{"a":0,"k":{"c":true,"v":[[0,0],[10,0],[10,10]],"i":[[0,0],[0,0],[0,0]],"o":[[0,0],[0,0],[0,0]]}}},
                {"ty":"fl","c":{"a":0,"k":[1,0,0,1]},"o":{"a":0,"k":100},"r":1},
                {"ty":"tr","p":{"a":0,"k":[0,0]},"a":{"a":0,"k":[0,0]},"s":{"a":0,"k":[100,100]},"r":{"a":0,"k":0},"o":{"a":0,"k":100}}
             ]}]}
        ]}"#,
    );
    let layer = &comp.layers[0];
    let facts = [LayerFacts {
        visible: true,
        opacity: 128,
        own_opacity: 128,
        faded: true,
        matte: 0,
        matte_src: false,
        masked: false,
        complex: false,
        many_paints: false,
    }];
    let ops = plan_layers(&facts, 0);
    assert_eq!(ops, vec![LayerOp::Content { layer: 0, whole: false }]);
    let mut walked = Vec::new();
    walk(&layer.shapes, 0, &mut walked);
    let mut scene: Scene<usize, ()> = Scene::new();
    for op in walked {
        match op {
            WalkOp::Enter(_) => scene.enter(),
            WalkOp::Leave => scene.leave(),
            WalkOp::Item(Shape::Path(p)) => match p.path.as_ref().unwrap() {
                tlottie::property::Property::Static(d) => scene.push(d.vertices.len(), d.closed),
                _ => panic!("expected a path that stands still"),
            },
            WalkOp::Item(Shape::Fill(_)) => scene.paint(()),
            WalkOp::Item(_) => panic!("unexpected shape"),
        }
    }
    let draws = scene.pending.len();
    let (_, start, end) = scene.draw_at(0);
    let points: usize = scene.arena[start..end].iter().map(|p| p.geometry).sum();
    assert_eq!(ops.len(), 1);
    assert_eq!(draws, 1);
    assert_eq!(end - start, 1);
    assert!(points >= 3);
}

#[test]
fn paints_cover_what_came_before() {
    let mut s: Scene<&'static str, u32> = Scene::new();
    s.push("a", true);
    s.enter();
    s.push("b", false);
    s.paint(1);
    s.push("c", true);
    s.leave();
    s.paint(2);
    assert_eq!(ranges(&s), vec![(1, 1, 2), (2, 0, 3)]);
    assert_eq!(s.draw_at(0), (1, 0, 3));
    assert_eq!(s.draw_at(1), (0, 1, 2));
}

#[test]
fn cuts_stay_under_their_paints() {
    let mut s: Scene<&'static str, u32> = Scene::new();
    s.push("a", true);
    s.push("b", true);
    s.paint(1);
    s.push("c", true);
    s.paint(2);
    assert_eq!(s.splice(1, "-", vec!["b1", "b2"]), 3);
    assert_eq!(names(&s), vec![("a", true), ("b1", false), ("b2", false), ("c", true)]);
    assert_eq!(ranges(&s), vec![(1, 0, 3), (2, 0, 4)]);
    assert_eq!(s.splice(0, "-", vec![]), 1);
    assert_eq!(names(&s)[0], ("-", false));
}

#[test]
fn trims_cut_a_whole_group() {
    let mut s: Scene<&'static str, u32> = Scene::new();
    s.push("x", true);
    s.paint(0);
    s.enter();
    s.push("a", true);
    s.paint(1);
    s.push("b", false);
    s.paint(2);
    s.trim(vec![
        Cut { blank: "-", pieces: vec!["a1", "a2"] },
        Cut { blank: "-", pieces: vec![] },
    ]);
    assert_eq!(names(&s), vec![("x", true), ("a1", false), ("a2", false), ("-", false)]);
    assert_eq!(ranges(&s), vec![(0, 0, 1), (1, 1, 3), (2, 1, 4)]);
    s.trim_away(vec!["1", "2", "3"]);
    assert_eq!(names(&s), vec![("x", true), ("1", false), ("2", false), ("3", false)]);
}

#[test]
fn trim_windows_wrap() {
    let facts = |start: i32, end: i32, offset: i32| {
        let (s, e) = (start + offset, end + offset);
        TrimFacts {
            empty: start == end,
            full: (start - end).abs() >= 100,
            forward: offset >= 0,
            start_past: s > 100,
            end_past: e > 100,
            start_before: s < 0,
            end_before: e < 0,
        }
        .decide()
    };
    let part = |start_shift: i8, end_shift: i8, wraps: bool| TrimWindow::Part {
        start_shift,
        end_shift,
        wraps,
    };
    assert_eq!(facts(30, 30, 0), TrimWindow::Nothing);
    assert_eq!(facts(0, 100, 40), TrimWindow::Whole);
    assert_eq!(facts(20, 60, 10), part(0, 0, false));
    assert_eq!(facts(20, 60, 50), part(0, -1, true));
    assert_eq!(facts(60, 20, 50), part(-1, 0, true));
    assert_eq!(facts(20, 60, 90), part(-1, -1, false));
    assert_eq!(facts(20, 60, -10), part(0, 0, false));
    assert_eq!(facts(20, 60, -30), part(1, 0, true));
    assert_eq!(facts(20, 60, -70), part(1, 1, false));
}

#[test]
fn repeaters_copy_outlines_and_paints() {
    let mut s: Scene<&'static str, u32> = Scene::new();
    s.push("x", true);
    s.enter();
    s.push("a", true);
    s.paint(1);
    s.repeat(
        vec![
            Copied { geometry: vec!["a1"], paints: vec![11] },
            Copied { geometry: vec!["a2"], paints: vec![12] },
        ],
        vec!["-"],
    );
    assert_eq!(names(&s), vec![("x", true), ("-", true), ("a1", true), ("a2", true)]);
    assert_eq!(ranges(&s), vec![(1, 1, 1), (11, 2, 3), (12, 3, 4)]);
}

#[test]
fn dashes_and_gaps_take_turns() {
    let d = dash_pattern(&[1, 2]);
    assert_eq!((d.pattern, d.offset), (vec![1, 1], Some(2)));
    let d = dash_pattern(&[1, 2, 3]);
    assert_eq!((d.pattern, d.offset), (vec![1, 2], Some(3)));
    let d = dash_pattern(&[1, 2, 3, 4]);
    assert_eq!((d.pattern, d.offset), (vec![1, 2, 3, 3], Some(4)));
    let d = dash_pattern(&[7]);
    assert_eq!((d.pattern, d.offset), (vec![], None));
}

#[test]
fn deep_groups_are_left_out() {
    let mut json = String::from(r#"{"fr":30,"ip":0,"op":30,"w":9,"h":9,"layers":[{"ty":4,"shapes":["#);
    for _ in 0..45 {
        json.push_str(r#"{"ty":"gr","it":["#);
    }
    json.push_str(r#"{"ty":"rc"}"#);
    for _ in 0..45 {
        json.push_str("]}");
    }
    json.push_str("]}]}");
    let comp = compose(&json);
    let mut ops = Vec::new();
    walk(&comp.layers[0].shapes, 0, &mut ops);
    let enters = ops.iter().filter(|o| matches!(o, WalkOp::Enter(_))).count();
    let leaves = ops.iter().filter(|o| matches!(o, WalkOp::Leave)).count();
    let items = ops.iter().filter(|o| matches!(o, WalkOp::Item(_))).count();
    assert_eq!((enters, leaves, items), (41, 41, 0));
}

#[test]
fn paints_are_found_in_groups() {
    let comp = compose(
        r#"{"fr":30,"ip":0,"op":30,"w":9,"h":9,"layers":[{"ty":4,"shapes":[
            {"ty":"fl"},{"ty":"rc"},{"ty":"gr","it":[{"ty":"st"},{"ty":"tm"},{"ty":"gf"}]},{"ty":"gs"}]}]}"#,
    );
    let kinds: Vec<u8> = paints(&comp.layers[0].shapes)
        .into_iter()
        .map(|shape| match shape {
            Shape::Fill(_) => 1,
            Shape::Stroke(_) => 2,
            Shape::GradientFill(_) => 3,
            Shape::GradientStroke(_) => 4,
            _ => 0,
        })
        .collect();
    assert_eq!(kinds, vec![1, 2, 3, 4]);
    assert!(!many_paints(&[]));
    assert!(!many_paints(&[false, true, false]));
    assert!(many_paints(&[true, false, true]));
}
