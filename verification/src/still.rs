//! Which shapes stand still.

use crate::budget;
use crate::property::Property;
use crate::shape::{
    DashElement, Position, RepeaterTransform, Shape, Stops, Transform,
};
use vstd::prelude::*;

verus! {

/// True for a property without keyframes, and for one that is missing.
pub open spec fn property_still<T>(p: Option<Property<T>>) -> bool {
    match p {
        Some(Property::Animated(_)) => false,
        _ => true,
    }
}

/// True for a position without keyframes.
pub open spec fn position_still(p: Option<Position>) -> bool {
    match p {
        Some(Position::Combined(v)) => property_still(Some(v)),
        Some(Position::Split { x, y }) => property_still(x) && property_still(y),
        None => true,
    }
}

/// True for stops without keyframes.
pub open spec fn stops_still(s: Option<Stops>) -> bool {
    match s {
        Some(v) => property_still(v.values),
        None => true,
    }
}

/// True for a dash pattern without keyframes.
pub open spec fn dashes_still(d: Seq<DashElement>) -> bool {
    forall|i: int| 0 <= i < d.len() ==> property_still((#[trigger] d[i]).value)
}

/// True for a transform without keyframes.
pub open spec fn transform_still(v: Transform) -> bool {
    &&& property_still(v.anchor)
    &&& property_still(v.scale)
    &&& property_still(v.rotation)
    &&& property_still(v.opacity)
    &&& property_still(v.skew)
    &&& property_still(v.skew_axis)
    &&& position_still(v.position)
}

/// True for what changes from copy to copy, where it has no keyframes.
pub open spec fn repeater_still(v: RepeaterTransform) -> bool {
    &&& property_still(v.start_opacity)
    &&& property_still(v.end_opacity)
    &&& property_still(v.anchor)
    &&& property_still(v.scale)
    &&& property_still(v.rotation)
    &&& property_still(v.opacity)
    &&& property_still(v.skew)
    &&& property_still(v.skew_axis)
    &&& position_still(v.position)
}

/// True where neither a shape nor anything inside it has keyframes.
pub open spec fn shape_still(shape: Shape) -> bool
    decreases shape,
{
    match shape {
        Shape::Group(g) => {
            &&& match g.transform {
                Some(v) => transform_still(v),
                None => true,
            }
            &&& shapes_still(g.shapes@)
        },
        Shape::Path(x) => {
            &&& property_still(x.path)
        },
        Shape::Rect(x) => {
            &&& property_still(x.position)
            &&& property_still(x.size)
            &&& property_still(x.radius)
        },
        Shape::Ellipse(x) => {
            &&& property_still(x.position)
            &&& property_still(x.size)
        },
        Shape::Polystar(x) => {
            &&& property_still(x.points)
            &&& property_still(x.position)
            &&& property_still(x.rotation)
            &&& property_still(x.inner_radius)
            &&& property_still(x.outer_radius)
            &&& property_still(x.inner_roundness)
            &&& property_still(x.outer_roundness)
        },
        Shape::RoundCorners(x) => {
            &&& property_still(x.radius)
        },
        Shape::Trim(x) => {
            &&& property_still(x.start)
            &&& property_still(x.end)
            &&& property_still(x.offset)
        },
        Shape::Fill(x) => {
            &&& property_still(x.color)
            &&& property_still(x.opacity)
        },
        Shape::Stroke(x) => {
            &&& property_still(x.color)
            &&& property_still(x.opacity)
            &&& property_still(x.width)
            &&& dashes_still(x.dashes@)
        },
        Shape::GradientFill(x) => {
            &&& property_still(x.start)
            &&& property_still(x.end)
            &&& property_still(x.opacity)
            &&& property_still(x.highlight_len)
            &&& property_still(x.highlight_angle)
            &&& stops_still(x.stops)
        },
        Shape::GradientStroke(x) => {
            &&& property_still(x.start)
            &&& property_still(x.end)
            &&& property_still(x.opacity)
            &&& property_still(x.highlight_len)
            &&& property_still(x.highlight_angle)
            &&& property_still(x.width)
            &&& stops_still(x.stops)
            &&& dashes_still(x.dashes@)
        },
        Shape::Repeater(x) => {
            &&& property_still(x.copies)
            &&& property_still(x.offset)
            &&& match x.transform {
                Some(v) => repeater_still(v),
                None => true,
            }
        },
    }
}

/// True where no shape has keyframes.
pub open spec fn shapes_still(shapes: Seq<Shape>) -> bool
    decreases shapes,
{
    forall|i: int| 0 <= i < shapes.len() ==> shape_still(#[trigger] shapes[i])
}

fn is_property_still<T>(p: &Option<Property<T>>) -> (r: bool)
    ensures
        r == property_still(*p),
{
    match p {
        Some(Property::Animated(_)) => false,
        _ => true,
    }
}

fn is_position_still(p: &Option<Position>) -> (r: bool)
    ensures
        r == position_still(*p),
{
    match p {
        Some(Position::Combined(Property::Animated(_))) => false,
        Some(Position::Split { x, y }) => is_property_still(x) && is_property_still(y),
        _ => true,
    }
}

fn is_stops_still(s: &Option<Stops>) -> (r: bool)
    ensures
        r == stops_still(*s),
{
    match s {
        Some(v) => is_property_still(&v.values),
        None => true,
    }
}

fn is_dashes_still(d: &Vec<DashElement>) -> (r: bool)
    ensures
        r == dashes_still(d@),
{
    let n: usize = d.len();
    let mut i: usize = 0;
    while i < n
        invariant
            n == d@.len(),
            i <= n,
            forall|j: int| 0 <= j < i ==> property_still((#[trigger] d@[j]).value),
        decreases n - i,
    {
        if !is_property_still(&d[i].value) {
            assert(!property_still(d@[i as int].value));
            return false;
        }
        i += 1;
    }
    true
}

fn is_transform_still(v: &Transform) -> (r: bool)
    ensures
        r == transform_still(*v),
{
    is_property_still(&v.anchor) && is_property_still(&v.scale) && is_property_still(&v.rotation) && is_property_still(&v.opacity) && is_property_still(&v.skew) && is_property_still(&v.skew_axis) && is_position_still(&v.position)
}

fn is_repeater_still(v: &RepeaterTransform) -> (r: bool)
    ensures
        r == repeater_still(*v),
{
    is_property_still(&v.start_opacity) && is_property_still(&v.end_opacity) && is_property_still(&v.anchor) && is_property_still(&v.scale) && is_property_still(&v.rotation) && is_property_still(&v.opacity) && is_property_still(&v.skew) && is_property_still(&v.skew_axis) && is_position_still(&v.position)
}

/// Whether no shape has keyframes.
pub fn shapes_static(shapes: &Vec<Shape>) -> (r: bool)
    ensures
        r == shapes_still(shapes@),
    decreases shapes@,
{
    let n: usize = shapes.len();
    let mut i: usize = 0;
    while i < n
        invariant
            n == shapes@.len(),
            i <= n,
            forall|j: int| 0 <= j < i ==> shape_still(#[trigger] shapes@[j]),
        decreases n - i,
    {
        let ghost shape = shapes@[i as int];
        let still = match &shapes[i] {
            Shape::Group(g) => {
                let placed = match &g.transform {
                    Some(v) => is_transform_still(v),
                    None => true,
                };
                placed && shapes_static(&g.shapes)
            },
            Shape::Path(x) => is_property_still(&x.path),
            Shape::Rect(x) => is_property_still(&x.position) && is_property_still(&x.size) && is_property_still(&x.radius),
            Shape::Ellipse(x) => is_property_still(&x.position) && is_property_still(&x.size),
            Shape::Polystar(x) => is_property_still(&x.points) && is_property_still(&x.position) && is_property_still(&x.rotation) && is_property_still(&x.inner_radius) && is_property_still(&x.outer_radius) && is_property_still(&x.inner_roundness) && is_property_still(&x.outer_roundness),
            Shape::RoundCorners(x) => is_property_still(&x.radius),
            Shape::Trim(x) => is_property_still(&x.start) && is_property_still(&x.end) && is_property_still(&x.offset),
            Shape::Fill(x) => is_property_still(&x.color) && is_property_still(&x.opacity),
            Shape::Stroke(x) => is_property_still(&x.color) && is_property_still(&x.opacity) && is_property_still(&x.width) && is_dashes_still(&x.dashes),
            Shape::GradientFill(x) => is_property_still(&x.start) && is_property_still(&x.end) && is_property_still(&x.opacity) && is_property_still(&x.highlight_len) && is_property_still(&x.highlight_angle) && is_stops_still(&x.stops),
            Shape::GradientStroke(x) => is_property_still(&x.start) && is_property_still(&x.end) && is_property_still(&x.opacity) && is_property_still(&x.highlight_len) && is_property_still(&x.highlight_angle) && is_property_still(&x.width) && is_stops_still(&x.stops) && is_dashes_still(&x.dashes),
            Shape::Repeater(x) => {
                let placed = match &x.transform {
                    Some(v) => is_repeater_still(v),
                    None => true,
                };
                is_property_still(&x.copies) && is_property_still(&x.offset) && placed
            },
        };
        assert(still == shape_still(shape));
        if !still {
            assert(!shape_still(shapes@[i as int]));
            return false;
        }
        i += 1;
    }
    true
}

/// A property stands still exactly where it has no keyframes.
pub proof fn law_still_properties_have_no_keyframes<T>(p: Option<Property<T>>)
    ensures
        property_still(p) <==> budget::keyframes_of(p) == 0,
{
}

/// A transform stands still exactly where none of its properties has keyframes.
pub proof fn law_still_transforms_have_no_keyframes(v: Transform, r: RepeaterTransform, x: Option<Property<crate::decode::Values>>, y: Option<Property<crate::decode::Values>>)
    ensures
        v.position is None ==> (transform_still(v) <==> budget::keyframes_of(v.anchor)
            + budget::keyframes_of(v.scale) + budget::keyframes_of(v.rotation)
            + budget::keyframes_of(v.opacity) + budget::keyframes_of(v.skew)
            + budget::keyframes_of(v.skew_axis) == 0),
        r.position is None ==> (repeater_still(r) <==> budget::keyframes_of(r.start_opacity)
            + budget::keyframes_of(r.end_opacity) + budget::keyframes_of(r.anchor)
            + budget::keyframes_of(r.scale) + budget::keyframes_of(r.rotation)
            + budget::keyframes_of(r.opacity) + budget::keyframes_of(r.skew)
            + budget::keyframes_of(r.skew_axis) == 0),
        !position_still(v.position) ==> !transform_still(v),
        !position_still(r.position) ==> !repeater_still(r),
        position_still(None),
        position_still(Some(Position::Split { x, y })) <==> budget::keyframes_of(x)
            + budget::keyframes_of(y) == 0,
        x is Some ==> (position_still(Some(Position::Combined(x->0))) <==> budget::keyframes_of(x)
            == 0),
{
}

/// A shape stands still exactly where nothing it is made of has keyframes, and a group where neither its
/// transform nor any shape in it has.
pub proof fn law_still_shapes_have_no_keyframes(shape: Shape)
    ensures
        shape_still(shape) <==> match shape {
            Shape::Group(g) => (g.transform is None || transform_still(g.transform->0))
                && forall|i: int| 0 <= i < g.shapes@.len() ==> shape_still(#[trigger] g.shapes@[i]),
            Shape::Path(x) => budget::keyframes_of(x.path) == 0,
            Shape::Rect(x) => budget::keyframes_of(x.position) + budget::keyframes_of(x.size)
                + budget::keyframes_of(x.radius) == 0,
            Shape::Ellipse(x) => budget::keyframes_of(x.position) + budget::keyframes_of(x.size)
                == 0,
            Shape::Polystar(x) => budget::keyframes_of(x.points) + budget::keyframes_of(x.position)
                + budget::keyframes_of(x.rotation) + budget::keyframes_of(x.inner_radius)
                + budget::keyframes_of(x.outer_radius) + budget::keyframes_of(x.inner_roundness)
                + budget::keyframes_of(x.outer_roundness) == 0,
            Shape::RoundCorners(x) => budget::keyframes_of(x.radius) == 0,
            Shape::Trim(x) => budget::keyframes_of(x.start) + budget::keyframes_of(x.end)
                + budget::keyframes_of(x.offset) == 0,
            Shape::Fill(x) => budget::keyframes_of(x.color) + budget::keyframes_of(x.opacity) == 0,
            Shape::Stroke(x) => budget::keyframes_of(x.color) + budget::keyframes_of(x.opacity)
                + budget::keyframes_of(x.width) == 0 && forall|i: int|
                0 <= i < x.dashes@.len() ==> budget::keyframes_of((#[trigger] x.dashes@[i]).value)
                    == 0,
            Shape::GradientFill(x) => budget::keyframes_of(x.start) + budget::keyframes_of(x.end)
                + budget::keyframes_of(x.opacity) + budget::keyframes_of(x.highlight_len)
                + budget::keyframes_of(x.highlight_angle) == 0 && (x.stops is None
                || budget::keyframes_of(x.stops->0.values) == 0),
            Shape::GradientStroke(x) => budget::keyframes_of(x.start) + budget::keyframes_of(x.end)
                + budget::keyframes_of(x.opacity) + budget::keyframes_of(x.highlight_len)
                + budget::keyframes_of(x.highlight_angle) + budget::keyframes_of(x.width) == 0 && (
            x.stops is None || budget::keyframes_of(x.stops->0.values) == 0) && forall|i: int|
                0 <= i < x.dashes@.len() ==> budget::keyframes_of((#[trigger] x.dashes@[i]).value)
                    == 0,
            Shape::Repeater(x) => budget::keyframes_of(x.copies) + budget::keyframes_of(x.offset)
                == 0 && (x.transform is None || repeater_still(x.transform->0)),
        },
{
}

} // verus!
