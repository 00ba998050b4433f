//! Shapes: paths, the modifiers that change them, and what paints them.

use crate::decode;
use crate::decode::{
    decode_code, decode_field, decode_field_list, decode_flag, Bounds, Code, Decode, Flag, List,
    Reader, Text, Values,
};
use crate::error::{Error, Limit, Result};
use crate::json;
use crate::names;
use crate::number::Number;
use crate::property;
use crate::property::Property;
use crate::tree;
use crate::tree::{Found, Member};
use vstd::prelude::*;

verus! {

/// A path: its vertices, and the handles on either side of each.
pub struct PathData {
    /// True where the last vertex leads back to the first.
    pub closed: bool,
    /// The vertices.
    pub vertices: Vec<Values>,
    /// The handles before the vertices, as offsets.
    pub in_tangents: Vec<Values>,
    /// The handles behind the vertices, as offsets.
    pub out_tangents: Vec<Values>,
}

/// Where the path of a value at `p` stands: a keyframe wraps it in a list.
pub open spec fn path_at(s: Seq<u8>, p: int, m: Bounds) -> int {
    if decode::opens_list(s, p) {
        tree::array_at(s, p, m.depth).items[0] as int
    } else {
        p
    }
}

/// The error that the list around a path reports.
pub open spec fn path_list_fault(s: Seq<u8>, p: int, m: Bounds) -> Option<Error> {
    if decode::opens_list(s, p) {
        let found = tree::array_at(s, p, m.depth);
        if found.scan.fault is Some {
            found.scan.fault
        } else if found.items.len() == 0 {
            Some(property::missing(p, "empty list in place of a path"))
        } else {
            None
        }
    } else {
        None
    }
}

impl Decode for PathData {
    open spec fn fault(s: Seq<u8>, p: int, m: Bounds) -> Option<Error> {
        let found = tree::object_at(s, path_at(s, p, m), m.depth);
        let members = found.items;
        decode::either(
            path_list_fault(s, p, m),
            decode::either(
                found.scan.fault,
                decode::either(
                    decode::field_fault::<Flag>(s, members, names::NAME_C, m),
                    decode::either(
                        decode::field_fault::<List<Values>>(s, members, names::NAME_V, m),
                        decode::either(
                            decode::field_fault::<List<Values>>(s, members, names::NAME_I, m),
                            decode::field_fault::<List<Values>>(s, members, names::NAME_O, m),
                        ),
                    ),
                ),
            ),
        )
    }

    open spec fn reads(&self, s: Seq<u8>, p: int, m: Bounds) -> bool {
        let members = tree::object_at(s, path_at(s, p, m), m.depth).items;
        &&& self.closed == decode::field_flag(s, members, names::NAME_C)
        &&& decode::field_list_reads(self.vertices@, s, members, names::NAME_V, m)
        &&& decode::field_list_reads(self.in_tangents@, s, members, names::NAME_I, m)
        &&& decode::field_list_reads(self.out_tangents@, s, members, names::NAME_O, m)
    }

    open spec fn same(&self, other: &PathData) -> bool {
        &&& self.closed == other.closed
        &&& decode::same_list(self.vertices@, other.vertices@)
        &&& decode::same_list(self.in_tangents@, other.in_tangents@)
        &&& decode::same_list(self.out_tangents@, other.out_tangents@)
    }

    proof fn one_value(a: PathData, b: PathData, s: Seq<u8>, p: int, m: Bounds) {
        let members = tree::object_at(s, path_at(s, p, m), m.depth).items;
        decode::lemma_field_list_same(a.vertices@, b.vertices@, s, members, names::NAME_V, m);
        decode::lemma_field_list_same(a.in_tangents@, b.in_tangents@, s, members, names::NAME_I, m);
        decode::lemma_field_list_same(a.out_tangents@, b.out_tangents@, s, members, names::NAME_O, m);
    }

    fn decode(c: &Reader<'_>, pos: usize) -> (r: Result<PathData>) {
        let mut at: usize = pos;
        if c.cursor.fork_at(pos).peek() == Some(0x5bu8) {
            match tree::read_array(&c.cursor, pos) {
                Ok(items) => {
                    if items.len() == 0 {
                        return Err(
                            Error::InvalidLottie {
                                offset: pos,
                                what: "empty list in place of a path",
                            },
                        );
                    }
                    at = items[0];
                },
                Err(e) => {
                    return Err(e);
                },
            }
        }
        let members = match tree::read_object(&c.cursor, at) {
            Ok(members) => members,
            Err(e) => {
                return Err(e);
            },
        };
        let closed = match decode_flag(c, &members, names::NAME_C) {
            Ok(v) => v,
            Err(e) => {
                return Err(e);
            },
        };
        let vertices = match decode_field_list(c, &members, names::NAME_V) {
            Ok(v) => v,
            Err(e) => {
                return Err(e);
            },
        };
        let in_tangents = match decode_field_list(c, &members, names::NAME_I) {
            Ok(v) => v,
            Err(e) => {
                return Err(e);
            },
        };
        let out_tangents = match decode_field_list(c, &members, names::NAME_O) {
            Ok(v) => v,
            Err(e) => {
                return Err(e);
            },
        };
        Ok(PathData { closed, vertices, in_tangents, out_tangents })
    }
}

/// A position, as one property or as one for each axis.
pub enum Position {
    /// Both axes together.
    Combined(Property<Values>),
    /// Each axis alone.
    Split {
        /// The horizontal axis.
        x: Option<Property<Values>>,
        /// The vertical axis.
        y: Option<Property<Values>>,
    },
}

impl Decode for Position {
    open spec fn fault(s: Seq<u8>, p: int, m: Bounds) -> Option<Error> {
        let found = tree::object_at(s, p, m.depth);
        let members = found.items;
        decode::either(
            found.scan.fault,
            decode::either(
                decode::field_fault::<Flag>(s, members, names::NAME_S, m),
                if decode::field_flag(s, members, names::NAME_S) {
                    decode::either(
                        decode::field_fault::<Property<Values>>(s, members, names::NAME_X, m),
                        decode::field_fault::<Property<Values>>(s, members, names::NAME_Y, m),
                    )
                } else {
                    Property::<Values>::fault(s, p, m)
                },
            ),
        )
    }

    open spec fn reads(&self, s: Seq<u8>, p: int, m: Bounds) -> bool {
        let members = tree::object_at(s, p, m.depth).items;
        match *self {
            Position::Combined(v) => !decode::field_flag(s, members, names::NAME_S) && v.reads(s, p, m),
            Position::Split { x, y } => {
                &&& decode::field_flag(s, members, names::NAME_S)
                &&& decode::field_reads(x, s, members, names::NAME_X, m)
                &&& decode::field_reads(y, s, members, names::NAME_Y, m)
            },
        }
    }

    open spec fn same(&self, other: &Position) -> bool {
        match (*self, *other) {
            (Position::Combined(v), Position::Combined(w)) => v.same(&w),
            (Position::Split { x, y }, Position::Split { x: u, y: v }) => {
                decode::same_option(x, u) && decode::same_option(y, v)
            },
            _ => false,
        }
    }

    proof fn one_value(a: Position, b: Position, s: Seq<u8>, p: int, m: Bounds) {
        let members = tree::object_at(s, p, m.depth).items;
        match (a, b) {
            (Position::Combined(v), Position::Combined(w)) => {
                Property::<Values>::one_value(v, w, s, p, m);
            },
            (Position::Split { x, y }, Position::Split { x: u, y: v }) => {
                decode::lemma_field_same(x, u, s, members, names::NAME_X, m);
                decode::lemma_field_same(y, v, s, members, names::NAME_Y, m);
            },
            _ => {},
        }
    }

    fn decode(c: &Reader<'_>, pos: usize) -> (r: Result<Position>) {
        let members = match tree::read_object(&c.cursor, pos) {
            Ok(members) => members,
            Err(e) => {
                return Err(e);
            },
        };
        let split = match decode_flag(c, &members, names::NAME_S) {
            Ok(v) => v,
            Err(e) => {
                return Err(e);
            },
        };
        if !split {
            return match Property::<Values>::decode(c, pos) {
                Ok(v) => Ok(Position::Combined(v)),
                Err(e) => Err(e),
            };
        }
        let x = match decode_field(c, &members, names::NAME_X) {
            Ok(v) => v,
            Err(e) => {
                return Err(e);
            },
        };
        let y = match decode_field(c, &members, names::NAME_Y) {
            Ok(v) => v,
            Err(e) => {
                return Err(e);
            },
        };
        Ok(Position::Split { x, y })
    }
}

/// Where something stands, how it is turned and stretched, and how opaque it is.
pub struct Transform {
    /// The point that stays where it is.
    pub anchor: Option<Property<Values>>,
    /// Where the anchor goes.
    pub position: Option<Position>,
    /// The scale in percent.
    pub scale: Option<Property<Values>>,
    /// The turn in degrees.
    pub rotation: Option<Property<Values>>,
    /// The opacity in percent.
    pub opacity: Option<Property<Values>>,
    /// The skew in degrees.
    pub skew: Option<Property<Values>>,
    /// The direction of the skew in degrees.
    pub skew_axis: Option<Property<Values>>,
}

impl Decode for Transform {
    open spec fn fault(s: Seq<u8>, p: int, m: Bounds) -> Option<Error> {
        let found = tree::object_at(s, p, m.depth);
        let members = found.items;
        decode::either(
            found.scan.fault,
            decode::either(
                decode::field_fault::<Property<Values>>(s, members, names::NAME_A, m),
                decode::either(
                    decode::field_fault::<Position>(s, members, names::NAME_P, m),
                    decode::either(
                        decode::field_fault::<Property<Values>>(s, members, names::NAME_S, m),
                        decode::either(
                            decode::field_fault::<Property<Values>>(s, members, names::NAME_R, m),
                            decode::either(
                                decode::field_fault::<Property<Values>>(s, members, names::NAME_O, m),
                                decode::either(
                                    decode::field_fault::<Property<Values>>(s, members, names::NAME_SK, m),
                                    decode::field_fault::<Property<Values>>(s, members, names::NAME_SA, m),
                                ),
                            ),
                        ),
                    ),
                ),
            ),
        )
    }

    open spec fn reads(&self, s: Seq<u8>, p: int, m: Bounds) -> bool {
        let members = tree::object_at(s, p, m.depth).items;
        &&& decode::field_reads(self.anchor, s, members, names::NAME_A, m)
        &&& decode::field_reads(self.position, s, members, names::NAME_P, m)
        &&& decode::field_reads(self.scale, s, members, names::NAME_S, m)
        &&& decode::field_reads(self.rotation, s, members, names::NAME_R, m)
        &&& decode::field_reads(self.opacity, s, members, names::NAME_O, m)
        &&& decode::field_reads(self.skew, s, members, names::NAME_SK, m)
        &&& decode::field_reads(self.skew_axis, s, members, names::NAME_SA, m)
    }

    open spec fn same(&self, other: &Transform) -> bool {
        &&& decode::same_option(self.anchor, other.anchor)
        &&& decode::same_option(self.position, other.position)
        &&& decode::same_option(self.scale, other.scale)
        &&& decode::same_option(self.rotation, other.rotation)
        &&& decode::same_option(self.opacity, other.opacity)
        &&& decode::same_option(self.skew, other.skew)
        &&& decode::same_option(self.skew_axis, other.skew_axis)
    }

    proof fn one_value(a: Transform, b: Transform, s: Seq<u8>, p: int, m: Bounds) {
        let members = tree::object_at(s, p, m.depth).items;
        decode::lemma_field_same(a.anchor, b.anchor, s, members, names::NAME_A, m);
        decode::lemma_field_same(a.position, b.position, s, members, names::NAME_P, m);
        decode::lemma_field_same(a.scale, b.scale, s, members, names::NAME_S, m);
        decode::lemma_field_same(a.rotation, b.rotation, s, members, names::NAME_R, m);
        decode::lemma_field_same(a.opacity, b.opacity, s, members, names::NAME_O, m);
        decode::lemma_field_same(a.skew, b.skew, s, members, names::NAME_SK, m);
        decode::lemma_field_same(a.skew_axis, b.skew_axis, s, members, names::NAME_SA, m);
    }

    fn decode(c: &Reader<'_>, pos: usize) -> (r: Result<Transform>) {
        let members = match tree::read_object(&c.cursor, pos) {
            Ok(members) => members,
            Err(e) => {
                return Err(e);
            },
        };
        let anchor = match decode_field(c, &members, names::NAME_A) {
            Ok(v) => v,
            Err(e) => {
                return Err(e);
            },
        };
        let position = match decode_field(c, &members, names::NAME_P) {
            Ok(v) => v,
            Err(e) => {
                return Err(e);
            },
        };
        let scale = match decode_field(c, &members, names::NAME_S) {
            Ok(v) => v,
            Err(e) => {
                return Err(e);
            },
        };
        let rotation = match decode_field(c, &members, names::NAME_R) {
            Ok(v) => v,
            Err(e) => {
                return Err(e);
            },
        };
        let opacity = match decode_field(c, &members, names::NAME_O) {
            Ok(v) => v,
            Err(e) => {
                return Err(e);
            },
        };
        let skew = match decode_field(c, &members, names::NAME_SK) {
            Ok(v) => v,
            Err(e) => {
                return Err(e);
            },
        };
        let skew_axis = match decode_field(c, &members, names::NAME_SA) {
            Ok(v) => v,
            Err(e) => {
                return Err(e);
            },
        };
        Ok(Transform { anchor, position, scale, rotation, opacity, skew, skew_axis })
    }
}

/// A free path.
pub struct PathShape {
    /// The path.
    pub path: Option<Property<PathData>>,
}

impl Decode for PathShape {
    open spec fn fault(s: Seq<u8>, p: int, m: Bounds) -> Option<Error> {
        let found = tree::object_at(s, p, m.depth);
        let members = found.items;
        decode::either(
            found.scan.fault,
            decode::field_fault::<Property<PathData>>(s, members, names::NAME_KS, m),
        )
    }

    open spec fn reads(&self, s: Seq<u8>, p: int, m: Bounds) -> bool {
        let members = tree::object_at(s, p, m.depth).items;
        &&& decode::field_reads(self.path, s, members, names::NAME_KS, m)
    }

    open spec fn same(&self, other: &PathShape) -> bool {
        decode::same_option(self.path, other.path)
    }

    proof fn one_value(a: PathShape, b: PathShape, s: Seq<u8>, p: int, m: Bounds) {
        let members = tree::object_at(s, p, m.depth).items;
        decode::lemma_field_same(a.path, b.path, s, members, names::NAME_KS, m);
    }

    fn decode(c: &Reader<'_>, pos: usize) -> (r: Result<PathShape>) {
        let members = match tree::read_object(&c.cursor, pos) {
            Ok(members) => members,
            Err(e) => {
                return Err(e);
            },
        };
        let path = match decode_field(c, &members, names::NAME_KS) {
            Ok(v) => v,
            Err(e) => {
                return Err(e);
            },
        };
        Ok(PathShape { path })
    }
}

/// A rectangle.
pub struct RectShape {
    /// The centre.
    pub position: Option<Property<Values>>,
    /// The size.
    pub size: Option<Property<Values>>,
    /// The radius of the corners.
    pub radius: Option<Property<Values>>,
    /// Which way the outline runs: three for backwards.
    pub direction: u32,
}

impl Decode for RectShape {
    open spec fn fault(s: Seq<u8>, p: int, m: Bounds) -> Option<Error> {
        let found = tree::object_at(s, p, m.depth);
        let members = found.items;
        decode::either(
            found.scan.fault,
            decode::either(
                decode::field_fault::<Property<Values>>(s, members, names::NAME_P, m),
                decode::either(
                    decode::field_fault::<Property<Values>>(s, members, names::NAME_S, m),
                    decode::either(
                        decode::field_fault::<Property<Values>>(s, members, names::NAME_R, m),
                        decode::field_fault::<Code>(s, members, names::NAME_D, m),
                    ),
                ),
            ),
        )
    }

    open spec fn reads(&self, s: Seq<u8>, p: int, m: Bounds) -> bool {
        let members = tree::object_at(s, p, m.depth).items;
        &&& decode::field_reads(self.position, s, members, names::NAME_P, m)
        &&& decode::field_reads(self.size, s, members, names::NAME_S, m)
        &&& decode::field_reads(self.radius, s, members, names::NAME_R, m)
        &&& self.direction == decode::field_code(s, members, names::NAME_D, 1)
    }

    open spec fn same(&self, other: &RectShape) -> bool {
        &&& decode::same_option(self.position, other.position)
        &&& decode::same_option(self.size, other.size)
        &&& decode::same_option(self.radius, other.radius)
        &&& self.direction == other.direction
    }

    proof fn one_value(a: RectShape, b: RectShape, s: Seq<u8>, p: int, m: Bounds) {
        let members = tree::object_at(s, p, m.depth).items;
        decode::lemma_field_same(a.position, b.position, s, members, names::NAME_P, m);
        decode::lemma_field_same(a.size, b.size, s, members, names::NAME_S, m);
        decode::lemma_field_same(a.radius, b.radius, s, members, names::NAME_R, m);
    }

    fn decode(c: &Reader<'_>, pos: usize) -> (r: Result<RectShape>) {
        let members = match tree::read_object(&c.cursor, pos) {
            Ok(members) => members,
            Err(e) => {
                return Err(e);
            },
        };
        let position = match decode_field(c, &members, names::NAME_P) {
            Ok(v) => v,
            Err(e) => {
                return Err(e);
            },
        };
        let size = match decode_field(c, &members, names::NAME_S) {
            Ok(v) => v,
            Err(e) => {
                return Err(e);
            },
        };
        let radius = match decode_field(c, &members, names::NAME_R) {
            Ok(v) => v,
            Err(e) => {
                return Err(e);
            },
        };
        let direction = match decode_code(c, &members, names::NAME_D, 1) {
            Ok(v) => v,
            Err(e) => {
                return Err(e);
            },
        };
        Ok(RectShape { position, size, radius, direction })
    }
}

/// An ellipse.
pub struct EllipseShape {
    /// The centre.
    pub position: Option<Property<Values>>,
    /// The size.
    pub size: Option<Property<Values>>,
    /// Which way the outline runs: three for backwards.
    pub direction: u32,
}

impl Decode for EllipseShape {
    open spec fn fault(s: Seq<u8>, p: int, m: Bounds) -> Option<Error> {
        let found = tree::object_at(s, p, m.depth);
        let members = found.items;
        decode::either(
            found.scan.fault,
            decode::either(
                decode::field_fault::<Property<Values>>(s, members, names::NAME_P, m),
                decode::either(
                    decode::field_fault::<Property<Values>>(s, members, names::NAME_S, m),
                    decode::field_fault::<Code>(s, members, names::NAME_D, m),
                ),
            ),
        )
    }

    open spec fn reads(&self, s: Seq<u8>, p: int, m: Bounds) -> bool {
        let members = tree::object_at(s, p, m.depth).items;
        &&& decode::field_reads(self.position, s, members, names::NAME_P, m)
        &&& decode::field_reads(self.size, s, members, names::NAME_S, m)
        &&& self.direction == decode::field_code(s, members, names::NAME_D, 1)
    }

    open spec fn same(&self, other: &EllipseShape) -> bool {
        &&& decode::same_option(self.position, other.position)
        &&& decode::same_option(self.size, other.size)
        &&& self.direction == other.direction
    }

    proof fn one_value(a: EllipseShape, b: EllipseShape, s: Seq<u8>, p: int, m: Bounds) {
        let members = tree::object_at(s, p, m.depth).items;
        decode::lemma_field_same(a.position, b.position, s, members, names::NAME_P, m);
        decode::lemma_field_same(a.size, b.size, s, members, names::NAME_S, m);
    }

    fn decode(c: &Reader<'_>, pos: usize) -> (r: Result<EllipseShape>) {
        let members = match tree::read_object(&c.cursor, pos) {
            Ok(members) => members,
            Err(e) => {
                return Err(e);
            },
        };
        let position = match decode_field(c, &members, names::NAME_P) {
            Ok(v) => v,
            Err(e) => {
                return Err(e);
            },
        };
        let size = match decode_field(c, &members, names::NAME_S) {
            Ok(v) => v,
            Err(e) => {
                return Err(e);
            },
        };
        let direction = match decode_code(c, &members, names::NAME_D, 1) {
            Ok(v) => v,
            Err(e) => {
                return Err(e);
            },
        };
        Ok(EllipseShape { position, size, direction })
    }
}

/// A star or a polygon.
pub struct PolystarShape {
    /// One for a star, two for a polygon.
    pub star: u32,
    /// How many points it has.
    pub points: Option<Property<Values>>,
    /// The centre.
    pub position: Option<Property<Values>>,
    /// The turn in degrees.
    pub rotation: Option<Property<Values>>,
    /// The inner radius.
    pub inner_radius: Option<Property<Values>>,
    /// The outer radius.
    pub outer_radius: Option<Property<Values>>,
    /// How round the inner points are.
    pub inner_roundness: Option<Property<Values>>,
    /// How round the outer points are.
    pub outer_roundness: Option<Property<Values>>,
    /// Which way the outline runs: three for backwards.
    pub direction: u32,
}

impl Decode for PolystarShape {
    open spec fn fault(s: Seq<u8>, p: int, m: Bounds) -> Option<Error> {
        let found = tree::object_at(s, p, m.depth);
        let members = found.items;
        decode::either(
            found.scan.fault,
            decode::either(
                decode::field_fault::<Code>(s, members, names::NAME_SY, m),
                decode::either(
                    decode::field_fault::<Property<Values>>(s, members, names::NAME_PT, m),
                    decode::either(
                        decode::field_fault::<Property<Values>>(s, members, names::NAME_P, m),
                        decode::either(
                            decode::field_fault::<Property<Values>>(s, members, names::NAME_R, m),
                            decode::either(
                                decode::field_fault::<Property<Values>>(s, members, names::NAME_IR, m),
                                decode::either(
                                    decode::field_fault::<Property<Values>>(s, members, names::NAME_OR, m),
                                    decode::either(
                                        decode::field_fault::<Property<Values>>(s, members, names::NAME_IS, m),
                                        decode::either(
                                            decode::field_fault::<Property<Values>>(s, members, names::NAME_OS, m),
                                            decode::field_fault::<Code>(s, members, names::NAME_D, m),
                                        ),
                                    ),
                                ),
                            ),
                        ),
                    ),
                ),
            ),
        )
    }

    open spec fn reads(&self, s: Seq<u8>, p: int, m: Bounds) -> bool {
        let members = tree::object_at(s, p, m.depth).items;
        &&& self.star == decode::field_code(s, members, names::NAME_SY, 1)
        &&& decode::field_reads(self.points, s, members, names::NAME_PT, m)
        &&& decode::field_reads(self.position, s, members, names::NAME_P, m)
        &&& decode::field_reads(self.rotation, s, members, names::NAME_R, m)
        &&& decode::field_reads(self.inner_radius, s, members, names::NAME_IR, m)
        &&& decode::field_reads(self.outer_radius, s, members, names::NAME_OR, m)
        &&& decode::field_reads(self.inner_roundness, s, members, names::NAME_IS, m)
        &&& decode::field_reads(self.outer_roundness, s, members, names::NAME_OS, m)
        &&& self.direction == decode::field_code(s, members, names::NAME_D, 1)
    }

    open spec fn same(&self, other: &PolystarShape) -> bool {
        &&& self.star == other.star
        &&& decode::same_option(self.points, other.points)
        &&& decode::same_option(self.position, other.position)
        &&& decode::same_option(self.rotation, other.rotation)
        &&& decode::same_option(self.inner_radius, other.inner_radius)
        &&& decode::same_option(self.outer_radius, other.outer_radius)
        &&& decode::same_option(self.inner_roundness, other.inner_roundness)
        &&& decode::same_option(self.outer_roundness, other.outer_roundness)
        &&& self.direction == other.direction
    }

    proof fn one_value(a: PolystarShape, b: PolystarShape, s: Seq<u8>, p: int, m: Bounds) {
        let members = tree::object_at(s, p, m.depth).items;
        decode::lemma_field_same(a.points, b.points, s, members, names::NAME_PT, m);
        decode::lemma_field_same(a.position, b.position, s, members, names::NAME_P, m);
        decode::lemma_field_same(a.rotation, b.rotation, s, members, names::NAME_R, m);
        decode::lemma_field_same(a.inner_radius, b.inner_radius, s, members, names::NAME_IR, m);
        decode::lemma_field_same(a.outer_radius, b.outer_radius, s, members, names::NAME_OR, m);
        decode::lemma_field_same(a.inner_roundness, b.inner_roundness, s, members, names::NAME_IS, m);
        decode::lemma_field_same(a.outer_roundness, b.outer_roundness, s, members, names::NAME_OS, m);
    }

    fn decode(c: &Reader<'_>, pos: usize) -> (r: Result<PolystarShape>) {
        let members = match tree::read_object(&c.cursor, pos) {
            Ok(members) => members,
            Err(e) => {
                return Err(e);
            },
        };
        let star = match decode_code(c, &members, names::NAME_SY, 1) {
            Ok(v) => v,
            Err(e) => {
                return Err(e);
            },
        };
        let points = match decode_field(c, &members, names::NAME_PT) {
            Ok(v) => v,
            Err(e) => {
                return Err(e);
            },
        };
        let position = match decode_field(c, &members, names::NAME_P) {
            Ok(v) => v,
            Err(e) => {
                return Err(e);
            },
        };
        let rotation = match decode_field(c, &members, names::NAME_R) {
            Ok(v) => v,
            Err(e) => {
                return Err(e);
            },
        };
        let inner_radius = match decode_field(c, &members, names::NAME_IR) {
            Ok(v) => v,
            Err(e) => {
                return Err(e);
            },
        };
        let outer_radius = match decode_field(c, &members, names::NAME_OR) {
            Ok(v) => v,
            Err(e) => {
                return Err(e);
            },
        };
        let inner_roundness = match decode_field(c, &members, names::NAME_IS) {
            Ok(v) => v,
            Err(e) => {
                return Err(e);
            },
        };
        let outer_roundness = match decode_field(c, &members, names::NAME_OS) {
            Ok(v) => v,
            Err(e) => {
                return Err(e);
            },
        };
        let direction = match decode_code(c, &members, names::NAME_D, 1) {
            Ok(v) => v,
            Err(e) => {
                return Err(e);
            },
        };
        Ok(PolystarShape { star, points, position, rotation, inner_radius, outer_radius, inner_roundness, outer_roundness, direction })
    }
}

/// A modifier that rounds the corners of the paths before it.
pub struct RoundCorners {
    /// The radius of the corners.
    pub radius: Option<Property<Values>>,
}

impl Decode for RoundCorners {
    open spec fn fault(s: Seq<u8>, p: int, m: Bounds) -> Option<Error> {
        let found = tree::object_at(s, p, m.depth);
        let members = found.items;
        decode::either(
            found.scan.fault,
            decode::field_fault::<Property<Values>>(s, members, names::NAME_R, m),
        )
    }

    open spec fn reads(&self, s: Seq<u8>, p: int, m: Bounds) -> bool {
        let members = tree::object_at(s, p, m.depth).items;
        &&& decode::field_reads(self.radius, s, members, names::NAME_R, m)
    }

    open spec fn same(&self, other: &RoundCorners) -> bool {
        decode::same_option(self.radius, other.radius)
    }

    proof fn one_value(a: RoundCorners, b: RoundCorners, s: Seq<u8>, p: int, m: Bounds) {
        let members = tree::object_at(s, p, m.depth).items;
        decode::lemma_field_same(a.radius, b.radius, s, members, names::NAME_R, m);
    }

    fn decode(c: &Reader<'_>, pos: usize) -> (r: Result<RoundCorners>) {
        let members = match tree::read_object(&c.cursor, pos) {
            Ok(members) => members,
            Err(e) => {
                return Err(e);
            },
        };
        let radius = match decode_field(c, &members, names::NAME_R) {
            Ok(v) => v,
            Err(e) => {
                return Err(e);
            },
        };
        Ok(RoundCorners { radius })
    }
}

/// A modifier that cuts the paths before it to a part of their length.
pub struct Trim {
    /// Where the part starts, in percent.
    pub start: Option<Property<Values>>,
    /// Where the part ends, in percent.
    pub end: Option<Property<Values>>,
    /// How far the part is moved, in degrees.
    pub offset: Option<Property<Values>>,
    /// Whether each path is cut alone or all are cut as one.
    pub mode: u32,
}

impl Decode for Trim {
    open spec fn fault(s: Seq<u8>, p: int, m: Bounds) -> Option<Error> {
        let found = tree::object_at(s, p, m.depth);
        let members = found.items;
        decode::either(
            found.scan.fault,
            decode::either(
                decode::field_fault::<Property<Values>>(s, members, names::NAME_S, m),
                decode::either(
                    decode::field_fault::<Property<Values>>(s, members, names::NAME_E, m),
                    decode::either(
                        decode::field_fault::<Property<Values>>(s, members, names::NAME_O, m),
                        decode::field_fault::<Code>(s, members, names::NAME_M, m),
                    ),
                ),
            ),
        )
    }

    open spec fn reads(&self, s: Seq<u8>, p: int, m: Bounds) -> bool {
        let members = tree::object_at(s, p, m.depth).items;
        &&& decode::field_reads(self.start, s, members, names::NAME_S, m)
        &&& decode::field_reads(self.end, s, members, names::NAME_E, m)
        &&& decode::field_reads(self.offset, s, members, names::NAME_O, m)
        &&& self.mode == decode::field_code(s, members, names::NAME_M, 1)
    }

    open spec fn same(&self, other: &Trim) -> bool {
        &&& decode::same_option(self.start, other.start)
        &&& decode::same_option(self.end, other.end)
        &&& decode::same_option(self.offset, other.offset)
        &&& self.mode == other.mode
    }

    proof fn one_value(a: Trim, b: Trim, s: Seq<u8>, p: int, m: Bounds) {
        let members = tree::object_at(s, p, m.depth).items;
        decode::lemma_field_same(a.start, b.start, s, members, names::NAME_S, m);
        decode::lemma_field_same(a.end, b.end, s, members, names::NAME_E, m);
        decode::lemma_field_same(a.offset, b.offset, s, members, names::NAME_O, m);
    }

    fn decode(c: &Reader<'_>, pos: usize) -> (r: Result<Trim>) {
        let members = match tree::read_object(&c.cursor, pos) {
            Ok(members) => members,
            Err(e) => {
                return Err(e);
            },
        };
        let start = match decode_field(c, &members, names::NAME_S) {
            Ok(v) => v,
            Err(e) => {
                return Err(e);
            },
        };
        let end = match decode_field(c, &members, names::NAME_E) {
            Ok(v) => v,
            Err(e) => {
                return Err(e);
            },
        };
        let offset = match decode_field(c, &members, names::NAME_O) {
            Ok(v) => v,
            Err(e) => {
                return Err(e);
            },
        };
        let mode = match decode_code(c, &members, names::NAME_M, 1) {
            Ok(v) => v,
            Err(e) => {
                return Err(e);
            },
        };
        Ok(Trim { start, end, offset, mode })
    }
}

/// What changes from copy to copy.
pub struct RepeaterTransform {
    /// The point that stays where it is.
    pub anchor: Option<Property<Values>>,
    /// How far each copy is moved.
    pub position: Option<Position>,
    /// The scale in percent.
    pub scale: Option<Property<Values>>,
    /// The turn in degrees.
    pub rotation: Option<Property<Values>>,
    /// The opacity in percent.
    pub opacity: Option<Property<Values>>,
    /// The skew in degrees.
    pub skew: Option<Property<Values>>,
    /// The direction of the skew in degrees.
    pub skew_axis: Option<Property<Values>>,
    /// The opacity of the first copy, in percent.
    pub start_opacity: Option<Property<Values>>,
    /// The opacity of the last copy, in percent.
    pub end_opacity: Option<Property<Values>>,
}

impl Decode for RepeaterTransform {
    open spec fn fault(s: Seq<u8>, p: int, m: Bounds) -> Option<Error> {
        let found = tree::object_at(s, p, m.depth);
        let members = found.items;
        decode::either(
            found.scan.fault,
            decode::either(
                decode::field_fault::<Property<Values>>(s, members, names::NAME_A, m),
                decode::either(
                    decode::field_fault::<Position>(s, members, names::NAME_P, m),
                    decode::either(
                        decode::field_fault::<Property<Values>>(s, members, names::NAME_S, m),
                        decode::either(
                            decode::field_fault::<Property<Values>>(s, members, names::NAME_R, m),
                            decode::either(
                                decode::field_fault::<Property<Values>>(s, members, names::NAME_O, m),
                                decode::either(
                                    decode::field_fault::<Property<Values>>(s, members, names::NAME_SK, m),
                                    decode::either(
                                        decode::field_fault::<Property<Values>>(s, members, names::NAME_SA, m),
                                        decode::either(
                                            decode::field_fault::<Property<Values>>(s, members, names::NAME_SO, m),
                                            decode::field_fault::<Property<Values>>(s, members, names::NAME_EO, m),
                                        ),
                                    ),
                                ),
                            ),
                        ),
                    ),
                ),
            ),
        )
    }

    open spec fn reads(&self, s: Seq<u8>, p: int, m: Bounds) -> bool {
        let members = tree::object_at(s, p, m.depth).items;
        &&& decode::field_reads(self.anchor, s, members, names::NAME_A, m)
        &&& decode::field_reads(self.position, s, members, names::NAME_P, m)
        &&& decode::field_reads(self.scale, s, members, names::NAME_S, m)
        &&& decode::field_reads(self.rotation, s, members, names::NAME_R, m)
        &&& decode::field_reads(self.opacity, s, members, names::NAME_O, m)
        &&& decode::field_reads(self.skew, s, members, names::NAME_SK, m)
        &&& decode::field_reads(self.skew_axis, s, members, names::NAME_SA, m)
        &&& decode::field_reads(self.start_opacity, s, members, names::NAME_SO, m)
        &&& decode::field_reads(self.end_opacity, s, members, names::NAME_EO, m)
    }

    open spec fn same(&self, other: &RepeaterTransform) -> bool {
        &&& decode::same_option(self.anchor, other.anchor)
        &&& decode::same_option(self.position, other.position)
        &&& decode::same_option(self.scale, other.scale)
        &&& decode::same_option(self.rotation, other.rotation)
        &&& decode::same_option(self.opacity, other.opacity)
        &&& decode::same_option(self.skew, other.skew)
        &&& decode::same_option(self.skew_axis, other.skew_axis)
        &&& decode::same_option(self.start_opacity, other.start_opacity)
        &&& decode::same_option(self.end_opacity, other.end_opacity)
    }

    proof fn one_value(a: RepeaterTransform, b: RepeaterTransform, s: Seq<u8>, p: int, m: Bounds) {
        let members = tree::object_at(s, p, m.depth).items;
        decode::lemma_field_same(a.anchor, b.anchor, s, members, names::NAME_A, m);
        decode::lemma_field_same(a.position, b.position, s, members, names::NAME_P, m);
        decode::lemma_field_same(a.scale, b.scale, s, members, names::NAME_S, m);
        decode::lemma_field_same(a.rotation, b.rotation, s, members, names::NAME_R, m);
        decode::lemma_field_same(a.opacity, b.opacity, s, members, names::NAME_O, m);
        decode::lemma_field_same(a.skew, b.skew, s, members, names::NAME_SK, m);
        decode::lemma_field_same(a.skew_axis, b.skew_axis, s, members, names::NAME_SA, m);
        decode::lemma_field_same(a.start_opacity, b.start_opacity, s, members, names::NAME_SO, m);
        decode::lemma_field_same(a.end_opacity, b.end_opacity, s, members, names::NAME_EO, m);
    }

    fn decode(c: &Reader<'_>, pos: usize) -> (r: Result<RepeaterTransform>) {
        let members = match tree::read_object(&c.cursor, pos) {
            Ok(members) => members,
            Err(e) => {
                return Err(e);
            },
        };
        let anchor = match decode_field(c, &members, names::NAME_A) {
            Ok(v) => v,
            Err(e) => {
                return Err(e);
            },
        };
        let position = match decode_field(c, &members, names::NAME_P) {
            Ok(v) => v,
            Err(e) => {
                return Err(e);
            },
        };
        let scale = match decode_field(c, &members, names::NAME_S) {
            Ok(v) => v,
            Err(e) => {
                return Err(e);
            },
        };
        let rotation = match decode_field(c, &members, names::NAME_R) {
            Ok(v) => v,
            Err(e) => {
                return Err(e);
            },
        };
        let opacity = match decode_field(c, &members, names::NAME_O) {
            Ok(v) => v,
            Err(e) => {
                return Err(e);
            },
        };
        let skew = match decode_field(c, &members, names::NAME_SK) {
            Ok(v) => v,
            Err(e) => {
                return Err(e);
            },
        };
        let skew_axis = match decode_field(c, &members, names::NAME_SA) {
            Ok(v) => v,
            Err(e) => {
                return Err(e);
            },
        };
        let start_opacity = match decode_field(c, &members, names::NAME_SO) {
            Ok(v) => v,
            Err(e) => {
                return Err(e);
            },
        };
        let end_opacity = match decode_field(c, &members, names::NAME_EO) {
            Ok(v) => v,
            Err(e) => {
                return Err(e);
            },
        };
        Ok(
            RepeaterTransform {
                anchor,
                position,
                scale,
                rotation,
                opacity,
                skew,
                skew_axis,
                start_opacity,
                end_opacity,
            },
        )
    }
}

/// A modifier that repeats what stands before it.
pub struct Repeater {
    /// How many copies there are.
    pub copies: Option<Property<Values>>,
    /// The number of the first copy.
    pub offset: Option<Property<Values>>,
    /// Whether copies go above or below.
    pub order: u32,
    /// What changes from copy to copy.
    pub transform: Option<RepeaterTransform>,
}

impl Decode for Repeater {
    open spec fn fault(s: Seq<u8>, p: int, m: Bounds) -> Option<Error> {
        let found = tree::object_at(s, p, m.depth);
        let members = found.items;
        decode::either(
            found.scan.fault,
            decode::either(
                decode::field_fault::<Property<Values>>(s, members, names::NAME_C, m),
                decode::either(
                    decode::field_fault::<Property<Values>>(s, members, names::NAME_O, m),
                    decode::either(
                        decode::field_fault::<Code>(s, members, names::NAME_M, m),
                        decode::field_fault::<RepeaterTransform>(s, members, names::NAME_TR, m),
                    ),
                ),
            ),
        )
    }

    open spec fn reads(&self, s: Seq<u8>, p: int, m: Bounds) -> bool {
        let members = tree::object_at(s, p, m.depth).items;
        &&& decode::field_reads(self.copies, s, members, names::NAME_C, m)
        &&& decode::field_reads(self.offset, s, members, names::NAME_O, m)
        &&& self.order == decode::field_code(s, members, names::NAME_M, 1)
        &&& decode::field_reads(self.transform, s, members, names::NAME_TR, m)
    }

    open spec fn same(&self, other: &Repeater) -> bool {
        &&& decode::same_option(self.copies, other.copies)
        &&& decode::same_option(self.offset, other.offset)
        &&& self.order == other.order
        &&& decode::same_option(self.transform, other.transform)
    }

    proof fn one_value(a: Repeater, b: Repeater, s: Seq<u8>, p: int, m: Bounds) {
        let members = tree::object_at(s, p, m.depth).items;
        decode::lemma_field_same(a.copies, b.copies, s, members, names::NAME_C, m);
        decode::lemma_field_same(a.offset, b.offset, s, members, names::NAME_O, m);
        decode::lemma_field_same(a.transform, b.transform, s, members, names::NAME_TR, m);
    }

    fn decode(c: &Reader<'_>, pos: usize) -> (r: Result<Repeater>) {
        let members = match tree::read_object(&c.cursor, pos) {
            Ok(members) => members,
            Err(e) => {
                return Err(e);
            },
        };
        let copies = match decode_field(c, &members, names::NAME_C) {
            Ok(v) => v,
            Err(e) => {
                return Err(e);
            },
        };
        let offset = match decode_field(c, &members, names::NAME_O) {
            Ok(v) => v,
            Err(e) => {
                return Err(e);
            },
        };
        let order = match decode_code(c, &members, names::NAME_M, 1) {
            Ok(v) => v,
            Err(e) => {
                return Err(e);
            },
        };
        let transform = match decode_field(c, &members, names::NAME_TR) {
            Ok(v) => v,
            Err(e) => {
                return Err(e);
            },
        };
        Ok(Repeater { copies, offset, order, transform })
    }
}

/// A fill of one colour.
pub struct Fill {
    /// The colour.
    pub color: Option<Property<Values>>,
    /// The opacity in percent.
    pub opacity: Option<Property<Values>>,
    /// The fill rule: two for even-odd.
    pub rule: u32,
}

impl Decode for Fill {
    open spec fn fault(s: Seq<u8>, p: int, m: Bounds) -> Option<Error> {
        let found = tree::object_at(s, p, m.depth);
        let members = found.items;
        decode::either(
            found.scan.fault,
            decode::either(
                decode::field_fault::<Property<Values>>(s, members, names::NAME_C, m),
                decode::either(
                    decode::field_fault::<Property<Values>>(s, members, names::NAME_O, m),
                    decode::field_fault::<Code>(s, members, names::NAME_R, m),
                ),
            ),
        )
    }

    open spec fn reads(&self, s: Seq<u8>, p: int, m: Bounds) -> bool {
        let members = tree::object_at(s, p, m.depth).items;
        &&& decode::field_reads(self.color, s, members, names::NAME_C, m)
        &&& decode::field_reads(self.opacity, s, members, names::NAME_O, m)
        &&& self.rule == decode::field_code(s, members, names::NAME_R, 1)
    }

    open spec fn same(&self, other: &Fill) -> bool {
        &&& decode::same_option(self.color, other.color)
        &&& decode::same_option(self.opacity, other.opacity)
        &&& self.rule == other.rule
    }

    proof fn one_value(a: Fill, b: Fill, s: Seq<u8>, p: int, m: Bounds) {
        let members = tree::object_at(s, p, m.depth).items;
        decode::lemma_field_same(a.color, b.color, s, members, names::NAME_C, m);
        decode::lemma_field_same(a.opacity, b.opacity, s, members, names::NAME_O, m);
    }

    fn decode(c: &Reader<'_>, pos: usize) -> (r: Result<Fill>) {
        let members = match tree::read_object(&c.cursor, pos) {
            Ok(members) => members,
            Err(e) => {
                return Err(e);
            },
        };
        let color = match decode_field(c, &members, names::NAME_C) {
            Ok(v) => v,
            Err(e) => {
                return Err(e);
            },
        };
        let opacity = match decode_field(c, &members, names::NAME_O) {
            Ok(v) => v,
            Err(e) => {
                return Err(e);
            },
        };
        let rule = match decode_code(c, &members, names::NAME_R, 1) {
            Ok(v) => v,
            Err(e) => {
                return Err(e);
            },
        };
        Ok(Fill { color, opacity, rule })
    }
}

/// One element of a dash pattern.
pub struct DashElement {
    /// What the element is: a dash, a gap or an offset.
    pub name: Option<Text>,
    /// Its length.
    pub value: Option<Property<Values>>,
}

impl Decode for DashElement {
    open spec fn fault(s: Seq<u8>, p: int, m: Bounds) -> Option<Error> {
        let found = tree::object_at(s, p, m.depth);
        let members = found.items;
        decode::either(
            found.scan.fault,
            decode::either(
                decode::field_fault::<Text>(s, members, names::NAME_N, m),
                decode::field_fault::<Property<Values>>(s, members, names::NAME_V, m),
            ),
        )
    }

    open spec fn reads(&self, s: Seq<u8>, p: int, m: Bounds) -> bool {
        let members = tree::object_at(s, p, m.depth).items;
        &&& decode::field_reads(self.name, s, members, names::NAME_N, m)
        &&& decode::field_reads(self.value, s, members, names::NAME_V, m)
    }

    open spec fn same(&self, other: &DashElement) -> bool {
        &&& decode::same_option(self.name, other.name)
        &&& decode::same_option(self.value, other.value)
    }

    proof fn one_value(a: DashElement, b: DashElement, s: Seq<u8>, p: int, m: Bounds) {
        let members = tree::object_at(s, p, m.depth).items;
        decode::lemma_field_same(a.name, b.name, s, members, names::NAME_N, m);
        decode::lemma_field_same(a.value, b.value, s, members, names::NAME_V, m);
    }

    fn decode(c: &Reader<'_>, pos: usize) -> (r: Result<DashElement>) {
        let members = match tree::read_object(&c.cursor, pos) {
            Ok(members) => members,
            Err(e) => {
                return Err(e);
            },
        };
        let name = match decode_field(c, &members, names::NAME_N) {
            Ok(v) => v,
            Err(e) => {
                return Err(e);
            },
        };
        let value = match decode_field(c, &members, names::NAME_V) {
            Ok(v) => v,
            Err(e) => {
                return Err(e);
            },
        };
        Ok(DashElement { name, value })
    }
}

/// A stroke of one colour.
pub struct Stroke {
    /// The colour.
    pub color: Option<Property<Values>>,
    /// The opacity in percent.
    pub opacity: Option<Property<Values>>,
    /// The width.
    pub width: Option<Property<Values>>,
    /// How open ends look.
    pub cap: u32,
    /// How corners look.
    pub join: u32,
    /// How far a sharp corner may reach.
    pub miter_limit: Option<Number>,
    /// The dash pattern.
    pub dashes: Vec<DashElement>,
}

impl Decode for Stroke {
    open spec fn fault(s: Seq<u8>, p: int, m: Bounds) -> Option<Error> {
        let found = tree::object_at(s, p, m.depth);
        let members = found.items;
        decode::either(
            found.scan.fault,
            decode::either(
                decode::field_fault::<Property<Values>>(s, members, names::NAME_C, m),
                decode::either(
                    decode::field_fault::<Property<Values>>(s, members, names::NAME_O, m),
                    decode::either(
                        decode::field_fault::<Property<Values>>(s, members, names::NAME_W, m),
                        decode::either(
                            decode::field_fault::<Code>(s, members, names::NAME_LC, m),
                            decode::either(
                                decode::field_fault::<Code>(s, members, names::NAME_LJ, m),
                                decode::either(
                                    decode::field_fault::<Number>(s, members, names::NAME_ML, m),
                                    decode::field_fault::<List<DashElement>>(s, members, names::NAME_D, m),
                                ),
                            ),
                        ),
                    ),
                ),
            ),
        )
    }

    open spec fn reads(&self, s: Seq<u8>, p: int, m: Bounds) -> bool {
        let members = tree::object_at(s, p, m.depth).items;
        &&& decode::field_reads(self.color, s, members, names::NAME_C, m)
        &&& decode::field_reads(self.opacity, s, members, names::NAME_O, m)
        &&& decode::field_reads(self.width, s, members, names::NAME_W, m)
        &&& self.cap == decode::field_code(s, members, names::NAME_LC, 2)
        &&& self.join == decode::field_code(s, members, names::NAME_LJ, 2)
        &&& decode::field_reads(self.miter_limit, s, members, names::NAME_ML, m)
        &&& decode::field_list_reads(self.dashes@, s, members, names::NAME_D, m)
    }

    open spec fn same(&self, other: &Stroke) -> bool {
        &&& decode::same_option(self.color, other.color)
        &&& decode::same_option(self.opacity, other.opacity)
        &&& decode::same_option(self.width, other.width)
        &&& self.cap == other.cap
        &&& self.join == other.join
        &&& decode::same_option(self.miter_limit, other.miter_limit)
        &&& decode::same_list(self.dashes@, other.dashes@)
    }

    proof fn one_value(a: Stroke, b: Stroke, s: Seq<u8>, p: int, m: Bounds) {
        let members = tree::object_at(s, p, m.depth).items;
        decode::lemma_field_same(a.color, b.color, s, members, names::NAME_C, m);
        decode::lemma_field_same(a.opacity, b.opacity, s, members, names::NAME_O, m);
        decode::lemma_field_same(a.width, b.width, s, members, names::NAME_W, m);
        decode::lemma_field_same(a.miter_limit, b.miter_limit, s, members, names::NAME_ML, m);
        decode::lemma_field_list_same(a.dashes@, b.dashes@, s, members, names::NAME_D, m);
    }

    fn decode(c: &Reader<'_>, pos: usize) -> (r: Result<Stroke>) {
        let members = match tree::read_object(&c.cursor, pos) {
            Ok(members) => members,
            Err(e) => {
                return Err(e);
            },
        };
        let color = match decode_field(c, &members, names::NAME_C) {
            Ok(v) => v,
            Err(e) => {
                return Err(e);
            },
        };
        let opacity = match decode_field(c, &members, names::NAME_O) {
            Ok(v) => v,
            Err(e) => {
                return Err(e);
            },
        };
        let width = match decode_field(c, &members, names::NAME_W) {
            Ok(v) => v,
            Err(e) => {
                return Err(e);
            },
        };
        let cap = match decode_code(c, &members, names::NAME_LC, 2) {
            Ok(v) => v,
            Err(e) => {
                return Err(e);
            },
        };
        let join = match decode_code(c, &members, names::NAME_LJ, 2) {
            Ok(v) => v,
            Err(e) => {
                return Err(e);
            },
        };
        let miter_limit = match decode_field(c, &members, names::NAME_ML) {
            Ok(v) => v,
            Err(e) => {
                return Err(e);
            },
        };
        let dashes = match decode_field_list(c, &members, names::NAME_D) {
            Ok(v) => v,
            Err(e) => {
                return Err(e);
            },
        };
        Ok(Stroke { color, opacity, width, cap, join, miter_limit, dashes })
    }
}

/// The colour stops of a gradient.
pub struct Stops {
    /// How many colour stops there are.
    pub count: u32,
    /// Offsets and colours, then offsets and opacities.
    pub values: Option<Property<Values>>,
}

impl Decode for Stops {
    open spec fn fault(s: Seq<u8>, p: int, m: Bounds) -> Option<Error> {
        let found = tree::object_at(s, p, m.depth);
        let members = found.items;
        decode::either(
            found.scan.fault,
            decode::either(
                decode::field_fault::<Code>(s, members, names::NAME_P, m),
                decode::field_fault::<Property<Values>>(s, members, names::NAME_K, m),
            ),
        )
    }

    open spec fn reads(&self, s: Seq<u8>, p: int, m: Bounds) -> bool {
        let members = tree::object_at(s, p, m.depth).items;
        &&& self.count == decode::field_code(s, members, names::NAME_P, 0)
        &&& decode::field_reads(self.values, s, members, names::NAME_K, m)
    }

    open spec fn same(&self, other: &Stops) -> bool {
        &&& self.count == other.count
        &&& decode::same_option(self.values, other.values)
    }

    proof fn one_value(a: Stops, b: Stops, s: Seq<u8>, p: int, m: Bounds) {
        let members = tree::object_at(s, p, m.depth).items;
        decode::lemma_field_same(a.values, b.values, s, members, names::NAME_K, m);
    }

    fn decode(c: &Reader<'_>, pos: usize) -> (r: Result<Stops>) {
        let members = match tree::read_object(&c.cursor, pos) {
            Ok(members) => members,
            Err(e) => {
                return Err(e);
            },
        };
        let count = match decode_code(c, &members, names::NAME_P, 0) {
            Ok(v) => v,
            Err(e) => {
                return Err(e);
            },
        };
        let values = match decode_field(c, &members, names::NAME_K) {
            Ok(v) => v,
            Err(e) => {
                return Err(e);
            },
        };
        Ok(Stops { count, values })
    }
}

/// A fill with a gradient.
pub struct GradientFill {
    /// Where the gradient starts.
    pub start: Option<Property<Values>>,
    /// Where the gradient ends.
    pub end: Option<Property<Values>>,
    /// The kind of gradient: two for a radial one.
    pub kind: u32,
    /// The opacity in percent.
    pub opacity: Option<Property<Values>>,
    /// How far the focus of a radial gradient is moved, in percent.
    pub highlight_len: Option<Property<Values>>,
    /// The direction in which it is moved, in degrees.
    pub highlight_angle: Option<Property<Values>>,
    /// The colour stops.
    pub stops: Option<Stops>,
    /// The fill rule: two for even-odd.
    pub rule: u32,
}

impl Decode for GradientFill {
    open spec fn fault(s: Seq<u8>, p: int, m: Bounds) -> Option<Error> {
        let found = tree::object_at(s, p, m.depth);
        let members = found.items;
        decode::either(
            found.scan.fault,
            decode::either(
                decode::field_fault::<Property<Values>>(s, members, names::NAME_S, m),
                decode::either(
                    decode::field_fault::<Property<Values>>(s, members, names::NAME_E, m),
                    decode::either(
                        decode::field_fault::<Code>(s, members, names::NAME_T, m),
                        decode::either(
                            decode::field_fault::<Property<Values>>(s, members, names::NAME_O, m),
                            decode::either(
                                decode::field_fault::<Property<Values>>(s, members, names::NAME_H, m),
                                decode::either(
                                    decode::field_fault::<Property<Values>>(s, members, names::NAME_A, m),
                                    decode::either(
                                        decode::field_fault::<Stops>(s, members, names::NAME_G, m),
                                        decode::field_fault::<Code>(s, members, names::NAME_R, m),
                                    ),
                                ),
                            ),
                        ),
                    ),
                ),
            ),
        )
    }

    open spec fn reads(&self, s: Seq<u8>, p: int, m: Bounds) -> bool {
        let members = tree::object_at(s, p, m.depth).items;
        &&& decode::field_reads(self.start, s, members, names::NAME_S, m)
        &&& decode::field_reads(self.end, s, members, names::NAME_E, m)
        &&& self.kind == decode::field_code(s, members, names::NAME_T, 1)
        &&& decode::field_reads(self.opacity, s, members, names::NAME_O, m)
        &&& decode::field_reads(self.highlight_len, s, members, names::NAME_H, m)
        &&& decode::field_reads(self.highlight_angle, s, members, names::NAME_A, m)
        &&& decode::field_reads(self.stops, s, members, names::NAME_G, m)
        &&& self.rule == decode::field_code(s, members, names::NAME_R, 1)
    }

    open spec fn same(&self, other: &GradientFill) -> bool {
        &&& decode::same_option(self.start, other.start)
        &&& decode::same_option(self.end, other.end)
        &&& self.kind == other.kind
        &&& decode::same_option(self.opacity, other.opacity)
        &&& decode::same_option(self.highlight_len, other.highlight_len)
        &&& decode::same_option(self.highlight_angle, other.highlight_angle)
        &&& decode::same_option(self.stops, other.stops)
        &&& self.rule == other.rule
    }

    proof fn one_value(a: GradientFill, b: GradientFill, s: Seq<u8>, p: int, m: Bounds) {
        let members = tree::object_at(s, p, m.depth).items;
        decode::lemma_field_same(a.start, b.start, s, members, names::NAME_S, m);
        decode::lemma_field_same(a.end, b.end, s, members, names::NAME_E, m);
        decode::lemma_field_same(a.opacity, b.opacity, s, members, names::NAME_O, m);
        decode::lemma_field_same(a.highlight_len, b.highlight_len, s, members, names::NAME_H, m);
        decode::lemma_field_same(a.highlight_angle, b.highlight_angle, s, members, names::NAME_A, m);
        decode::lemma_field_same(a.stops, b.stops, s, members, names::NAME_G, m);
    }

    fn decode(c: &Reader<'_>, pos: usize) -> (r: Result<GradientFill>) {
        let members = match tree::read_object(&c.cursor, pos) {
            Ok(members) => members,
            Err(e) => {
                return Err(e);
            },
        };
        let start = match decode_field(c, &members, names::NAME_S) {
            Ok(v) => v,
            Err(e) => {
                return Err(e);
            },
        };
        let end = match decode_field(c, &members, names::NAME_E) {
            Ok(v) => v,
            Err(e) => {
                return Err(e);
            },
        };
        let kind = match decode_code(c, &members, names::NAME_T, 1) {
            Ok(v) => v,
            Err(e) => {
                return Err(e);
            },
        };
        let opacity = match decode_field(c, &members, names::NAME_O) {
            Ok(v) => v,
            Err(e) => {
                return Err(e);
            },
        };
        let highlight_len = match decode_field(c, &members, names::NAME_H) {
            Ok(v) => v,
            Err(e) => {
                return Err(e);
            },
        };
        let highlight_angle = match decode_field(c, &members, names::NAME_A) {
            Ok(v) => v,
            Err(e) => {
                return Err(e);
            },
        };
        let stops = match decode_field(c, &members, names::NAME_G) {
            Ok(v) => v,
            Err(e) => {
                return Err(e);
            },
        };
        let rule = match decode_code(c, &members, names::NAME_R, 1) {
            Ok(v) => v,
            Err(e) => {
                return Err(e);
            },
        };
        Ok(GradientFill { start, end, kind, opacity, highlight_len, highlight_angle, stops, rule })
    }
}

/// A stroke with a gradient.
pub struct GradientStroke {
    /// Where the gradient starts.
    pub start: Option<Property<Values>>,
    /// Where the gradient ends.
    pub end: Option<Property<Values>>,
    /// The kind of gradient: two for a radial one.
    pub kind: u32,
    /// The opacity in percent.
    pub opacity: Option<Property<Values>>,
    /// How far the focus of a radial gradient is moved, in percent.
    pub highlight_len: Option<Property<Values>>,
    /// The direction in which it is moved, in degrees.
    pub highlight_angle: Option<Property<Values>>,
    /// The colour stops.
    pub stops: Option<Stops>,
    /// The width.
    pub width: Option<Property<Values>>,
    /// How open ends look.
    pub cap: u32,
    /// How corners look.
    pub join: u32,
    /// How far a sharp corner may reach.
    pub miter_limit: Option<Number>,
    /// The dash pattern.
    pub dashes: Vec<DashElement>,
}

impl Decode for GradientStroke {
    open spec fn fault(s: Seq<u8>, p: int, m: Bounds) -> Option<Error> {
        let found = tree::object_at(s, p, m.depth);
        let members = found.items;
        decode::either(
            found.scan.fault,
            decode::either(
                decode::field_fault::<Property<Values>>(s, members, names::NAME_S, m),
                decode::either(
                    decode::field_fault::<Property<Values>>(s, members, names::NAME_E, m),
                    decode::either(
                        decode::field_fault::<Code>(s, members, names::NAME_T, m),
                        decode::either(
                            decode::field_fault::<Property<Values>>(s, members, names::NAME_O, m),
                            decode::either(
                                decode::field_fault::<Property<Values>>(s, members, names::NAME_H, m),
                                decode::either(
                                    decode::field_fault::<Property<Values>>(s, members, names::NAME_A, m),
                                    decode::either(
                                        decode::field_fault::<Stops>(s, members, names::NAME_G, m),
                                        decode::either(
                                            decode::field_fault::<Property<Values>>(s, members, names::NAME_W, m),
                                            decode::either(
                                                decode::field_fault::<Code>(s, members, names::NAME_LC, m),
                                                decode::either(
                                                    decode::field_fault::<Code>(s, members, names::NAME_LJ, m),
                                                    decode::either(
                                                        decode::field_fault::<Number>(s, members, names::NAME_ML, m),
                                                        decode::field_fault::<List<DashElement>>(s, members, names::NAME_D, m),
                                                    ),
                                                ),
                                            ),
                                        ),
                                    ),
                                ),
                            ),
                        ),
                    ),
                ),
            ),
        )
    }

    open spec fn reads(&self, s: Seq<u8>, p: int, m: Bounds) -> bool {
        let members = tree::object_at(s, p, m.depth).items;
        &&& decode::field_reads(self.start, s, members, names::NAME_S, m)
        &&& decode::field_reads(self.end, s, members, names::NAME_E, m)
        &&& self.kind == decode::field_code(s, members, names::NAME_T, 1)
        &&& decode::field_reads(self.opacity, s, members, names::NAME_O, m)
        &&& decode::field_reads(self.highlight_len, s, members, names::NAME_H, m)
        &&& decode::field_reads(self.highlight_angle, s, members, names::NAME_A, m)
        &&& decode::field_reads(self.stops, s, members, names::NAME_G, m)
        &&& decode::field_reads(self.width, s, members, names::NAME_W, m)
        &&& self.cap == decode::field_code(s, members, names::NAME_LC, 2)
        &&& self.join == decode::field_code(s, members, names::NAME_LJ, 2)
        &&& decode::field_reads(self.miter_limit, s, members, names::NAME_ML, m)
        &&& decode::field_list_reads(self.dashes@, s, members, names::NAME_D, m)
    }

    open spec fn same(&self, other: &GradientStroke) -> bool {
        &&& decode::same_option(self.start, other.start)
        &&& decode::same_option(self.end, other.end)
        &&& self.kind == other.kind
        &&& decode::same_option(self.opacity, other.opacity)
        &&& decode::same_option(self.highlight_len, other.highlight_len)
        &&& decode::same_option(self.highlight_angle, other.highlight_angle)
        &&& decode::same_option(self.stops, other.stops)
        &&& decode::same_option(self.width, other.width)
        &&& self.cap == other.cap
        &&& self.join == other.join
        &&& decode::same_option(self.miter_limit, other.miter_limit)
        &&& decode::same_list(self.dashes@, other.dashes@)
    }

    proof fn one_value(a: GradientStroke, b: GradientStroke, s: Seq<u8>, p: int, m: Bounds) {
        let members = tree::object_at(s, p, m.depth).items;
        decode::lemma_field_same(a.start, b.start, s, members, names::NAME_S, m);
        decode::lemma_field_same(a.end, b.end, s, members, names::NAME_E, m);
        decode::lemma_field_same(a.opacity, b.opacity, s, members, names::NAME_O, m);
        decode::lemma_field_same(a.highlight_len, b.highlight_len, s, members, names::NAME_H, m);
        decode::lemma_field_same(a.highlight_angle, b.highlight_angle, s, members, names::NAME_A, m);
        decode::lemma_field_same(a.stops, b.stops, s, members, names::NAME_G, m);
        decode::lemma_field_same(a.width, b.width, s, members, names::NAME_W, m);
        decode::lemma_field_same(a.miter_limit, b.miter_limit, s, members, names::NAME_ML, m);
        decode::lemma_field_list_same(a.dashes@, b.dashes@, s, members, names::NAME_D, m);
    }

    fn decode(c: &Reader<'_>, pos: usize) -> (r: Result<GradientStroke>) {
        let members = match tree::read_object(&c.cursor, pos) {
            Ok(members) => members,
            Err(e) => {
                return Err(e);
            },
        };
        let start = match decode_field(c, &members, names::NAME_S) {
            Ok(v) => v,
            Err(e) => {
                return Err(e);
            },
        };
        let end = match decode_field(c, &members, names::NAME_E) {
            Ok(v) => v,
            Err(e) => {
                return Err(e);
            },
        };
        let kind = match decode_code(c, &members, names::NAME_T, 1) {
            Ok(v) => v,
            Err(e) => {
                return Err(e);
            },
        };
        let opacity = match decode_field(c, &members, names::NAME_O) {
            Ok(v) => v,
            Err(e) => {
                return Err(e);
            },
        };
        let highlight_len = match decode_field(c, &members, names::NAME_H) {
            Ok(v) => v,
            Err(e) => {
                return Err(e);
            },
        };
        let highlight_angle = match decode_field(c, &members, names::NAME_A) {
            Ok(v) => v,
            Err(e) => {
                return Err(e);
            },
        };
        let stops = match decode_field(c, &members, names::NAME_G) {
            Ok(v) => v,
            Err(e) => {
                return Err(e);
            },
        };
        let width = match decode_field(c, &members, names::NAME_W) {
            Ok(v) => v,
            Err(e) => {
                return Err(e);
            },
        };
        let cap = match decode_code(c, &members, names::NAME_LC, 2) {
            Ok(v) => v,
            Err(e) => {
                return Err(e);
            },
        };
        let join = match decode_code(c, &members, names::NAME_LJ, 2) {
            Ok(v) => v,
            Err(e) => {
                return Err(e);
            },
        };
        let miter_limit = match decode_field(c, &members, names::NAME_ML) {
            Ok(v) => v,
            Err(e) => {
                return Err(e);
            },
        };
        let dashes = match decode_field_list(c, &members, names::NAME_D) {
            Ok(v) => v,
            Err(e) => {
                return Err(e);
            },
        };
        Ok(GradientStroke { start, end, kind, opacity, highlight_len, highlight_angle, stops, width, cap, join, miter_limit, dashes })
    }
}

/// Shapes that are placed together.
pub struct Group {
    /// The shapes, in the order of the input.
    pub shapes: Vec<Shape>,
    /// Where they are placed.
    pub transform: Option<Transform>,
}

/// One element of a layer's content.
pub enum Shape {
    /// Shapes that are placed together.
    Group(Group),
    /// A free path.
    Path(PathShape),
    /// A rectangle.
    Rect(RectShape),
    /// An ellipse.
    Ellipse(EllipseShape),
    /// A star or a polygon.
    Polystar(PolystarShape),
    /// Rounds corners.
    RoundCorners(RoundCorners),
    /// Cuts paths.
    Trim(Trim),
    /// Repeats what stands before it.
    Repeater(Repeater),
    /// A fill.
    Fill(Fill),
    /// A stroke.
    Stroke(Stroke),
    /// A fill with a gradient.
    GradientFill(GradientFill),
    /// A stroke with a gradient.
    GradientStroke(GradientStroke),
}

/// The packed name of the type that the object at `p` gives, or zero where it gives none.
pub open spec fn type_at(s: Seq<u8>, p: int, m: Bounds) -> u128 {
    match tree::find(tree::object_at(s, p, m.depth).items, names::NAME_TY) {
        Some(at) => tree::packed_name(json::string_bytes(s, at as int)),
        None => 0,
    }
}

/// True where the object at `p` is marked as hidden.
pub open spec fn hidden_at(s: Seq<u8>, p: int, m: Bounds) -> bool {
    decode::field_flag(s, tree::object_at(s, p, m.depth).items, names::NAME_HD)
}

/// The error that reading the type and the mark of the object at `p` reports.
pub open spec fn header_fault(s: Seq<u8>, p: int, m: Bounds) -> Option<Error> {
    let found = tree::object_at(s, p, m.depth);
    decode::either(
        found.scan.fault,
        decode::either(
            decode::field_fault::<Text>(s, found.items, names::NAME_TY, m),
            decode::field_fault::<Flag>(s, found.items, names::NAME_HD, m),
        ),
    )
}

/// True for the types that stand for a shape.
pub open spec fn is_shape_type(t: u128) -> bool {
    t == names::TYPE_GR || t == names::TYPE_SH || t == names::TYPE_RC || t == names::TYPE_EL || t == names::TYPE_SR || t == names::TYPE_RD || t == names::TYPE_TM || t == names::TYPE_RP || t == names::TYPE_FL || t == names::TYPE_ST || t == names::TYPE_GF || t == names::TYPE_GS
}

/// True where the element at `p` is a shape that is shown.
pub open spec fn shown_at(s: Seq<u8>, p: int, m: Bounds) -> bool {
    !hidden_at(s, p, m) && is_shape_type(type_at(s, p, m))
}

/// Where the elements of the group at `p` stand.
pub open spec fn group_items(s: Seq<u8>, p: int, m: Bounds) -> Found<usize> {
    match tree::find(tree::object_at(s, p, m.depth).items, names::NAME_IT) {
        Some(at) => tree::array_at(s, at as int, m.depth),
        None => Found { items: Seq::empty(), scan: json::done(p) },
    }
}

/// Where the last transform among the elements at `at` stands.
pub open spec fn last_transform(s: Seq<u8>, at: Seq<usize>, m: Bounds) -> Option<usize>
    decreases at.len(),
{
    if at.len() == 0 {
        None
    } else if type_at(s, at.last() as int, m) == names::TYPE_TR {
        Some(at.last())
    } else {
        last_transform(s, at.drop_last(), m)
    }
}

/// The error that reading the shape at `p` reports. Groups may be nested `levels` deep.
pub open spec fn shape_fault(s: Seq<u8>, p: int, m: Bounds, levels: nat) -> Option<Error>
    decreases levels, 0nat,
{
    let t = type_at(s, p, m);
    if header_fault(s, p, m) is Some {
        header_fault(s, p, m)
    } else if hidden_at(s, p, m) {
        None
    } else if t == names::TYPE_GR {
        let found = group_items(s, p, m);
        if levels == 0 {
            Some(Error::LimitExceeded(Limit::NestingDepth))
        } else if found.scan.fault is Some {
            found.scan.fault
        } else {
            decode::either(
                shapes_fault(s, found.items, 0, m, (levels - 1) as nat),
                match last_transform(s, found.items, m) {
                    Some(at) => Transform::fault(s, at as int, m),
                    None => None,
                },
            )
        }
    } else if t == names::TYPE_SH {
        PathShape::fault(s, p, m)
    } else if t == names::TYPE_RC {
        RectShape::fault(s, p, m)
    } else if t == names::TYPE_EL {
        EllipseShape::fault(s, p, m)
    } else if t == names::TYPE_SR {
        PolystarShape::fault(s, p, m)
    } else if t == names::TYPE_RD {
        RoundCorners::fault(s, p, m)
    } else if t == names::TYPE_TM {
        Trim::fault(s, p, m)
    } else if t == names::TYPE_RP {
        Repeater::fault(s, p, m)
    } else if t == names::TYPE_FL {
        Fill::fault(s, p, m)
    } else if t == names::TYPE_ST {
        Stroke::fault(s, p, m)
    } else if t == names::TYPE_GF {
        GradientFill::fault(s, p, m)
    } else if t == names::TYPE_GS {
        GradientStroke::fault(s, p, m)
    } else {
        None
    }
}

/// The first error among the shapes at `at`, from the `i`th on.
pub open spec fn shapes_fault(
    s: Seq<u8>,
    at: Seq<usize>,
    i: int,
    m: Bounds,
    levels: nat,
) -> Option<Error>
    decreases levels, at.len() - i + 1,
{
    if i < 0 || i >= at.len() {
        None
    } else {
        decode::either(
            shape_fault(s, at[i] as int, m, levels),
            shapes_fault(s, at, i + 1, m, levels),
        )
    }
}

/// True where `shape` is the shape at `p`.
pub open spec fn shape_reads(shape: Shape, s: Seq<u8>, p: int, m: Bounds, levels: nat) -> bool
    decreases levels, 0nat,
{
    let t = type_at(s, p, m);
    match shape {
        Shape::Group(g) => {
            let items = group_items(s, p, m).items;
            &&& t == names::TYPE_GR
            &&& levels > 0
            &&& shapes_read(g.shapes@, s, items, m, (levels - 1) as nat)
            &&& match last_transform(s, items, m) {
                Some(at) => g.transform is Some && g.transform->0.reads(s, at as int, m),
                None => g.transform is None,
            }
        },
        Shape::Path(x) => t == names::TYPE_SH && x.reads(s, p, m),
        Shape::Rect(x) => t == names::TYPE_RC && x.reads(s, p, m),
        Shape::Ellipse(x) => t == names::TYPE_EL && x.reads(s, p, m),
        Shape::Polystar(x) => t == names::TYPE_SR && x.reads(s, p, m),
        Shape::RoundCorners(x) => t == names::TYPE_RD && x.reads(s, p, m),
        Shape::Trim(x) => t == names::TYPE_TM && x.reads(s, p, m),
        Shape::Repeater(x) => t == names::TYPE_RP && x.reads(s, p, m),
        Shape::Fill(x) => t == names::TYPE_FL && x.reads(s, p, m),
        Shape::Stroke(x) => t == names::TYPE_ST && x.reads(s, p, m),
        Shape::GradientFill(x) => t == names::TYPE_GF && x.reads(s, p, m),
        Shape::GradientStroke(x) => t == names::TYPE_GS && x.reads(s, p, m),
    }
}

/// True where `v` holds the shapes at `at` that are shown, in their order.
pub open spec fn shapes_read(v: Seq<Shape>, s: Seq<u8>, at: Seq<usize>, m: Bounds, levels: nat) -> bool
    decreases levels, at.len() + 1,
{
    if at.len() == 0 {
        v.len() == 0
    } else if shown_at(s, at.last() as int, m) {
        &&& v.len() > 0
        &&& shape_reads(v.last(), s, at.last() as int, m, levels)
        &&& shapes_read(v.drop_last(), s, at.drop_last(), m, levels)
    } else {
        shapes_read(v, s, at.drop_last(), m, levels)
    }
}

/// True where two shapes are the same.
pub open spec fn shape_same(a: Shape, b: Shape) -> bool
    decreases a,
{
    match (a, b) {
        (Shape::Group(x), Shape::Group(y)) => {
            &&& shapes_same(x.shapes@, y.shapes@)
            &&& decode::same_option(x.transform, y.transform)
        },
        (Shape::Path(x), Shape::Path(y)) => x.same(&y),
        (Shape::Rect(x), Shape::Rect(y)) => x.same(&y),
        (Shape::Ellipse(x), Shape::Ellipse(y)) => x.same(&y),
        (Shape::Polystar(x), Shape::Polystar(y)) => x.same(&y),
        (Shape::RoundCorners(x), Shape::RoundCorners(y)) => x.same(&y),
        (Shape::Trim(x), Shape::Trim(y)) => x.same(&y),
        (Shape::Repeater(x), Shape::Repeater(y)) => x.same(&y),
        (Shape::Fill(x), Shape::Fill(y)) => x.same(&y),
        (Shape::Stroke(x), Shape::Stroke(y)) => x.same(&y),
        (Shape::GradientFill(x), Shape::GradientFill(y)) => x.same(&y),
        (Shape::GradientStroke(x), Shape::GradientStroke(y)) => x.same(&y),
        _ => false,
    }
}

/// True where two lists hold the same shapes.
pub open spec fn shapes_same(a: Seq<Shape>, b: Seq<Shape>) -> bool
    decreases a,
{
    a.len() == b.len() && forall|i: int| 0 <= i < a.len() ==> shape_same(#[trigger] a[i], b[i])
}

/// One place holds one shape.
proof fn lemma_one_shape(a: Shape, b: Shape, s: Seq<u8>, p: int, m: Bounds, levels: nat)
    requires
        shape_reads(a, s, p, m, levels),
        shape_reads(b, s, p, m, levels),
    ensures
        shape_same(a, b),
    decreases levels, 0nat,
{
    match (a, b) {
        (Shape::Group(x), Shape::Group(y)) => {
            let items = group_items(s, p, m).items;
            lemma_one_list_of_shapes(x.shapes@, y.shapes@, s, items, m, (levels - 1) as nat);
            match last_transform(s, items, m) {
                Some(at) => Transform::one_value(x.transform->0, y.transform->0, s, at as int, m),
                None => {},
            }
        },
        (Shape::Path(x), Shape::Path(y)) => PathShape::one_value(x, y, s, p, m),
        (Shape::Rect(x), Shape::Rect(y)) => RectShape::one_value(x, y, s, p, m),
        (Shape::Ellipse(x), Shape::Ellipse(y)) => EllipseShape::one_value(x, y, s, p, m),
        (Shape::Polystar(x), Shape::Polystar(y)) => PolystarShape::one_value(x, y, s, p, m),
        (Shape::RoundCorners(x), Shape::RoundCorners(y)) => RoundCorners::one_value(x, y, s, p, m),
        (Shape::Trim(x), Shape::Trim(y)) => Trim::one_value(x, y, s, p, m),
        (Shape::Repeater(x), Shape::Repeater(y)) => Repeater::one_value(x, y, s, p, m),
        (Shape::Fill(x), Shape::Fill(y)) => Fill::one_value(x, y, s, p, m),
        (Shape::Stroke(x), Shape::Stroke(y)) => Stroke::one_value(x, y, s, p, m),
        (Shape::GradientFill(x), Shape::GradientFill(y)) => GradientFill::one_value(x, y, s, p, m),
        (Shape::GradientStroke(x), Shape::GradientStroke(y)) => GradientStroke::one_value(x, y, s, p, m),
        _ => {},
    }
}

/// One place holds one list of shapes.
pub proof fn lemma_one_list_of_shapes(
    a: Seq<Shape>,
    b: Seq<Shape>,
    s: Seq<u8>,
    at: Seq<usize>,
    m: Bounds,
    levels: nat,
)
    requires
        shapes_read(a, s, at, m, levels),
        shapes_read(b, s, at, m, levels),
    ensures
        shapes_same(a, b),
    decreases levels, at.len() + 1,
{
    if at.len() > 0 {
        if shown_at(s, at.last() as int, m) {
            lemma_one_shape(a.last(), b.last(), s, at.last() as int, m, levels);
            lemma_one_list_of_shapes(a.drop_last(), b.drop_last(), s, at.drop_last(), m, levels);
            assert forall|i: int| 0 <= i < a.len() implies shape_same(#[trigger] a[i], b[i]) by {
                if i < a.len() - 1 {
                    assert(shape_same(a.drop_last()[i], b.drop_last()[i]));
                }
            }
        } else {
            lemma_one_list_of_shapes(a, b, s, at.drop_last(), m, levels);
        }
    }
}

/// True where a group stands at `p` whose elements can be found.
pub open spec fn readable_group(s: Seq<u8>, p: int, m: Bounds) -> bool {
    &&& header_fault(s, p, m) is None
    &&& type_at(s, p, m) == names::TYPE_GR
    &&& group_items(s, p, m).scan.fault is None
}

/// How many elements stand at `at` and in the groups among them.
pub open spec fn shape_total(s: Seq<u8>, at: Seq<usize>, m: Bounds, levels: nat) -> nat
    decreases levels, at.len(),
{
    if at.len() == 0 {
        0
    } else {
        shape_total(s, at.drop_last(), m, levels) + 1 + if levels > 0 && readable_group(
            s,
            at.last() as int,
            m,
        ) {
            shape_total(s, group_items(s, at.last() as int, m).items, m, (levels - 1) as nat)
        } else {
            0
        }
    }
}

/// Reads the type of the object that holds `members`.
fn read_type(c: &Reader<'_>, pos: usize, members: &Vec<Member>) -> (r: Result<u128>)
    requires
        members@ == tree::object_at(c.cursor.bytes@, pos as int, c.bounds().depth).items,
    ensures
        match r {
            Ok(t) => decode::field_fault::<Text>(c.cursor.bytes@, members@, names::NAME_TY, c.bounds())
                is None && t == type_at(c.cursor.bytes@, pos as int, c.bounds()),
            Err(e) => decode::field_fault::<Text>(c.cursor.bytes@, members@, names::NAME_TY, c.bounds())
                == Some(e),
        },
{
    match decode_field::<Text>(c, members, names::NAME_TY) {
        Ok(Some(text)) => Ok(tree::pack_name(text.bytes.as_slice())),
        Ok(None) => Ok(0),
        Err(e) => Err(e),
    }
}

/// The type of the element at `pos`, where one can be read.
fn peek_type(c: &Reader<'_>, pos: usize) -> (t: u128)
    ensures
        header_fault(c.cursor.bytes@, pos as int, c.bounds()) is None ==> t == type_at(
            c.cursor.bytes@,
            pos as int,
            c.bounds(),
        ),
{
    match tree::read_object(&c.cursor, pos) {
        Ok(members) => match read_type(c, pos, &members) {
            Ok(t) => t,
            Err(_) => 0,
        },
        Err(_) => 0,
    }
}

/// Reads the shape at `pos`; hidden ones and those of other types read as nothing.
fn decode_shape(c: &Reader<'_>, pos: usize, levels: usize) -> (r: Result<Option<Shape>>)
    ensures
        ({
            let s = c.cursor.bytes@;
            let fault = shape_fault(s, pos as int, c.bounds(), levels as nat);
            match r {
                Ok(Some(shape)) => {
                    &&& fault is None
                    &&& shown_at(s, pos as int, c.bounds())
                    &&& shape_reads(shape, s, pos as int, c.bounds(), levels as nat)
                },
                Ok(None) => fault is None && !shown_at(s, pos as int, c.bounds()),
                Err(e) => fault == Some(e),
            }
        }),
        r is Ok ==> header_fault(c.cursor.bytes@, pos as int, c.bounds()) is None,
    decreases levels, 0nat,
{
    let members = match tree::read_object(&c.cursor, pos) {
        Ok(members) => members,
        Err(e) => {
            return Err(e);
        },
    };
    let t = match read_type(c, pos, &members) {
        Ok(t) => t,
        Err(e) => {
            return Err(e);
        },
    };
    match decode_flag(c, &members, names::NAME_HD) {
        Ok(hidden) => {
            if hidden {
                return Ok(None);
            }
        },
        Err(e) => {
            return Err(e);
        },
    }
    if t == names::TYPE_GR {
        if levels == 0 {
            return Err(Error::LimitExceeded(Limit::NestingDepth));
        }
        let items: Vec<usize> = match tree::find_member(&members, names::NAME_IT) {
            Some(at) => match tree::read_array(&c.cursor, at) {
                Ok(items) => items,
                Err(e) => {
                    return Err(e);
                },
            },
            None => Vec::new(),
        };
        assert(items@ =~= group_items(c.cursor.bytes@, pos as int, c.bounds()).items);
        let shapes = match decode_shapes(c, &items, levels - 1) {
            Ok(shapes) => shapes,
            Err(e) => {
                return Err(e);
            },
        };
        let transform = match find_transform(c, &items, levels - 1) {
            Some(at) => match Transform::decode(c, at) {
                Ok(v) => Some(v),
                Err(e) => {
                    return Err(e);
                },
            },
            None => None,
        };
        return Ok(Some(Shape::Group(Group { shapes, transform })));
    }
    if t == names::TYPE_SH {
        return match PathShape::decode(c, pos) {
            Ok(v) => Ok(Some(Shape::Path(v))),
            Err(e) => Err(e),
        };
    }
    if t == names::TYPE_RC {
        return match RectShape::decode(c, pos) {
            Ok(v) => Ok(Some(Shape::Rect(v))),
            Err(e) => Err(e),
        };
    }
    if t == names::TYPE_EL {
        return match EllipseShape::decode(c, pos) {
            Ok(v) => Ok(Some(Shape::Ellipse(v))),
            Err(e) => Err(e),
        };
    }
    if t == names::TYPE_SR {
        return match PolystarShape::decode(c, pos) {
            Ok(v) => Ok(Some(Shape::Polystar(v))),
            Err(e) => Err(e),
        };
    }
    if t == names::TYPE_RD {
        return match RoundCorners::decode(c, pos) {
            Ok(v) => Ok(Some(Shape::RoundCorners(v))),
            Err(e) => Err(e),
        };
    }
    if t == names::TYPE_TM {
        return match Trim::decode(c, pos) {
            Ok(v) => Ok(Some(Shape::Trim(v))),
            Err(e) => Err(e),
        };
    }
    if t == names::TYPE_RP {
        return match Repeater::decode(c, pos) {
            Ok(v) => Ok(Some(Shape::Repeater(v))),
            Err(e) => Err(e),
        };
    }
    if t == names::TYPE_FL {
        return match Fill::decode(c, pos) {
            Ok(v) => Ok(Some(Shape::Fill(v))),
            Err(e) => Err(e),
        };
    }
    if t == names::TYPE_ST {
        return match Stroke::decode(c, pos) {
            Ok(v) => Ok(Some(Shape::Stroke(v))),
            Err(e) => Err(e),
        };
    }
    if t == names::TYPE_GF {
        return match GradientFill::decode(c, pos) {
            Ok(v) => Ok(Some(Shape::GradientFill(v))),
            Err(e) => Err(e),
        };
    }
    if t == names::TYPE_GS {
        return match GradientStroke::decode(c, pos) {
            Ok(v) => Ok(Some(Shape::GradientStroke(v))),
            Err(e) => Err(e),
        };
    }
    Ok(None)
}

/// Finds the last transform among the elements at `items`, all of which can be read.
fn find_transform(c: &Reader<'_>, items: &Vec<usize>, levels: usize) -> (at: Option<usize>)
    requires
        shapes_fault(c.cursor.bytes@, items@, 0, c.bounds(), levels as nat) is None,
    ensures
        at == last_transform(c.cursor.bytes@, items@, c.bounds()),
{
    let ghost s = c.cursor.bytes@;
    let ghost m = c.bounds();
    let mut n: usize = items.len();
    assert(items@.take(n as int) =~= items@);
    while n > 0
        invariant
            s == c.cursor.bytes@,
            m == c.bounds(),
            n <= items@.len(),
            shapes_fault(s, items@, 0, m, levels as nat) is None,
            last_transform(s, items@.take(n as int), m) == last_transform(s, items@, m),
        decreases n,
    {
        assert(items@.take(n as int).drop_last() =~= items@.take(n - 1));
        proof {
            lemma_no_fault(s, items@, 0, n - 1, m, levels as nat);
        }
        if peek_type(c, items[n - 1]) == names::TYPE_TR {
            return Some(items[n - 1]);
        }
        n -= 1;
    }
    None
}

/// Where no element reports an error, each one's header can be read.
proof fn lemma_no_fault(s: Seq<u8>, at: Seq<usize>, i: int, k: int, m: Bounds, levels: nat)
    requires
        0 <= i <= k < at.len(),
        shapes_fault(s, at, i, m, levels) is None,
    ensures
        header_fault(s, at[k] as int, m) is None,
    decreases k - i,
{
    reveal_with_fuel(shapes_fault, 2);
    reveal_with_fuel(shape_fault, 2);
    if i < k {
        lemma_no_fault(s, at, i + 1, k, m, levels);
    } else {
        assert(shape_fault(s, at[k] as int, m, levels) is None);
    }
}

/// Reads the shapes at `items` that are shown.
pub fn decode_shapes(c: &Reader<'_>, items: &Vec<usize>, levels: usize) -> (r: Result<Vec<Shape>>)
    ensures
        ({
            let s = c.cursor.bytes@;
            let fault = shapes_fault(s, items@, 0, c.bounds(), levels as nat);
            match r {
                Ok(v) => fault is None && shapes_read(v@, s, items@, c.bounds(), levels as nat),
                Err(e) => fault == Some(e),
            }
        }),
    decreases levels, 1nat,
{
    let ghost s = c.cursor.bytes@;
    let ghost m = c.bounds();
    let n: usize = items.len();
    let mut v: Vec<Shape> = Vec::new();
    let mut i: usize = 0;
    assert(items@.take(0) =~= Seq::<usize>::empty());
    while i < n
        invariant
            s == c.cursor.bytes@,
            m == c.bounds(),
            n == items@.len(),
            i <= n,
            shapes_fault(s, items@, i as int, m, levels as nat) == shapes_fault(
                s,
                items@,
                0,
                m,
                levels as nat,
            ),
            shapes_read(v@, s, items@.take(i as int), m, levels as nat),
        decreases n - i,
    {
        assert(items@.take(i + 1).drop_last() =~= items@.take(i as int));
        match decode_shape(c, items[i], levels) {
            Ok(Some(shape)) => {
                let ghost before = v@;
                v.push(shape);
                assert(v@.drop_last() =~= before);
            },
            Ok(None) => {},
            Err(e) => {
                return Err(e);
            },
        }
        i += 1;
    }
    assert(items@.take(n as int) =~= items@);
    Ok(v)
}

/// Counts the elements at `items` and in the groups among them against `room`: what is left of it,
/// or nothing where there are more.
pub fn count_shapes(c: &Reader<'_>, items: &Vec<usize>, levels: usize, room: usize) -> (left: Option<
    usize,
>)
    ensures
        ({
            let total = shape_total(c.cursor.bytes@, items@, c.bounds(), levels as nat);
            match left {
                Some(n) => n == room - total,
                None => total > room,
            }
        }),
    decreases levels,
{
    let ghost s = c.cursor.bytes@;
    let ghost m = c.bounds();
    let n: usize = items.len();
    let mut left: usize = room;
    let mut i: usize = 0;
    assert(items@.take(0) =~= Seq::<usize>::empty());
    while i < n
        invariant
            s == c.cursor.bytes@,
            m == c.bounds(),
            n == items@.len(),
            i <= n,
            left == room - shape_total(s, items@.take(i as int), m, levels as nat),
        decreases n - i,
    {
        proof {
            assert(items@.take(i + 1).drop_last() =~= items@.take(i as int));
            lemma_total_grows(s, items@, i + 1, m, levels as nat);
        }
        if left == 0 {
            return None;
        }
        left -= 1;
        if levels > 0 {
            match count_group(c, items[i]) {
                Some(inner) => {
                    match count_shapes(c, &inner, levels - 1, left) {
                        Some(rest) => {
                            left = rest;
                        },
                        None => {
                            return None;
                        },
                    }
                },
                None => {},
            }
        }
        i += 1;
    }
    assert(items@.take(n as int) =~= items@);
    Some(left)
}

/// The elements of the group at `pos`, where there is one that can be read.
fn count_group(c: &Reader<'_>, pos: usize) -> (items: Option<Vec<usize>>)
    ensures
        match items {
            Some(v) => {
                &&& readable_group(c.cursor.bytes@, pos as int, c.bounds())
                &&& v@ == group_items(c.cursor.bytes@, pos as int, c.bounds()).items
            },
            None => !readable_group(c.cursor.bytes@, pos as int, c.bounds()),
        },
{
    let members = match tree::read_object(&c.cursor, pos) {
        Ok(members) => members,
        Err(_) => {
            return None;
        },
    };
    match read_type(c, pos, &members) {
        Ok(t) => {
            if t != names::TYPE_GR {
                return None;
            }
        },
        Err(_) => {
            return None;
        },
    }
    match decode_flag(c, &members, names::NAME_HD) {
        Ok(_) => {},
        Err(_) => {
            return None;
        },
    }
    match tree::find_member(&members, names::NAME_IT) {
        Some(at) => match tree::read_array(&c.cursor, at) {
            Ok(items) => Some(items),
            Err(_) => None,
        },
        None => Some(Vec::new()),
    }
}

/// The elements in front are no more than all of them.
proof fn lemma_total_grows(s: Seq<u8>, at: Seq<usize>, i: int, m: Bounds, levels: nat)
    requires
        0 <= i <= at.len(),
    ensures
        shape_total(s, at.take(i), m, levels) <= shape_total(s, at, m, levels),
    decreases at.len() - i,
{
    if i < at.len() {
        lemma_total_grows(s, at, i + 1, m, levels);
        assert(at.take(i + 1).drop_last() =~= at.take(i));
    } else {
        assert(at.take(i) =~= at);
    }
}

/// A path is read from its members `c`, `v`, `i` and `o`, each into its own field.
pub proof fn law_path_data_members(v: PathData, s: Seq<u8>, p: int, m: Bounds)
    requires
        v.reads(s, p, m),
    ensures
        ({
            let members = tree::object_at(s, path_at(s, p, m), m.depth).items;
            &&& v.closed == decode::field_flag(s, members, names::NAME_C)
            &&& decode::field_list_reads(v.vertices@, s, members, names::NAME_V, m)
            &&& decode::field_list_reads(v.in_tangents@, s, members, names::NAME_I, m)
            &&& decode::field_list_reads(v.out_tangents@, s, members, names::NAME_O, m)
        }),
{
}

/// A transform is read from its members `a`, `p`, `s`, `r`, `o`, `sk` and `sa`, each into its own
/// field.
pub proof fn law_transform_members(v: Transform, s: Seq<u8>, p: int, m: Bounds)
    requires
        v.reads(s, p, m),
    ensures
        ({
            let members = tree::object_at(s, p, m.depth).items;
            &&& decode::field_reads(v.anchor, s, members, names::NAME_A, m)
            &&& decode::field_reads(v.position, s, members, names::NAME_P, m)
            &&& decode::field_reads(v.scale, s, members, names::NAME_S, m)
            &&& decode::field_reads(v.rotation, s, members, names::NAME_R, m)
            &&& decode::field_reads(v.opacity, s, members, names::NAME_O, m)
            &&& decode::field_reads(v.skew, s, members, names::NAME_SK, m)
            &&& decode::field_reads(v.skew_axis, s, members, names::NAME_SA, m)
        }),
{
}

/// A path shape is read from the member `ks`.
pub proof fn law_path_shape_members(v: PathShape, s: Seq<u8>, p: int, m: Bounds)
    requires
        v.reads(s, p, m),
    ensures
        ({
            let members = tree::object_at(s, p, m.depth).items;
            &&& decode::field_reads(v.path, s, members, names::NAME_KS, m)
        }),
{
}

/// A rectangle is read from its members `p`, `s`, `r` and `d`, each into its own field.
pub proof fn law_rect_shape_members(v: RectShape, s: Seq<u8>, p: int, m: Bounds)
    requires
        v.reads(s, p, m),
    ensures
        ({
            let members = tree::object_at(s, p, m.depth).items;
            &&& decode::field_reads(v.position, s, members, names::NAME_P, m)
            &&& decode::field_reads(v.size, s, members, names::NAME_S, m)
            &&& decode::field_reads(v.radius, s, members, names::NAME_R, m)
            &&& v.direction == decode::field_code(s, members, names::NAME_D, 1)
        }),
{
}

/// An ellipse is read from its members `p`, `s` and `d`, each into its own field.
pub proof fn law_ellipse_shape_members(v: EllipseShape, s: Seq<u8>, p: int, m: Bounds)
    requires
        v.reads(s, p, m),
    ensures
        ({
            let members = tree::object_at(s, p, m.depth).items;
            &&& decode::field_reads(v.position, s, members, names::NAME_P, m)
            &&& decode::field_reads(v.size, s, members, names::NAME_S, m)
            &&& v.direction == decode::field_code(s, members, names::NAME_D, 1)
        }),
{
}

/// A polystar is read from its members `sy`, `pt`, `p`, `r`, `ir`, `or`, `is`, `os` and `d`, each
/// into its own field.
pub proof fn law_polystar_shape_members(v: PolystarShape, s: Seq<u8>, p: int, m: Bounds)
    requires
        v.reads(s, p, m),
    ensures
        ({
            let members = tree::object_at(s, p, m.depth).items;
            &&& v.star == decode::field_code(s, members, names::NAME_SY, 1)
            &&& decode::field_reads(v.points, s, members, names::NAME_PT, m)
            &&& decode::field_reads(v.position, s, members, names::NAME_P, m)
            &&& decode::field_reads(v.rotation, s, members, names::NAME_R, m)
            &&& decode::field_reads(v.inner_radius, s, members, names::NAME_IR, m)
            &&& decode::field_reads(v.outer_radius, s, members, names::NAME_OR, m)
            &&& decode::field_reads(v.inner_roundness, s, members, names::NAME_IS, m)
            &&& decode::field_reads(v.outer_roundness, s, members, names::NAME_OS, m)
            &&& v.direction == decode::field_code(s, members, names::NAME_D, 1)
        }),
{
}

/// A rounding of corners is read from the member `r`.
pub proof fn law_round_corners_members(v: RoundCorners, s: Seq<u8>, p: int, m: Bounds)
    requires
        v.reads(s, p, m),
    ensures
        ({
            let members = tree::object_at(s, p, m.depth).items;
            &&& decode::field_reads(v.radius, s, members, names::NAME_R, m)
        }),
{
}

/// A trim is read from its members `s`, `e`, `o` and `m`, each into its own field.
pub proof fn law_trim_members(v: Trim, s: Seq<u8>, p: int, m: Bounds)
    requires
        v.reads(s, p, m),
    ensures
        ({
            let members = tree::object_at(s, p, m.depth).items;
            &&& decode::field_reads(v.start, s, members, names::NAME_S, m)
            &&& decode::field_reads(v.end, s, members, names::NAME_E, m)
            &&& decode::field_reads(v.offset, s, members, names::NAME_O, m)
            &&& v.mode == decode::field_code(s, members, names::NAME_M, 1)
        }),
{
}

/// A repeater's transform is read from its members `a`, `p`, `s`, `r`, `o`, `sk`, `sa`, `so` and
/// `eo`, each into its own field.
pub proof fn law_repeater_transform_members(v: RepeaterTransform, s: Seq<u8>, p: int, m: Bounds)
    requires
        v.reads(s, p, m),
    ensures
        ({
            let members = tree::object_at(s, p, m.depth).items;
            &&& decode::field_reads(v.anchor, s, members, names::NAME_A, m)
            &&& decode::field_reads(v.position, s, members, names::NAME_P, m)
            &&& decode::field_reads(v.scale, s, members, names::NAME_S, m)
            &&& decode::field_reads(v.rotation, s, members, names::NAME_R, m)
            &&& decode::field_reads(v.opacity, s, members, names::NAME_O, m)
            &&& decode::field_reads(v.skew, s, members, names::NAME_SK, m)
            &&& decode::field_reads(v.skew_axis, s, members, names::NAME_SA, m)
            &&& decode::field_reads(v.start_opacity, s, members, names::NAME_SO, m)
            &&& decode::field_reads(v.end_opacity, s, members, names::NAME_EO, m)
        }),
{
}

/// A repeater is read from its members `c`, `o`, `m` and `tr`, each into its own field.
pub proof fn law_repeater_members(v: Repeater, s: Seq<u8>, p: int, m: Bounds)
    requires
        v.reads(s, p, m),
    ensures
        ({
            let members = tree::object_at(s, p, m.depth).items;
            &&& decode::field_reads(v.copies, s, members, names::NAME_C, m)
            &&& decode::field_reads(v.offset, s, members, names::NAME_O, m)
            &&& v.order == decode::field_code(s, members, names::NAME_M, 1)
            &&& decode::field_reads(v.transform, s, members, names::NAME_TR, m)
        }),
{
}

/// A fill is read from its members `c`, `o` and `r`, each into its own field.
pub proof fn law_fill_members(v: Fill, s: Seq<u8>, p: int, m: Bounds)
    requires
        v.reads(s, p, m),
    ensures
        ({
            let members = tree::object_at(s, p, m.depth).items;
            &&& decode::field_reads(v.color, s, members, names::NAME_C, m)
            &&& decode::field_reads(v.opacity, s, members, names::NAME_O, m)
            &&& v.rule == decode::field_code(s, members, names::NAME_R, 1)
        }),
{
}

/// An element of a dash pattern is read from its members `n` and `v`, each into its own field.
pub proof fn law_dash_element_members(v: DashElement, s: Seq<u8>, p: int, m: Bounds)
    requires
        v.reads(s, p, m),
    ensures
        ({
            let members = tree::object_at(s, p, m.depth).items;
            &&& decode::field_reads(v.name, s, members, names::NAME_N, m)
            &&& decode::field_reads(v.value, s, members, names::NAME_V, m)
        }),
{
}

/// A stroke is read from its members `c`, `o`, `w`, `lc`, `lj`, `ml` and `d`, each into its own
/// field.
pub proof fn law_stroke_members(v: Stroke, s: Seq<u8>, p: int, m: Bounds)
    requires
        v.reads(s, p, m),
    ensures
        ({
            let members = tree::object_at(s, p, m.depth).items;
            &&& decode::field_reads(v.color, s, members, names::NAME_C, m)
            &&& decode::field_reads(v.opacity, s, members, names::NAME_O, m)
            &&& decode::field_reads(v.width, s, members, names::NAME_W, m)
            &&& v.cap == decode::field_code(s, members, names::NAME_LC, 2)
            &&& v.join == decode::field_code(s, members, names::NAME_LJ, 2)
            &&& decode::field_reads(v.miter_limit, s, members, names::NAME_ML, m)
            &&& decode::field_list_reads(v.dashes@, s, members, names::NAME_D, m)
        }),
{
}

/// The stops of a gradient is read from its members `p` and `k`, each into its own field.
pub proof fn law_stops_members(v: Stops, s: Seq<u8>, p: int, m: Bounds)
    requires
        v.reads(s, p, m),
    ensures
        ({
            let members = tree::object_at(s, p, m.depth).items;
            &&& v.count == decode::field_code(s, members, names::NAME_P, 0)
            &&& decode::field_reads(v.values, s, members, names::NAME_K, m)
        }),
{
}

/// A gradient fill is read from its members `s`, `e`, `t`, `o`, `h`, `a`, `g` and `r`, each into
/// its own field.
pub proof fn law_gradient_fill_members(v: GradientFill, s: Seq<u8>, p: int, m: Bounds)
    requires
        v.reads(s, p, m),
    ensures
        ({
            let members = tree::object_at(s, p, m.depth).items;
            &&& decode::field_reads(v.start, s, members, names::NAME_S, m)
            &&& decode::field_reads(v.end, s, members, names::NAME_E, m)
            &&& v.kind == decode::field_code(s, members, names::NAME_T, 1)
            &&& decode::field_reads(v.opacity, s, members, names::NAME_O, m)
            &&& decode::field_reads(v.highlight_len, s, members, names::NAME_H, m)
            &&& decode::field_reads(v.highlight_angle, s, members, names::NAME_A, m)
            &&& decode::field_reads(v.stops, s, members, names::NAME_G, m)
            &&& v.rule == decode::field_code(s, members, names::NAME_R, 1)
        }),
{
}

/// A gradient stroke is read from its members `s`, `e`, `t`, `o`, `h`, `a`, `g`, `w`, `lc`, `lj`,
/// `ml` and `d`, each into its own field.
pub proof fn law_gradient_stroke_members(v: GradientStroke, s: Seq<u8>, p: int, m: Bounds)
    requires
        v.reads(s, p, m),
    ensures
        ({
            let members = tree::object_at(s, p, m.depth).items;
            &&& decode::field_reads(v.start, s, members, names::NAME_S, m)
            &&& decode::field_reads(v.end, s, members, names::NAME_E, m)
            &&& v.kind == decode::field_code(s, members, names::NAME_T, 1)
            &&& decode::field_reads(v.opacity, s, members, names::NAME_O, m)
            &&& decode::field_reads(v.highlight_len, s, members, names::NAME_H, m)
            &&& decode::field_reads(v.highlight_angle, s, members, names::NAME_A, m)
            &&& decode::field_reads(v.stops, s, members, names::NAME_G, m)
            &&& decode::field_reads(v.width, s, members, names::NAME_W, m)
            &&& v.cap == decode::field_code(s, members, names::NAME_LC, 2)
            &&& v.join == decode::field_code(s, members, names::NAME_LJ, 2)
            &&& decode::field_reads(v.miter_limit, s, members, names::NAME_ML, m)
            &&& decode::field_list_reads(v.dashes@, s, members, names::NAME_D, m)
        }),
{
}

/// Shapes are told apart by their type: `gr` is a group, `sh` a path, `rc` a rectangle, `el` an ellipse,
/// `sr` a polystar, `rd` a rounding of corners, `tm` a trim, `rp` a repeater, `fl` a fill, `st` a stroke,
/// `gf` a gradient fill and `gs` a gradient stroke.
pub proof fn law_shapes_are_told_by_type(shape: Shape, s: Seq<u8>, p: int, m: Bounds, levels: nat)
    requires
        shape_reads(shape, s, p, m, levels),
    ensures
        shape is Group <==> type_at(s, p, m) == 0x1_6772,
        shape is Path <==> type_at(s, p, m) == 0x1_7368,
        shape is Rect <==> type_at(s, p, m) == 0x1_7263,
        shape is Ellipse <==> type_at(s, p, m) == 0x1_656c,
        shape is Polystar <==> type_at(s, p, m) == 0x1_7372,
        shape is RoundCorners <==> type_at(s, p, m) == 0x1_7264,
        shape is Trim <==> type_at(s, p, m) == 0x1_746d,
        shape is Repeater <==> type_at(s, p, m) == 0x1_7270,
        shape is Fill <==> type_at(s, p, m) == 0x1_666c,
        shape is Stroke <==> type_at(s, p, m) == 0x1_7374,
        shape is GradientFill <==> type_at(s, p, m) == 0x1_6766,
        shape is GradientStroke <==> type_at(s, p, m) == 0x1_6773,
{
}

/// A shape is shown where it is of a known type and not marked as hidden; a transform is no shape.
pub proof fn law_hidden_shapes_are_left_out(s: Seq<u8>, p: int, m: Bounds)
    ensures
        decode::field_flag(s, tree::object_at(s, p, m.depth).items, 0x1_6864) ==> !shown_at(s, p, m),
        type_at(s, p, m) == 0x1_7472 ==> !shown_at(s, p, m),
        type_at(s, p, m) == 0 ==> !shown_at(s, p, m),
        shown_at(s, p, m) <==> !decode::field_flag(
            s,
            tree::object_at(s, p, m.depth).items,
            0x1_6864,
        ) && is_shape_type(type_at(s, p, m)),
{
}

/// The shapes of a list are those of its elements that are shown, in the order of the list.
pub proof fn law_shapes_keep_their_order(v: Seq<Shape>, s: Seq<u8>, at: Seq<usize>, m: Bounds, levels: nat)
    requires
        shapes_read(v, s, at, m, levels),
        at.len() > 0,
    ensures
        shown_at(s, at.last() as int, m) ==> v.len() > 0 && shape_reads(
            v.last(),
            s,
            at.last() as int,
            m,
            levels,
        ) && shapes_read(v.drop_last(), s, at.drop_last(), m, levels),
        !shown_at(s, at.last() as int, m) ==> shapes_read(v, s, at.drop_last(), m, levels),
{
}

/// A group is the shapes among its elements, and the last transform among them is its own.
pub proof fn law_the_last_transform_of_a_group_counts(s: Seq<u8>, at: Seq<usize>, m: Bounds, i: int)
    requires
        0 <= i < at.len(),
        type_at(s, at[i] as int, m) == 0x1_7472,
        forall|k: int| i < k < at.len() ==> type_at(s, (#[trigger] at[k]) as int, m) != 0x1_7472,
    ensures
        last_transform(s, at, m) == Some(at[i]),
    decreases at.len(),
{
    if i + 1 < at.len() {
        let before = at.drop_last();
        assert(type_at(s, at[at.len() - 1] as int, m) != 0x1_7472);
        assert forall|k: int| i < k < before.len() implies type_at(s, (#[trigger] before[k]) as int, m)
            != 0x1_7472 by {
            assert(before[k] == at[k]);
        }
        law_the_last_transform_of_a_group_counts(s, before, m, i);
    }
}

/// A position is in two parts where it is marked so, and whole otherwise.
pub proof fn law_positions_may_be_split(v: Position, s: Seq<u8>, p: int, m: Bounds)
    requires
        v.reads(s, p, m),
    ensures
        v is Split <==> decode::field_flag(s, tree::object_at(s, p, m.depth).items, names::NAME_S),
        v is Split ==> decode::field_reads(
            v->x,
            s,
            tree::object_at(s, p, m.depth).items,
            names::NAME_X,
            m,
        ) && decode::field_reads(
            v->y,
            s,
            tree::object_at(s, p, m.depth).items,
            names::NAME_Y,
            m,
        ),
        v is Combined ==> v->Combined_0.reads(s, p, m),
{
}

} // verus!
