//! Layers and what they are made of.

use crate::decode;
use crate::decode::{
    decode_code, decode_field, decode_field_list, decode_flag, Bounds, Code, Decode, Flag, List,
    Reader, Text, Values,
};
use crate::error::{Error, Limit, Result};
use crate::json;
use crate::names;
use crate::number::Number;
use crate::property::Property;
use crate::shape;
use crate::shape::{PathData, Shape, Transform};
use crate::tree;
use vstd::prelude::*;

verus! {

/// A mask of a layer.
pub struct Mask {
    /// How the mask joins those before it, by its first letter.
    pub mode: Option<Text>,
    /// True where the outside is kept.
    pub inverted: bool,
    /// The path of the mask.
    pub path: Option<Property<PathData>>,
    /// The opacity in percent.
    pub opacity: Option<Property<Values>>,
}

impl Decode for Mask {
    open spec fn fault(s: Seq<u8>, p: int, m: Bounds) -> Option<Error> {
        let found = tree::object_at(s, p, m.depth);
        let members = found.items;
        decode::either(
            found.scan.fault,
            decode::either(
                decode::field_fault::<Text>(s, members, names::NAME_MODE, m),
                decode::either(
                    decode::field_fault::<Flag>(s, members, names::NAME_INV, m),
                    decode::either(
                        decode::field_fault::<Property<PathData>>(s, members, names::NAME_PT, m),
                        decode::field_fault::<Property<Values>>(s, members, names::NAME_O, m),
                    ),
                ),
            ),
        )
    }

    open spec fn reads(&self, s: Seq<u8>, p: int, m: Bounds) -> bool {
        let members = tree::object_at(s, p, m.depth).items;
        &&& decode::field_reads(self.mode, s, members, names::NAME_MODE, m)
        &&& self.inverted == decode::field_flag(s, members, names::NAME_INV)
        &&& decode::field_reads(self.path, s, members, names::NAME_PT, m)
        &&& decode::field_reads(self.opacity, s, members, names::NAME_O, m)
    }

    open spec fn same(&self, other: &Mask) -> bool {
        &&& decode::same_option(self.mode, other.mode)
        &&& self.inverted == other.inverted
        &&& decode::same_option(self.path, other.path)
        &&& decode::same_option(self.opacity, other.opacity)
    }

    proof fn one_value(a: Mask, b: Mask, s: Seq<u8>, p: int, m: Bounds) {
        let members = tree::object_at(s, p, m.depth).items;
        decode::lemma_field_same(a.mode, b.mode, s, members, names::NAME_MODE, m);
        decode::lemma_field_same(a.path, b.path, s, members, names::NAME_PT, m);
        decode::lemma_field_same(a.opacity, b.opacity, s, members, names::NAME_O, m);
    }

    fn decode(c: &Reader<'_>, pos: usize) -> (r: Result<Mask>) {
        let members = match tree::read_object(&c.cursor, pos) {
            Ok(members) => members,
            Err(e) => {
                return Err(e);
            },
        };
        let mode = match decode_field(c, &members, names::NAME_MODE) {
            Ok(v) => v,
            Err(e) => {
                return Err(e);
            },
        };
        let inverted = match decode_flag(c, &members, names::NAME_INV) {
            Ok(v) => v,
            Err(e) => {
                return Err(e);
            },
        };
        let path = match decode_field(c, &members, names::NAME_PT) {
            Ok(v) => v,
            Err(e) => {
                return Err(e);
            },
        };
        let opacity = match decode_field(c, &members, names::NAME_O) {
            Ok(v) => v,
            Err(e) => {
                return Err(e);
            },
        };
        Ok(Mask { mode, inverted, path, opacity })
    }
}

/// What a layer says of itself.
pub struct LayerFields {
    /// The kind of layer, as a number.
    pub ty: u32,
    /// The number by which other layers name this one.
    pub index: Option<Code>,
    /// The number of the layer that this one moves along with.
    pub parent: Option<Code>,
    /// The first frame at which the layer is shown.
    pub in_point: Option<Number>,
    /// The first frame at which it is no longer shown.
    pub out_point: Option<Number>,
    /// The frame at which its content starts.
    pub start_time: Option<Number>,
    /// How much slower its content runs.
    pub time_stretch: Option<Number>,
    /// True where the layer is never shown.
    pub hidden: bool,
    /// Where the layer stands.
    pub transform: Option<Transform>,
    /// The asset that the layer shows.
    pub ref_id: Option<Text>,
    /// The width of a precomposition.
    pub width: Option<Number>,
    /// The height of a precomposition.
    pub height: Option<Number>,
    /// The masks, in their order.
    pub masks: Vec<Mask>,
    /// How the layer before is used as a matte; zero where it is not.
    pub matte: u32,
    /// True where the layer is only a matte of another one.
    pub matte_src: bool,
    /// The width of a solid.
    pub solid_width: Option<Number>,
    /// The height of a solid.
    pub solid_height: Option<Number>,
    /// The colour of a solid, as text.
    pub solid_color: Option<Text>,
    /// Which second of its content the layer shows.
    pub time_remap: Option<Property<Values>>,
    /// True where the layer turns along its path.
    pub auto_orient: bool,
    /// The name of the layer.
    pub name: Option<Text>,
}

impl Decode for LayerFields {
    open spec fn fault(s: Seq<u8>, p: int, m: Bounds) -> Option<Error> {
        let found = tree::object_at(s, p, m.depth);
        let members = found.items;
        decode::either(
            found.scan.fault,
            decode::either(
                decode::field_fault::<Code>(s, members, names::NAME_TY, m),
                decode::either(
                    decode::field_fault::<Code>(s, members, names::NAME_IND, m),
                    decode::either(
                        decode::field_fault::<Code>(s, members, names::NAME_PARENT, m),
                        decode::either(
                            decode::field_fault::<Number>(s, members, names::NAME_IP, m),
                            decode::either(
                                decode::field_fault::<Number>(s, members, names::NAME_OP, m),
                                decode::either(
                                    decode::field_fault::<Number>(s, members, names::NAME_ST, m),
                                    decode::either(
                                        decode::field_fault::<Number>(s, members, names::NAME_SR, m),
                                        decode::either(
                                            decode::field_fault::<Flag>(s, members, names::NAME_HD, m),
                                            decode::either(
                                                decode::field_fault::<Transform>(s, members, names::NAME_KS, m),
                                                decode::either(
                                                    decode::field_fault::<Text>(s, members, names::NAME_REF_ID, m),
                                                    decode::either(
                                                        decode::field_fault::<Number>(s, members, names::NAME_W, m),
                                                        decode::either(
                                                            decode::field_fault::<Number>(s, members, names::NAME_H, m),
                                                            decode::either(
                                                                decode::field_fault::<List<Mask>>(s, members, names::NAME_MASKS_PROPERTIES, m),
                                                                decode::either(
                                                                    decode::field_fault::<Code>(s, members, names::NAME_TT, m),
                                                                    decode::either(
                                                                        decode::field_fault::<Flag>(s, members, names::NAME_TD, m),
                                                                        decode::either(
                                                                            decode::field_fault::<Number>(s, members, names::NAME_SW, m),
                                                                            decode::either(
                                                                                decode::field_fault::<Number>(s, members, names::NAME_SH, m),
                                                                                decode::either(
                                                                                    decode::field_fault::<Text>(s, members, names::NAME_SC, m),
                                                                                    decode::either(
                                                                                        decode::field_fault::<Property<Values>>(s, members, names::NAME_TM, m),
                                                                                        decode::either(
                                                                                            decode::field_fault::<Flag>(s, members, names::NAME_AO, m),
                                                                                            decode::field_fault::<Text>(s, members, names::NAME_NM, m),
                                                                                        ),
                                                                                    ),
                                                                                ),
                                                                            ),
                                                                        ),
                                                                    ),
                                                                ),
                                                            ),
                                                        ),
                                                    ),
                                                ),
                                            ),
                                        ),
                                    ),
                                ),
                            ),
                        ),
                    ),
                ),
            ),
        )
    }

    open spec fn reads(&self, s: Seq<u8>, p: int, m: Bounds) -> bool {
        let members = tree::object_at(s, p, m.depth).items;
        &&& self.ty == decode::field_code(s, members, names::NAME_TY, 4294967295)
        &&& decode::field_reads(self.index, s, members, names::NAME_IND, m)
        &&& decode::field_reads(self.parent, s, members, names::NAME_PARENT, m)
        &&& decode::field_reads(self.in_point, s, members, names::NAME_IP, m)
        &&& decode::field_reads(self.out_point, s, members, names::NAME_OP, m)
        &&& decode::field_reads(self.start_time, s, members, names::NAME_ST, m)
        &&& decode::field_reads(self.time_stretch, s, members, names::NAME_SR, m)
        &&& self.hidden == decode::field_flag(s, members, names::NAME_HD)
        &&& decode::field_reads(self.transform, s, members, names::NAME_KS, m)
        &&& decode::field_reads(self.ref_id, s, members, names::NAME_REF_ID, m)
        &&& decode::field_reads(self.width, s, members, names::NAME_W, m)
        &&& decode::field_reads(self.height, s, members, names::NAME_H, m)
        &&& decode::field_list_reads(self.masks@, s, members, names::NAME_MASKS_PROPERTIES, m)
        &&& self.matte == decode::field_code(s, members, names::NAME_TT, 0)
        &&& self.matte_src == decode::field_flag(s, members, names::NAME_TD)
        &&& decode::field_reads(self.solid_width, s, members, names::NAME_SW, m)
        &&& decode::field_reads(self.solid_height, s, members, names::NAME_SH, m)
        &&& decode::field_reads(self.solid_color, s, members, names::NAME_SC, m)
        &&& decode::field_reads(self.time_remap, s, members, names::NAME_TM, m)
        &&& self.auto_orient == decode::field_flag(s, members, names::NAME_AO)
        &&& decode::field_reads(self.name, s, members, names::NAME_NM, m)
    }

    open spec fn same(&self, other: &LayerFields) -> bool {
        &&& self.ty == other.ty
        &&& decode::same_option(self.index, other.index)
        &&& decode::same_option(self.parent, other.parent)
        &&& decode::same_option(self.in_point, other.in_point)
        &&& decode::same_option(self.out_point, other.out_point)
        &&& decode::same_option(self.start_time, other.start_time)
        &&& decode::same_option(self.time_stretch, other.time_stretch)
        &&& self.hidden == other.hidden
        &&& decode::same_option(self.transform, other.transform)
        &&& decode::same_option(self.ref_id, other.ref_id)
        &&& decode::same_option(self.width, other.width)
        &&& decode::same_option(self.height, other.height)
        &&& decode::same_list(self.masks@, other.masks@)
        &&& self.matte == other.matte
        &&& self.matte_src == other.matte_src
        &&& decode::same_option(self.solid_width, other.solid_width)
        &&& decode::same_option(self.solid_height, other.solid_height)
        &&& decode::same_option(self.solid_color, other.solid_color)
        &&& decode::same_option(self.time_remap, other.time_remap)
        &&& self.auto_orient == other.auto_orient
        &&& decode::same_option(self.name, other.name)
    }

    proof fn one_value(a: LayerFields, b: LayerFields, s: Seq<u8>, p: int, m: Bounds) {
        let members = tree::object_at(s, p, m.depth).items;
        decode::lemma_field_same(a.index, b.index, s, members, names::NAME_IND, m);
        decode::lemma_field_same(a.parent, b.parent, s, members, names::NAME_PARENT, m);
        decode::lemma_field_same(a.in_point, b.in_point, s, members, names::NAME_IP, m);
        decode::lemma_field_same(a.out_point, b.out_point, s, members, names::NAME_OP, m);
        decode::lemma_field_same(a.start_time, b.start_time, s, members, names::NAME_ST, m);
        decode::lemma_field_same(a.time_stretch, b.time_stretch, s, members, names::NAME_SR, m);
        decode::lemma_field_same(a.transform, b.transform, s, members, names::NAME_KS, m);
        decode::lemma_field_same(a.ref_id, b.ref_id, s, members, names::NAME_REF_ID, m);
        decode::lemma_field_same(a.width, b.width, s, members, names::NAME_W, m);
        decode::lemma_field_same(a.height, b.height, s, members, names::NAME_H, m);
        decode::lemma_field_list_same(a.masks@, b.masks@, s, members, names::NAME_MASKS_PROPERTIES, m);
        decode::lemma_field_same(a.solid_width, b.solid_width, s, members, names::NAME_SW, m);
        decode::lemma_field_same(a.solid_height, b.solid_height, s, members, names::NAME_SH, m);
        decode::lemma_field_same(a.solid_color, b.solid_color, s, members, names::NAME_SC, m);
        decode::lemma_field_same(a.time_remap, b.time_remap, s, members, names::NAME_TM, m);
        decode::lemma_field_same(a.name, b.name, s, members, names::NAME_NM, m);
    }

    fn decode(c: &Reader<'_>, pos: usize) -> (r: Result<LayerFields>) {
        let members = match tree::read_object(&c.cursor, pos) {
            Ok(members) => members,
            Err(e) => {
                return Err(e);
            },
        };
        let ty = match decode_code(c, &members, names::NAME_TY, 4294967295) {
            Ok(v) => v,
            Err(e) => {
                return Err(e);
            },
        };
        let index = match decode_field(c, &members, names::NAME_IND) {
            Ok(v) => v,
            Err(e) => {
                return Err(e);
            },
        };
        let parent = match decode_field(c, &members, names::NAME_PARENT) {
            Ok(v) => v,
            Err(e) => {
                return Err(e);
            },
        };
        let in_point = match decode_field(c, &members, names::NAME_IP) {
            Ok(v) => v,
            Err(e) => {
                return Err(e);
            },
        };
        let out_point = match decode_field(c, &members, names::NAME_OP) {
            Ok(v) => v,
            Err(e) => {
                return Err(e);
            },
        };
        let start_time = match decode_field(c, &members, names::NAME_ST) {
            Ok(v) => v,
            Err(e) => {
                return Err(e);
            },
        };
        let time_stretch = match decode_field(c, &members, names::NAME_SR) {
            Ok(v) => v,
            Err(e) => {
                return Err(e);
            },
        };
        let hidden = match decode_flag(c, &members, names::NAME_HD) {
            Ok(v) => v,
            Err(e) => {
                return Err(e);
            },
        };
        let transform = match decode_field(c, &members, names::NAME_KS) {
            Ok(v) => v,
            Err(e) => {
                return Err(e);
            },
        };
        let ref_id = match decode_field(c, &members, names::NAME_REF_ID) {
            Ok(v) => v,
            Err(e) => {
                return Err(e);
            },
        };
        let width = match decode_field(c, &members, names::NAME_W) {
            Ok(v) => v,
            Err(e) => {
                return Err(e);
            },
        };
        let height = match decode_field(c, &members, names::NAME_H) {
            Ok(v) => v,
            Err(e) => {
                return Err(e);
            },
        };
        let masks = match decode_field_list(c, &members, names::NAME_MASKS_PROPERTIES) {
            Ok(v) => v,
            Err(e) => {
                return Err(e);
            },
        };
        let matte = match decode_code(c, &members, names::NAME_TT, 0) {
            Ok(v) => v,
            Err(e) => {
                return Err(e);
            },
        };
        let matte_src = match decode_flag(c, &members, names::NAME_TD) {
            Ok(v) => v,
            Err(e) => {
                return Err(e);
            },
        };
        let solid_width = match decode_field(c, &members, names::NAME_SW) {
            Ok(v) => v,
            Err(e) => {
                return Err(e);
            },
        };
        let solid_height = match decode_field(c, &members, names::NAME_SH) {
            Ok(v) => v,
            Err(e) => {
                return Err(e);
            },
        };
        let solid_color = match decode_field(c, &members, names::NAME_SC) {
            Ok(v) => v,
            Err(e) => {
                return Err(e);
            },
        };
        let time_remap = match decode_field(c, &members, names::NAME_TM) {
            Ok(v) => v,
            Err(e) => {
                return Err(e);
            },
        };
        let auto_orient = match decode_flag(c, &members, names::NAME_AO) {
            Ok(v) => v,
            Err(e) => {
                return Err(e);
            },
        };
        let name = match decode_field(c, &members, names::NAME_NM) {
            Ok(v) => v,
            Err(e) => {
                return Err(e);
            },
        };
        Ok(LayerFields { ty, index, parent, in_point, out_point, start_time, time_stretch, hidden, transform, ref_id, width, height, masks, matte, matte_src, solid_width, solid_height, solid_color, time_remap, auto_orient, name })
    }
}

/// One colour, and what it becomes for each skin tone.
pub struct FitzEntry {
    /// The colour that is replaced.
    pub original: Option<Code>,
    /// The colour for types one and two.
    pub type12: Option<Code>,
    /// The colour for type three.
    pub type3: Option<Code>,
    /// The colour for type four.
    pub type4: Option<Code>,
    /// The colour for type five.
    pub type5: Option<Code>,
    /// The colour for type six.
    pub type6: Option<Code>,
}

impl Decode for FitzEntry {
    open spec fn fault(s: Seq<u8>, p: int, m: Bounds) -> Option<Error> {
        let found = tree::object_at(s, p, m.depth);
        let members = found.items;
        decode::either(
            found.scan.fault,
            decode::either(
                decode::field_fault::<Code>(s, members, names::NAME_O, m),
                decode::either(
                    decode::field_fault::<Code>(s, members, names::NAME_F12, m),
                    decode::either(
                        decode::field_fault::<Code>(s, members, names::NAME_F3, m),
                        decode::either(
                            decode::field_fault::<Code>(s, members, names::NAME_F4, m),
                            decode::either(
                                decode::field_fault::<Code>(s, members, names::NAME_F5, m),
                                decode::field_fault::<Code>(s, members, names::NAME_F6, m),
                            ),
                        ),
                    ),
                ),
            ),
        )
    }

    open spec fn reads(&self, s: Seq<u8>, p: int, m: Bounds) -> bool {
        let members = tree::object_at(s, p, m.depth).items;
        &&& decode::field_reads(self.original, s, members, names::NAME_O, m)
        &&& decode::field_reads(self.type12, s, members, names::NAME_F12, m)
        &&& decode::field_reads(self.type3, s, members, names::NAME_F3, m)
        &&& decode::field_reads(self.type4, s, members, names::NAME_F4, m)
        &&& decode::field_reads(self.type5, s, members, names::NAME_F5, m)
        &&& decode::field_reads(self.type6, s, members, names::NAME_F6, m)
    }

    open spec fn same(&self, other: &FitzEntry) -> bool {
        &&& decode::same_option(self.original, other.original)
        &&& decode::same_option(self.type12, other.type12)
        &&& decode::same_option(self.type3, other.type3)
        &&& decode::same_option(self.type4, other.type4)
        &&& decode::same_option(self.type5, other.type5)
        &&& decode::same_option(self.type6, other.type6)
    }

    proof fn one_value(a: FitzEntry, b: FitzEntry, s: Seq<u8>, p: int, m: Bounds) {
        let members = tree::object_at(s, p, m.depth).items;
        decode::lemma_field_same(a.original, b.original, s, members, names::NAME_O, m);
        decode::lemma_field_same(a.type12, b.type12, s, members, names::NAME_F12, m);
        decode::lemma_field_same(a.type3, b.type3, s, members, names::NAME_F3, m);
        decode::lemma_field_same(a.type4, b.type4, s, members, names::NAME_F4, m);
        decode::lemma_field_same(a.type5, b.type5, s, members, names::NAME_F5, m);
        decode::lemma_field_same(a.type6, b.type6, s, members, names::NAME_F6, m);
    }

    fn decode(c: &Reader<'_>, pos: usize) -> (r: Result<FitzEntry>) {
        let members = match tree::read_object(&c.cursor, pos) {
            Ok(members) => members,
            Err(e) => {
                return Err(e);
            },
        };
        let original = match decode_field(c, &members, names::NAME_O) {
            Ok(v) => v,
            Err(e) => {
                return Err(e);
            },
        };
        let type12 = match decode_field(c, &members, names::NAME_F12) {
            Ok(v) => v,
            Err(e) => {
                return Err(e);
            },
        };
        let type3 = match decode_field(c, &members, names::NAME_F3) {
            Ok(v) => v,
            Err(e) => {
                return Err(e);
            },
        };
        let type4 = match decode_field(c, &members, names::NAME_F4) {
            Ok(v) => v,
            Err(e) => {
                return Err(e);
            },
        };
        let type5 = match decode_field(c, &members, names::NAME_F5) {
            Ok(v) => v,
            Err(e) => {
                return Err(e);
            },
        };
        let type6 = match decode_field(c, &members, names::NAME_F6) {
            Ok(v) => v,
            Err(e) => {
                return Err(e);
            },
        };
        Ok(FitzEntry { original, type12, type3, type4, type5, type6 })
    }
}

/// What a layer shows.
#[derive(Clone, Copy, Debug, PartialEq, Eq, Structural)]
pub enum LayerKind {
    /// The layers of an asset.
    Precomp,
    /// One colour.
    Solid,
    /// Nothing; other layers move along with it.
    Null,
    /// Shapes.
    Shape,
    /// Something that is not shown.
    Other(u32),
}

/// The kind of layer that a number stands for.
pub open spec fn kind_of(ty: u32) -> LayerKind {
    if ty == 0 {
        LayerKind::Precomp
    } else if ty == 1 {
        LayerKind::Solid
    } else if ty == 3 {
        LayerKind::Null
    } else if ty == 4 {
        LayerKind::Shape
    } else {
        LayerKind::Other(ty)
    }
}

/// A layer.
pub struct Layer {
    /// What the layer shows.
    pub kind: LayerKind,
    /// What the layer says of itself.
    pub fields: LayerFields,
    /// The shapes of a layer that has some.
    pub shapes: Vec<Shape>,
    /// The colour that all solid fills and strokes below the layer take on.
    pub color_override: Option<u32>,
}

/// Where the shapes of the layer at `p` stand.
pub open spec fn layer_shapes(s: Seq<u8>, p: int, m: Bounds) -> tree::Found<usize> {
    match tree::find(tree::object_at(s, p, m.depth).items, names::NAME_SHAPES) {
        Some(at) => tree::array_at(s, at as int, m.depth),
        None => tree::Found { items: Seq::empty(), scan: json::done(p) },
    }
}

impl Decode for Layer {
    open spec fn fault(s: Seq<u8>, p: int, m: Bounds) -> Option<Error> {
        let found = layer_shapes(s, p, m);
        if LayerFields::fault(s, p, m) is Some {
            LayerFields::fault(s, p, m)
        } else if found.scan.fault is Some {
            found.scan.fault
        } else if shape::shape_total(s, found.items, m, m.depth as nat) > m.shapes {
            Some(Error::LimitExceeded(Limit::ShapesPerLayer))
        } else {
            shape::shapes_fault(s, found.items, 0, m, m.depth as nat)
        }
    }

    open spec fn reads(&self, s: Seq<u8>, p: int, m: Bounds) -> bool {
        &&& self.fields.reads(s, p, m)
        &&& self.kind == kind_of(self.fields.ty)
        &&& shape::shapes_read(self.shapes@, s, layer_shapes(s, p, m).items, m, m.depth as nat)
    }

    open spec fn same(&self, other: &Layer) -> bool {
        &&& self.kind == other.kind
        &&& self.fields.same(&other.fields)
        &&& shape::shapes_same(self.shapes@, other.shapes@)
    }

    proof fn one_value(a: Layer, b: Layer, s: Seq<u8>, p: int, m: Bounds) {
        LayerFields::one_value(a.fields, b.fields, s, p, m);
        shape::lemma_one_list_of_shapes(
            a.shapes@,
            b.shapes@,
            s,
            layer_shapes(s, p, m).items,
            m,
            m.depth as nat,
        );
    }

    fn decode(c: &Reader<'_>, pos: usize) -> (r: Result<Layer>) {
        let fields = match LayerFields::decode(c, pos) {
            Ok(v) => v,
            Err(e) => {
                return Err(e);
            },
        };
        let members = match tree::read_object(&c.cursor, pos) {
            Ok(members) => members,
            Err(e) => {
                return Err(e);
            },
        };
        let items: Vec<usize> = match tree::find_member(&members, names::NAME_SHAPES) {
            Some(at) => match tree::read_array(&c.cursor, at) {
                Ok(items) => items,
                Err(e) => {
                    return Err(e);
                },
            },
            None => Vec::new(),
        };
        assert(items@ =~= layer_shapes(c.cursor.bytes@, pos as int, c.bounds()).items);
        if shape::count_shapes(c, &items, c.cursor.max_depth, c.max_shapes).is_none() {
            return Err(Error::LimitExceeded(Limit::ShapesPerLayer));
        }
        let shapes = match shape::decode_shapes(c, &items, c.cursor.max_depth) {
            Ok(v) => v,
            Err(e) => {
                return Err(e);
            },
        };
        let kind = match fields.ty {
            0 => LayerKind::Precomp,
            1 => LayerKind::Solid,
            3 => LayerKind::Null,
            4 => LayerKind::Shape,
            ty => LayerKind::Other(ty),
        };
        Ok(Layer { kind, fields, shapes, color_override: None })
    }
}

impl Layer {
    /// The number by which other layers name this one.
    pub open spec fn number(self) -> Option<u32> {
        match self.fields.index {
            Some(code) => Some(code.value),
            None => None,
        }
    }

    /// The number of the layer that this one moves along with.
    pub open spec fn parent_number(self) -> Option<u32> {
        match self.fields.parent {
            Some(code) => Some(code.value),
            None => None,
        }
    }

    /// The number of the layer that this one moves along with.
    pub fn parent(&self) -> (p: Option<u32>)
        ensures
            p == self.parent_number(),
    {
        match &self.fields.parent {
            Some(code) => Some(code.value),
            None => None,
        }
    }
}

impl Mask {
    /// The letter of the mask's mode; a mask without one adds.
    pub open spec fn letter_of(&self) -> u8 {
        match self.mode {
            Some(t) => if t.bytes@.len() > 0 {
                t.bytes@[0]
            } else {
                0x61
            },
            None => 0x61,
        }
    }

    /// Tells the letter of the mask's mode.
    pub fn letter(&self) -> (l: u8)
        ensures
            l == self.letter_of(),
    {
        match &self.mode {
            Some(t) => {
                if t.bytes.len() > 0 {
                    t.bytes[0]
                } else {
                    0x61
                }
            },
            None => 0x61,
        }
    }
}

/// The value of a hexadecimal digit.
pub open spec fn hex_digit(b: u8) -> Option<int> {
    if 0x30 <= b <= 0x39 {
        Some(b - 0x30)
    } else if 0x61 <= b <= 0x66 {
        Some(b - 0x61 + 10)
    } else if 0x41 <= b <= 0x46 {
        Some(b - 0x41 + 10)
    } else {
        None
    }
}

/// The value of the first `k` bytes as hexadecimal digits.
pub open spec fn hex_value(bytes: Seq<u8>, k: int) -> Option<int>
    decreases k,
{
    if k <= 0 {
        Some(0)
    } else {
        match (hex_value(bytes, k - 1), hex_digit(bytes[k - 1])) {
            (Some(v), Some(d)) => Some(v * 16 + d),
            _ => None,
        }
    }
}

/// The opaque colour that a text stands for: a number sign and six hexadecimal digits.
pub open spec fn color_text(bytes: Seq<u8>) -> Option<int> {
    if bytes.len() == 7 && bytes[0] == 0x23 {
        match hex_value(bytes.skip(1), 6) {
            Some(v) => Some(0xff00_0000 + v),
            None => None,
        }
    } else {
        None
    }
}

fn read_hex_digit(b: u8) -> (d: Option<u32>)
    ensures
        d is Some == hex_digit(b) is Some,
        d matches Some(v) ==> v == hex_digit(b)->0 && v < 16,
{
    if 0x30 <= b && b <= 0x39 {
        Some((b - 0x30) as u32)
    } else if 0x61 <= b && b <= 0x66 {
        Some((b - 0x61 + 10) as u32)
    } else if 0x41 <= b && b <= 0x46 {
        Some((b - 0x41 + 10) as u32)
    } else {
        None
    }
}

proof fn lemma_hex_missing(bytes: Seq<u8>, k: int, n: int)
    requires
        0 <= k <= n,
        hex_value(bytes, k) is None,
    ensures
        hex_value(bytes, n) is None,
    decreases n - k,
{
    if k < n {
        assert(hex_value(bytes, k + 1) is None);
        lemma_hex_missing(bytes, k + 1, n);
    }
}

/// The colour that all solid fills and strokes below a layer take on, if any: the layer's own, or else
/// the one that what it stands in has.
pub open spec fn reaching(own: Option<u32>, inherited: Option<u32>) -> Option<u32> {
    if own is Some {
        own
    } else {
        inherited
    }
}

/// Tells which colour all solid fills and strokes below a layer take on.
pub fn color_below(own: Option<u32>, inherited: Option<u32>) -> (c: Option<u32>)
    ensures
        c == (if own is Some {
            own
        } else {
            inherited
        }),
        c == reaching(own, inherited),
{
    match own {
        Some(_) => own,
        None => inherited,
    }
}

/// The colour below layers that stand in one another, where each has the colour `own` lists, the
/// outermost first.
pub open spec fn reaching_through(own: Seq<Option<u32>>, outer: Option<u32>) -> Option<u32>
    decreases own.len(),
{
    if own.len() == 0 {
        outer
    } else {
        reaching(own.last(), reaching_through(own.drop_last(), outer))
    }
}

/// A layer's colour reaches everything below it, down to the next layer with a colour of its own.
pub proof fn law_colors_reach_down(own: Seq<Option<u32>>, outer: Option<u32>, i: int)
    requires
        0 <= i < own.len(),
        own[i] is Some,
        forall|k: int| i < k < own.len() ==> (#[trigger] own[k]) is None,
    ensures
        reaching_through(own, outer) == own[i],
    decreases own.len(),
{
    if i < own.len() - 1 {
        assert(own[own.len() - 1] is None);
        let above = own.drop_last();
        assert forall|k: int| i < k < above.len() implies (#[trigger] above[k]) is None by {
            assert(own[k] is None);
        }
        law_colors_reach_down(above, outer, i);
    }
}

impl Layer {
    /// The colour of a solid, with full opacity.
    pub open spec fn solid_of(self) -> Option<u32> {
        match self.fields.solid_color {
            Some(t) => match color_text(t.bytes@) {
                Some(v) => Some(v as u32),
                None => None,
            },
            None => None,
        }
    }

    /// Tells the colour that a solid shows, where `below` is the colour that solid fills below the
    /// layer take on.
    pub fn solid_shown(&self, below: Option<u32>) -> (c: Option<u32>)
        ensures
            c == (if self.solid_of() is None {
                None
            } else {
                reaching(below, self.solid_of())
            }),
    {
        match self.solid_argb() {
            Some(own) => color_below(below, Some(own)),
            None => None,
        }
    }

    /// The colour of a solid, with full opacity.
    pub fn solid_argb(&self) -> (c: Option<u32>)
        ensures
            c == self.solid_of(),
            match self.fields.solid_color {
                Some(t) => {
                    &&& c is Some == color_text(t.bytes@) is Some
                    &&& c matches Some(v) ==> v == color_text(t.bytes@)->0
                },
                None => c is None,
            },
    {
        let bytes = match &self.fields.solid_color {
            Some(t) => &t.bytes,
            None => {
                return None;
            },
        };
        if bytes.len() != 7 || bytes[0] != 0x23 {
            return None;
        }
        let ghost digits = bytes@.skip(1);
        let mut value: u32 = 0;
        let mut bound: u32 = 1;
        let mut k: usize = 0;
        while k < 6
            invariant
                bytes@.len() == 7,
                bytes@[0] == 0x23,
                self.fields.solid_color matches Some(t) && t.bytes@ == bytes@,
                digits == bytes@.skip(1),
                k <= 6,
                hex_value(digits, k as int) == Some(value as int),
                value < bound,
                k == 0 ==> bound == 1,
                k == 1 ==> bound == 0x10,
                k == 2 ==> bound == 0x100,
                k == 3 ==> bound == 0x1000,
                k == 4 ==> bound == 0x1_0000,
                k == 5 ==> bound == 0x10_0000,
                k == 6 ==> bound == 0x100_0000,
            decreases 6 - k,
        {
            assert(digits[k as int] == bytes@[k + 1]);
            match read_hex_digit(bytes[k + 1]) {
                Some(d) => {
                    value = value * 16 + d;
                    bound = bound * 16;
                },
                None => {
                    proof {
                        assert(hex_value(digits, k + 1) is None);
                        lemma_hex_missing(digits, k + 1, 6);
                    }
                    return None;
                },
            }
            k += 1;
        }
        Some(0xff00_0000 + value)
    }
}

/// Layers are told apart by their number: precompositions are 0, solids 1, null layers 3 and shapes
/// 4; any other number is kept.
pub proof fn law_layers_are_told_apart_by_number(ty: u32)
    ensures
        kind_of(ty) is Precomp <==> ty == 0,
        kind_of(ty) is Solid <==> ty == 1,
        kind_of(ty) is Null <==> ty == 3,
        kind_of(ty) is Shape <==> ty == 4,
        kind_of(ty) is Other ==> kind_of(ty)->Other_0 == ty,
{
}

/// A mask's mode is the first letter of its text; a mask without one adds.
pub proof fn law_masks_add_unless_told_otherwise(m: &Mask)
    ensures
        m.mode is None ==> m.letter_of() == 0x61,
        m.mode is Some && m.mode->0.bytes@.len() == 0 ==> m.letter_of() == 0x61,
        m.mode is Some && m.mode->0.bytes@.len() > 0 ==> m.letter_of() == m.mode->0.bytes@[0],
{
}

/// The hexadecimal digits are `0` to `9` for the first ten values and `a` to `f`, in either case, for
/// the other six; nothing else is one.
pub proof fn law_hexadecimal_digits(b: u8, d: int)
    ensures
        hex_digit(b) == Some(d) <==> (0 <= d < 10 && b == 0x30 + d) || (10 <= d < 16 && (b == 0x61
            + (d - 10) || b == 0x41 + (d - 10))),
{
}

/// A color is a number sign and six digits, two for red, two for green and two for blue, and is
/// opaque; any other text is no color.
pub proof fn law_colors_are_six_digits(bytes: Seq<u8>)
    ensures
        color_text(bytes) is Some <==> bytes.len() == 7 && bytes[0] == 0x23 && forall|k: int|
            1 <= k < 7 ==> hex_digit(#[trigger] bytes[k]) is Some,
        color_text(bytes) is Some ==> {
            let red = 16 * hex_digit(bytes[1])->0 + hex_digit(bytes[2])->0;
            let green = 16 * hex_digit(bytes[3])->0 + hex_digit(bytes[4])->0;
            let blue = 16 * hex_digit(bytes[5])->0 + hex_digit(bytes[6])->0;
            color_text(bytes)->0 == 0xff00_0000 + 0x1_0000 * red + 0x100 * green + blue
        },
{
    if bytes.len() == 7 {
        let d = bytes.skip(1);
        assert(d[0] == bytes[1] && d[1] == bytes[2] && d[2] == bytes[3] && d[3] == bytes[4] && d[4]
            == bytes[5] && d[5] == bytes[6]);
        reveal_with_fuel(hex_value, 7);
        if forall|k: int| 1 <= k < 7 ==> hex_digit(#[trigger] bytes[k]) is Some {
            assert(hex_digit(bytes[1]) is Some && hex_digit(bytes[2]) is Some && hex_digit(bytes[3]) is Some
                && hex_digit(bytes[4]) is Some && hex_digit(bytes[5]) is Some && hex_digit(
                bytes[6],
            ) is Some);
        }
    }
}

/// A layer's own color comes before the one it stands in, and a solid shows the color that reaches it
/// before its own; a solid without a color of its own shows none.
pub proof fn law_own_colors_come_first(own: u32, inherited: Option<u32>, layer: &Layer, below: Option<u32>, c: Option<u32>)
    requires
        call_ensures(Layer::solid_shown, (layer, below), c),
    ensures
        reaching(Some(own), inherited) == Some(own),
        reaching(None, inherited) == inherited,
        layer.solid_of() is None ==> c is None,
        layer.solid_of() is Some && below is Some ==> c == below,
        layer.solid_of() is Some && below is None ==> c == layer.solid_of(),
{
}

/// A mask is read from its members `mode`, `inv`, `pt` and `o`, each into its own field.
pub proof fn law_mask_members(v: Mask, s: Seq<u8>, p: int, m: Bounds)
    requires
        v.reads(s, p, m),
    ensures
        ({
            let members = tree::object_at(s, p, m.depth).items;
            &&& decode::field_reads(v.mode, s, members, names::NAME_MODE, m)
            &&& v.inverted == decode::field_flag(s, members, names::NAME_INV)
            &&& decode::field_reads(v.path, s, members, names::NAME_PT, m)
            &&& decode::field_reads(v.opacity, s, members, names::NAME_O, m)
        }),
{
}

/// A layer is read from its members `ty`, `ind`, `parent`, `ip`, `op`, `st`, `sr`, `hd`, `ks`,
/// `refId`, `w`, `h`, `masksProperties`, `tt`, `td`, `sw`, `sh`, `sc`, `tm`, `ao` and `nm`, each
/// into its own field.
pub proof fn law_layer_fields_members(v: LayerFields, s: Seq<u8>, p: int, m: Bounds)
    requires
        v.reads(s, p, m),
    ensures
        ({
            let members = tree::object_at(s, p, m.depth).items;
            &&& v.ty == decode::field_code(s, members, names::NAME_TY, 4294967295)
            &&& decode::field_reads(v.index, s, members, names::NAME_IND, m)
            &&& decode::field_reads(v.parent, s, members, names::NAME_PARENT, m)
            &&& decode::field_reads(v.in_point, s, members, names::NAME_IP, m)
            &&& decode::field_reads(v.out_point, s, members, names::NAME_OP, m)
            &&& decode::field_reads(v.start_time, s, members, names::NAME_ST, m)
            &&& decode::field_reads(v.time_stretch, s, members, names::NAME_SR, m)
            &&& v.hidden == decode::field_flag(s, members, names::NAME_HD)
            &&& decode::field_reads(v.transform, s, members, names::NAME_KS, m)
            &&& decode::field_reads(v.ref_id, s, members, names::NAME_REF_ID, m)
            &&& decode::field_reads(v.width, s, members, names::NAME_W, m)
            &&& decode::field_reads(v.height, s, members, names::NAME_H, m)
            &&& decode::field_list_reads(v.masks@, s, members, names::NAME_MASKS_PROPERTIES, m)
            &&& v.matte == decode::field_code(s, members, names::NAME_TT, 0)
            &&& v.matte_src == decode::field_flag(s, members, names::NAME_TD)
            &&& decode::field_reads(v.solid_width, s, members, names::NAME_SW, m)
            &&& decode::field_reads(v.solid_height, s, members, names::NAME_SH, m)
            &&& decode::field_reads(v.solid_color, s, members, names::NAME_SC, m)
            &&& decode::field_reads(v.time_remap, s, members, names::NAME_TM, m)
            &&& v.auto_orient == decode::field_flag(s, members, names::NAME_AO)
            &&& decode::field_reads(v.name, s, members, names::NAME_NM, m)
        }),
{
}

/// An entry of a skin tone table is read from its members `o`, `f12`, `f3`, `f4`, `f5` and `f6`,
/// each into its own field.
pub proof fn law_fitz_entry_members(v: FitzEntry, s: Seq<u8>, p: int, m: Bounds)
    requires
        v.reads(s, p, m),
    ensures
        ({
            let members = tree::object_at(s, p, m.depth).items;
            &&& decode::field_reads(v.original, s, members, names::NAME_O, m)
            &&& decode::field_reads(v.type12, s, members, names::NAME_F12, m)
            &&& decode::field_reads(v.type3, s, members, names::NAME_F3, m)
            &&& decode::field_reads(v.type4, s, members, names::NAME_F4, m)
            &&& decode::field_reads(v.type5, s, members, names::NAME_F5, m)
            &&& decode::field_reads(v.type6, s, members, names::NAME_F6, m)
        }),
{
}

} // verus!
