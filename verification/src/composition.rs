//! Compositions: the whole of what is parsed.

use crate::decode;
use crate::decode::{decode_field, Bounds, Decode, Reader, Text};
use crate::error::{Error, JsonErrorKind, Limit, Result};
use crate::json;
use crate::json::Cursor;
use crate::layer::{FitzEntry, Layer};
use crate::limits::Limits;
use crate::names;
use crate::number::Number;
use crate::options::{FitzModifier, LayerColorReplacement, ParseOptions};
use crate::property;
use crate::tree;
use crate::tree::{Found, Member};
use vstd::prelude::*;
use vstd::utf8;

verus! {

/// Layers that other layers show.
pub struct Asset {
    /// The name that those layers know it by.
    pub id: Option<Text>,
    /// The layers.
    pub layers: Vec<Layer>,
}

/// A parsed animation.
pub struct Composition {
    /// The width in points.
    pub width: u32,
    /// The height in points.
    pub height: u32,
    /// Frames per second.
    pub frame_rate: Number,
    /// The first frame.
    pub in_point: Number,
    /// The frame behind the last.
    pub out_point: Number,
    /// The layers, the topmost first.
    pub layers: Vec<Layer>,
    /// The layers that other layers show.
    pub assets: Vec<Asset>,
    /// The table of skin tones, where one is selected.
    pub fitz: Vec<FitzEntry>,
    /// The colours that the selected skin tone replaces, each with its replacement.
    pub color_swaps: Vec<(u32, u32)>,
}

/// What a solid paint shows.
#[derive(Clone, Copy, Debug, PartialEq, Eq, Structural)]
pub enum Shown {
    /// Its own colour.
    Own,
    /// Another colour, with its own alpha.
    Swapped(u32),
    /// Another colour, with that colour's alpha.
    Replaced(u32),
}

/// True where `name` starts with `prefix`.
pub open spec fn starts_with(name: Seq<u8>, prefix: Seq<u8>) -> bool {
    prefix.len() <= name.len() && name.take(prefix.len() as int) == prefix
}

/// The colour of the last replacement whose prefix the name starts with.
pub open spec fn override_for(
    name: Option<Text>,
    replacements: Seq<LayerColorReplacement>,
) -> Option<u32>
    decreases replacements.len(),
{
    if replacements.len() == 0 || name is None {
        None
    } else if starts_with(
        name->0.bytes@,
        utf8::encode_utf8(replacements.last().layer_name_prefix@),
    ) {
        Some(replacements.last().color)
    } else {
        override_for(name, replacements.drop_last())
    }
}

/// Whether `name` starts with `prefix`.
fn has_prefix(name: &[u8], prefix: &[u8]) -> (r: bool)
    ensures
        r == starts_with(name@, prefix@),
{
    let n: usize = prefix.len();
    if n > name.len() {
        return false;
    }
    let mut i: usize = 0;
    while i < n
        invariant
            n == prefix@.len() <= name@.len(),
            i <= n,
            name@.take(i as int) == prefix@.take(i as int),
        decreases n - i,
    {
        if name[i] != prefix[i] {
            assert(name@.take(n as int)[i as int] != prefix@[i as int]);
            return false;
        }
        i += 1;
        assert(name@.take(i as int) =~= name@.take(i - 1).push(name@[i - 1]));
        assert(prefix@.take(i as int) =~= prefix@.take(i - 1).push(prefix@[i - 1]));
    }
    assert(prefix@.take(n as int) =~= prefix@);
    true
}

/// The colour that the replacements give to a layer of that name.
pub fn find_override(name: &Option<Text>, replacements: &Vec<LayerColorReplacement>) -> (c: Option<
    u32,
>)
    ensures
        c == override_for(*name, replacements@),
{
    let text = match name {
        Some(text) => text,
        None => {
            return None;
        },
    };
    let mut n: usize = replacements.len();
    assert(replacements@.take(n as int) =~= replacements@);
    while n > 0
        invariant
            n <= replacements@.len(),
            *name == Some(*text),
            override_for(*name, replacements@.take(n as int)) == override_for(*name, replacements@),
        decreases n,
    {
        assert(replacements@.take(n as int).drop_last() =~= replacements@.take(n - 1));
        let prefix = replacements[n - 1].layer_name_prefix.as_str();
        if has_prefix(text.bytes.as_slice(), prefix.as_bytes()) {
            return Some(replacements[n - 1].color);
        }
        n -= 1;
    }
    None
}

/// True where `v` holds the layers at `at`, coloured by the replacements.
pub open spec fn layers_read(
    v: Seq<Layer>,
    s: Seq<u8>,
    at: Seq<usize>,
    m: Bounds,
    replacements: Seq<LayerColorReplacement>,
) -> bool {
    v.len() == at.len() && forall|i: int|
        0 <= i < v.len() ==> {
            &&& (#[trigger] v[i]).reads(s, at[i] as int, m)
            &&& v[i].color_override == override_for(v[i].fields.name, replacements)
        }
}

/// Reads the layers at `at`.
fn decode_layers(c: &Reader<'_>, at: &Vec<usize>, replacements: &Vec<LayerColorReplacement>) -> (r:
    Result<Vec<Layer>>)
    ensures
        match r {
            Ok(v) => {
                &&& decode::items_fault::<Layer>(c.cursor.bytes@, at@, 0, c.bounds()) is None
                &&& layers_read(v@, c.cursor.bytes@, at@, c.bounds(), replacements@)
            },
            Err(e) => decode::items_fault::<Layer>(c.cursor.bytes@, at@, 0, c.bounds()) == Some(e),
        },
{
    let ghost s = c.cursor.bytes@;
    let ghost m = c.bounds();
    let n: usize = at.len();
    let mut v: Vec<Layer> = Vec::new();
    let mut i: usize = 0;
    while i < n
        invariant
            s == c.cursor.bytes@,
            m == c.bounds(),
            n == at@.len(),
            i <= n,
            decode::items_fault::<Layer>(s, at@, i as int, m) == decode::items_fault::<Layer>(
                s,
                at@,
                0,
                m,
            ),
            layers_read(v@, s, at@.take(i as int), m, replacements@),
        decreases n - i,
    {
        match Layer::decode(c, at[i]) {
            Ok(layer) => {
                let color = find_override(&layer.fields.name, replacements);
                let colored = Layer {
                    kind: layer.kind,
                    fields: layer.fields,
                    shapes: layer.shapes,
                    color_override: color,
                };
                v.push(colored);
            },
            Err(e) => {
                return Err(e);
            },
        }
        i += 1;
    }
    assert(at@.take(n as int) =~= at@);
    Ok(v)
}

/// Where the layers of the asset at `p` stand, where it has some.
pub open spec fn asset_layers(s: Seq<u8>, p: int, m: Bounds) -> Option<Found<usize>> {
    match tree::find(tree::object_at(s, p, m.depth).items, names::NAME_LAYERS) {
        Some(at) => Some(tree::array_at(s, at as int, m.depth)),
        None => None,
    }
}

/// The error that reading the name of the asset at `p` reports.
pub open spec fn asset_fault(s: Seq<u8>, p: int, m: Bounds) -> Option<Error> {
    let found = tree::object_at(s, p, m.depth);
    decode::either(
        found.scan.fault,
        decode::field_fault::<Text>(s, found.items, names::NAME_ID, m),
    )
}

/// The first error among the assets at `at`, from the `i`th on, after `used` layers.
pub open spec fn assets_fault(
    s: Seq<u8>,
    at: Seq<usize>,
    i: int,
    m: Bounds,
    used: int,
    most: int,
) -> Option<Error>
    decreases at.len() - i,
{
    if i < 0 || i >= at.len() {
        None
    } else if asset_fault(s, at[i] as int, m) is Some {
        asset_fault(s, at[i] as int, m)
    } else {
        match asset_layers(s, at[i] as int, m) {
            None => assets_fault(s, at, i + 1, m, used, most),
            Some(found) => if found.scan.fault is Some {
                found.scan.fault
            } else if used + found.items.len() > most {
                Some(Error::LimitExceeded(Limit::Layers))
            } else {
                decode::either(
                    decode::items_fault::<Layer>(s, found.items, 0, m),
                    assets_fault(s, at, i + 1, m, used + found.items.len(), most),
                )
            },
        }
    }
}

/// True where `v` holds the assets at `at` that have layers, in their order.
pub open spec fn assets_read(
    v: Seq<Asset>,
    s: Seq<u8>,
    at: Seq<usize>,
    m: Bounds,
    replacements: Seq<LayerColorReplacement>,
) -> bool
    decreases at.len(),
{
    if at.len() == 0 {
        v.len() == 0
    } else {
        let p = at.last() as int;
        match asset_layers(s, p, m) {
            None => assets_read(v, s, at.drop_last(), m, replacements),
            Some(found) => {
                let members = tree::object_at(s, p, m.depth).items;
                &&& v.len() > 0
                &&& decode::field_reads(v.last().id, s, members, names::NAME_ID, m)
                &&& layers_read(v.last().layers@, s, found.items, m, replacements)
                &&& assets_read(v.drop_last(), s, at.drop_last(), m, replacements)
            },
        }
    }
}

/// Reads the assets at `at`, after `used` layers.
fn decode_assets(
    c: &Reader<'_>,
    at: &Vec<usize>,
    used: usize,
    most: usize,
    replacements: &Vec<LayerColorReplacement>,
) -> (r: Result<Vec<Asset>>)
    requires
        used <= most,
    ensures
        ({
            let s = c.cursor.bytes@;
            let fault = assets_fault(s, at@, 0, c.bounds(), used as int, most as int);
            match r {
                Ok(v) => fault is None && assets_read(v@, s, at@, c.bounds(), replacements@),
                Err(e) => fault == Some(e),
            }
        }),
{
    let ghost s = c.cursor.bytes@;
    let ghost m = c.bounds();
    let n: usize = at.len();
    let mut v: Vec<Asset> = Vec::new();
    let mut total: usize = used;
    let mut i: usize = 0;
    assert(at@.take(0) =~= Seq::<usize>::empty());
    while i < n
        invariant
            s == c.cursor.bytes@,
            m == c.bounds(),
            n == at@.len(),
            i <= n,
            total <= most,
            assets_fault(s, at@, i as int, m, total as int, most as int) == assets_fault(
                s,
                at@,
                0,
                m,
                used as int,
                most as int,
            ),
            assets_read(v@, s, at@.take(i as int), m, replacements@),
        decreases n - i,
    {
        assert(at@.take(i + 1).drop_last() =~= at@.take(i as int));
        let members = match tree::read_object(&c.cursor, at[i]) {
            Ok(members) => members,
            Err(e) => {
                return Err(e);
            },
        };
        let id = match decode_field::<Text>(c, &members, names::NAME_ID) {
            Ok(id) => id,
            Err(e) => {
                return Err(e);
            },
        };
        match tree::find_member(&members, names::NAME_LAYERS) {
            Some(list) => {
                let items = match tree::read_array(&c.cursor, list) {
                    Ok(items) => items,
                    Err(e) => {
                        return Err(e);
                    },
                };
                if items.len() > most - total {
                    return Err(Error::LimitExceeded(Limit::Layers));
                }
                let layers = match decode_layers(c, &items, replacements) {
                    Ok(layers) => layers,
                    Err(e) => {
                        return Err(e);
                    },
                };
                total += items.len();
                let ghost before = v@;
                v.push(Asset { id, layers });
                assert(v@.drop_last() =~= before);
            },
            None => {},
        }
        i += 1;
    }
    assert(at@.take(n as int) =~= at@);
    Ok(v)
}

/// The colour that an entry gives for the `k`th skin tone.
pub open spec fn tone_of(entry: FitzEntry, k: int) -> Option<u32> {
    let code = if k == 0 {
        entry.type12
    } else if k == 1 {
        entry.type3
    } else if k == 2 {
        entry.type4
    } else if k == 3 {
        entry.type5
    } else {
        entry.type6
    };
    match code {
        Some(c) => Some(c.value),
        None => None,
    }
}

/// The replacements that a table gives for the `k`th skin tone.
pub open spec fn swaps_of(entries: Seq<FitzEntry>, k: int) -> Seq<(u32, u32)>
    decreases entries.len(),
{
    if entries.len() == 0 {
        Seq::empty()
    } else {
        let before = swaps_of(entries.drop_last(), k);
        let last = entries.last();
        if last.original is Some && tone_of(last, k) is Some {
            before.push((last.original->0.value, tone_of(last, k)->0))
        } else {
            before
        }
    }
}

/// Collects the replacements for the `k`th skin tone.
fn collect_swaps(entries: &Vec<FitzEntry>, k: usize) -> (v: Vec<(u32, u32)>)
    ensures
        v@ == swaps_of(entries@, k as int),
{
    let n: usize = entries.len();
    let mut v: Vec<(u32, u32)> = Vec::new();
    let mut i: usize = 0;
    assert(entries@.take(0) =~= Seq::<FitzEntry>::empty());
    while i < n
        invariant
            n == entries@.len(),
            i <= n,
            v@ == swaps_of(entries@.take(i as int), k as int),
        decreases n - i,
    {
        assert(entries@.take(i + 1).drop_last() =~= entries@.take(i as int));
        let entry = &entries[i];
        let tone = match k {
            0 => &entry.type12,
            1 => &entry.type3,
            2 => &entry.type4,
            3 => &entry.type5,
            _ => &entry.type6,
        };
        match (&entry.original, tone) {
            (Some(from), Some(to)) => {
                v.push((from.value, to.value));
            },
            _ => {},
        }
        i += 1;
    }
    assert(entries@.take(n as int) =~= entries@);
    v
}

/// The bounds that limits put on reading.
pub open spec fn bounds_of(limits: Limits) -> Bounds {
    Bounds {
        depth: limits.max_nesting_depth as int,
        keyframes: limits.max_keyframes as int,
        shapes: limits.max_shapes_per_layer as int,
    }
}

/// The members of the outermost object.
pub open spec fn root_members(s: Seq<u8>, m: Bounds) -> Seq<Member> {
    tree::object_at(s, json::after_space(s, 0), m.depth).items
}

/// The error that the input as a whole reports: it is too long, it is not one value, or that value
/// is no object.
pub open spec fn root_fault(s: Seq<u8>, limits: Limits) -> Option<Error> {
    let m = bounds_of(limits);
    let root = json::value_scan(s, 0, m.depth);
    let rest = json::after_space(s, root.end);
    if s.len() > limits.max_input_bytes {
        Some(Error::LimitExceeded(Limit::InputBytes))
    } else if root.fault is Some {
        root.fault
    } else if rest < s.len() {
        json::bad(rest, JsonErrorKind::TrailingData).fault
    } else {
        tree::object_at(s, json::after_space(s, 0), m.depth).scan.fault
    }
}

/// True where every member that a composition needs is there.
pub open spec fn has_header(members: Seq<Member>) -> bool {
    &&& tree::find(members, names::NAME_FR) is Some
    &&& tree::find(members, names::NAME_IP) is Some
    &&& tree::find(members, names::NAME_OP) is Some
    &&& tree::find(members, names::NAME_W) is Some
    &&& tree::find(members, names::NAME_H) is Some
}

/// The error that the header reports: a member is missing or no number, or the size is too large.
pub open spec fn header_fault(s: Seq<u8>, limits: Limits) -> Option<Error> {
    let m = bounds_of(limits);
    let members = root_members(s, m);
    let most = limits.max_dimension;
    if !has_header(members) {
        Some(property::missing(json::after_space(s, 0), "missing header field"))
    } else {
        decode::either(
            decode::field_fault::<Number>(s, members, names::NAME_FR, m),
            decode::either(
                decode::field_fault::<Number>(s, members, names::NAME_IP, m),
                decode::either(
                    decode::field_fault::<Number>(s, members, names::NAME_OP, m),
                    decode::either(
                        decode::field_fault::<Number>(s, members, names::NAME_W, m),
                        decode::either(
                            decode::field_fault::<Number>(s, members, names::NAME_H, m),
                            if decode::field_code(s, members, names::NAME_W, 0) > most
                                || decode::field_code(s, members, names::NAME_H, 0) > most {
                                Some(Error::LimitExceeded(Limit::CompositionSize))
                            } else {
                                None
                            },
                        ),
                    ),
                ),
            ),
        )
    }
}

/// Where the elements of a list in the outermost object stand.
pub open spec fn root_list(s: Seq<u8>, m: Bounds, name: u128) -> Found<usize> {
    match tree::find(root_members(s, m), name) {
        Some(at) => tree::array_at(s, at as int, m.depth),
        None => Found { items: Seq::empty(), scan: json::done(0) },
    }
}

/// The error that the layers and the assets report.
pub open spec fn content_fault(s: Seq<u8>, limits: Limits) -> Option<Error> {
    let m = bounds_of(limits);
    let layers = root_list(s, m, names::NAME_LAYERS);
    let assets = root_list(s, m, names::NAME_ASSETS);
    if layers.scan.fault is Some {
        layers.scan.fault
    } else if layers.items.len() > limits.max_layers {
        Some(Error::LimitExceeded(Limit::Layers))
    } else if decode::items_fault::<Layer>(s, layers.items, 0, m) is Some {
        decode::items_fault::<Layer>(s, layers.items, 0, m)
    } else if assets.scan.fault is Some {
        assets.scan.fault
    } else if assets.items.len() > limits.max_assets {
        Some(Error::LimitExceeded(Limit::Assets))
    } else {
        assets_fault(
            s,
            assets.items,
            0,
            m,
            layers.items.len() as int,
            limits.max_layers as int,
        )
    }
}

/// The error that the table of skin tones reports. It is looked at only where a tone is selected.
pub open spec fn fitz_fault(s: Seq<u8>, limits: Limits, modifier: FitzModifier) -> Option<Error> {
    let m = bounds_of(limits);
    if modifier.number() == 0 {
        None
    } else {
        decode::field_fault::<decode::List<FitzEntry>>(s, root_members(s, m), names::NAME_FITZ, m)
    }
}

/// The error that parsing reports, or nothing where the input is a composition.
pub open spec fn composition_fault(
    s: Seq<u8>,
    limits: Limits,
    modifier: FitzModifier,
) -> Option<Error> {
    decode::either(
        root_fault(s, limits),
        decode::either(
            header_fault(s, limits),
            decode::either(content_fault(s, limits), fitz_fault(s, limits, modifier)),
        ),
    )
}

impl Composition {
    /// True where this is the composition that the input describes.
    pub open spec fn reads(
        &self,
        s: Seq<u8>,
        limits: Limits,
        modifier: FitzModifier,
        replacements: Seq<LayerColorReplacement>,
    ) -> bool {
        let m = bounds_of(limits);
        let members = root_members(s, m);
        &&& decode::field_reads(Some(self.frame_rate), s, members, names::NAME_FR, m)
        &&& decode::field_reads(Some(self.in_point), s, members, names::NAME_IP, m)
        &&& decode::field_reads(Some(self.out_point), s, members, names::NAME_OP, m)
        &&& self.width == decode::field_code(s, members, names::NAME_W, 0)
        &&& self.height == decode::field_code(s, members, names::NAME_H, 0)
        &&& layers_read(
            self.layers@,
            s,
            root_list(s, m, names::NAME_LAYERS).items,
            m,
            replacements,
        )
        &&& assets_read(
            self.assets@,
            s,
            root_list(s, m, names::NAME_ASSETS).items,
            m,
            replacements,
        )
        &&& if modifier.number() == 0 {
            self.fitz@.len() == 0 && self.color_swaps@.len() == 0
        } else {
            &&& decode::field_list_reads(self.fitz@, s, members, names::NAME_FITZ, m)
            &&& self.color_swaps@ == swaps_of(self.fitz@, modifier.number() - 1)
        }
    }
}

/// True where `r` is what parsing the input answers: the composition that it describes, or the error
/// that it reports.
pub open spec fn answers(
    r: Result<Composition>,
    s: Seq<u8>,
    limits: Limits,
    modifier: FitzModifier,
    replacements: Seq<LayerColorReplacement>,
) -> bool {
    match r {
        Ok(c) => composition_fault(s, limits, modifier) is None && c.reads(
            s,
            limits,
            modifier,
            replacements,
        ),
        Err(e) => composition_fault(s, limits, modifier) == Some(e),
    }
}

/// Reads the input as one object.
fn read_root(c: &Reader<'_>, limits: &Limits) -> (r: Result<Vec<Member>>)
    requires
        c.bounds() == bounds_of(*limits),
        c.cursor.pos == 0,
    ensures
        match r {
            Ok(members) => root_fault(c.cursor.bytes@, *limits) is None && members@
                == root_members(c.cursor.bytes@, c.bounds()),
            Err(e) => root_fault(c.cursor.bytes@, *limits) == Some(e),
        },
{
    if c.cursor.bytes.len() > limits.max_input_bytes {
        return Err(Error::LimitExceeded(Limit::InputBytes));
    }
    let mut at = c.cursor;
    match at.skip_value() {
        Ok(_) => {},
        Err(e) => {
            return Err(e);
        },
    }
    at.skip_ws();
    if at.peek().is_some() {
        return Err(at.err(JsonErrorKind::TrailingData));
    }
    proof {
        json::law_skipping_advances(c.cursor.bytes@, 0, c.bounds().depth);
        json::lemma_after_space(
            c.cursor.bytes@,
            json::value_scan(c.cursor.bytes@, 0, c.bounds().depth).end,
        );
    }
    let mut start = c.cursor;
    start.skip_ws();
    tree::read_object(&c.cursor, start.pos())
}

/// The header of a composition.
struct Header {
    frame_rate: Number,
    in_point: Number,
    out_point: Number,
    width: u32,
    height: u32,
}

impl Header {
    spec fn reads(&self, s: Seq<u8>, members: Seq<Member>, m: Bounds) -> bool {
        &&& decode::field_reads(Some(self.frame_rate), s, members, names::NAME_FR, m)
        &&& decode::field_reads(Some(self.in_point), s, members, names::NAME_IP, m)
        &&& decode::field_reads(Some(self.out_point), s, members, names::NAME_OP, m)
        &&& self.width == decode::field_code(s, members, names::NAME_W, 0)
        &&& self.height == decode::field_code(s, members, names::NAME_H, 0)
    }
}

/// Reads a member that is a number and is there.
fn read_number(c: &Reader<'_>, members: &Vec<Member>, name: u128) -> (r: Result<Number>)
    requires
        tree::find(members@, name) is Some,
    ensures
        match r {
            Ok(n) => decode::field_fault::<Number>(c.cursor.bytes@, members@, name, c.bounds())
                is None && decode::field_reads(
                Some(n),
                c.cursor.bytes@,
                members@,
                name,
                c.bounds(),
            ),
            Err(e) => decode::field_fault::<Number>(c.cursor.bytes@, members@, name, c.bounds())
                == Some(e),
        },
{
    match decode_field::<Number>(c, members, name) {
        Ok(Some(n)) => Ok(n),
        Ok(None) => Err(Error::Empty),
        Err(e) => Err(e),
    }
}

/// Reads the header.
fn read_header(c: &Reader<'_>, members: &Vec<Member>, limits: &Limits) -> (r: Result<Header>)
    requires
        c.bounds() == bounds_of(*limits),
        c.cursor.pos == 0,
        members@ == root_members(c.cursor.bytes@, c.bounds()),
    ensures
        match r {
            Ok(h) => header_fault(c.cursor.bytes@, *limits) is None && h.reads(
                c.cursor.bytes@,
                members@,
                c.bounds(),
            ),
            Err(e) => header_fault(c.cursor.bytes@, *limits) == Some(e),
        },
{
    if tree::find_member(members, names::NAME_FR).is_none() || tree::find_member(
        members,
        names::NAME_IP,
    ).is_none() || tree::find_member(members, names::NAME_OP).is_none() || tree::find_member(
        members,
        names::NAME_W,
    ).is_none() || tree::find_member(members, names::NAME_H).is_none() {
        let mut start = c.cursor;
        start.skip_ws();
        return Err(Error::InvalidLottie { offset: start.pos(), what: "missing header field" });
    }
    let frame_rate = match read_number(c, members, names::NAME_FR) {
        Ok(n) => n,
        Err(e) => {
            return Err(e);
        },
    };
    let in_point = match read_number(c, members, names::NAME_IP) {
        Ok(n) => n,
        Err(e) => {
            return Err(e);
        },
    };
    let out_point = match read_number(c, members, names::NAME_OP) {
        Ok(n) => n,
        Err(e) => {
            return Err(e);
        },
    };
    let width = match read_number(c, members, names::NAME_W) {
        Ok(n) => decode::to_code(&n),
        Err(e) => {
            return Err(e);
        },
    };
    let height = match read_number(c, members, names::NAME_H) {
        Ok(n) => decode::to_code(&n),
        Err(e) => {
            return Err(e);
        },
    };
    if width > limits.max_dimension || height > limits.max_dimension {
        return Err(Error::LimitExceeded(Limit::CompositionSize));
    }
    Ok(Header { frame_rate, in_point, out_point, width, height })
}

/// Finds the elements of a list in the outermost object.
fn read_root_list(c: &Reader<'_>, members: &Vec<Member>, name: u128) -> (r: Result<Vec<usize>>)
    requires
        members@ == root_members(c.cursor.bytes@, c.bounds()),
    ensures
        tree::yields(root_list(c.cursor.bytes@, c.bounds(), name), r),
{
    match tree::find_member(members, name) {
        Some(at) => tree::read_array(&c.cursor, at),
        None => {
            let none: Vec<usize> = Vec::new();
            assert(none@ =~= Seq::<usize>::empty());
            Ok(none)
        },
    }
}

/// Reads the layers and the assets.
fn read_content(
    c: &Reader<'_>,
    members: &Vec<Member>,
    limits: &Limits,
    replacements: &Vec<LayerColorReplacement>,
) -> (r: Result<(Vec<Layer>, Vec<Asset>)>)
    requires
        c.bounds() == bounds_of(*limits),
        members@ == root_members(c.cursor.bytes@, c.bounds()),
    ensures
        ({
            let s = c.cursor.bytes@;
            let m = c.bounds();
            match r {
                Ok((layers, assets)) => {
                    &&& content_fault(s, *limits) is None
                    &&& layers_read(
                        layers@,
                        s,
                        root_list(s, m, names::NAME_LAYERS).items,
                        m,
                        replacements@,
                    )
                    &&& assets_read(
                        assets@,
                        s,
                        root_list(s, m, names::NAME_ASSETS).items,
                        m,
                        replacements@,
                    )
                },
                Err(e) => content_fault(s, *limits) == Some(e),
            }
        }),
{
    let layer_items = match read_root_list(c, members, names::NAME_LAYERS) {
        Ok(items) => items,
        Err(e) => {
            return Err(e);
        },
    };
    if layer_items.len() > limits.max_layers {
        return Err(Error::LimitExceeded(Limit::Layers));
    }
    let layers = match decode_layers(c, &layer_items, replacements) {
        Ok(layers) => layers,
        Err(e) => {
            return Err(e);
        },
    };
    let asset_items = match read_root_list(c, members, names::NAME_ASSETS) {
        Ok(items) => items,
        Err(e) => {
            return Err(e);
        },
    };
    if asset_items.len() > limits.max_assets {
        return Err(Error::LimitExceeded(Limit::Assets));
    }
    match decode_assets(c, &asset_items, layer_items.len(), limits.max_layers, replacements) {
        Ok(assets) => Ok((layers, assets)),
        Err(e) => Err(e),
    }
}

impl Composition {
    /// Parses a composition from raw JSON bytes.
    ///
    /// Any malformed, truncated or hostile input returns an error. What is consumed is bounded by
    /// `limits`.
    pub fn parse(json: &[u8], limits: &Limits) -> (r: Result<Composition>)
        ensures
            answers(r, json@, *limits, FitzModifier::Unmodified, Seq::empty()),
    {
        let options = ParseOptions::default();
        assert(options.layer_color_replacements@ =~= Seq::empty());
        Composition::parse_with_options(json, limits, &options)
    }

    /// Parses a composition and applies constructor-time customizations: the colours of the
    /// selected skin tone and of layers matched by name are settled once, while parsing.
    pub fn parse_with_options(json: &[u8], limits: &Limits, options: &ParseOptions) -> (r: Result<
        Composition,
    >)
        ensures
            answers(
                r,
                json@,
                *limits,
                options.fitz_modifier,
                options.layer_color_replacements@,
            ),
    {
        let c = Reader {
            cursor: Cursor::new(json, limits.max_nesting_depth),
            max_keyframes: limits.max_keyframes,
            max_shapes: limits.max_shapes_per_layer,
        };
        let members = match read_root(&c, limits) {
            Ok(members) => members,
            Err(e) => {
                return Err(e);
            },
        };
        let header = match read_header(&c, &members, limits) {
            Ok(header) => header,
            Err(e) => {
                return Err(e);
            },
        };
        let (layers, assets) = match read_content(
            &c,
            &members,
            limits,
            &options.layer_color_replacements,
        ) {
            Ok(content) => content,
            Err(e) => {
                return Err(e);
            },
        };
        let mut fitz: Vec<FitzEntry> = Vec::new();
        let mut color_swaps: Vec<(u32, u32)> = Vec::new();
        match options.fitz_modifier.replacement_index() {
            Some(k) => {
                match decode::decode_field_list(&c, &members, names::NAME_FITZ) {
                    Ok(entries) => {
                        fitz = entries;
                    },
                    Err(e) => {
                        return Err(e);
                    },
                }
                color_swaps = collect_swaps(&fitz, k);
            },
            None => {},
        }
        Ok(
            Composition {
                width: header.width,
                height: header.height,
                frame_rate: header.frame_rate,
                in_point: header.in_point,
                out_point: header.out_point,
                layers,
                assets,
                fitz,
                color_swaps,
            },
        )
    }

    /// The colour that a colour is shown with: that of the first replacement for it, or itself.
    pub open spec fn color_shown(&self, rgb: u32, i: int) -> u32
        decreases self.color_swaps@.len() - i,
    {
        if i < 0 || i >= self.color_swaps@.len() {
            rgb
        } else if self.color_swaps@[i].0 == rgb {
            self.color_swaps@[i].1
        } else {
            self.color_shown(rgb, i + 1)
        }
    }

    /// Tells the colour that a colour is shown with.
    pub fn shown_color(&self, rgb: u32) -> (c: u32)
        ensures
            c == self.color_shown(rgb, 0),
    {
        let mut i: usize = 0;
        while i < self.color_swaps.len()
            invariant
                i <= self.color_swaps@.len(),
                self.color_shown(rgb, i as int) == self.color_shown(rgb, 0),
            decreases self.color_swaps@.len() - i,
        {
            let swap = self.color_swaps[i];
            if swap.0 == rgb {
                return swap.1;
            }
            i += 1;
        }
        rgb
    }

    /// What a solid paint of a colour shows, where `below` is the colour that solid paints below its
    /// layer take on.
    pub open spec fn paint_shown(&self, below: Option<u32>, rgb: u32) -> Shown {
        match below {
            Some(argb) => Shown::Replaced(argb),
            None => if self.color_shown(rgb, 0) == rgb {
                Shown::Own
            } else {
                Shown::Swapped(self.color_shown(rgb, 0))
            },
        }
    }

    /// Decides what a solid paint of a colour shows. A colour that replaces others by name comes before
    /// one that a skin tone replaces.
    pub fn show_paint(&self, below: Option<u32>, rgb: u32) -> (s: Shown)
        ensures
            s == self.paint_shown(below, rgb),
    {
        match below {
            Some(argb) => Shown::Replaced(argb),
            None => {
                let shown = self.shown_color(rgb);
                if shown == rgb {
                    Shown::Own
                } else {
                    Shown::Swapped(shown)
                }
            },
        }
    }

    /// How many whole frames there are from the in point's frame to the out point's.
    pub open spec fn frames(&self) -> int {
        let n = decode::code_of(self.out_point@) - decode::code_of(self.in_point@);
        if n > 0 {
            n
        } else {
            0
        }
    }

    /// How many frames the composition has.
    pub fn frame_count(&self) -> (n: u32)
        ensures
            n == self.frames(),
    {
        decode::to_code(&self.out_point).saturating_sub(decode::to_code(&self.in_point))
    }
}

proof fn lemma_space_of_prefix(s: Seq<u8>, cut: int, p: int)
    requires
        0 <= p <= cut <= s.len(),
    ensures
        json::after_space(s.take(cut), p) == (if json::after_space(s, p) < cut {
            json::after_space(s, p)
        } else {
            cut
        }),
    decreases cut - p,
{
    json::lemma_after_space(s, p);
    if p < cut && json::is_space(s[p]) {
        lemma_space_of_prefix(s, cut, p + 1);
    }
}

proof fn lemma_quote_of_prefix(s: Seq<u8>, cut: int, p: int)
    requires
        0 <= p,
        0 <= cut <= s.len(),
        json::closing_quote(s, p) is Some,
    ensures
        json::closing_quote(s, p)->0 < cut ==> json::closing_quote(s.take(cut), p)
            == json::closing_quote(s, p),
        json::closing_quote(s, p)->0 >= cut ==> json::closing_quote(s.take(cut), p) is None,
    decreases s.len() - p,
{
    json::lemma_closing_quote(s, p);
    if s[p] == 0x5c {
        lemma_quote_of_prefix(s, cut, p + 2);
        json::lemma_closing_quote(s, p + 2);
    } else if s[p] != 0x22 {
        lemma_quote_of_prefix(s, cut, p + 1);
        json::lemma_closing_quote(s, p + 1);
    }
}

proof fn lemma_nest_of_prefix(s: Seq<u8>, cut: int, p: int, depth: int, m: int)
    requires
        0 <= p <= cut <= s.len(),
        json::nest_scan(s, p, depth, m).fault is None,
        cut < json::nest_scan(s, p, depth, m).end,
    ensures
        json::nest_scan(s.take(cut), p, depth, m).fault is Some,
    decreases s.len() - p,
{
    if p < cut {
        if s[p] == 0x22 {
            json::lemma_closing_quote(s, p + 1);
            lemma_quote_of_prefix(s, cut, p + 1);
            let q = json::closing_quote(s, p + 1)->0;
            if q < cut {
                lemma_nest_of_prefix(s, cut, q + 1, depth, m);
            }
        } else if s[p] == 0x7b || s[p] == 0x5b {
            lemma_nest_of_prefix(s, cut, p + 1, depth + 1, m);
        } else if s[p] == 0x7d || s[p] == 0x5d {
            if depth > 1 {
                lemma_nest_of_prefix(s, cut, p + 1, depth - 1, m);
            }
        } else {
            lemma_nest_of_prefix(s, cut, p + 1, depth, m);
        }
    }
}

/// A composition that is cut off anywhere before its last bracket is rejected.
pub proof fn law_truncated_input_is_rejected(
    s: Seq<u8>,
    limits: Limits,
    modifier: FitzModifier,
    cut: int,
)
    requires
        composition_fault(s, limits, modifier) is None,
        0 <= cut < json::value_scan(s, 0, limits.max_nesting_depth as int).end,
    ensures
        composition_fault(s.take(cut), limits, modifier) is Some,
{
    let m = limits.max_nesting_depth as int;
    let t = s.take(cut);
    let p = json::after_space(s, 0);
    json::law_skipping_advances(s, 0, m);
    json::lemma_after_space(s, 0);
    lemma_space_of_prefix(s, cut, 0);
    assert(json::byte_at(s, p) == Some(0x7bu8));
    if p < cut {
        lemma_nest_of_prefix(s, cut, p, 0, m);
    }
    assert(json::value_scan(t, 0, m).fault is Some);
}

/// Nothing but whitespace may follow the outermost object.
pub proof fn law_trailing_data_is_rejected(
    s: Seq<u8>,
    limits: Limits,
    modifier: FitzModifier,
    i: int,
)
    requires
        composition_fault(s, limits, modifier) is None,
        json::value_scan(s, 0, limits.max_nesting_depth as int).end <= i < s.len(),
    ensures
        json::is_space(s[i]),
{
    let m = limits.max_nesting_depth as int;
    json::law_skipping_advances(s, 0, m);
    json::lemma_after_space(s, json::value_scan(s, 0, m).end);
}

/// How many layers the assets hold together.
pub open spec fn asset_layer_count(assets: Seq<Asset>) -> nat
    decreases assets.len(),
{
    if assets.len() == 0 {
        0
    } else {
        asset_layer_count(assets.drop_last()) + assets.last().layers@.len()
    }
}

/// How many layers the first `n` of the assets at `at` list.
spec fn listed(s: Seq<u8>, at: Seq<usize>, m: Bounds, n: int) -> nat
    decreases n,
{
    if n <= 0 {
        0
    } else {
        listed(s, at, m, n - 1) + match asset_layers(s, at[n - 1] as int, m) {
            Some(found) => found.items.len(),
            None => 0,
        }
    }
}

proof fn lemma_listed_within(s: Seq<u8>, at: Seq<usize>, i: int, m: Bounds, used: int, most: int)
    requires
        0 <= i <= at.len(),
        used <= most,
        assets_fault(s, at, i, m, used, most) is None,
    ensures
        used + listed(s, at, m, at.len() as int) - listed(s, at, m, i) <= most,
    decreases at.len() - i,
{
    if i < at.len() {
        match asset_layers(s, at[i] as int, m) {
            None => lemma_listed_within(s, at, i + 1, m, used, most),
            Some(found) => {
                lemma_listed_within(s, at, i + 1, m, used + found.items.len(), most);
            },
        }
    }
}

proof fn lemma_listed_prefix(s: Seq<u8>, a: Seq<usize>, b: Seq<usize>, m: Bounds, n: int)
    requires
        n <= a.len(),
        n <= b.len(),
        forall|i: int| 0 <= i < n ==> a[i] == b[i],
    ensures
        listed(s, a, m, n) == listed(s, b, m, n),
    decreases n,
{
    if n > 0 {
        lemma_listed_prefix(s, a, b, m, n - 1);
    }
}

proof fn lemma_assets_count(
    v: Seq<Asset>,
    s: Seq<u8>,
    at: Seq<usize>,
    m: Bounds,
    replacements: Seq<LayerColorReplacement>,
)
    requires
        assets_read(v, s, at, m, replacements),
    ensures
        v.len() <= at.len(),
        asset_layer_count(v) == listed(s, at, m, at.len() as int),
    decreases at.len(),
{
    if at.len() > 0 {
        let short = at.drop_last();
        lemma_listed_prefix(s, at, short, m, at.len() - 1);
        match asset_layers(s, at.last() as int, m) {
            None => lemma_assets_count(v, s, short, m, replacements),
            Some(found) => lemma_assets_count(v.drop_last(), s, short, m, replacements),
        }
    }
}

/// An accepted composition keeps the limits: its input, its size, and the layers and assets that it
/// holds are no more than they allow.
pub proof fn law_accepted_input_keeps_limits(
    c: Composition,
    s: Seq<u8>,
    limits: Limits,
    modifier: FitzModifier,
    replacements: Seq<LayerColorReplacement>,
)
    requires
        composition_fault(s, limits, modifier) is None,
        c.reads(s, limits, modifier, replacements),
    ensures
        s.len() <= limits.max_input_bytes,
        c.width <= limits.max_dimension,
        c.height <= limits.max_dimension,
        c.layers@.len() + asset_layer_count(c.assets@) <= limits.max_layers,
        c.assets@.len() <= limits.max_assets,
{
    let m = bounds_of(limits);
    let layers = root_list(s, m, names::NAME_LAYERS).items;
    let assets = root_list(s, m, names::NAME_ASSETS).items;
    lemma_listed_within(s, assets, 0, m, layers.len() as int, limits.max_layers as int);
    lemma_assets_count(c.assets@, s, assets, m, replacements);
}

/// True where two lists hold the same layers, whatever colours replace those below them.
pub open spec fn layers_same(a: Seq<Layer>, b: Seq<Layer>) -> bool {
    decode::same_list(a, b)
}

/// True where the layers of two lists have the same colours in place of those below them.
pub open spec fn layers_colored_alike(a: Seq<Layer>, b: Seq<Layer>) -> bool {
    a.len() == b.len() && forall|i: int|
        0 <= i < a.len() ==> (#[trigger] a[i]).color_override == b[i].color_override
}

/// True where two lists hold the same assets, whatever colours replace those below their layers.
pub open spec fn assets_same(a: Seq<Asset>, b: Seq<Asset>) -> bool {
    a.len() == b.len() && forall|i: int|
        0 <= i < a.len() ==> decode::same_option((#[trigger] a[i]).id, b[i].id) && layers_same(
            a[i].layers@,
            b[i].layers@,
        )
}

/// True where the layers of two lists of assets have the same colours in place of those below them.
pub open spec fn assets_colored_alike(a: Seq<Asset>, b: Seq<Asset>) -> bool {
    a.len() == b.len() && forall|i: int|
        0 <= i < a.len() ==> layers_colored_alike((#[trigger] a[i]).layers@, b[i].layers@)
}

impl Composition {
    /// True where two compositions are the same but for the colours that replace others by name.
    pub open spec fn same_but_colors(self, other: Composition) -> bool {
        &&& self.width == other.width
        &&& self.height == other.height
        &&& self.frame_rate.same(&other.frame_rate)
        &&& self.in_point.same(&other.in_point)
        &&& self.out_point.same(&other.out_point)
        &&& layers_same(self.layers@, other.layers@)
        &&& assets_same(self.assets@, other.assets@)
        &&& decode::same_list(self.fitz@, other.fitz@)
        &&& self.color_swaps@ == other.color_swaps@
    }

    /// True where two compositions are the same.
    pub open spec fn same(self, other: Composition) -> bool {
        &&& self.same_but_colors(other)
        &&& layers_colored_alike(self.layers@, other.layers@)
        &&& assets_colored_alike(self.assets@, other.assets@)
    }
}

/// True where two answers are the same composition or the same error.
pub open spec fn same_answer(a: Result<Composition>, b: Result<Composition>) -> bool {
    match (a, b) {
        (Ok(c), Ok(d)) => c.same(d),
        (Err(e), Err(f)) => e == f,
        _ => false,
    }
}

/// The colour that replaces others depends on the bytes of a name alone.
proof fn lemma_override_same(
    a: Option<Text>,
    b: Option<Text>,
    replacements: Seq<LayerColorReplacement>,
)
    requires
        decode::same_option(a, b),
    ensures
        override_for(a, replacements) == override_for(b, replacements),
    decreases replacements.len(),
{
    if replacements.len() > 0 {
        lemma_override_same(a, b, replacements.drop_last());
    }
}

proof fn lemma_layers_same(
    a: Seq<Layer>,
    b: Seq<Layer>,
    s: Seq<u8>,
    at: Seq<usize>,
    m: Bounds,
    p: Seq<LayerColorReplacement>,
    q: Seq<LayerColorReplacement>,
)
    requires
        layers_read(a, s, at, m, p),
        layers_read(b, s, at, m, q),
    ensures
        layers_same(a, b),
        forall|i: int|
            0 <= i < a.len() ==> b[i].color_override == override_for(
                (#[trigger] a[i]).fields.name,
                q,
            ),
{
    assert forall|i: int| 0 <= i < a.len() implies (#[trigger] a[i]).same(&b[i])
        && b[i].color_override == override_for(a[i].fields.name, q) by {
        assert(b[i].reads(s, at[i] as int, m));
        Layer::one_value(a[i], b[i], s, at[i] as int, m);
        lemma_override_same(a[i].fields.name, b[i].fields.name, q);
    }
}

/// The layers of one list of assets, coloured as the names of those in another ask for.
pub open spec fn assets_colored_by(
    a: Seq<Asset>,
    b: Seq<Asset>,
    replacements: Seq<LayerColorReplacement>,
) -> bool {
    a.len() == b.len() && forall|i: int|
        0 <= i < a.len() ==> layers_colored_by(
            (#[trigger] a[i]).layers@,
            b[i].layers@,
            replacements,
        )
}

/// The layers of one list, coloured as the names of those in another ask for.
pub open spec fn layers_colored_by(
    a: Seq<Layer>,
    b: Seq<Layer>,
    replacements: Seq<LayerColorReplacement>,
) -> bool {
    a.len() == b.len() && forall|i: int|
        0 <= i < a.len() ==> (#[trigger] a[i]).color_override == override_for(
            b[i].fields.name,
            replacements,
        )
}

proof fn lemma_assets_same(
    a: Seq<Asset>,
    b: Seq<Asset>,
    s: Seq<u8>,
    at: Seq<usize>,
    m: Bounds,
    p: Seq<LayerColorReplacement>,
    q: Seq<LayerColorReplacement>,
)
    requires
        assets_read(a, s, at, m, p),
        assets_read(b, s, at, m, q),
    ensures
        assets_same(a, b),
        assets_colored_by(b, a, q),
    decreases at.len(),
{
    if at.len() > 0 {
        let at0 = at.drop_last();
        match asset_layers(s, at.last() as int, m) {
            None => lemma_assets_same(a, b, s, at0, m, p, q),
            Some(found) => {
                let (a0, b0) = (a.drop_last(), b.drop_last());
                let members = tree::object_at(s, at.last() as int, m.depth).items;
                lemma_assets_same(a0, b0, s, at0, m, p, q);
                decode::lemma_field_same(a.last().id, b.last().id, s, members, names::NAME_ID, m);
                lemma_layers_same(
                    a.last().layers@,
                    b.last().layers@,
                    s,
                    found.items,
                    m,
                    p,
                    q,
                );
                assert(layers_colored_by(b.last().layers@, a.last().layers@, q));
                assert forall|i: int| 0 <= i < a.len() implies decode::same_option(
                    (#[trigger] a[i]).id,
                    b[i].id,
                ) && layers_same(a[i].layers@, b[i].layers@) by {
                    if i < a.len() - 1 {
                        assert(a0[i] == a[i] && b0[i] == b[i]);
                    }
                }
                assert forall|i: int| 0 <= i < b.len() implies layers_colored_by(
                    (#[trigger] b[i]).layers@,
                    a[i].layers@,
                    q,
                ) by {
                    if i < b.len() - 1 {
                        assert(a0[i] == a[i] && b0[i] == b[i]);
                    }
                }
            },
        }
    }
}

proof fn lemma_swaps_same(a: Seq<FitzEntry>, b: Seq<FitzEntry>, k: int)
    requires
        decode::same_list(a, b),
    ensures
        swaps_of(a, k) == swaps_of(b, k),
    decreases a.len(),
{
    if a.len() > 0 {
        let (a0, b0) = (a.drop_last(), b.drop_last());
        assert forall|i: int| 0 <= i < a0.len() implies (#[trigger] a0[i]).same(&b0[i]) by {
            assert(a[i].same(&b[i]));
        }
        lemma_swaps_same(a0, b0, k);
        assert(a[a.len() - 1].same(&b[b.len() - 1]));
    }
}

/// Replacing colours by layer names changes those colours and nothing else: what is rejected stays
/// rejected for the same reason, and what is accepted holds the same, each layer with the colour that
/// its name asks for.
pub proof fn law_replacements_change_only_colors(
    plain: Result<Composition>,
    r: Result<Composition>,
    s: Seq<u8>,
    limits: Limits,
    modifier: FitzModifier,
    replacements: Seq<LayerColorReplacement>,
)
    requires
        answers(plain, s, limits, modifier, Seq::empty()),
        answers(r, s, limits, modifier, replacements),
    ensures
        match (plain, r) {
            (Ok(c), Ok(d)) => {
                &&& d.same_but_colors(c)
                &&& layers_colored_by(d.layers@, c.layers@, replacements)
                &&& assets_colored_by(d.assets@, c.assets@, replacements)
            },
            (Err(e), Err(f)) => e == f,
            _ => false,
        },
{
    if plain is Ok && r is Ok {
        lemma_one_composition(plain->Ok_0, r->Ok_0, s, limits, modifier, Seq::empty(), replacements);
        lemma_one_composition(r->Ok_0, plain->Ok_0, s, limits, modifier, replacements, Seq::empty());
    }
}

proof fn lemma_one_composition(
    c: Composition,
    d: Composition,
    s: Seq<u8>,
    limits: Limits,
    modifier: FitzModifier,
    p: Seq<LayerColorReplacement>,
    q: Seq<LayerColorReplacement>,
)
    requires
        c.reads(s, limits, modifier, p),
        d.reads(s, limits, modifier, q),
    ensures
        c.same_but_colors(d),
        layers_colored_by(d.layers@, c.layers@, q),
        assets_colored_by(d.assets@, c.assets@, q),
{
    let m = bounds_of(limits);
    let members = root_members(s, m);
    decode::lemma_field_same(
        Some(c.frame_rate),
        Some(d.frame_rate),
        s,
        members,
        names::NAME_FR,
        m,
    );
    decode::lemma_field_same(Some(c.in_point), Some(d.in_point), s, members, names::NAME_IP, m);
    decode::lemma_field_same(Some(c.out_point), Some(d.out_point), s, members, names::NAME_OP, m);
    lemma_layers_same(
        c.layers@,
        d.layers@,
        s,
        root_list(s, m, names::NAME_LAYERS).items,
        m,
        p,
        q,
    );
    lemma_assets_same(
        c.assets@,
        d.assets@,
        s,
        root_list(s, m, names::NAME_ASSETS).items,
        m,
        p,
        q,
    );
    if modifier.number() != 0 {
        decode::lemma_field_list_same(c.fitz@, d.fitz@, s, members, names::NAME_FITZ, m);
        lemma_swaps_same(c.fitz@, d.fitz@, modifier.number() - 1);
    } else {
        assert(c.color_swaps@ =~= d.color_swaps@);
    }
}

/// An input is one composition: parsing it twice with the same options gives the same.
pub proof fn law_one_input_one_composition(
    a: Result<Composition>,
    b: Result<Composition>,
    s: Seq<u8>,
    limits: Limits,
    modifier: FitzModifier,
    replacements: Seq<LayerColorReplacement>,
)
    requires
        answers(a, s, limits, modifier, replacements),
        answers(b, s, limits, modifier, replacements),
    ensures
        same_answer(a, b),
{
    if a is Ok && b is Ok {
        let (c, d) = (a->Ok_0, b->Ok_0);
        lemma_one_composition(c, d, s, limits, modifier, replacements, replacements);
        lemma_one_composition(c, c, s, limits, modifier, replacements, replacements);
        lemma_colored_alike(c, d, c, replacements);
    }
}

/// Two compositions that are coloured after one third are coloured alike.
proof fn lemma_colored_alike(
    c: Composition,
    d: Composition,
    e: Composition,
    replacements: Seq<LayerColorReplacement>,
)
    requires
        layers_colored_by(c.layers@, e.layers@, replacements),
        layers_colored_by(d.layers@, e.layers@, replacements),
        assets_colored_by(c.assets@, e.assets@, replacements),
        assets_colored_by(d.assets@, e.assets@, replacements),
    ensures
        layers_colored_alike(c.layers@, d.layers@),
        assets_colored_alike(c.assets@, d.assets@),
{
    assert forall|i: int| 0 <= i < c.layers@.len() implies (#[trigger] c.layers@[i]).color_override
        == d.layers@[i].color_override by {
        assert(d.layers@[i].color_override == override_for(
            e.layers@[i].fields.name,
            replacements,
        ));
    }
    assert forall|i: int| 0 <= i < c.assets@.len() implies layers_colored_alike(
        (#[trigger] c.assets@[i]).layers@,
        d.assets@[i].layers@,
    ) by {
        let (x, y, z) = (c.assets@[i].layers@, d.assets@[i].layers@, e.assets@[i].layers@);
        assert(layers_colored_by(x, z, replacements));
        assert(layers_colored_by(y, z, replacements));
        assert forall|k: int| 0 <= k < x.len() implies (#[trigger] x[k]).color_override
            == y[k].color_override by {
            assert(y[k].color_override == override_for(z[k].fields.name, replacements));
        }
    }
}

/// Parsing with default options is parsing without any.
pub proof fn law_default_options_change_nothing(
    plain: Result<Composition>,
    r: Result<Composition>,
    s: Seq<u8>,
    limits: Limits,
    options: ParseOptions,
)
    requires
        options.fitz_modifier == FitzModifier::Unmodified,
        options.layer_color_replacements@.len() == 0,
        answers(plain, s, limits, FitzModifier::Unmodified, Seq::empty()),
        answers(r, s, limits, options.fitz_modifier, options.layer_color_replacements@),
    ensures
        same_answer(plain, r),
{
    assert(options.layer_color_replacements@ =~= Seq::empty());
    law_one_input_one_composition(plain, r, s, limits, FitzModifier::Unmodified, Seq::empty());
}

/// True where the name starts with one of the prefixes.
pub open spec fn matched(name: Option<Text>, replacements: Seq<LayerColorReplacement>) -> bool {
    name is Some && exists|i: int|
        0 <= i < replacements.len() && starts_with(
            name->0.bytes@,
            utf8::encode_utf8((#[trigger] replacements[i]).layer_name_prefix@),
        )
}

/// A layer has a colour in place of those below it where its name starts with one of the prefixes, and
/// it is the colour of such a prefix.
pub proof fn law_override_needs_a_match(
    name: Option<Text>,
    replacements: Seq<LayerColorReplacement>,
)
    ensures
        override_for(name, replacements) is Some == matched(name, replacements),
        override_for(name, replacements) matches Some(color) ==> exists|i: int|
            0 <= i < replacements.len() && (#[trigger] replacements[i]).color == color
                && starts_with(
                name->0.bytes@,
                utf8::encode_utf8(replacements[i].layer_name_prefix@),
            ),
    decreases replacements.len(),
{
    if replacements.len() > 0 && name is Some {
        let before = replacements.drop_last();
        law_override_needs_a_match(name, before);
        let last = replacements[replacements.len() - 1];
        if !starts_with(name->0.bytes@, utf8::encode_utf8(last.layer_name_prefix@)) {
            if matched(name, before) {
                let i = choose|i: int|
                    0 <= i < before.len() && starts_with(
                        name->0.bytes@,
                        utf8::encode_utf8((#[trigger] before[i]).layer_name_prefix@),
                    );
                assert(before[i] == replacements[i]);
                let color = override_for(name, before)->0;
                let k = choose|k: int|
                    0 <= k < before.len() && (#[trigger] before[k]).color == color && starts_with(
                        name->0.bytes@,
                        utf8::encode_utf8(before[k].layer_name_prefix@),
                    );
                assert(before[k] == replacements[k]);
            } else if matched(name, replacements) {
                let i = choose|i: int|
                    0 <= i < replacements.len() && starts_with(
                        name->0.bytes@,
                        utf8::encode_utf8((#[trigger] replacements[i]).layer_name_prefix@),
                    );
                assert(before[i] == replacements[i]);
            }
        }
    }
}

/// True where no layer's name starts with one of the prefixes.
pub open spec fn none_matched(
    layers: Seq<Layer>,
    replacements: Seq<LayerColorReplacement>,
) -> bool {
    forall|i: int| 0 <= i < layers.len() ==> !matched((#[trigger] layers[i]).fields.name, replacements)
}

/// Where no layer's name starts with one of the prefixes, the composition is as it is without
/// replacements.
pub proof fn law_unmatched_replacements_change_nothing(
    plain: Composition,
    r: Result<Composition>,
    s: Seq<u8>,
    limits: Limits,
    modifier: FitzModifier,
    replacements: Seq<LayerColorReplacement>,
)
    requires
        answers(Ok(plain), s, limits, modifier, Seq::empty()),
        answers(r, s, limits, modifier, replacements),
        none_matched(plain.layers@, replacements),
        forall|i: int|
            0 <= i < plain.assets@.len() ==> none_matched(
                (#[trigger] plain.assets@[i]).layers@,
                replacements,
            ),
    ensures
        r is Ok,
        r->Ok_0.same(plain),
{
    law_replacements_change_only_colors(Ok(plain), r, s, limits, modifier, replacements);
    let d = r->Ok_0;
    lemma_one_composition(plain, plain, s, limits, modifier, Seq::empty(), Seq::empty());
    lemma_unmatched(d.layers@, plain.layers@, replacements);
    assert forall|i: int| 0 <= i < d.assets@.len() implies layers_colored_alike(
        (#[trigger] d.assets@[i]).layers@,
        plain.assets@[i].layers@,
    ) by {
        assert(layers_colored_by(
            plain.assets@[i].layers@,
            plain.assets@[i].layers@,
            Seq::empty(),
        ));
        lemma_unmatched(d.assets@[i].layers@, plain.assets@[i].layers@, replacements);
    }
}

proof fn lemma_unmatched(
    a: Seq<Layer>,
    plain: Seq<Layer>,
    replacements: Seq<LayerColorReplacement>,
)
    requires
        layers_colored_by(a, plain, replacements),
        layers_colored_by(plain, plain, Seq::empty()),
        none_matched(plain, replacements),
    ensures
        layers_colored_alike(a, plain),
{
    assert forall|i: int| 0 <= i < a.len() implies (#[trigger] a[i]).color_override
        == plain[i].color_override by {
        law_override_needs_a_match(plain[i].fields.name, replacements);
        assert(plain[i].color_override == override_for(plain[i].fields.name, Seq::empty()));
    }
}

/// A name starts with a prefix exactly where it is the prefix with something behind it.
pub proof fn law_prefixes_are_followed_by_the_rest(name: Seq<u8>, prefix: Seq<u8>, rest: Seq<u8>)
    ensures
        starts_with(prefix + rest, prefix),
        starts_with(name, prefix) <==> name == prefix + name.skip(prefix.len() as int)
            && prefix.len() <= name.len(),
        starts_with(name, Seq::empty()),
{
    assert((prefix + rest).take(prefix.len() as int) =~= prefix);
    assert(name.take(0) =~= Seq::empty());
    if prefix.len() <= name.len() {
        let n = prefix.len() as int;
        assert(name =~= name.take(n) + name.skip(n));
        if name == prefix + name.skip(n) {
            assert(name.take(n) =~= prefix);
        }
    }
}

/// Of the replacements whose prefix a layer's name starts with, the last one decides; a layer
/// without a name keeps its colors.
pub proof fn law_the_last_matching_replacement_decides(
    name: Option<Text>,
    replacements: Seq<LayerColorReplacement>,
    i: int,
)
    requires
        0 <= i < replacements.len(),
        name is Some,
        starts_with(name->0.bytes@, utf8::encode_utf8(replacements[i].layer_name_prefix@)),
        forall|k: int|
            i < k < replacements.len() ==> !starts_with(
                name->0.bytes@,
                utf8::encode_utf8((#[trigger] replacements[k]).layer_name_prefix@),
            ),
    ensures
        override_for(name, replacements) == Some(replacements[i].color),
        override_for(None, replacements) is None,
    decreases replacements.len(),
{
    if i + 1 < replacements.len() {
        let before = replacements.drop_last();
        assert(!starts_with(
            name->0.bytes@,
            utf8::encode_utf8(replacements[replacements.len() - 1].layer_name_prefix@),
        ));
        assert forall|k: int| i < k < before.len() implies !starts_with(
            name->0.bytes@,
            utf8::encode_utf8((#[trigger] before[k]).layer_name_prefix@),
        ) by {
            assert(before[k] == replacements[k]);
        }
        law_the_last_matching_replacement_decides(name, before, i);
    }
}

/// The columns of a skin tone table are types 1 and 2, 3, 4, 5 and 6, in this order.
pub proof fn law_tones_stand_in_order(entry: FitzEntry)
    ensures
        entry.type12 is Some ==> tone_of(entry, 0) == Some(entry.type12->0.value),
        entry.type3 is Some ==> tone_of(entry, 1) == Some(entry.type3->0.value),
        entry.type4 is Some ==> tone_of(entry, 2) == Some(entry.type4->0.value),
        entry.type5 is Some ==> tone_of(entry, 3) == Some(entry.type5->0.value),
        entry.type6 is Some ==> tone_of(entry, 4) == Some(entry.type6->0.value),
        entry.type12 is None ==> tone_of(entry, 0) is None,
        entry.type3 is None ==> tone_of(entry, 1) is None,
        entry.type4 is None ==> tone_of(entry, 2) is None,
        entry.type5 is None ==> tone_of(entry, 3) is None,
        entry.type6 is None ==> tone_of(entry, 4) is None,
{
}

/// A table that has an original color and the tone in every entry gives one replacement for each
/// entry, in their order; an entry that lacks either gives none.
pub proof fn law_tables_give_a_replacement_for_each_entry(entries: Seq<FitzEntry>, entry: FitzEntry, k: int)
    ensures
        swaps_of(Seq::empty(), k).len() == 0,
        entry.original is None || tone_of(entry, k) is None ==> swaps_of(entries.push(entry), k)
            == swaps_of(entries, k),
        entry.original is Some && tone_of(entry, k) is Some ==> {
            let swaps = swaps_of(entries.push(entry), k);
            &&& swaps.len() == swaps_of(entries, k).len() + 1
            &&& swaps.drop_last() == swaps_of(entries, k)
            &&& swaps.last().0 == entry.original->0.value
            &&& swaps.last().1 == tone_of(entry, k)->0
        },
{
    assert(entries.push(entry).drop_last() =~= entries);
    if entry.original is Some && tone_of(entry, k) is Some {
        assert(swaps_of(entries.push(entry), k).drop_last() =~= swaps_of(entries, k));
    }
}

proof fn lemma_color_from(c: &Composition, rgb: u32, i: int, k: int)
    requires
        0 <= k <= i < c.color_swaps@.len(),
        c.color_swaps@[i].0 == rgb,
        forall|j: int| k <= j < i ==> (#[trigger] c.color_swaps@[j]).0 != rgb,
    ensures
        c.color_shown(rgb, k) == c.color_swaps@[i].1,
    decreases i - k,
{
    if k < i {
        assert(c.color_swaps@[k].0 != rgb);
        lemma_color_from(c, rgb, i, k + 1);
    }
}

proof fn lemma_color_kept(c: &Composition, rgb: u32, k: int)
    requires
        0 <= k <= c.color_swaps@.len(),
        forall|j: int| k <= j < c.color_swaps@.len() ==> (#[trigger] c.color_swaps@[j]).0 != rgb,
    ensures
        c.color_shown(rgb, k) == rgb,
    decreases c.color_swaps@.len() - k,
{
    if k < c.color_swaps@.len() {
        assert(c.color_swaps@[k].0 != rgb);
        lemma_color_kept(c, rgb, k + 1);
    }
}

/// A color is shown as the first replacement for it says.
pub proof fn law_the_first_swap_decides(c: &Composition, rgb: u32, i: int)
    requires
        0 <= i < c.color_swaps@.len(),
        c.color_swaps@[i].0 == rgb,
        forall|j: int| 0 <= j < i ==> (#[trigger] c.color_swaps@[j]).0 != rgb,
    ensures
        c.color_shown(rgb, 0) == c.color_swaps@[i].1,
        c.paint_shown(None, rgb) == (if c.color_swaps@[i].1 == rgb {
            Shown::Own
        } else {
            Shown::Swapped(c.color_swaps@[i].1)
        }),
{
    lemma_color_from(c, rgb, i, 0);
}

/// A color without a replacement is shown as it is, and a color from the layer's name comes before
/// any other.
pub proof fn law_other_colors_are_kept(c: &Composition, rgb: u32, argb: u32)
    requires
        forall|j: int| 0 <= j < c.color_swaps@.len() ==> (#[trigger] c.color_swaps@[j]).0 != rgb,
    ensures
        c.color_shown(rgb, 0) == rgb,
        c.paint_shown(None, rgb) == Shown::Own,
        c.paint_shown(Some(argb), rgb) == Shown::Replaced(argb),
{
    lemma_color_kept(c, rgb, 0);
}

/// A composition has as many frames as there are from the whole part of its in point to that of its
/// out point, and none where it ends before it begins.
pub proof fn law_frames_run_from_in_to_out(c: &Composition)
    requires
        !c.in_point@.negative,
        !c.out_point@.negative,
        c.in_point@.whole() <= u32::MAX,
        c.out_point@.whole() <= u32::MAX,
    ensures
        c.out_point@.whole() >= c.in_point@.whole() ==> c.frames() == c.out_point@.whole()
            - c.in_point@.whole(),
        c.out_point@.whole() <= c.in_point@.whole() ==> c.frames() == 0,
{
}

/// Reading is bounded by the nesting depth, the keyframes and the shapes that the limits name.
pub proof fn law_bounds_are_those_of_the_limits(limits: Limits)
    ensures
        bounds_of(limits).depth == limits.max_nesting_depth,
        bounds_of(limits).keyframes == limits.max_keyframes,
        bounds_of(limits).shapes == limits.max_shapes_per_layer,
{
}

/// A composition is read from the members `fr`, `ip`, `op`, `w`, `h`, `layers` and `assets` of the
/// outermost object, each into its own field, and its skin tones from `fitz`, where one is asked for.
pub proof fn law_composition_members(
    c: &Composition,
    s: Seq<u8>,
    limits: Limits,
    modifier: FitzModifier,
    replacements: Seq<LayerColorReplacement>,
)
    requires
        c.reads(s, limits, modifier, replacements),
    ensures
        ({
            let m = bounds_of(limits);
            let members = tree::object_at(s, json::after_space(s, 0), m.depth).items;
            &&& decode::field_reads(Some(c.frame_rate), s, members, names::NAME_FR, m)
            &&& decode::field_reads(Some(c.in_point), s, members, names::NAME_IP, m)
            &&& decode::field_reads(Some(c.out_point), s, members, names::NAME_OP, m)
            &&& c.width == decode::field_code(s, members, names::NAME_W, 0)
            &&& c.height == decode::field_code(s, members, names::NAME_H, 0)
            &&& modifier is Unmodified ==> c.color_swaps@.len() == 0
            &&& modifier is Type12 ==> c.color_swaps@ == swaps_of(c.fitz@, 0)
            &&& modifier is Type3 ==> c.color_swaps@ == swaps_of(c.fitz@, 1)
            &&& modifier is Type4 ==> c.color_swaps@ == swaps_of(c.fitz@, 2)
            &&& modifier is Type5 ==> c.color_swaps@ == swaps_of(c.fitz@, 3)
            &&& modifier is Type6 ==> c.color_swaps@ == swaps_of(c.fitz@, 4)
        }),
{
}

} // verus!
