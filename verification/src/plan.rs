//! In which order layers are drawn, and which of them need a surface of their own.

use crate::composition::Asset;
use crate::decode::Text;
use crate::layer::{Layer, LayerKind};
use crate::mask;
use crate::number::{Number, NumberView};
use vstd::prelude::*;

verus! {

/// How deep precompositions are shown. What lies deeper is left out.
pub const MAX_PRECOMP_DEPTH: usize = 16;

/// What is known of a layer at a frame.
#[derive(Clone, Copy, Debug, PartialEq, Eq, Structural)]
pub struct LayerFacts {
    /// True where the frame lies inside the layer's lifetime.
    pub visible: bool,
    /// The layer's opacity together with that of what it stands in.
    pub opacity: u8,
    /// The layer's own opacity.
    pub own_opacity: u8,
    /// True where the layer's own opacity takes away enough to be seen.
    pub faded: bool,
    /// How the layer before is used as a matte; zero where it is not.
    pub matte: u8,
    /// True where the layer is only a matte of another one.
    pub matte_src: bool,
    /// True where the layer has masks.
    pub masked: bool,
    /// True where the layer shows an asset of more than one layer.
    pub complex: bool,
    /// True where the layer holds shapes that more than one paint shows.
    pub many_paints: bool,
}

/// One step of drawing layers.
#[derive(Clone, Copy, Debug, PartialEq, Eq, Structural)]
pub enum LayerOp {
    /// Opens a surface.
    Save,
    /// Draws what a layer shows, as a whole or with the opacity folded into each paint.
    Content {
        /// The layer.
        layer: usize,
        /// True where the opacity is left to the surface.
        whole: bool,
    },
    /// Applies a layer's masks to the open surface.
    Masks {
        /// The layer.
        layer: usize,
    },
    /// Closes the surface and puts it over the one below.
    Over {
        /// The opacity.
        opacity: u8,
    },
    /// Closes two surfaces: the lower is the matte of the upper, which is put over the one below.
    Matte {
        /// How the matte is used.
        kind: u8,
        /// The opacity.
        opacity: u8,
        /// The opacity of the matte.
        source_opacity: u8,
    },
}

/// True where the layer at `i` is the matte of the one behind it.
pub open spec fn consumed(facts: Seq<LayerFacts>, i: int) -> bool {
    i + 1 < facts.len() && facts[i + 1].matte != 0
}

/// True where the layer at `i` is drawn for itself.
pub open spec fn drawn(facts: Seq<LayerFacts>, i: int) -> bool {
    &&& !consumed(facts, i)
    &&& !facts[i].matte_src
    &&& facts[i].visible
    &&& facts[i].opacity != 0
}

/// True where a layer that is no matte's target is drawn on a surface of its own: masks act on it as
/// a whole, and so does an opacity that several paints or layers share.
pub open spec fn isolated(f: LayerFacts) -> bool {
    f.masked || (f.opacity < 255 && (f.many_paints || f.complex))
}

/// The steps for the layer at `i`.
pub open spec fn layer_plan(facts: Seq<LayerFacts>, i: int) -> Seq<LayerOp> {
    let f = facts[i];
    if !drawn(facts, i) {
        Seq::empty()
    } else if f.matte != 0 {
        if i == 0 || !facts[i - 1].visible {
            Seq::empty()
        } else {
            seq![
                LayerOp::Save,
                LayerOp::Content { layer: (i - 1) as usize, whole: true },
                LayerOp::Masks { layer: (i - 1) as usize },
                LayerOp::Save,
                LayerOp::Content { layer: i as usize, whole: true },
                LayerOp::Masks { layer: i as usize },
                LayerOp::Matte {
                    kind: f.matte,
                    opacity: f.opacity,
                    source_opacity: facts[i - 1].own_opacity,
                },
            ]
        }
    } else if !isolated(f) {
        seq![LayerOp::Content { layer: i as usize, whole: false }]
    } else if f.masked {
        seq![
            LayerOp::Save,
            LayerOp::Content { layer: i as usize, whole: true },
            LayerOp::Masks { layer: i as usize },
            LayerOp::Over { opacity: f.opacity },
        ]
    } else {
        seq![
            LayerOp::Save,
            LayerOp::Content { layer: i as usize, whole: true },
            LayerOp::Over { opacity: f.opacity },
        ]
    }
}

/// The steps for the layers from the last down to the `n`th.
pub open spec fn plan_down_to(facts: Seq<LayerFacts>, n: int) -> Seq<LayerOp>
    decreases facts.len() - n,
{
    if n < 0 || n >= facts.len() {
        Seq::empty()
    } else {
        plan_down_to(facts, n + 1) + layer_plan(facts, n)
    }
}

/// The steps that draw layers, the bottommost first. Layers that are nested too deep draw nothing.
pub fn plan_layers(facts: &[LayerFacts], precomp_depth: usize) -> (ops: Vec<LayerOp>)
    ensures
        ops@ == (if precomp_depth > MAX_PRECOMP_DEPTH {
            Seq::empty()
        } else {
            plan_down_to(facts@, 0)
        }),
{
    let mut ops: Vec<LayerOp> = Vec::new();
    let n: usize = facts.len();
    if precomp_depth > MAX_PRECOMP_DEPTH {
        return ops;
    }
    let mut i: usize = n;
    while i > 0
        invariant
            n == facts@.len(),
            i <= n,
            ops@ == plan_down_to(facts@, i as int),
        decreases i,
    {
        i -= 1;
        let ghost before = ops@;
        let f = facts[i];
        let taken = i + 1 < n && facts[i + 1].matte != 0;
        if taken || f.matte_src || !f.visible || f.opacity == 0 {
            assert(before + layer_plan(facts@, i as int) =~= before);
            continue;
        }
        if f.matte != 0 {
            if i == 0 || !facts[i - 1].visible {
                assert(before + layer_plan(facts@, i as int) =~= before);
                continue;
            }
            ops.push(LayerOp::Save);
            ops.push(LayerOp::Content { layer: i - 1, whole: true });
            ops.push(LayerOp::Masks { layer: i - 1 });
            ops.push(LayerOp::Save);
            ops.push(LayerOp::Content { layer: i, whole: true });
            ops.push(LayerOp::Masks { layer: i });
            ops.push(
                LayerOp::Matte {
                    kind: f.matte,
                    opacity: f.opacity,
                    source_opacity: facts[i - 1].own_opacity,
                },
            );
            assert(ops@ =~= before + layer_plan(facts@, i as int));
            continue;
        }
        let isolate = f.masked || (f.opacity < 255 && (f.many_paints || f.complex));
        if isolate {
            ops.push(LayerOp::Save);
        }
        ops.push(LayerOp::Content { layer: i, whole: isolate });
        if f.masked {
            ops.push(LayerOp::Masks { layer: i });
        }
        if isolate {
            ops.push(LayerOp::Over { opacity: f.opacity });
        }
        assert(ops@ =~= before + layer_plan(facts@, i as int));
    }
    ops
}

/// What one step adds to the open surfaces.
pub open spec fn opened_by(op: LayerOp) -> int {
    match op {
        LayerOp::Save => 1,
        LayerOp::Over { .. } => -1,
        LayerOp::Matte { .. } => -2,
        _ => 0,
    }
}

/// How many surfaces are open after `ops`, where `open` were open before.
pub open spec fn open_surfaces(ops: Seq<LayerOp>, open: int) -> int
    decreases ops.len(),
{
    if ops.len() == 0 {
        open
    } else {
        open_surfaces(ops.drop_last(), open) + opened_by(ops.last())
    }
}

proof fn lemma_open_surfaces_append(a: Seq<LayerOp>, b: Seq<LayerOp>, open: int)
    ensures
        open_surfaces(a + b, open) == open_surfaces(b, open_surfaces(a, open)),
    decreases b.len(),
{
    if b.len() == 0 {
        assert(a + b =~= a);
    } else {
        assert((a + b).drop_last() =~= a + b.drop_last());
        lemma_open_surfaces_append(a, b.drop_last(), open);
    }
}

proof fn lemma_open_step(p: Seq<LayerOp>, k: int, open: int)
    requires
        0 < k <= p.len(),
    ensures
        open_surfaces(p.take(k), open) == open_surfaces(p.take(k - 1), open) + opened_by(p[k - 1]),
{
    assert(p.take(k).drop_last() =~= p.take(k - 1));
}

/// Two surfaces that are opened one after the other and closed together.
proof fn lemma_matte_balanced(p: Seq<LayerOp>, open: int, cut: int)
    requires
        p.len() == 7,
        0 <= cut <= 7,
        forall|k: int|
            0 <= k < 7 ==> opened_by(#[trigger] p[k]) == (if k == 0 || k == 3 {
                1int
            } else if k == 6 {
                -2
            } else {
                0
            }),
    ensures
        open_surfaces(p, open) == open,
        open_surfaces(p.take(cut), open) >= open,
{
    assert(p.take(0) =~= Seq::empty());
    assert(p.take(7) =~= p);
    lemma_open_step(p, 1, open);
    lemma_open_step(p, 2, open);
    lemma_open_step(p, 3, open);
    lemma_open_step(p, 4, open);
    lemma_open_step(p, 5, open);
    lemma_open_step(p, 6, open);
    lemma_open_step(p, 7, open);
}

/// A surface that is opened first and closed last, or none.
proof fn lemma_surface_balanced(p: Seq<LayerOp>, open: int, cut: int)
    requires
        1 <= p.len() <= 4,
        0 <= cut <= p.len(),
        forall|k: int| 0 < k < p.len() - 1 ==> opened_by(#[trigger] p[k]) == 0,
        p.len() == 1 ==> opened_by(p[0]) == 0,
        p.len() > 1 ==> opened_by(p[0]) == 1 && opened_by(p[p.len() - 1]) == -1,
    ensures
        open_surfaces(p, open) == open,
        open_surfaces(p.take(cut), open) >= open,
{
    assert(p.take(0) =~= Seq::empty());
    assert(p.take(p.len() as int) =~= p);
    lemma_open_step(p, 1, open);
    if p.len() > 1 {
        lemma_open_step(p, 2, open);
    }
    if p.len() > 2 {
        lemma_open_step(p, 3, open);
    }
    if p.len() > 3 {
        lemma_open_step(p, 4, open);
    }
}

proof fn lemma_layer_balanced(facts: Seq<LayerFacts>, i: int, open: int, cut: int)
    requires
        0 <= i < facts.len(),
        0 <= cut <= layer_plan(facts, i).len(),
    ensures
        open_surfaces(layer_plan(facts, i), open) == open,
        open_surfaces(layer_plan(facts, i).take(cut), open) >= open,
{
    let p = layer_plan(facts, i);
    if p.len() == 0 {
        assert(p.take(cut) =~= p);
    } else if p.len() == 7 {
        lemma_matte_balanced(p, open, cut);
    } else {
        lemma_surface_balanced(p, open, cut);
    }
}

/// Drawing layers closes every surface that it opens, and at no point more than it opened.
pub proof fn law_plan_is_balanced(facts: Seq<LayerFacts>, n: int, open: int, cut: int)
    requires
        0 <= n,
        0 <= cut <= plan_down_to(facts, n).len(),
    ensures
        open_surfaces(plan_down_to(facts, n), open) == open,
        open_surfaces(plan_down_to(facts, n).take(cut), open) >= open,
    decreases facts.len() - n,
{
    let all = plan_down_to(facts, n);
    if n < facts.len() {
        let before = plan_down_to(facts, n + 1);
        let own = layer_plan(facts, n);
        lemma_open_surfaces_append(before, own, open);
        lemma_layer_balanced(facts, n, open, 0);
        if cut <= before.len() {
            law_plan_is_balanced(facts, n + 1, open, cut);
            assert(all.take(cut) =~= before.take(cut));
        } else {
            law_plan_is_balanced(facts, n + 1, open, 0);
            lemma_layer_balanced(facts, n, open, cut - before.len());
            lemma_open_surfaces_append(before, own.take(cut - before.len()), open);
            assert(all.take(cut) =~= before + own.take(cut - before.len()));
        }
    } else {
        assert(all.take(cut) =~= all);
    }
}

/// How often the content of the layer at `i` is drawn.
pub open spec fn times_drawn(ops: Seq<LayerOp>, i: int) -> nat
    decreases ops.len(),
{
    if ops.len() == 0 {
        0
    } else {
        times_drawn(ops.drop_last(), i) + match ops.last() {
            LayerOp::Content { layer, whole } => if layer == i {
                1nat
            } else {
                0
            },
            _ => 0,
        }
    }
}

proof fn lemma_times_append(a: Seq<LayerOp>, b: Seq<LayerOp>, i: int)
    ensures
        times_drawn(a + b, i) == times_drawn(a, i) + times_drawn(b, i),
    decreases b.len(),
{
    if b.len() == 0 {
        assert(a + b =~= a);
    } else {
        assert((a + b).drop_last() =~= a + b.drop_last());
        lemma_times_append(a, b.drop_last(), i);
    }
}

proof fn lemma_layer_times(facts: Seq<LayerFacts>, n: int, i: int)
    requires
        0 <= n < facts.len(),
        0 <= i < facts.len(),
        facts.len() <= usize::MAX,
    ensures
        times_drawn(layer_plan(facts, n), i) <= 1,
        times_drawn(layer_plan(facts, n), i) > 0 ==> (n == i && drawn(facts, i)) || (n == i + 1
            && consumed(facts, i)),
{
    let p = layer_plan(facts, n);
    assert(p.take(p.len() as int) =~= p);
    assert(p.take(0) =~= Seq::empty());
    if p.len() >= 1 {
        lemma_times_step(p, 1, i);
    }
    if p.len() >= 3 {
        lemma_times_step(p, 2, i);
        lemma_times_step(p, 3, i);
    }
    if p.len() >= 4 {
        lemma_times_step(p, 4, i);
    }
    if p.len() >= 7 {
        lemma_times_step(p, 5, i);
        lemma_times_step(p, 6, i);
        lemma_times_step(p, 7, i);
    }
}

proof fn lemma_times_step(p: Seq<LayerOp>, k: int, i: int)
    requires
        0 < k <= p.len(),
    ensures
        times_drawn(p.take(k), i) == times_drawn(p.take(k - 1), i) + match p[k - 1] {
            LayerOp::Content { layer, whole } => if layer == i {
                1nat
            } else {
                0
            },
            _ => 0,
        },
{
    assert(p.take(k).drop_last() =~= p.take(k - 1));
}

proof fn lemma_times_down_to(facts: Seq<LayerFacts>, n: int, i: int)
    requires
        0 <= n,
        0 <= i < facts.len(),
        facts.len() <= usize::MAX,
    ensures
        times_drawn(plan_down_to(facts, n), i) <= 1,
        n > i + 1 ==> times_drawn(plan_down_to(facts, n), i) == 0,
        n == i + 1 && !consumed(facts, i) ==> times_drawn(plan_down_to(facts, n), i) == 0,
    decreases facts.len() - n,
{
    if n < facts.len() {
        lemma_times_down_to(facts, n + 1, i);
        lemma_times_append(plan_down_to(facts, n + 1), layer_plan(facts, n), i);
        lemma_layer_times(facts, n, i);
    }
}

/// No layer is drawn twice: one that is a matte is drawn as that and not for itself.
pub proof fn law_no_layer_is_drawn_twice(facts: Seq<LayerFacts>, i: int)
    requires
        0 <= i < facts.len() <= usize::MAX,
    ensures
        times_drawn(plan_down_to(facts, 0), i) <= 1,
{
    lemma_times_down_to(facts, 0, i);
}

/// How a layer is drawn where content, masks and matte are worked on one surface.
#[derive(Clone, Copy, Debug, PartialEq, Eq, Structural)]
pub enum Draw {
    /// Not at all.
    Skip,
    /// Straight onto the canvas.
    Direct,
    /// On a surface of its own.
    Offscreen {
        /// True where masks are applied.
        masked: bool,
        /// The layer whose content is the matte.
        source: Option<usize>,
    },
}

/// How the layer at `i` is drawn.
pub open spec fn draw_of(facts: Seq<LayerFacts>, i: int) -> Draw {
    let f = facts[i];
    if !drawn(facts, i) || (f.matte != 0 && i > 0 && !facts[i - 1].visible) {
        Draw::Skip
    } else if f.masked || f.matte != 0 || (f.complex && f.faded) {
        Draw::Offscreen {
            masked: f.masked,
            source: if f.matte != 0 && i > 0 {
                Some((i - 1) as usize)
            } else {
                None
            },
        }
    } else {
        Draw::Direct
    }
}

/// Decides how the layer at `i` is drawn.
pub fn decide_draw(facts: &[LayerFacts], i: usize) -> (d: Draw)
    requires
        i < facts@.len(),
    ensures
        d == draw_of(facts@, i as int),
{
    let f = facts[i];
    let taken = i + 1 < facts.len() && facts[i + 1].matte != 0;
    if taken || f.matte_src || !f.visible || f.opacity == 0 {
        return Draw::Skip;
    }
    if f.matte != 0 && i > 0 && !facts[i - 1].visible {
        return Draw::Skip;
    }
    if f.masked || f.matte != 0 || (f.complex && f.faded) {
        let source = if f.matte != 0 && i > 0 {
            Some(i - 1)
        } else {
            None
        };
        Draw::Offscreen { masked: f.masked, source }
    } else {
        Draw::Direct
    }
}

/// True where `frame` lies in the lifetime from `start` up to but not at `end`.
pub open spec fn within(start: Option<NumberView>, end: Option<NumberView>, frame: NumberView) -> bool {
    &&& start matches Some(s) ==> !frame.less_than(s)
    &&& end matches Some(e) ==> frame.less_than(e)
}

/// The contents of a number that may be missing.
pub open spec fn number_view(n: Option<Number>) -> Option<NumberView> {
    match n {
        Some(n) => Some(n@),
        None => None,
    }
}

/// Whether a layer is shown at a frame. The frame at its out point is not.
pub fn layer_visible(layer: &Layer, frame: &Number) -> (r: bool)
    ensures
        r == (!layer.fields.hidden && within(
            number_view(layer.fields.in_point),
            number_view(layer.fields.out_point),
            frame@,
        )),
{
    if layer.fields.hidden {
        return false;
    }
    match &layer.fields.in_point {
        Some(n) => {
            if frame.less_than(n) {
                return false;
            }
        },
        None => {},
    }
    match &layer.fields.out_point {
        Some(n) => frame.less_than(n),
        None => true,
    }
}

/// Where the first asset of that name stands, from the `i`th on.
pub open spec fn asset_named(assets: Seq<Asset>, id: Seq<u8>, i: int) -> Option<int>
    decreases assets.len() - i,
{
    if i < 0 || i >= assets.len() {
        None
    } else if assets[i].id matches Some(t) && t.bytes@ == id {
        Some(i)
    } else {
        asset_named(assets, id, i + 1)
    }
}

fn same_bytes(a: &Vec<u8>, b: &Vec<u8>) -> (r: bool)
    ensures
        r == (a@ == b@),
{
    if a.len() != b.len() {
        return false;
    }
    let n: usize = a.len();
    let mut i: usize = 0;
    while i < n
        invariant
            n == a@.len() == b@.len(),
            i <= n,
            forall|j: int| 0 <= j < i ==> a@[j] == b@[j],
        decreases n - i,
    {
        if a[i] != b[i] {
            return false;
        }
        i += 1;
    }
    assert(a@ =~= b@);
    true
}

/// Finds the first asset of that name.
pub fn find_asset(assets: &Vec<Asset>, id: &Text) -> (at: Option<usize>)
    ensures
        match at {
            Some(i) => i < assets@.len() && asset_named(assets@, id.bytes@, 0) == Some(i as int),
            None => asset_named(assets@, id.bytes@, 0) is None,
        },
{
    let n: usize = assets.len();
    let mut i: usize = 0;
    while i < n
        invariant
            n == assets@.len(),
            i <= n,
            asset_named(assets@, id.bytes@, i as int) == asset_named(assets@, id.bytes@, 0),
        decreases n - i,
    {
        match &assets[i].id {
            Some(t) => {
                if same_bytes(&t.bytes, &id.bytes) {
                    return Some(i);
                }
            },
            None => {},
        }
        i += 1;
    }
    None
}

/// The asset that a layer shows.
pub open spec fn shown_asset(assets: Seq<Asset>, layer: Layer) -> Option<int> {
    match (layer.kind, layer.fields.ref_id) {
        (LayerKind::Precomp, Some(id)) => asset_named(assets, id.bytes@, 0),
        _ => None,
    }
}

/// Finds the asset that a layer shows.
pub fn find_shown_asset(assets: &Vec<Asset>, layer: &Layer) -> (at: Option<usize>)
    ensures
        match at {
            Some(i) => i < assets@.len() && shown_asset(assets@, *layer) == Some(i as int),
            None => shown_asset(assets@, *layer) is None,
        },
{
    match layer.kind {
        LayerKind::Precomp => match &layer.fields.ref_id {
            Some(id) => find_asset(assets, id),
            None => None,
        },
        _ => None,
    }
}

/// Whether a layer shows an asset of more than one layer.
pub fn is_complex(assets: &Vec<Asset>, layer: &Layer) -> (r: bool)
    ensures
        r == match shown_asset(assets@, *layer) {
            Some(i) => assets@[i].layers@.len() > 1,
            None => false,
        },
{
    match find_shown_asset(assets, layer) {
        Some(i) => assets[i].layers.len() > 1,
        None => false,
    }
}

/// One mask that is applied: its place in the list, and whether it is the first or the last that is.
#[derive(Clone, Copy, Debug, PartialEq, Eq, Structural)]
pub struct MaskStep {
    /// The place of the mask.
    pub mask: usize,
    /// True for the first that is applied.
    pub first: bool,
    /// True for the last that is applied.
    pub last: bool,
}

/// The places of the first `n` modes that have an effect.
pub open spec fn effective_masks(modes: Seq<u8>, n: int) -> Seq<usize>
    decreases n,
{
    if n <= 0 {
        Seq::empty()
    } else if mask::is_effective(modes[n - 1]) {
        effective_masks(modes, n - 1).push((n - 1) as usize)
    } else {
        effective_masks(modes, n - 1)
    }
}

/// The masks that are applied, in their order.
pub fn mask_steps(modes: &[u8]) -> (steps: Vec<MaskStep>)
    ensures
        ({
            let places = effective_masks(modes@, modes@.len() as int);
            &&& steps@.len() == places.len()
            &&& forall|k: int|
                0 <= k < steps@.len() ==> #[trigger] steps@[k] == (MaskStep {
                    mask: places[k],
                    first: k == 0,
                    last: k == steps@.len() - 1,
                })
        }),
{
    let n: usize = modes.len();
    let mut places: Vec<usize> = Vec::new();
    let mut i: usize = 0;
    while i < n
        invariant
            n == modes@.len(),
            i <= n,
            places@ == effective_masks(modes@, i as int),
        decreases n - i,
    {
        if mask::effective(modes[i]) {
            places.push(i);
        }
        i += 1;
    }
    let m: usize = places.len();
    let mut steps: Vec<MaskStep> = Vec::new();
    let mut k: usize = 0;
    while k < m
        invariant
            m == places@.len(),
            k <= m,
            steps@.len() == k,
            forall|j: int|
                0 <= j < k ==> #[trigger] steps@[j] == (MaskStep {
                    mask: places@[j],
                    first: j == 0,
                    last: j == m - 1,
                }),
        decreases m - k,
    {
        steps.push(MaskStep { mask: places[k], first: k == 0, last: k == m - 1 });
        k += 1;
    }
    steps
}

/// How many surfaces are open once the step at `k` is done.
pub open spec fn open_after(ops: Seq<LayerOp>, k: int) -> int {
    open_surfaces(ops.take(k + 1), 0)
}

/// True where the step at `e` closes the surface that is open at the step `c`: it is the first one after
/// which fewer surfaces are open.
pub open spec fn closes(ops: Seq<LayerOp>, c: int, e: int) -> bool {
    &&& c < e < ops.len()
    &&& open_after(ops, e) < open_after(ops, c)
    &&& forall|k: int| c < k < e ==> #[trigger] open_after(ops, k) >= open_after(ops, c)
}

proof fn lemma_levels(p: Seq<LayerOp>, k: int)
    requires
        0 <= k < p.len(),
    ensures
        open_after(p, k) == (if k == 0 {
            0
        } else {
            open_after(p, k - 1)
        }) + opened_by(p[k]),
{
    lemma_open_step(p, k + 1, 0);
    assert(p.take(0) =~= Seq::empty());
}

/// How the steps of one layer stand to each other.
proof fn lemma_own_levels(facts: Seq<LayerFacts>, i: int)
    requires
        0 <= i < facts.len(),
    ensures
        ({
            let p = layer_plan(facts, i);
            &&& p.len() == 0 || p.len() == 1 || p.len() == 3 || p.len() == 4 || p.len() == 7
            &&& p.len() == 1 ==> open_after(p, 0) == 0
            &&& p.len() == 3 ==> open_after(p, 0) == 1 && open_after(p, 1) == 1 && open_after(p, 2)
                == 0
            &&& p.len() == 4 ==> open_after(p, 0) == 1 && open_after(p, 1) == 1 && open_after(p, 2)
                == 1 && open_after(p, 3) == 0
            &&& p.len() == 7 ==> open_after(p, 0) == 1 && open_after(p, 1) == 1 && open_after(p, 2)
                == 1 && open_after(p, 3) == 2 && open_after(p, 4) == 2 && open_after(p, 5) == 2
                && open_after(p, 6) == 0
        }),
{
    let p = layer_plan(facts, i);
    if p.len() > 0 {
        lemma_levels(p, 0);
    }
    if p.len() > 1 {
        lemma_levels(p, 1);
        lemma_levels(p, 2);
    }
    if p.len() > 3 {
        lemma_levels(p, 3);
    }
    if p.len() > 4 {
        lemma_levels(p, 4);
        lemma_levels(p, 5);
        lemma_levels(p, 6);
    }
}

/// The steps of one layer open and close the same surfaces wherever they stand in a plan.
proof fn lemma_levels_append(facts: Seq<LayerFacts>, n: int, k: int)
    requires
        0 <= n < facts.len(),
        0 <= k < plan_down_to(facts, n).len(),
    ensures
        ({
            let before = plan_down_to(facts, n + 1);
            let own = layer_plan(facts, n);
            let all = plan_down_to(facts, n);
            &&& all == before + own
            &&& k < before.len() ==> open_after(all, k) == open_after(before, k) && all[k] == before[k]
            &&& k >= before.len() ==> open_after(all, k) == open_after(own, k - before.len())
                && all[k] == own[k - before.len()]
        }),
{
    let before = plan_down_to(facts, n + 1);
    let own = layer_plan(facts, n);
    let all = plan_down_to(facts, n);
    if k < before.len() {
        assert(all.take(k + 1) =~= before.take(k + 1));
    } else {
        law_plan_is_balanced(facts, n + 1, 0, 0);
        assert(all.take(k + 1) =~= before + own.take(k + 1 - before.len()));
        lemma_open_surfaces_append(before, own.take(k + 1 - before.len()), 0);
    }
}

/// True where the layer at `i` is drawn as the matte of the one behind it.
spec fn as_matte(facts: Seq<LayerFacts>, i: int) -> bool {
    i + 1 < facts.len() && facts[i + 1].matte != 0
}

/// What holds of the step that draws the content of a layer.
spec fn content_holds(facts: Seq<LayerFacts>, ops: Seq<LayerOp>, c: int) -> bool {
    ops[c] matches LayerOp::Content { layer, whole } ==> {
        let i = layer as int;
        let f = facts[i];
        &&& i < facts.len()
        &&& !whole ==> open_after(ops, c) == 0 && !as_matte(facts, i) && f.matte == 0 && !f.masked
            && (f.opacity == 255 || (!f.many_paints && !f.complex))
        &&& whole ==> {
            &&& as_matte(facts, i) || f.matte != 0 || f.masked || (f.opacity < 255 && (f.many_paints
                || f.complex))
            &&& open_after(ops, c) == (if !as_matte(facts, i) && f.matte != 0 {
                2int
            } else {
                1
            })
            &&& exists|e: int| #[trigger]
                closes(ops, c, e) && ops[e] == (if as_matte(facts, i) {
                    LayerOp::Matte {
                        kind: facts[i + 1].matte,
                        opacity: facts[i + 1].opacity,
                        source_opacity: f.own_opacity,
                    }
                } else if f.matte != 0 {
                    LayerOp::Matte {
                        kind: f.matte,
                        opacity: f.opacity,
                        source_opacity: facts[i - 1].own_opacity,
                    }
                } else {
                    LayerOp::Over { opacity: f.opacity }
                })
        }
        &&& f.masked ==> c + 1 < ops.len() && ops[c + 1] == (LayerOp::Masks { layer })
    }
}

proof fn lemma_content_in_own(facts: Seq<LayerFacts>, n: int, c: int)
    requires
        0 <= n < facts.len() <= usize::MAX,
        0 <= c < layer_plan(facts, n).len(),
    ensures
        content_holds(facts, layer_plan(facts, n), c),
        layer_plan(facts, n)[c] matches LayerOp::Masks { layer } ==> c > 0 && layer_plan(facts, n)[c
            - 1] == (LayerOp::Content { layer, whole: true }),
{
    let p = layer_plan(facts, n);
    lemma_own_levels(facts, n);
    if p.len() > 1 && p[c] is Content {
        let e = p.len() - 1;
        assert forall|k: int| c < k < e implies #[trigger] open_after(p, k) >= open_after(p, c) by {
            assert(k == 1 || k == 2 || k == 3 || k == 4 || k == 5);
        }
        assert(c == 1 || c == 4);
        assert(closes(p, c, e));
    }
}

proof fn lemma_content_down_to(facts: Seq<LayerFacts>, n: int, c: int)
    requires
        0 <= n,
        facts.len() <= usize::MAX,
        0 <= c < plan_down_to(facts, n).len(),
    ensures
        content_holds(facts, plan_down_to(facts, n), c),
        plan_down_to(facts, n)[c] matches LayerOp::Masks { layer } ==> c > 0 && plan_down_to(
            facts,
            n,
        )[c - 1] == (LayerOp::Content { layer, whole: true }),
    decreases facts.len() - n,
{
    let all = plan_down_to(facts, n);
    let before = plan_down_to(facts, n + 1);
    let own = layer_plan(facts, n);
    let at = before.len() as int;
    lemma_levels_append(facts, n, c);
    if c < at {
        lemma_content_down_to(facts, n + 1, c);
        if before[c] is Content && before[c]->whole {
            let e = choose|e: int| #[trigger] closes(before, c, e);
            lemma_one_closing(before, c);
            lemma_levels_append(facts, n, e);
            assert forall|k: int| c < k < e implies #[trigger] open_after(all, k) >= open_after(
                all,
                c,
            ) by {
                lemma_levels_append(facts, n, k);
                assert(open_after(before, k) >= open_after(before, c));
            }
            assert(closes(all, c, e));
        }
    } else {
        let d = c - at;
        lemma_content_in_own(facts, n, d);
        if own[d] is Content && own[d]->whole {
            let e = choose|e: int| #[trigger] closes(own, d, e);
            lemma_one_closing(own, d);
            lemma_levels_append(facts, n, at + e);
            assert forall|k: int| c < k < at + e implies #[trigger] open_after(all, k)
                >= open_after(all, c) by {
                lemma_levels_append(facts, n, k);
                assert(open_after(own, k - at) >= open_after(own, d));
            }
            assert(closes(all, c, at + e));
        }
    }
}

/// Only one step closes a surface.
proof fn lemma_one_closing(ops: Seq<LayerOp>, c: int)
    ensures
        forall|e: int, d: int| #[trigger] closes(ops, c, e) && #[trigger] closes(ops, c, d) ==> e == d,
{
    assert forall|e: int, d: int| #[trigger]
        closes(ops, c, e) && #[trigger] closes(ops, c, d) implies e == d by {
        if e < d {
            assert(open_after(ops, e) >= open_after(ops, c));
        }
        if d < e {
            assert(open_after(ops, d) >= open_after(ops, c));
        }
    }
}

/// Every layer's opacity is applied exactly once. Where a content is not drawn as a whole, its opacity is
/// folded into its paints, straight on the canvas. Where it is, the step that closes its surface applies
/// it, masked or not: a layer that stands for itself is put over with its opacity, and a matte and its
/// target are closed together, each with its own.
pub proof fn law_opacity_is_applied_once(facts: Seq<LayerFacts>, c: int, e: int)
    requires
        facts.len() <= usize::MAX,
        0 <= c < plan_down_to(facts, 0).len(),
        plan_down_to(facts, 0)[c] is Content,
        closes(plan_down_to(facts, 0), c, e) || !plan_down_to(facts, 0)[c]->whole,
    ensures
        ({
            let ops = plan_down_to(facts, 0);
            let i = ops[c]->Content_layer as int;
            let f = facts[i];
            let behind = i + 1 < facts.len() && facts[i + 1].matte != 0;
            &&& i < facts.len()
            &&& !ops[c]->whole ==> open_after(ops, c) == 0 && !behind && f.matte == 0
            &&& ops[c]->whole ==> open_after(ops, c) >= 1
            &&& ops[c]->whole && !behind && f.matte == 0 ==> ops[e] == (LayerOp::Over {
                opacity: f.opacity,
            })
            &&& ops[c]->whole && !behind && f.matte != 0 ==> ops[e] == (LayerOp::Matte {
                kind: f.matte,
                opacity: f.opacity,
                source_opacity: facts[i - 1].own_opacity,
            })
            &&& ops[c]->whole && behind ==> ops[e] == (LayerOp::Matte {
                kind: facts[i + 1].matte,
                opacity: facts[i + 1].opacity,
                source_opacity: f.own_opacity,
            })
        }),
{
    let ops = plan_down_to(facts, 0);
    lemma_content_down_to(facts, 0, c);
    lemma_one_closing(ops, c);
}

/// Every surface that a content is drawn on is closed later on, by one step.
pub proof fn law_surfaces_are_closed(facts: Seq<LayerFacts>, c: int)
    requires
        facts.len() <= usize::MAX,
        0 <= c < plan_down_to(facts, 0).len(),
        plan_down_to(facts, 0)[c] is Content,
        plan_down_to(facts, 0)[c]->whole,
    ensures
        exists|e: int| #[trigger] closes(plan_down_to(facts, 0), c, e),
        forall|e: int, d: int| #[trigger]
            closes(plan_down_to(facts, 0), c, e) && #[trigger] closes(plan_down_to(facts, 0), c, d)
                ==> e == d,
{
    lemma_content_down_to(facts, 0, c);
    lemma_one_closing(plan_down_to(facts, 0), c);
}

/// A layer is drawn as a whole, on a surface of its own, exactly where something acts on all of it at
/// once: its masks, a matte, or an opacity that several paints or layers share. A matte's target is drawn
/// on a surface above its matte.
pub proof fn law_surfaces_are_opened_where_needed(facts: Seq<LayerFacts>, c: int)
    requires
        facts.len() <= usize::MAX,
        0 <= c < plan_down_to(facts, 0).len(),
        plan_down_to(facts, 0)[c] is Content,
    ensures
        ({
            let ops = plan_down_to(facts, 0);
            let i = ops[c]->Content_layer as int;
            let f = facts[i];
            let behind = i + 1 < facts.len() && facts[i + 1].matte != 0;
            &&& ops[c]->whole <==> behind || f.matte != 0 || f.masked || (f.opacity < 255 && (
            f.many_paints || f.complex))
            &&& open_after(ops, c) == (if !ops[c]->whole {
                0int
            } else if f.matte != 0 && !behind {
                2
            } else {
                1
            })
        }),
{
    lemma_content_down_to(facts, 0, c);
}

/// A layer's masks are applied right behind its content, while its surface is open, and no others are
/// applied there.
pub proof fn law_masks_follow_their_content(facts: Seq<LayerFacts>, c: int)
    requires
        facts.len() <= usize::MAX,
        0 <= c < plan_down_to(facts, 0).len(),
    ensures
        ({
            let ops = plan_down_to(facts, 0);
            &&& ops[c] matches LayerOp::Content { layer, whole } ==> facts[layer as int].masked ==> whole && c
                + 1 < ops.len() && ops[c + 1] == (LayerOp::Masks { layer })
            &&& ops[c] matches LayerOp::Masks { layer } ==> c > 0 && ops[c - 1] == (LayerOp::Content {
                layer,
                whole: true,
            })
        }),
{
    lemma_content_down_to(facts, 0, c);
}

proof fn lemma_layers_in_own(facts: Seq<LayerFacts>, n: int, c: int)
    requires
        0 <= n < facts.len() <= usize::MAX,
        0 <= c < layer_plan(facts, n).len(),
    ensures
        layer_plan(facts, n)[c] matches LayerOp::Content { layer, whole } ==> (layer == n && !(n + 1
            < facts.len() && facts[n + 1].matte != 0)) || (layer == n - 1 && facts[n].matte != 0 && c
            < 3),
{
}

proof fn lemma_layers_down_to(facts: Seq<LayerFacts>, n: int, c: int)
    requires
        0 <= n,
        facts.len() <= usize::MAX,
        0 <= c < plan_down_to(facts, n).len(),
    ensures
        plan_down_to(facts, n)[c] matches LayerOp::Content { layer, whole } ==> layer < facts.len() && (
        layer >= n || (layer == n - 1 && facts[n].matte != 0)),
    decreases facts.len() - n,
{
    lemma_levels_append(facts, n, c);
    let at = plan_down_to(facts, n + 1).len() as int;
    if c < at {
        lemma_layers_down_to(facts, n + 1, c);
    } else {
        lemma_layers_in_own(facts, n, c - at);
    }
}

proof fn lemma_order_down_to(facts: Seq<LayerFacts>, n: int, p: int, q: int)
    requires
        0 <= n,
        facts.len() <= usize::MAX,
        0 <= p < q < plan_down_to(facts, n).len(),
        plan_down_to(facts, n)[p] is Content,
        plan_down_to(facts, n)[q] is Content,
    ensures
        ({
            let a = plan_down_to(facts, n)[p]->Content_layer as int;
            let b = plan_down_to(facts, n)[q]->Content_layer as int;
            b < a || (b == a + 1 && facts[b].matte != 0)
        }),
    decreases facts.len() - n,
{
    let at = plan_down_to(facts, n + 1).len() as int;
    lemma_levels_append(facts, n, p);
    lemma_levels_append(facts, n, q);
    if q < at {
        lemma_order_down_to(facts, n + 1, p, q);
    } else {
        lemma_layers_in_own(facts, n, q - at);
        if p < at {
            lemma_layers_down_to(facts, n + 1, p);
        } else {
            lemma_layers_in_own(facts, n, p - at);
        }
    }
}

/// Layers are drawn from the last, which lies at the bottom, to the first. Only a matte is drawn right
/// before its target, which stands behind it.
pub proof fn law_layers_are_drawn_from_the_bottom(facts: Seq<LayerFacts>, p: int, q: int)
    requires
        facts.len() <= usize::MAX,
        0 <= p < q < plan_down_to(facts, 0).len(),
        plan_down_to(facts, 0)[p] is Content,
        plan_down_to(facts, 0)[q] is Content,
    ensures
        ({
            let a = plan_down_to(facts, 0)[p]->Content_layer as int;
            let b = plan_down_to(facts, 0)[q]->Content_layer as int;
            b < a || (b == a + 1 && facts[b].matte != 0)
        }),
{
    lemma_order_down_to(facts, 0, p, q);
}

proof fn lemma_times_in_own(facts: Seq<LayerFacts>, n: int, i: int)
    requires
        0 <= n < facts.len() <= usize::MAX,
        0 <= i < facts.len(),
    ensures
        ({
            let f = facts[n];
            let shown = f.visible && f.opacity != 0 && !f.matte_src && !(n + 1 < facts.len() && facts[n
                + 1].matte != 0) && (f.matte == 0 || (n > 0 && facts[n - 1].visible));
            times_drawn(layer_plan(facts, n), i) == (if shown && (n == i || (n == i + 1 && f.matte
                != 0)) {
                1nat
            } else {
                0
            })
        }),
{
    let p = layer_plan(facts, n);
    assert(p.take(p.len() as int) =~= p);
    assert(p.take(0) =~= Seq::empty());
    if p.len() >= 1 {
        lemma_times_step(p, 1, i);
    }
    if p.len() >= 3 {
        lemma_times_step(p, 2, i);
        lemma_times_step(p, 3, i);
    }
    if p.len() >= 4 {
        lemma_times_step(p, 4, i);
    }
    if p.len() >= 7 {
        lemma_times_step(p, 5, i);
        lemma_times_step(p, 6, i);
        lemma_times_step(p, 7, i);
    }
}

proof fn lemma_times_exactly(facts: Seq<LayerFacts>, n: int, i: int)
    requires
        0 <= n,
        0 <= i < facts.len() <= usize::MAX,
    ensures
        times_drawn(plan_down_to(facts, n), i) == (if n <= i {
            times_drawn(layer_plan(facts, i), i)
        } else {
            0
        }) + (if n <= i + 1 && i + 1 < facts.len() {
            times_drawn(layer_plan(facts, i + 1), i)
        } else {
            0
        }),
    decreases facts.len() - n,
{
    if n < facts.len() {
        lemma_times_exactly(facts, n + 1, i);
        lemma_times_append(plan_down_to(facts, n + 1), layer_plan(facts, n), i);
        lemma_times_in_own(facts, n, i);
    }
}

/// A layer is drawn, once, exactly where it shows: for itself where it is visible, not clear and no
/// matte, and its own matte, if it needs one, is there and visible; and as a matte where it is visible
/// and its target shows.
pub proof fn law_layers_are_drawn_where_they_show(facts: Seq<LayerFacts>, i: int)
    requires
        0 <= i < facts.len() <= usize::MAX,
    ensures
        ({
            let f = facts[i];
            let behind = i + 1 < facts.len() && facts[i + 1].matte != 0;
            let alone = f.visible && f.opacity != 0 && !f.matte_src && !behind && (f.matte == 0 || (i
                > 0 && facts[i - 1].visible));
            let t = facts[i + 1];
            let below = behind && t.visible && t.opacity != 0 && !t.matte_src && !(i + 2 < facts.len()
                && facts[i + 2].matte != 0) && f.visible;
            times_drawn(plan_down_to(facts, 0), i) == (if alone || below {
                1nat
            } else {
                0
            })
        }),
{
    lemma_times_exactly(facts, 0, i);
    lemma_times_in_own(facts, i, i);
    if i + 1 < facts.len() {
        lemma_times_in_own(facts, i + 1, i);
    }
}

/// Layers nested deeper than sixteen draw nothing; those nested less deep draw the same at any depth.
pub proof fn law_only_deep_layers_are_left_out(
    facts: &[LayerFacts],
    shallow: usize,
    deep: usize,
    here: Vec<LayerOp>,
    there: Vec<LayerOp>,
)
    requires
        call_ensures(plan_layers, (facts, shallow), here),
        call_ensures(plan_layers, (facts, deep), there),
        shallow <= 16,
    ensures
        deep > 16 ==> there@.len() == 0,
        deep <= 16 ==> here@ == there@,
        here@ == plan_down_to(facts@, 0),
{
}

/// Drawn one by one, a layer is left out exactly where it does not show, drawn straight on the canvas
/// only where nothing acts on all of it, and else masked by its own masks and matted by the layer right
/// before it.
pub proof fn law_layers_are_drawn_one_by_one(facts: Seq<LayerFacts>, i: int)
    requires
        0 <= i < facts.len() <= usize::MAX,
    ensures
        ({
            let f = facts[i];
            let behind = i + 1 < facts.len() && facts[i + 1].matte != 0;
            let d = draw_of(facts, i);
            &&& d is Skip <==> !f.visible || f.opacity == 0 || f.matte_src || behind || (f.matte != 0
                && i > 0 && !facts[i - 1].visible)
            &&& d is Direct ==> !f.masked && f.matte == 0 && !(f.complex && f.faded)
            &&& d matches Draw::Offscreen { masked, source } ==> {
                &&& f.masked || f.matte != 0 || (f.complex && f.faded)
                &&& masked == f.masked
                &&& source matches Some(k) ==> k == i - 1 && f.matte != 0 && facts[i - 1].visible
                &&& source is None ==> f.matte == 0 || i == 0
            }
        }),
{
}

/// A lifetime holds its start, or starts at once where none is given, and not its end, or never ends.
pub proof fn law_lifetimes_are_half_open(s: NumberView, e: NumberView, frame: NumberView)
    ensures
        !within(Some(s), Some(frame), frame) || frame.less_than(frame),
        within(Some(s), Some(e), frame) <==> within(Some(s), None, frame) && within(
            None,
            Some(e),
            frame,
        ),
        within(None, None, frame),
        within(Some(s), None, frame) <==> !within(None, Some(s), frame),
        within(None, Some(e), frame) <==> frame.less_than(e),
{
}

/// The asset of a name is the first one that has it.
pub proof fn law_assets_are_found_by_name(assets: Seq<Asset>, id: Seq<u8>, i: int, k: int)
    requires
        0 <= i <= k < assets.len(),
    ensures
        asset_named(assets, id, i) matches Some(j) ==> i <= j < assets.len() && assets[j].id is Some
            && assets[j].id->0.bytes@ == id && (assets[k].id is Some && assets[k].id->0.bytes@ == id
            ==> j <= k),
        asset_named(assets, id, i) is None ==> !(assets[k].id is Some && assets[k].id->0.bytes@ == id),
    decreases assets.len() - i,
{
    if i + 1 <= k {
        law_assets_are_found_by_name(assets, id, i + 1, k);
    } else if i + 1 < assets.len() {
        law_assets_are_found_by_name(assets, id, i + 1, i + 1);
    }
}

/// Only a precomposition shows an asset: the one that it names.
pub proof fn law_precompositions_show_assets(assets: Seq<Asset>, layer: Layer)
    ensures
        layer.kind != LayerKind::Precomp ==> shown_asset(assets, layer) is None,
        layer.fields.ref_id is None ==> shown_asset(assets, layer) is None,
        layer.kind == LayerKind::Precomp && layer.fields.ref_id is Some ==> shown_asset(assets, layer)
            == asset_named(assets, layer.fields.ref_id->0.bytes@, 0),
{
}

/// The masks that are applied are those whose mode has an effect, each once and in their order.
pub proof fn law_masks_with_an_effect_are_applied(modes: Seq<u8>, n: int, k: int)
    requires
        0 <= k < n <= modes.len() <= usize::MAX,
    ensures
        mask::is_effective(modes[k]) <==> exists|j: int|
            0 <= j < effective_masks(modes, n).len() && #[trigger] effective_masks(modes, n)[j] == k,
        forall|j: int|
            0 <= j < effective_masks(modes, n).len() ==> #[trigger] effective_masks(modes, n)[j] < n,
        forall|i: int, j: int|
            0 <= i < j < effective_masks(modes, n).len() ==> #[trigger] effective_masks(modes, n)[i]
                < #[trigger] effective_masks(modes, n)[j],
    decreases n,
{
    let all = effective_masks(modes, n);
    let before = effective_masks(modes, n - 1);
    if n > 1 {
        law_masks_with_an_effect_are_applied(modes, n - 1, if k < n - 1 {
            k
        } else {
            0
        });
    } else {
        assert(before.len() == 0);
    }
    if k < n - 1 {
        if mask::is_effective(modes[k]) {
            let j = choose|j: int| 0 <= j < before.len() && #[trigger] before[j] == k;
            assert(all[j] == k);
        } else if exists|j: int| 0 <= j < all.len() && #[trigger] all[j] == k {
            let j = choose|j: int| 0 <= j < all.len() && #[trigger] all[j] == k;
            assert(before[j] == k);
        }
    } else if mask::is_effective(modes[k]) {
        assert(all[all.len() - 1] == k);
    } else {
        assert forall|j: int| 0 <= j < all.len() implies #[trigger] all[j] != k by {
            assert(before[j] < n - 1);
        }
    }
}

} // verus!
