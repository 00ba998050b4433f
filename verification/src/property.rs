//! Properties that stand still or move along keyframes.

use crate::decode;
use crate::decode::{decode_field, decode_flag, Bounds, Decode, Flag, Reader, Values};
use crate::error::{Error, Limit, Result};
use crate::json;
use crate::names;
use crate::number::{Number, NumberView};
use crate::tree;
use vstd::prelude::*;

verus! {

/// One side of a keyframe's easing curve.
pub struct Tangent {
    /// The progress in time, one number for all components or one for each.
    pub x: Option<Values>,
    /// The progress in value.
    pub y: Option<Values>,
}

impl Decode for Tangent {
    open spec fn fault(s: Seq<u8>, p: int, m: Bounds) -> Option<Error> {
        let found = tree::object_at(s, p, m.depth);
        decode::either(
            found.scan.fault,
            decode::either(
                decode::field_fault::<Values>(s, found.items, names::NAME_X, m),
                decode::field_fault::<Values>(s, found.items, names::NAME_Y, m),
            ),
        )
    }

    open spec fn reads(&self, s: Seq<u8>, p: int, m: Bounds) -> bool {
        let found = tree::object_at(s, p, m.depth);
        &&& decode::field_reads(self.x, s, found.items, names::NAME_X, m)
        &&& decode::field_reads(self.y, s, found.items, names::NAME_Y, m)
    }

    open spec fn same(&self, other: &Tangent) -> bool {
        &&& decode::same_option(self.x, other.x)
        &&& decode::same_option(self.y, other.y)
    }

    proof fn one_value(a: Tangent, b: Tangent, s: Seq<u8>, p: int, m: Bounds) {
        let found = tree::object_at(s, p, m.depth);
        decode::lemma_field_same(a.x, b.x, s, found.items, names::NAME_X, m);
        decode::lemma_field_same(a.y, b.y, s, found.items, names::NAME_Y, m);
    }

    fn decode(c: &Reader<'_>, pos: usize) -> (r: Result<Tangent>) {
        let members = match tree::read_object(&c.cursor, pos) {
            Ok(members) => members,
            Err(e) => {
                return Err(e);
            },
        };
        let x = match decode_field(c, &members, names::NAME_X) {
            Ok(v) => v,
            Err(e) => {
                return Err(e);
            },
        };
        let y = match decode_field(c, &members, names::NAME_Y) {
            Ok(v) => v,
            Err(e) => {
                return Err(e);
            },
        };
        Ok(Tangent { x, y })
    }
}

/// A value at a moment.
pub struct Keyframe<T> {
    /// The frame at which the value holds.
    pub time: Number,
    /// The value; where it is missing, the one that the keyframe before ends with holds on.
    pub value: Option<T>,
    /// The value that the segment from here ends with, where it is written out.
    pub end: Option<T>,
    /// How the segment from here leaves.
    pub leave: Option<Tangent>,
    /// How the segment from here arrives.
    pub arrive: Option<Tangent>,
    /// True where the value holds until the next keyframe.
    pub hold: bool,
}

/// The error for an object that lacks a member it needs.
pub open spec fn missing(p: int, what: &'static str) -> Error {
    Error::InvalidLottie { offset: p as usize, what }
}

impl<T: Decode> Decode for Keyframe<T> {
    open spec fn fault(s: Seq<u8>, p: int, m: Bounds) -> Option<Error> {
        let found = tree::object_at(s, p, m.depth);
        let members = found.items;
        if found.scan.fault is Some {
            found.scan.fault
        } else if tree::find(members, names::NAME_T) is None {
            Some(missing(p, "keyframe without a time"))
        } else {
            decode::either(
                decode::field_fault::<Number>(s, members, names::NAME_T, m),
                decode::either(
                    decode::field_fault::<T>(s, members, names::NAME_S, m),
                    decode::either(
                        decode::field_fault::<T>(s, members, names::NAME_E, m),
                        decode::either(
                            decode::field_fault::<Tangent>(s, members, names::NAME_O, m),
                            decode::either(
                                decode::field_fault::<Tangent>(s, members, names::NAME_I, m),
                                decode::field_fault::<Flag>(s, members, names::NAME_H, m),
                            ),
                        ),
                    ),
                ),
            )
        }
    }

    open spec fn reads(&self, s: Seq<u8>, p: int, m: Bounds) -> bool {
        let members = tree::object_at(s, p, m.depth).items;
        &&& decode::field_reads(Some(self.time), s, members, names::NAME_T, m)
        &&& decode::field_reads(self.value, s, members, names::NAME_S, m)
        &&& decode::field_reads(self.end, s, members, names::NAME_E, m)
        &&& decode::field_reads(self.leave, s, members, names::NAME_O, m)
        &&& decode::field_reads(self.arrive, s, members, names::NAME_I, m)
        &&& self.hold == decode::field_flag(s, members, names::NAME_H)
    }

    open spec fn same(&self, other: &Keyframe<T>) -> bool {
        &&& self.time.same(&other.time)
        &&& decode::same_option(self.value, other.value)
        &&& decode::same_option(self.end, other.end)
        &&& decode::same_option(self.leave, other.leave)
        &&& decode::same_option(self.arrive, other.arrive)
        &&& self.hold == other.hold
    }

    proof fn one_value(a: Keyframe<T>, b: Keyframe<T>, s: Seq<u8>, p: int, m: Bounds) {
        let members = tree::object_at(s, p, m.depth).items;
        decode::lemma_field_same(Some(a.time), Some(b.time), s, members, names::NAME_T, m);
        decode::lemma_field_same(a.value, b.value, s, members, names::NAME_S, m);
        decode::lemma_field_same(a.end, b.end, s, members, names::NAME_E, m);
        decode::lemma_field_same(a.leave, b.leave, s, members, names::NAME_O, m);
        decode::lemma_field_same(a.arrive, b.arrive, s, members, names::NAME_I, m);
    }

    fn decode(c: &Reader<'_>, pos: usize) -> (r: Result<Keyframe<T>>) {
        let members = match tree::read_object(&c.cursor, pos) {
            Ok(members) => members,
            Err(e) => {
                return Err(e);
            },
        };
        let time = match decode_field::<Number>(c, &members, names::NAME_T) {
            Ok(Some(v)) => v,
            Ok(None) => {
                return Err(Error::InvalidLottie { offset: pos, what: "keyframe without a time" });
            },
            Err(e) => {
                return Err(e);
            },
        };
        let value = match decode_field::<T>(c, &members, names::NAME_S) {
            Ok(v) => v,
            Err(e) => {
                return Err(e);
            },
        };
        let end = match decode_field::<T>(c, &members, names::NAME_E) {
            Ok(v) => v,
            Err(e) => {
                return Err(e);
            },
        };
        let leave = match decode_field::<Tangent>(c, &members, names::NAME_O) {
            Ok(v) => v,
            Err(e) => {
                return Err(e);
            },
        };
        let arrive = match decode_field::<Tangent>(c, &members, names::NAME_I) {
            Ok(v) => v,
            Err(e) => {
                return Err(e);
            },
        };
        let hold = match decode_flag(c, &members, names::NAME_H) {
            Ok(v) => v,
            Err(e) => {
                return Err(e);
            },
        };
        Ok(Keyframe { time, value, end, leave, arrive, hold })
    }
}

/// A property's values over time: at least one keyframe, in the order of the input.
pub struct Timeline<T> {
    /// The first keyframe.
    pub first: Keyframe<T>,
    /// The keyframes after it.
    pub rest: Vec<Keyframe<T>>,
}

impl<T> Timeline<T> {
    /// The `i`th keyframe.
    pub open spec fn key(&self, i: int) -> Keyframe<T> {
        if i == 0 {
            self.first
        } else {
            self.rest@[i - 1]
        }
    }

    /// How many keyframes there are.
    pub open spec fn count(&self) -> nat {
        self.rest@.len() + 1
    }
}

impl<T: Decode> Timeline<T> {
    /// True where two timelines have the same keyframes.
    pub open spec fn same(self, other: Timeline<T>) -> bool {
        self.count() == other.count() && forall|i: int|
            0 <= i < self.count() ==> (#[trigger] self.key(i)).same(&other.key(i))
    }
}

/// A value that stands still, or one that moves.
pub enum Property<T> {
    /// The value holds at every frame.
    Static(T),
    /// The value follows keyframes.
    Animated(Timeline<T>),
}

/// True where the value at `p` is a list of keyframes: a list whose first element is an object.
pub open spec fn holds_keyframes(s: Seq<u8>, p: int) -> bool {
    decode::opens_list(s, p) && json::byte_at(s, json::after_space(s, p + 1)) == Some(0x7bu8)
}

/// The error that reading keyframes at `p` reports.
pub open spec fn keyframes_fault<T: Decode>(s: Seq<u8>, p: int, m: Bounds) -> Option<Error> {
    let found = tree::array_at(s, p, m.depth);
    if found.scan.fault is Some {
        found.scan.fault
    } else if found.items.len() > m.keyframes {
        Some(Error::LimitExceeded(Limit::Keyframes))
    } else {
        decode::items_fault::<Keyframe<T>>(s, found.items, 0, m)
    }
}

impl<T: Decode> Decode for Property<T> {
    open spec fn fault(s: Seq<u8>, p: int, m: Bounds) -> Option<Error> {
        let found = tree::object_at(s, p, m.depth);
        if found.scan.fault is Some {
            found.scan.fault
        } else {
            match tree::find(found.items, names::NAME_K) {
                None => Some(missing(p, "property without a value")),
                Some(k) => if holds_keyframes(s, k as int) {
                    keyframes_fault::<T>(s, k as int, m)
                } else {
                    T::fault(s, k as int, m)
                },
            }
        }
    }

    open spec fn reads(&self, s: Seq<u8>, p: int, m: Bounds) -> bool {
        let k = tree::find(tree::object_at(s, p, m.depth).items, names::NAME_K)->0 as int;
        match *self {
            Property::Static(v) => !holds_keyframes(s, k) && v.reads(s, k, m),
            Property::Animated(t) => {
                let keys = tree::array_at(s, k, m.depth).items;
                &&& holds_keyframes(s, k)
                &&& t.count() == keys.len()
                &&& forall|i: int|
                    0 <= i < t.count() ==> (#[trigger] t.key(i)).reads(s, keys[i] as int, m)
            },
        }
    }

    open spec fn same(&self, other: &Property<T>) -> bool {
        match (*self, *other) {
            (Property::Static(x), Property::Static(y)) => x.same(&y),
            (Property::Animated(x), Property::Animated(y)) => x.same(y),
            _ => false,
        }
    }

    proof fn one_value(a: Property<T>, b: Property<T>, s: Seq<u8>, p: int, m: Bounds) {
        let k = tree::find(tree::object_at(s, p, m.depth).items, names::NAME_K)->0 as int;
        match (a, b) {
            (Property::Static(x), Property::Static(y)) => T::one_value(x, y, s, k, m),
            (Property::Animated(x), Property::Animated(y)) => {
                let keys = tree::array_at(s, k, m.depth).items;
                assert forall|i: int| 0 <= i < x.count() implies (#[trigger] x.key(i)).same(
                    &y.key(i),
                ) by {
                    assert(y.key(i).reads(s, keys[i] as int, m));
                    Keyframe::<T>::one_value(x.key(i), y.key(i), s, keys[i] as int, m);
                }
            },
            _ => {},
        }
    }

    fn decode(c: &Reader<'_>, pos: usize) -> (r: Result<Property<T>>) {
        let members = match tree::read_object(&c.cursor, pos) {
            Ok(members) => members,
            Err(e) => {
                return Err(e);
            },
        };
        let k = match tree::find_member(&members, names::NAME_K) {
            Some(k) => k,
            None => {
                return Err(Error::InvalidLottie { offset: pos, what: "property without a value" });
            },
        };
        let mut at = c.cursor.fork_at(k);
        let mut moving = false;
        if at.bump() == Some(0x5bu8) {
            at.skip_ws();
            moving = at.peek() == Some(0x7bu8);
        }
        if !moving {
            return match T::decode(c, k) {
                Ok(v) => Ok(Property::Static(v)),
                Err(e) => Err(e),
            };
        }
        match decode_timeline(c, k) {
            Ok(t) => Ok(Property::Animated(t)),
            Err(e) => Err(e),
        }
    }
}

/// Reads the keyframes at `pos`.
fn decode_timeline<T: Decode>(c: &Reader<'_>, pos: usize) -> (r: Result<Timeline<T>>)
    requires
        holds_keyframes(c.cursor.bytes@, pos as int),
    ensures
        match r {
            Ok(t) => {
                let keys = tree::array_at(c.cursor.bytes@, pos as int, c.bounds().depth).items;
                &&& keyframes_fault::<T>(c.cursor.bytes@, pos as int, c.bounds()) is None
                &&& t.count() == keys.len()
                &&& forall|i: int|
                    0 <= i < t.count() ==> (#[trigger] t.key(i)).reads(
                        c.cursor.bytes@,
                        keys[i] as int,
                        c.bounds(),
                    )
            },
            Err(e) => keyframes_fault::<T>(c.cursor.bytes@, pos as int, c.bounds()) == Some(e),
        },
{
    let at = match tree::read_array(&c.cursor, pos) {
        Ok(at) => at,
        Err(e) => {
            return Err(e);
        },
    };
    let ghost s = c.cursor.bytes@;
    let ghost m = c.bounds();
    proof {
        tree::lemma_elements_grow(
            s,
            json::after_space(s, pos + 1),
            m.depth,
            Seq::empty(),
        );
    }
    if at.len() > c.max_keyframes {
        return Err(Error::LimitExceeded(Limit::Keyframes));
    }
    let first = match Keyframe::<T>::decode(c, at[0]) {
        Ok(k) => k,
        Err(e) => {
            return Err(e);
        },
    };
    let n: usize = at.len();
    let mut rest: Vec<Keyframe<T>> = Vec::new();
    let mut i: usize = 1;
    while i < n
        invariant
            s == c.cursor.bytes@,
            m == c.bounds(),
            n == at@.len(),
            1 <= i <= n,
            rest@.len() == i - 1,
            forall|j: int| 1 <= j < i ==> (#[trigger] rest@[j - 1]).reads(s, at@[j] as int, m),
            decode::items_fault::<Keyframe<T>>(s, at@, i as int, m) == decode::items_fault::<
                Keyframe<T>,
            >(s, at@, 0, m),
            n <= m.keyframes,
            tree::array_at(s, pos as int, m.depth).scan.fault is None,
            tree::array_at(s, pos as int, m.depth).items == at@,
        decreases n - i,
    {
        match Keyframe::<T>::decode(c, at[i]) {
            Ok(k) => {
                rest.push(k);
            },
            Err(e) => {
                return Err(e);
            },
        }
        i += 1;
    }
    Ok(Timeline { first, rest })
}

/// What a property is at a frame.
pub enum Sample<'a, T> {
    /// No keyframe gives a value.
    Nothing,
    /// A value as it is written.
    Exact(&'a T),
    /// A value on the way from one to another, in the segment that starts at a keyframe.
    Between {
        /// Where the segment starts.
        from: &'a T,
        /// Where the segment ends.
        to: &'a T,
        /// The keyframe at which it starts.
        key: usize,
    },
}

impl<T> Timeline<T> {
    /// The value that holds from the `i`th keyframe on.
    pub open spec fn start_value(&self, i: int) -> Option<T>
        decreases i,
    {
        if i < 0 {
            None
        } else if self.key(i).value is Some {
            self.key(i).value
        } else if i == 0 {
            None
        } else if self.key(i - 1).end is Some {
            self.key(i - 1).end
        } else {
            self.start_value(i - 1)
        }
    }

    /// The value that the segment from the `i`th keyframe leads to.
    pub open spec fn end_value(&self, i: int) -> Option<T> {
        if self.key(i).end is Some {
            self.key(i).end
        } else {
            self.start_value(i + 1)
        }
    }

    /// The last keyframe that is reached at `frame`, counted from the `i`th on.
    pub open spec fn reached(&self, frame: NumberView, i: int) -> int
        decreases self.count() - i,
    {
        if i + 1 < self.count() && !frame.less_than(self.key(i + 1).time@) {
            self.reached(frame, i + 1)
        } else {
            i
        }
    }

    /// True where the value at `frame` stands on a keyframe rather than between two.
    pub open spec fn rests(&self, frame: NumberView) -> bool {
        let i = self.reached(frame, 0);
        ||| frame.less_than(self.first.time@)
        ||| i + 1 == self.count()
        ||| self.key(i).hold
        ||| !self.key(i).time@.less_than(frame)
    }

    /// The `i`th keyframe.
    pub fn key_at(&self, i: usize) -> (k: &Keyframe<T>)
        requires
            i < self.count(),
        ensures
            *k == self.key(i as int),
    {
        if i == 0 {
            &self.first
        } else {
            &self.rest[i - 1]
        }
    }

    /// The value that holds from the `i`th keyframe on.
    pub fn value_from(&self, i: usize) -> (v: Option<&T>)
        requires
            i < self.count(),
        ensures
            match v {
                Some(x) => self.start_value(i as int) == Some(*x),
                None => self.start_value(i as int) is None,
            },
        decreases i,
    {
        match &self.key_at(i).value {
            Some(x) => {
                return Some(x);
            },
            None => {},
        }
        if i == 0 {
            return None;
        }
        match &self.key_at(i - 1).end {
            Some(x) => Some(x),
            None => self.value_from(i - 1),
        }
    }

    /// What the timeline is at `frame`.
    pub fn at(&self, frame: &Number) -> (r: Sample<'_, T>)
        ensures
            ({
                let i = self.reached(frame@, 0);
                match r {
                    Sample::Exact(x) => self.rests(frame@) && self.start_value(i) == Some(*x),
                    Sample::Between { from, to, key } => {
                        &&& !self.rests(frame@)
                        &&& key == i
                        &&& self.start_value(i) == Some(*from)
                        &&& self.end_value(i) == Some(*to)
                    },
                    Sample::Nothing => self.start_value(i) is None || (!self.rests(frame@)
                        && self.end_value(i) is None),
                }
            }),
    {
        let n: usize = self.rest.len();
        let mut i: usize = 0;
        while i < n && !frame.less_than(&self.rest[i].time)
            invariant
                n == self.rest@.len(),
                i <= n,
                self.reached(frame@, i as int) == self.reached(frame@, 0),
            decreases n - i,
        {
            assert(self.key(i + 1) == self.rest@[i as int]);
            i += 1;
            if i < n {
                assert(self.key(i + 1) == self.rest@[i as int]);
            }
        }
        assert(self.reached(frame@, i as int) == i) by {
            if i < n {
                assert(self.key(i + 1) == self.rest@[i as int]);
            }
        }
        let from = match self.value_from(i) {
            Some(x) => x,
            None => {
                return Sample::Nothing;
            },
        };
        if frame.less_than(&self.first.time) || i == n || self.key_at(i).hold || !self.key_at(
            i,
        ).time.less_than(frame) {
            return Sample::Exact(from);
        }
        let to = match &self.key_at(i).end {
            Some(x) => Some(x),
            None => self.value_from(i + 1),
        };
        match to {
            Some(to) => Sample::Between { from, to, key: i },
            None => Sample::Nothing,
        }
    }
}

impl<T> Property<T> {
    /// What the property is at `frame`.
    pub fn at(&self, frame: &Number) -> (r: Sample<'_, T>)
        ensures
            match *self {
                Property::Static(v) => r matches Sample::Exact(x) && *x == v,
                Property::Animated(t) => {
                    let i = t.reached(frame@, 0);
                    match r {
                        Sample::Exact(x) => t.rests(frame@) && t.start_value(i) == Some(*x),
                        Sample::Between { from, to, key } => {
                            &&& !t.rests(frame@)
                            &&& key == i
                            &&& t.start_value(i) == Some(*from)
                            &&& t.end_value(i) == Some(*to)
                        },
                        Sample::Nothing => t.start_value(i) is None || (!t.rests(frame@)
                            && t.end_value(i) is None),
                    }
                },
            },
    {
        match self {
            Property::Static(v) => Sample::Exact(v),
            Property::Animated(t) => t.at(frame),
        }
    }
}

/// A frame at or behind every keyframe's time finds the last keyframe.
pub proof fn law_after_the_last_keyframe<T>(t: Timeline<T>, frame: NumberView, i: int)
    requires
        0 <= i < t.count(),
        forall|j: int| i < j < t.count() ==> !frame.less_than((#[trigger] t.key(j)).time@),
    ensures
        t.reached(frame, i) == t.count() - 1,
    decreases t.count() - i,
{
    if i + 1 < t.count() {
        assert(!frame.less_than(t.key(i + 1).time@));
        law_after_the_last_keyframe(t, frame, i + 1);
    }
}

/// The keyframe that a frame has reached is the last in an unbroken run of keyframes whose time has
/// come: those before it have come, and the next one has not.
pub proof fn law_keyframes_are_reached_in_turn<T>(t: Timeline<T>, frame: NumberView, i: int)
    requires
        0 <= i < t.count(),
    ensures
        ({
            let r = t.reached(frame, i);
            &&& i <= r < t.count()
            &&& forall|j: int|
                i < j <= r ==> {
                    let unit = if frame.scale <= (#[trigger] t.key(j)).time@.scale {
                        frame.scale
                    } else {
                        t.key(j).time@.scale
                    };
                    t.key(j).time@.in_units(unit) <= frame.in_units(unit)
                }
            &&& r + 1 < t.count() ==> frame.less_than(t.key(r + 1).time@)
        }),
    decreases t.count() - i,
{
    if i + 1 < t.count() && !frame.less_than(t.key(i + 1).time@) {
        law_keyframes_are_reached_in_turn(t, frame, i + 1);
    }
}

/// A keyframe's own value holds from it on. One without a value takes that which the keyframe before
/// leads to, or else that which held before.
pub proof fn law_values_hold_until_the_next<T>(t: Timeline<T>, k: int, i: int)
    requires
        0 <= k <= i < t.count(),
        t.key(k).value is Some,
        forall|j: int| k < j <= i ==> (#[trigger] t.key(j)).value is None,
        forall|j: int| k <= j < i ==> (#[trigger] t.key(j)).end is None,
    ensures
        t.start_value(i) == t.key(k).value,
    decreases i - k,
{
    if k < i {
        assert(t.key(i).value is None);
        assert(t.key(i - 1).end is None);
        law_values_hold_until_the_next(t, k, i - 1);
    }
}

/// A segment leads to the value that its keyframe names for its end, or else to the next keyframe's,
/// which takes over an end that is named before it.
pub proof fn law_segments_lead_to_their_end<T>(t: Timeline<T>, i: int)
    requires
        0 <= i,
        i + 1 < t.count(),
    ensures
        t.key(i).end is Some ==> t.end_value(i) == t.key(i).end,
        t.key(i).end is None && t.key(i + 1).value is Some ==> t.end_value(i) == t.key(
            i + 1,
        ).value,
        t.key(i).end is Some && t.key(i + 1).value is None ==> t.start_value(i + 1) == t.key(
            i,
        ).end,
        t.key(0).value is None ==> t.start_value(0) is None,
{
}

/// A value moves only strictly between two keyframes, and not from one that holds. Before the first
/// keyframe, on one, and from the last one on it stands still.
pub proof fn law_values_move_between_keyframes<T>(t: Timeline<T>, frame: NumberView, i: int)
    requires
        i == t.reached(frame, 0),
    ensures
        !t.rests(frame) <==> !frame.less_than(t.first.time@) && i + 1 < t.count() && !t.key(i).hold
            && t.key(i).time@.less_than(frame),
        frame.less_than(t.first.time@) ==> t.rests(frame),
{
    law_keyframes_are_reached_in_turn(t, frame, 0);
}

/// Between two keyframes a property is given as where it comes from and where it leads; at rest it is
/// the value that holds; a property that stands still is its value at every frame.
pub proof fn law_properties_are_sampled<'a, T>(
    p: &'a Property<T>,
    frame: &'a Number,
    r: Sample<'a, T>,
)
    requires
        call_ensures(Property::<T>::at, (p, frame), r),
    ensures
        p is Static ==> r is Exact && *r->Exact_0 == p->Static_0,
        p is Animated ==> {
            let t = p->Animated_0;
            let i = t.reached(frame@, 0);
            &&& t.rests(frame@) && t.start_value(i) is Some ==> r is Exact && *r->Exact_0
                == t.start_value(i)->0
            &&& !t.rests(frame@) && t.start_value(i) is Some && t.end_value(i) is Some ==> {
                &&& r is Between
                &&& *r->from == t.start_value(i)->0
                &&& *r->to == t.end_value(i)->0
                &&& r->key == i
            }
            &&& t.start_value(i) is None ==> r is Nothing
        },
{
}

/// A tangent is read from its members `x` and `y`, each into its own field.
pub proof fn law_tangent_members(v: Tangent, s: Seq<u8>, p: int, m: Bounds)
    requires
        v.reads(s, p, m),
    ensures
        ({
            let members = tree::object_at(s, p, m.depth).items;
            &&& decode::field_reads(v.x, s, members, names::NAME_X, m)
            &&& decode::field_reads(v.y, s, members, names::NAME_Y, m)
        }),
{
}

/// A keyframe is read from its members `t`, `s`, `e`, `o`, `i` and `h`, each into its own field: the time,
/// the value from it on, the value it leads to, how it is left, how the next one is reached, and
/// whether it holds.
pub proof fn law_keyframe_members<T: Decode>(v: Keyframe<T>, s: Seq<u8>, p: int, m: Bounds)
    requires
        v.reads(s, p, m),
    ensures
        ({
            let members = tree::object_at(s, p, m.depth).items;
            &&& decode::field_reads(Some(v.time), s, members, names::NAME_T, m)
            &&& decode::field_reads(v.value, s, members, names::NAME_S, m)
            &&& decode::field_reads(v.end, s, members, names::NAME_E, m)
            &&& decode::field_reads(v.leave, s, members, names::NAME_O, m)
            &&& decode::field_reads(v.arrive, s, members, names::NAME_I, m)
            &&& v.hold == decode::field_flag(s, members, names::NAME_H)
        }),
{
}

/// A property moves where its member `k` is a list that starts with an object, and has one keyframe for
/// each element; otherwise it stands still.
pub proof fn law_lists_of_objects_are_keyframes<T: Decode>(v: Property<T>, s: Seq<u8>, p: int, m: Bounds, k: usize, i: int)
    requires
        v.reads(s, p, m),
        tree::find(tree::object_at(s, p, m.depth).items, names::NAME_K) == Some(k),
    ensures
        v is Animated <==> json::byte_at(s, k as int) == Some(0x5bu8) && json::byte_at(
            s,
            json::after_space(s, k + 1),
        ) == Some(0x7bu8),
        v is Static ==> v->Static_0.reads(s, k as int, m),
        v is Animated ==> v->Animated_0.count() == tree::array_at(s, k as int, m.depth).items.len(),
        v is Animated && 0 <= i < v->Animated_0.count() ==> v->Animated_0.key(i).reads(
            s,
            tree::array_at(s, k as int, m.depth).items[i] as int,
            m,
        ),
{
}

/// Keyframes stand in the order of the list, the first one first.
pub proof fn law_keyframes_stand_in_order<T>(t: Timeline<T>, i: int)
    requires
        0 <= i < t.rest@.len(),
    ensures
        t.count() == 1 + t.rest@.len(),
        t.key(0) == t.first,
        t.key(i + 1) == t.rest@[i],
{
}

} // verus!
