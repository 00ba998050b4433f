//! Reading values of known types out of JSON.

use crate::error::{Error, Result};
use crate::json;
use crate::json::Cursor;
use crate::number::{Number, NumberView};
use crate::tree;
use crate::tree::Member;
use vstd::prelude::*;

verus! {

/// What may be read.
pub struct Bounds {
    /// How many brackets may be open at once.
    pub depth: int,
    /// How many keyframes one property may have.
    pub keyframes: int,
    /// How many shapes one layer may have.
    pub shapes: int,
}

/// A cursor, and the bounds that reading through it keeps to.
#[derive(Clone, Copy)]
pub struct Reader<'a> {
    /// The input.
    pub cursor: Cursor<'a>,
    /// How many keyframes one property may have.
    pub max_keyframes: usize,
    /// How many shapes one layer may have.
    pub max_shapes: usize,
}

impl<'a> Reader<'a> {
    /// The bounds on what is read.
    pub open spec fn bounds(self) -> Bounds {
        Bounds {
            depth: self.cursor.max_depth as int,
            keyframes: self.max_keyframes as int,
            shapes: self.max_shapes as int,
        }
    }
}

/// A type whose values are read from a position in the input.
pub trait Decode: Sized {
    /// The error that reading at `p` reports, or nothing where a value stands there.
    spec fn fault(s: Seq<u8>, p: int, m: Bounds) -> Option<Error>;

    /// True where this is the value that stands at `p`.
    spec fn reads(&self, s: Seq<u8>, p: int, m: Bounds) -> bool;

    /// True where this value and another hold the same of what is read.
    spec fn same(&self, other: &Self) -> bool;

    /// One place holds one value: two that are read from it are the same.
    proof fn one_value(a: Self, b: Self, s: Seq<u8>, p: int, m: Bounds)
        requires
            a.reads(s, p, m),
            b.reads(s, p, m),
        ensures
            a.same(&b),
    ;

    /// Reads the value at `pos`.
    fn decode(c: &Reader<'_>, pos: usize) -> (r: Result<Self>)
        ensures
            match r {
                Ok(v) => Self::fault(c.cursor.bytes@, pos as int, c.bounds()) is None && v.reads(
                    c.cursor.bytes@,
                    pos as int,
                    c.bounds(),
                ),
                Err(e) => Self::fault(c.cursor.bytes@, pos as int, c.bounds()) == Some(e),
            },
    ;
}

/// True where two optional values are the same.
pub open spec fn same_option<T: Decode>(a: Option<T>, b: Option<T>) -> bool {
    match (a, b) {
        (Some(x), Some(y)) => x.same(&y),
        (None, None) => true,
        _ => false,
    }
}

/// True where two lists hold the same values.
pub open spec fn same_list<T: Decode>(a: Seq<T>, b: Seq<T>) -> bool {
    a.len() == b.len() && forall|i: int| 0 <= i < a.len() ==> (#[trigger] a[i]).same(&b[i])
}

/// A list holds the same values whenever it is read.
pub proof fn lemma_list_same<T: Decode>(a: Seq<T>, b: Seq<T>, s: Seq<u8>, p: int, m: Bounds)
    requires
        list_reads(a, s, p, m),
        list_reads(b, s, p, m),
    ensures
        same_list(a, b),
{
    let found = tree::array_at(s, p, m.depth);
    assert forall|i: int| 0 <= i < a.len() implies (#[trigger] a[i]).same(&b[i]) by {
        assert(b[i].reads(s, found.items[i] as int, m));
        T::one_value(a[i], b[i], s, found.items[i] as int, m);
    }
}

/// A member holds the same value whenever it is read.
pub proof fn lemma_field_same<T: Decode>(
    a: Option<T>,
    b: Option<T>,
    s: Seq<u8>,
    members: Seq<Member>,
    name: u128,
    m: Bounds,
)
    requires
        field_reads(a, s, members, name, m),
        field_reads(b, s, members, name, m),
    ensures
        same_option(a, b),
{
    match tree::find(members, name) {
        Some(at) => T::one_value(a->0, b->0, s, at as int, m),
        None => {},
    }
}

/// A member that is a list holds the same values whenever it is read.
pub proof fn lemma_field_list_same<T: Decode>(
    a: Seq<T>,
    b: Seq<T>,
    s: Seq<u8>,
    members: Seq<Member>,
    name: u128,
    m: Bounds,
)
    requires
        field_list_reads(a, s, members, name, m),
        field_list_reads(b, s, members, name, m),
    ensures
        same_list(a, b),
{
    match tree::find(members, name) {
        Some(at) => lemma_list_same(a, b, s, at as int, m),
        None => {},
    }
}

/// The first of two faults.
pub open spec fn either(first: Option<Error>, second: Option<Error>) -> Option<Error> {
    if first is Some {
        first
    } else {
        second
    }
}

/// The first fault among the values at `at`, from the `i`th on.
pub open spec fn items_fault<T: Decode>(s: Seq<u8>, at: Seq<usize>, i: int, m: Bounds) -> Option<Error>
    decreases at.len() - i,
{
    if i < 0 || i >= at.len() {
        None
    } else {
        either(T::fault(s, at[i] as int, m), items_fault::<T>(s, at, i + 1, m))
    }
}

/// The error that reading a list at `p` reports.
pub open spec fn list_fault<T: Decode>(s: Seq<u8>, p: int, m: Bounds) -> Option<Error> {
    let found = tree::array_at(s, p, m.depth);
    either(found.scan.fault, items_fault::<T>(s, found.items, 0, m))
}

/// True where `v` holds the values of the list at `p`.
pub open spec fn list_reads<T: Decode>(v: Seq<T>, s: Seq<u8>, p: int, m: Bounds) -> bool {
    let found = tree::array_at(s, p, m.depth);
    v.len() == found.items.len() && forall|i: int|
        0 <= i < v.len() ==> (#[trigger] v[i]).reads(s, found.items[i] as int, m)
}

/// Reads the list at `pos`.
pub fn decode_list<T: Decode>(c: &Reader<'_>, pos: usize) -> (r: Result<Vec<T>>)
    ensures
        match r {
            Ok(v) => list_fault::<T>(c.cursor.bytes@, pos as int, c.bounds()) is None
                && list_reads(v@, c.cursor.bytes@, pos as int, c.bounds()),
            Err(e) => list_fault::<T>(c.cursor.bytes@, pos as int, c.bounds()) == Some(e),
        },
{
    let at = match tree::read_array(&c.cursor, pos) {
        Ok(at) => at,
        Err(e) => {
            return Err(e);
        },
    };
    let ghost s = c.cursor.bytes@;
    let ghost m = c.bounds();
    let n: usize = at.len();
    let mut v: Vec<T> = Vec::new();
    let mut i: usize = 0;
    while i < n
        invariant
            s == c.cursor.bytes@,
            m == c.bounds(),
            n == at@.len(),
            i <= n,
            v@.len() == i,
            forall|j: int| 0 <= j < i ==> (#[trigger] v@[j]).reads(s, at@[j] as int, m),
            items_fault::<T>(s, at@, i as int, m) == items_fault::<T>(s, at@, 0, m),
            tree::array_at(s, pos as int, m.depth).scan.fault is None,
            tree::array_at(s, pos as int, m.depth).items == at@,
        decreases n - i,
    {
        match T::decode(c, at[i]) {
            Ok(item) => {
                v.push(item);
            },
            Err(e) => {
                return Err(e);
            },
        }
        i += 1;
    }
    Ok(v)
}

/// The error that reading a member reports; one that is missing reports none.
pub open spec fn field_fault<T: Decode>(
    s: Seq<u8>,
    members: Seq<Member>,
    name: u128,
    m: Bounds,
) -> Option<Error> {
    match tree::find(members, name) {
        Some(at) => T::fault(s, at as int, m),
        None => None,
    }
}

/// True where `v` is the value of a member, or nothing where it is missing.
pub open spec fn field_reads<T: Decode>(
    v: Option<T>,
    s: Seq<u8>,
    members: Seq<Member>,
    name: u128,
    m: Bounds,
) -> bool {
    match tree::find(members, name) {
        Some(at) => v is Some && v->0.reads(s, at as int, m),
        None => v is None,
    }
}

/// Reads a member.
pub fn decode_field<T: Decode>(c: &Reader<'_>, members: &Vec<Member>, name: u128) -> (r: Result<
    Option<T>,
>)
    ensures
        match r {
            Ok(v) => field_fault::<T>(c.cursor.bytes@, members@, name, c.bounds()) is None
                && field_reads(v, c.cursor.bytes@, members@, name, c.bounds()),
            Err(e) => field_fault::<T>(c.cursor.bytes@, members@, name, c.bounds()) == Some(e),
        },
{
    match tree::find_member(members, name) {
        Some(at) => {
            match T::decode(c, at) {
                Ok(v) => Ok(Some(v)),
                Err(e) => Err(e),
            }
        },
        None => Ok(None),
    }
}

impl Decode for Number {
    open spec fn fault(s: Seq<u8>, p: int, m: Bounds) -> Option<Error> {
        json::number_scan(s, p).fault
    }

    open spec fn reads(&self, s: Seq<u8>, p: int, m: Bounds) -> bool {
        self@ == json::number_at(s, p)
    }

    open spec fn same(&self, other: &Number) -> bool {
        self@ == other@
    }

    proof fn one_value(a: Number, b: Number, s: Seq<u8>, p: int, m: Bounds) {
    }

    fn decode(c: &Reader<'_>, pos: usize) -> (r: Result<Number>) {
        let mut at = c.cursor.fork_at(pos);
        at.read_number()
    }
}

/// One number or a list of them.
pub struct Values {
    /// The numbers.
    pub items: Vec<Number>,
}

/// True where `p` holds an opening square bracket.
pub open spec fn opens_list(s: Seq<u8>, p: int) -> bool {
    json::byte_at(s, p) == Some(0x5bu8)
}

impl Decode for Values {
    open spec fn fault(s: Seq<u8>, p: int, m: Bounds) -> Option<Error> {
        if opens_list(s, p) {
            list_fault::<Number>(s, p, m)
        } else {
            Number::fault(s, p, m)
        }
    }

    open spec fn reads(&self, s: Seq<u8>, p: int, m: Bounds) -> bool {
        if opens_list(s, p) {
            list_reads(self.items@, s, p, m)
        } else {
            self.items@.len() == 1 && self.items@[0].reads(s, p, m)
        }
    }

    open spec fn same(&self, other: &Values) -> bool {
        same_list(self.items@, other.items@)
    }

    proof fn one_value(a: Values, b: Values, s: Seq<u8>, p: int, m: Bounds) {
        if opens_list(s, p) {
            lemma_list_same(a.items@, b.items@, s, p, m);
        }
    }

    fn decode(c: &Reader<'_>, pos: usize) -> (r: Result<Values>) {
        if c.cursor.fork_at(pos).peek() == Some(0x5bu8) {
            match decode_list(c, pos) {
                Ok(items) => Ok(Values { items }),
                Err(e) => Err(e),
            }
        } else {
            match Number::decode(c, pos) {
                Ok(n) => {
                    let mut items: Vec<Number> = Vec::new();
                    items.push(n);
                    Ok(Values { items })
                },
                Err(e) => Err(e),
            }
        }
    }
}

/// A boolean, or a number that stands for one.
pub struct Flag {
    /// The boolean.
    pub set: bool,
}

/// True where `true`, or a number that starts with a digit other than zero, stands at `p`.
pub open spec fn flag_at(s: Seq<u8>, p: int) -> bool {
    match json::byte_at(s, p) {
        Some(b) => b == 0x74 || (b >= 0x31 && b <= 0x39),
        None => false,
    }
}

/// The boolean that a member holds; one that is missing is false.
pub open spec fn field_flag(s: Seq<u8>, members: Seq<Member>, name: u128) -> bool {
    match tree::find(members, name) {
        Some(at) => flag_at(s, at as int),
        None => false,
    }
}

/// Reads a member that holds a boolean.
pub fn decode_flag(c: &Reader<'_>, members: &Vec<Member>, name: u128) -> (r: Result<bool>)
    ensures
        match r {
            Ok(v) => field_fault::<Flag>(c.cursor.bytes@, members@, name, c.bounds()) is None && v
                == field_flag(c.cursor.bytes@, members@, name),
            Err(e) => field_fault::<Flag>(c.cursor.bytes@, members@, name, c.bounds()) == Some(e),
        },
{
    match decode_field::<Flag>(c, members, name) {
        Ok(Some(flag)) => Ok(flag.set),
        Ok(None) => Ok(false),
        Err(e) => Err(e),
    }
}

impl Decode for Flag {
    open spec fn fault(s: Seq<u8>, p: int, m: Bounds) -> Option<Error> {
        json::value_scan(s, p, m.depth).fault
    }

    open spec fn reads(&self, s: Seq<u8>, p: int, m: Bounds) -> bool {
        self.set == flag_at(s, p)
    }

    open spec fn same(&self, other: &Flag) -> bool {
        self.set == other.set
    }

    proof fn one_value(a: Flag, b: Flag, s: Seq<u8>, p: int, m: Bounds) {
    }

    fn decode(c: &Reader<'_>, pos: usize) -> (r: Result<Flag>) {
        let mut at = c.cursor.fork_at(pos);
        match at.skip_value() {
            Ok(_) => {},
            Err(e) => {
                return Err(e);
            },
        }
        let set = match c.cursor.fork_at(pos).peek() {
            Some(b) => b == 0x74 || (b >= 0x31 && b <= 0x39),
            None => false,
        };
        Ok(Flag { set })
    }
}

/// The raw bytes of a string.
pub struct Text {
    /// The bytes between the quotes, escapes left as they are.
    pub bytes: Vec<u8>,
}

impl Decode for Text {
    open spec fn fault(s: Seq<u8>, p: int, m: Bounds) -> Option<Error> {
        json::string_scan(s, p).fault
    }

    open spec fn reads(&self, s: Seq<u8>, p: int, m: Bounds) -> bool {
        self.bytes@ == json::string_bytes(s, p)
    }

    open spec fn same(&self, other: &Text) -> bool {
        self.bytes@ == other.bytes@
    }

    proof fn one_value(a: Text, b: Text, s: Seq<u8>, p: int, m: Bounds) {
    }

    fn decode(c: &Reader<'_>, pos: usize) -> (r: Result<Text>) {
        let mut at = c.cursor.fork_at(pos);
        match at.read_string_bytes() {
            Ok(bytes) => Ok(Text { bytes: copied(bytes) }),
            Err(e) => Err(e),
        }
    }
}

/// A copy of some bytes.
pub fn copied(bytes: &[u8]) -> (v: Vec<u8>)
    ensures
        v@ == bytes@,
{
    let n: usize = bytes.len();
    let mut v: Vec<u8> = Vec::new();
    let mut i: usize = 0;
    while i < n
        invariant
            n == bytes@.len(),
            i <= n,
            v@ == bytes@.take(i as int),
        decreases n - i,
    {
        v.push(bytes[i]);
        i += 1;
        assert(v@ =~= bytes@.take(i as int));
    }
    assert(v@ =~= bytes@);
    v
}

/// A small whole number that selects something; larger ones all read as the largest.
pub struct Code {
    /// The number.
    pub value: u32,
}

/// The code that a number stands for: its whole part, none where it lies below zero.
pub open spec fn code_of(n: NumberView) -> int {
    if n.below_zero() {
        0
    } else if n.whole() > u32::MAX {
        u32::MAX as int
    } else {
        n.whole()
    }
}

/// Turns a number into a code.
pub fn to_code(n: &Number) -> (v: u32)
    ensures
        v == code_of(n@),
{
    if n.below_zero() {
        return 0;
    }
    match n.whole_at_most(u32::MAX as u64) {
        Some(w) => w as u32,
        None => u32::MAX,
    }
}

impl Decode for Code {
    open spec fn fault(s: Seq<u8>, p: int, m: Bounds) -> Option<Error> {
        Number::fault(s, p, m)
    }

    open spec fn reads(&self, s: Seq<u8>, p: int, m: Bounds) -> bool {
        self.value == code_of(json::number_at(s, p))
    }

    open spec fn same(&self, other: &Code) -> bool {
        self.value == other.value
    }

    proof fn one_value(a: Code, b: Code, s: Seq<u8>, p: int, m: Bounds) {
    }

    fn decode(c: &Reader<'_>, pos: usize) -> (r: Result<Code>) {
        match Number::decode(c, pos) {
            Ok(n) => Ok(Code { value: to_code(&n) }),
            Err(e) => Err(e),
        }
    }
}

/// The code that a member holds; one that is missing is `default`.
pub open spec fn field_code(s: Seq<u8>, members: Seq<Member>, name: u128, default: u32) -> int {
    match tree::find(members, name) {
        Some(at) => code_of(json::number_at(s, at as int)),
        None => default as int,
    }
}

/// Reads a member that holds a code.
pub fn decode_code(c: &Reader<'_>, members: &Vec<Member>, name: u128, default: u32) -> (r: Result<
    u32,
>)
    ensures
        match r {
            Ok(v) => field_fault::<Code>(c.cursor.bytes@, members@, name, c.bounds()) is None && v
                == field_code(c.cursor.bytes@, members@, name, default),
            Err(e) => field_fault::<Code>(c.cursor.bytes@, members@, name, c.bounds()) == Some(e),
        },
{
    match decode_field::<Code>(c, members, name) {
        Ok(Some(code)) => Ok(code.value),
        Ok(None) => Ok(default),
        Err(e) => Err(e),
    }
}

/// A list of values of one type.
pub struct List<T> {
    /// The values.
    pub items: Vec<T>,
}

impl<T: Decode> Decode for List<T> {
    open spec fn fault(s: Seq<u8>, p: int, m: Bounds) -> Option<Error> {
        list_fault::<T>(s, p, m)
    }

    open spec fn reads(&self, s: Seq<u8>, p: int, m: Bounds) -> bool {
        list_reads(self.items@, s, p, m)
    }

    open spec fn same(&self, other: &List<T>) -> bool {
        same_list(self.items@, other.items@)
    }

    proof fn one_value(a: List<T>, b: List<T>, s: Seq<u8>, p: int, m: Bounds) {
        lemma_list_same(a.items@, b.items@, s, p, m);
    }

    fn decode(c: &Reader<'_>, pos: usize) -> (r: Result<List<T>>) {
        match decode_list(c, pos) {
            Ok(items) => Ok(List { items }),
            Err(e) => Err(e),
        }
    }
}

/// True where `v` holds the values of a member that is a list, or none where it is missing.
pub open spec fn field_list_reads<T: Decode>(
    v: Seq<T>,
    s: Seq<u8>,
    members: Seq<Member>,
    name: u128,
    m: Bounds,
) -> bool {
    match tree::find(members, name) {
        Some(at) => list_reads(v, s, at as int, m),
        None => v.len() == 0,
    }
}

/// Reads a member that is a list.
pub fn decode_field_list<T: Decode>(c: &Reader<'_>, members: &Vec<Member>, name: u128) -> (r: Result<
    Vec<T>,
>)
    ensures
        match r {
            Ok(v) => field_fault::<List<T>>(c.cursor.bytes@, members@, name, c.bounds()) is None
                && field_list_reads(v@, c.cursor.bytes@, members@, name, c.bounds()),
            Err(e) => field_fault::<List<T>>(c.cursor.bytes@, members@, name, c.bounds()) == Some(e),
        },
{
    match decode_field::<List<T>>(c, members, name) {
        Ok(Some(list)) => Ok(list.items),
        Ok(None) => Ok(Vec::new()),
        Err(e) => Err(e),
    }
}

/// A code is the whole part of a number, no less than zero and no more than the top of the range.
pub proof fn law_codes_are_whole_parts(n: NumberView)
    ensures
        !n.below_zero() && 0 <= n.whole() <= u32::MAX ==> code_of(n) == n.whole(),
        !n.below_zero() && n.whole() >= u32::MAX ==> code_of(n) == u32::MAX,
        n.below_zero() ==> code_of(n) == 0,
{
}

/// A boolean is set where it is written as `true` or as a number that starts with a digit from 1 to 9,
/// and in no other case.
pub proof fn law_flags_are_true_or_nonzero(s: Seq<u8>, p: int)
    ensures
        !(0 <= p < s.len()) ==> !flag_at(s, p),
        0 <= p < s.len() ==> (flag_at(s, p) <==> s[p] == 0x74 || 0x31 <= s[p] <= 0x39),
{
}

/// The first of several faults is the one that is reported.
pub proof fn law_the_first_fault_is_reported<T: Decode>(s: Seq<u8>, at: Seq<usize>, i: int, k: int, m: Bounds)
    requires
        0 <= i <= k < at.len(),
        T::fault(s, at[k] as int, m) is Some,
        forall|j: int| i <= j < k ==> T::fault(s, (#[trigger] at[j]) as int, m) is None,
    ensures
        items_fault::<T>(s, at, i, m) == T::fault(s, at[k] as int, m),
    decreases k - i,
{
    if i < k {
        assert(T::fault(s, at[i] as int, m) is None);
        law_the_first_fault_is_reported::<T>(s, at, i + 1, k, m);
    }
}

/// Values without a fault are read without one.
pub proof fn law_no_fault_is_made_up<T: Decode>(s: Seq<u8>, at: Seq<usize>, i: int, m: Bounds)
    requires
        0 <= i <= at.len(),
        forall|j: int| i <= j < at.len() ==> T::fault(s, (#[trigger] at[j]) as int, m) is None,
    ensures
        items_fault::<T>(s, at, i, m) is None,
    decreases at.len() - i,
{
    if i < at.len() {
        assert(T::fault(s, at[i] as int, m) is None);
        law_no_fault_is_made_up::<T>(s, at, i + 1, m);
    }
}

/// A member that is missing is read as nothing, as unset, and as the code that stands in for it; it
/// reports no fault.
pub proof fn law_missing_members_are_read_as_nothing(s: Seq<u8>, members: Seq<Member>, name: u128, default: u32, m: Bounds)
    requires
        tree::find(members, name) is None,
    ensures
        field_reads::<Text>(None, s, members, name, m),
        !field_flag(s, members, name),
        field_code(s, members, name, default) == default,
        field_fault::<Text>(s, members, name, m) is None,
{
}

/// A list opens with a square bracket. A member that is there is read where it stands, into a value or
/// into a list; a list that is missing is empty.
pub proof fn law_members_are_read_where_they_stand(v: Number, list: Seq<Number>, s: Seq<u8>, members: Seq<Member>, name: u128, at: usize, m: Bounds)
    ensures
        opens_list(s, at as int) <==> at < s.len() && s[at as int] == 91,
        tree::find(members, name) == Some(at) ==> (field_reads(Some(v), s, members, name, m) <==> v.reads(
            s,
            at as int,
            m,
        )) && !field_reads::<Number>(None, s, members, name, m),
        tree::find(members, name) == Some(at) && field_list_reads(list, s, members, name, m)
            ==> list_reads(list, s, at as int, m),
        tree::find(members, name) is None && field_list_reads(list, s, members, name, m) ==> list.len()
            == 0,
        tree::find(members, name) is None ==> field_list_reads(Seq::<Number>::empty(), s, members, name, m),
{
}

} // verus!
