//! Objects and arrays: where their members stand.
//!
//! The members of an object come in any order, so an object is scanned once for the positions of its
//! values, and each value is then read from its own position.

use crate::error::{JsonErrorKind, Result};
use crate::json;
use crate::json::{Cursor, Scan};
use vstd::prelude::*;

verus! {

/// One member of an object.
#[derive(Clone, Copy, Debug, PartialEq, Eq, Structural)]
pub struct Member {
    /// The name, packed into a number by [`packed_name`].
    pub name: u128,
    /// Where the value stands.
    pub value: usize,
}

/// The longest name that can be told apart.
pub const MAX_NAME: usize = 15;

/// The bytes of a name behind a leading one, as one number.
pub open spec fn fold_name(name: Seq<u8>) -> nat
    decreases name.len(),
{
    if name.len() == 0 {
        1
    } else {
        fold_name(name.drop_last()) * 256 + name.last() as nat
    }
}

/// A name as a number. Names too long to matter are all zero.
pub open spec fn packed_name(name: Seq<u8>) -> u128 {
    if name.len() <= MAX_NAME {
        fold_name(name) as u128
    } else {
        0
    }
}

/// A power of 256.
pub open spec fn pow256(n: nat) -> nat
    decreases n,
{
    if n == 0 {
        1
    } else {
        256 * pow256((n - 1) as nat)
    }
}

proof fn lemma_fold_bounds(name: Seq<u8>)
    ensures
        pow256(name.len()) <= fold_name(name) < 2 * pow256(name.len()),
    decreases name.len(),
{
    if name.len() > 0 {
        lemma_fold_bounds(name.drop_last());
    }
}

proof fn lemma_pow256_step(m: nat, n: nat)
    requires
        m < n,
    ensures
        2 * pow256(m) <= pow256(n),
    decreases n,
{
    if m + 1 < n {
        lemma_pow256_step(m, (n - 1) as nat);
    }
}

proof fn lemma_pow256_15()
    ensures
        pow256(15) == 0x1_00_0000_0000_0000_0000_0000_0000_0000,
{
    reveal_with_fuel(pow256, 16);
}

proof fn lemma_fold_injective(a: Seq<u8>, b: Seq<u8>)
    requires
        fold_name(a) == fold_name(b),
    ensures
        a == b,
    decreases a.len(),
{
    lemma_fold_bounds(a);
    lemma_fold_bounds(b);
    if a.len() < b.len() {
        lemma_pow256_step(a.len(), b.len());
    } else if b.len() < a.len() {
        lemma_pow256_step(b.len(), a.len());
    } else if a.len() > 0 {
        lemma_fold_injective(a.drop_last(), b.drop_last());
        assert(a =~= a.drop_last().push(a.last()));
        assert(b =~= b.drop_last().push(b.last()));
    } else {
        assert(a =~= b);
    }
}

/// Two names of up to fifteen bytes that are packed alike are the same name.
pub proof fn law_packed_names_are_names(a: Seq<u8>, b: Seq<u8>)
    requires
        a.len() <= MAX_NAME,
        b.len() <= MAX_NAME,
        packed_name(a) == packed_name(b),
    ensures
        a == b,
{
    lemma_fold_bounds(a);
    lemma_fold_bounds(b);
    lemma_pow256_15();
    if a.len() < 15 {
        lemma_pow256_step(a.len(), 15);
    }
    if b.len() < 15 {
        lemma_pow256_step(b.len(), 15);
    }
    lemma_fold_injective(a, b);
}

/// Packs a name.
pub fn pack_name(name: &[u8]) -> (n: u128)
    ensures
        n == packed_name(name@),
{
    let len: usize = name.len();
    if len > MAX_NAME {
        return 0;
    }
    let mut n: u128 = 1;
    let mut i: usize = 0;
    assert(name@.take(0) =~= Seq::<u8>::empty());
    proof {
        lemma_pow256_15();
    }
    while i < len
        invariant
            len == name@.len() <= 15,
            i <= len,
            n == fold_name(name@.take(i as int)),
            pow256(15) == 0x1_00_0000_0000_0000_0000_0000_0000_0000,
        decreases len - i,
    {
        proof {
            assert(name@.take(i + 1).drop_last() =~= name@.take(i as int));
            lemma_fold_bounds(name@.take(i as int));
            if i < 14 {
                lemma_pow256_step((i + 1) as nat, 15);
            }
            assert(pow256((i + 1) as nat) == 256 * pow256(i as nat));
        }
        n = n * 256 + name[i] as u128;
        i += 1;
    }
    assert(name@.take(len as int) =~= name@);
    n
}

/// What a scan of an object or array finds.
pub struct Found<T> {
    /// The members that were seen, in the order of the input.
    pub items: Seq<T>,
    /// Where the scan ends.
    pub scan: Scan,
}

/// The rest of an object from the name at `p` on, after the members in `seen`.
pub open spec fn members_from(s: Seq<u8>, p: int, m: int, seen: Seq<Member>) -> Found<Member>
    decreases s.len() - p,
{
    let k = json::after_space(s, p);
    let name = json::string_scan(s, k);
    let colon = json::after_space(s, name.end);
    let value = json::after_space(s, colon + 1);
    let skipped = json::value_scan(s, value, m);
    let next = json::after_space(s, skipped.end);
    let member = Member {
        name: packed_name(json::string_bytes(s, k)),
        value: value as usize,
    };
    if name.fault is Some {
        Found { items: seen, scan: name }
    } else if json::byte_at(s, colon) != Some(0x3au8) {
        Found { items: seen, scan: json::unexpected(s, colon) }
    } else if skipped.fault is Some {
        Found { items: seen, scan: skipped }
    } else if json::byte_at(s, next) == Some(0x2cu8) && next + 1 > p {
        members_from(s, next + 1, m, seen.push(member))
    } else if json::byte_at(s, next) == Some(0x7du8) {
        Found { items: seen.push(member), scan: json::done(next + 1) }
    } else {
        Found { items: seen, scan: json::unexpected(s, next) }
    }
}

/// The object at `p`.
pub open spec fn object_at(s: Seq<u8>, p: int, m: int) -> Found<Member> {
    let first = json::after_space(s, p + 1);
    if json::byte_at(s, p) != Some(0x7bu8) {
        Found { items: Seq::empty(), scan: json::unexpected(s, p) }
    } else if json::byte_at(s, first) == Some(0x7du8) {
        Found { items: Seq::empty(), scan: json::done(first + 1) }
    } else {
        members_from(s, first, m, Seq::empty())
    }
}

/// The rest of an array from the element at `p` on, after the elements in `seen`.
pub open spec fn elements_from(s: Seq<u8>, p: int, m: int, seen: Seq<usize>) -> Found<usize>
    decreases s.len() - p,
{
    let value = json::after_space(s, p);
    let skipped = json::value_scan(s, value, m);
    let next = json::after_space(s, skipped.end);
    if skipped.fault is Some {
        Found { items: seen, scan: skipped }
    } else if json::byte_at(s, next) == Some(0x2cu8) && next + 1 > p {
        elements_from(s, next + 1, m, seen.push(value as usize))
    } else if json::byte_at(s, next) == Some(0x5du8) {
        Found { items: seen.push(value as usize), scan: json::done(next + 1) }
    } else {
        Found { items: seen, scan: json::unexpected(s, next) }
    }
}

/// Whatever was seen stays seen, and a list that is read from its first element on is not empty.
pub proof fn lemma_elements_grow(s: Seq<u8>, p: int, m: int, seen: Seq<usize>)
    ensures
        elements_from(s, p, m, seen).items.len() >= seen.len(),
        elements_from(s, p, m, seen).scan.fault is None ==> elements_from(s, p, m, seen).items.len()
            > seen.len(),
    decreases s.len() - p,
{
    let value = json::after_space(s, p);
    let skipped = json::value_scan(s, value, m);
    let next = json::after_space(s, skipped.end);
    if skipped.fault is None && json::byte_at(s, next) == Some(0x2cu8) && next + 1 > p {
        lemma_elements_grow(s, next + 1, m, seen.push(value as usize));
    }
}

/// The array at `p`.
pub open spec fn array_at(s: Seq<u8>, p: int, m: int) -> Found<usize> {
    let first = json::after_space(s, p + 1);
    if json::byte_at(s, p) != Some(0x5bu8) {
        Found { items: Seq::empty(), scan: json::unexpected(s, p) }
    } else if json::byte_at(s, first) == Some(0x5du8) {
        Found { items: Seq::empty(), scan: json::done(first + 1) }
    } else {
        elements_from(s, first, m, Seq::empty())
    }
}

/// The fault of a scan, and its items where there is none.
pub open spec fn yields<T>(found: Found<T>, r: Result<Vec<T>>) -> bool {
    match r {
        Ok(v) => found.scan.fault is None && v@ == found.items,
        Err(e) => found.scan.fault == Some(e),
    }
}

/// The members of the object at `pos`.
pub fn read_object(c: &Cursor<'_>, pos: usize) -> (r: Result<Vec<Member>>)
    ensures
        yields(object_at(c.bytes@, pos as int, c.max_depth as int), r),
{
    let ghost s = c.bytes@;
    let ghost m = c.max_depth as int;
    let mut at = c.fork_at(pos);
    let mut seen: Vec<Member> = Vec::new();
    match at.expect(0x7b) {
        Ok(_) => {},
        Err(e) => {
            return Err(e);
        },
    }
    proof {
        json::lemma_after_space(s, pos + 1);
    }
    at.skip_ws();
    if at.peek() == Some(0x7du8) {
        return Ok(seen);
    }
    loop
        invariant
            at.same_input(*c),
            s == c.bytes@,
            m == c.max_depth,
            at.pos <= s.len(),
            members_from(s, at.pos as int, m, seen@) == object_at(s, pos as int, m),
        decreases s.len() - at.pos,
    {
        let ghost p = at.pos as int;
        at.skip_ws();
        let ghost k = at.pos as int;
        proof {
            json::lemma_after_space(s, p);
            json::lemma_closing_quote(s, k + 1);
        }
        let name = match at.read_string_bytes() {
            Ok(text) => pack_name(text),
            Err(e) => {
                return Err(e);
            },
        };
        proof {
            json::lemma_after_space(s, at.pos as int);
        }
        at.skip_ws();
        match at.expect(0x3a) {
            Ok(_) => {},
            Err(e) => {
                return Err(e);
            },
        }
        proof {
            json::lemma_after_space(s, at.pos as int);
        }
        at.skip_ws();
        let value: usize = at.pos;
        proof {
            json::law_skipping_advances(s, value as int, m);
        }
        match at.skip_value() {
            Ok(_) => {},
            Err(e) => {
                return Err(e);
            },
        }
        proof {
            json::lemma_after_space(s, at.pos as int);
        }
        at.skip_ws();
        match at.peek() {
            Some(b) => {
                if b == 0x2c {
                    seen.push(Member { name, value });
                    let _ = at.bump();
                } else if b == 0x7d {
                    seen.push(Member { name, value });
                    return Ok(seen);
                } else {
                    return Err(at.err(JsonErrorKind::UnexpectedByte(b)));
                }
            },
            None => {
                return Err(at.err(JsonErrorKind::UnexpectedEof));
            },
        }
    }
}

/// The positions of the elements of the array at `pos`.
pub fn read_array(c: &Cursor<'_>, pos: usize) -> (r: Result<Vec<usize>>)
    ensures
        yields(array_at(c.bytes@, pos as int, c.max_depth as int), r),
{
    let ghost s = c.bytes@;
    let ghost m = c.max_depth as int;
    let mut at = c.fork_at(pos);
    let mut seen: Vec<usize> = Vec::new();
    match at.expect(0x5b) {
        Ok(_) => {},
        Err(e) => {
            return Err(e);
        },
    }
    proof {
        json::lemma_after_space(s, pos + 1);
    }
    at.skip_ws();
    if at.peek() == Some(0x5du8) {
        return Ok(seen);
    }
    loop
        invariant
            at.same_input(*c),
            s == c.bytes@,
            m == c.max_depth,
            at.pos <= s.len(),
            elements_from(s, at.pos as int, m, seen@) == array_at(s, pos as int, m),
        decreases s.len() - at.pos,
    {
        let ghost p = at.pos as int;
        proof {
            json::lemma_after_space(s, p);
        }
        at.skip_ws();
        let value: usize = at.pos;
        proof {
            json::law_skipping_advances(s, value as int, m);
        }
        match at.skip_value() {
            Ok(_) => {},
            Err(e) => {
                return Err(e);
            },
        }
        proof {
            json::lemma_after_space(s, at.pos as int);
        }
        at.skip_ws();
        match at.peek() {
            Some(b) => {
                if b == 0x2c {
                    seen.push(value);
                    let _ = at.bump();
                } else if b == 0x5d {
                    seen.push(value);
                    return Ok(seen);
                } else {
                    return Err(at.err(JsonErrorKind::UnexpectedByte(b)));
                }
            },
            None => {
                return Err(at.err(JsonErrorKind::UnexpectedEof));
            },
        }
    }
}

/// Where the last member of that name has its value.
pub open spec fn find(members: Seq<Member>, name: u128) -> Option<usize>
    decreases members.len(),
{
    if members.len() == 0 {
        None
    } else if members.last().name == name {
        Some(members.last().value)
    } else {
        find(members.drop_last(), name)
    }
}

/// Finds the value of the last member of that name.
pub fn find_member(members: &Vec<Member>, name: u128) -> (v: Option<usize>)
    ensures
        v == find(members@, name),
{
    let mut n: usize = members.len();
    assert(members@.take(n as int) =~= members@);
    while n > 0
        invariant
            n <= members@.len(),
            find(members@.take(n as int), name) == find(members@, name),
        decreases n,
    {
        assert(members@.take(n as int).drop_last() =~= members@.take(n - 1));
        if members[n - 1].name == name {
            return Some(members[n - 1].value);
        }
        n -= 1;
    }
    None
}

/// Of members of one name the last one counts; a name that no member has is not found.
pub proof fn law_the_last_member_of_a_name_counts(members: Seq<Member>, name: u128, i: int)
    ensures
        0 <= i < members.len() && members[i].name == name && (forall|k: int|
            i < k < members.len() ==> (#[trigger] members[k]).name != name) ==> find(members, name)
            == Some(members[i].value),
        (forall|k: int| 0 <= k < members.len() ==> (#[trigger] members[k]).name != name) ==> find(
            members,
            name,
        ) is None,
    decreases members.len(),
{
    if members.len() > 0 {
        let before = members.drop_last();
        law_the_last_member_of_a_name_counts(before, name, i);
        assert(members[members.len() - 1] == members.last());
        if 0 <= i && forall|k: int|
            i < k < members.len() ==> (#[trigger] members[k]).name != name {
            assert forall|k: int| i < k < before.len() implies (#[trigger] before[k]).name != name by {
                assert(before[k] == members[k]);
            }
        }
        if forall|k: int| 0 <= k < members.len() ==> (#[trigger] members[k]).name != name {
            assert forall|k: int| 0 <= k < before.len() implies (#[trigger] before[k]).name != name by {
                assert(before[k] == members[k]);
            }
        }
        if 0 <= i < before.len() {
            assert(before[i] == members[i]);
        }
    }
}

/// A name is packed byte by byte behind a one, up to fifteen bytes; longer names are not told apart.
pub proof fn law_names_are_packed_byte_by_byte(name: Seq<u8>, b: u8)
    ensures
        fold_name(Seq::empty()) == 1,
        fold_name(name.push(b)) == 256 * fold_name(name) + b,
        name.len() > 15 ==> packed_name(name) == 0,
{
    assert(name.push(b).drop_last() =~= name);
}

/// The values of an array start at its elements, separated by commas: after an element and a comma
/// comes the next one, and after an element and a bracket nothing more.
pub proof fn law_arrays_are_read_element_by_element(s: Seq<u8>, p: int, m: int, seen: Seq<usize>, end: int)
    requires
        0 <= p < s.len(),
        !json::is_space(s[p]),
        json::value_scan(s, p, m) == json::done(end),
        p < end < s.len(),
    ensures
        s[end] == 0x2c ==> elements_from(s, p, m, seen) == elements_from(
            s,
            end + 1,
            m,
            seen.push(p as usize),
        ),
        s[end] == 0x5d ==> elements_from(s, p, m, seen).items == seen.push(p as usize)
            && elements_from(s, p, m, seen).scan == json::done(end + 1),
        !json::is_space(s[end]) && s[end] != 0x2c && s[end] != 0x5d ==> elements_from(
            s,
            p,
            m,
            seen,
        ).scan.fault is Some,
{
    assert(json::after_space(s, p) == p);
}

/// An empty array has no elements and an empty object no members; what does not start with the right
/// bracket is neither.
pub proof fn law_empty_brackets_hold_nothing(s: Seq<u8>, p: int, m: int)
    requires
        0 <= p,
        p + 1 < s.len(),
    ensures
        s[p] == 0x5b && s[p + 1] == 0x5d ==> array_at(s, p, m).items.len() == 0 && array_at(
            s,
            p,
            m,
        ).scan == json::done(p + 2),
        s[p] == 0x7b && s[p + 1] == 0x7d ==> object_at(s, p, m).items.len() == 0 && object_at(
            s,
            p,
            m,
        ).scan == json::done(p + 2),
        s[p] != 0x5b ==> array_at(s, p, m).scan.fault is Some,
        s[p] != 0x7b ==> object_at(s, p, m).scan.fault is Some,
        s[p] == 0x5b && !json::is_space(s[p + 1]) && s[p + 1] != 0x5d ==> array_at(s, p, m)
            == elements_from(s, p + 1, m, Seq::empty()),
        s[p] == 0x7b && !json::is_space(s[p + 1]) && s[p + 1] != 0x7d ==> object_at(s, p, m)
            == members_from(s, p + 1, m, Seq::empty()),
{
}

/// A member is a quoted name, a colon and a value; after a comma comes the next one, and after a bracket
/// nothing more.
pub proof fn law_objects_are_read_member_by_member(
    s: Seq<u8>,
    p: int,
    m: int,
    seen: Seq<Member>,
    colon: int,
    end: int,
)
    requires
        0 <= p < colon,
        colon + 1 < s.len(),
        s[p] == 0x22,
        json::string_scan(s, p) == json::done(colon),
        !json::is_space(s[colon]),
        !json::is_space(s[colon + 1]),
        json::value_scan(s, colon + 1, m) == json::done(end),
        colon + 1 < end < s.len(),
        !json::is_space(s[end]),
    ensures
        ({
            let member = Member {
                name: packed_name(json::string_bytes(s, p)),
                value: (colon + 1) as usize,
            };
            &&& s[colon] == 0x3a && s[end] == 0x2c ==> members_from(s, p, m, seen) == members_from(
                s,
                end + 1,
                m,
                seen.push(member),
            )
            &&& s[colon] == 0x3a && s[end] == 0x7d ==> members_from(s, p, m, seen).items
                == seen.push(member) && members_from(s, p, m, seen).scan == json::done(end + 1)
            &&& s[colon] != 0x3a ==> members_from(s, p, m, seen).scan.fault is Some
            &&& s[end] != 0x2c && s[end] != 0x7d ==> members_from(s, p, m, seen).scan.fault is Some
        }),
{
    assert(json::after_space(s, p) == p);
    assert(json::after_space(s, colon) == colon);
    assert(json::after_space(s, colon + 1) == colon + 1);
    assert(json::after_space(s, end) == end);
}

} // verus!
