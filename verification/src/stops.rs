//! Gradient stops: where a position falls among them.
//!
//! Stop data is a list of numbers: four for every color stop, its position and color, and then two
//! for every opacity stop, its position and opacity. A table entry takes its color from the color
//! stops and its opacity from the opacity stops; the ones never shift the others.

use crate::argb;
use crate::argb::alpha;
use vstd::prelude::*;

verus! {

/// The number of color stops in `values` numbers of which `declared` are said to be there.
pub open spec fn color_stops(values: nat, declared: nat) -> nat {
    if declared < values / 4 {
        declared
    } else {
        values / 4
    }
}

/// The number of opacity stops in `rest` numbers behind `colors` color stops: none where the count of
/// numbers is odd or too small to be meant.
pub open spec fn opacity_stops(rest: nat, colors: nat) -> nat {
    if rest % 2 != 0 || (colors > rest / 2 && rest < 4) {
        0
    } else {
        rest / 2
    }
}

/// Counts the color stops.
pub fn count_colors(values: usize, declared: usize) -> (n: usize)
    ensures
        n == color_stops(values as nat, declared as nat),
        4 * n <= values,
{
    if declared < values / 4 {
        declared
    } else {
        values / 4
    }
}

/// Counts the opacity stops.
pub fn count_opacities(rest: usize, colors: usize) -> (n: usize)
    ensures
        n == opacity_stops(rest as nat, colors as nat),
        2 * n <= rest,
{
    if rest % 2 != 0 || (colors > rest / 2 && rest < 4) {
        0
    } else {
        rest / 2
    }
}

/// Where a position falls among stops.
#[derive(Clone, Copy, Debug, PartialEq, Eq, Structural)]
pub enum Place {
    /// There are no stops.
    Nowhere,
    /// At one stop, or before the first or after the last.
    At {
        /// The stop.
        stop: usize,
    },
    /// Between two stops.
    Between {
        /// The later one; the other is the one before.
        later: usize,
    },
}

/// True where the position does not lie behind the stop `k`, as `reached` has it.
pub open spec fn is_reached<F: Fn(usize) -> bool>(reached: F, k: usize) -> bool {
    call_ensures(reached, (k,), true)
}

/// True where `reached` can be asked of any stop and always answers the same.
pub open spec fn answers<F: Fn(usize) -> bool>(reached: F) -> bool {
    &&& forall|k: usize| #[trigger] call_requires(reached, (k,))
    &&& forall|k: usize|
        #[trigger] call_ensures(reached, (k,), true) ==> !call_ensures(reached, (k,), false)
}

/// The first of `n` stops, from the `k`th on, that the position does not lie behind; `n` where it lies
/// behind all.
pub open spec fn first_reached<F: Fn(usize) -> bool>(reached: F, k: int, n: int) -> int
    decreases n - k,
{
    if k >= n {
        n
    } else if is_reached(reached, k as usize) {
        k
    } else {
        first_reached(reached, k + 1, n)
    }
}

/// Where a position falls among `n` stops. `at_end` tells whether it has come to the last one's.
pub open spec fn place_of<F: Fn(usize) -> bool>(n: int, reached: F, at_end: bool) -> Place {
    let k = first_reached(reached, 0, n);
    if n == 0 {
        Place::Nowhere
    } else if k == 0 {
        Place::At { stop: 0 }
    } else if at_end || k == n {
        Place::At { stop: (n - 1) as usize }
    } else {
        Place::Between { later: k as usize }
    }
}

/// Finds where a position falls among stops.
pub fn place<F: Fn(usize) -> bool>(n: usize, reached: &F, at_end: bool) -> (p: Place)
    requires
        answers(*reached),
    ensures
        p == place_of(n as int, *reached, at_end),
{
    if n == 0 {
        return Place::Nowhere;
    }
    let mut k: usize = 0;
    while k < n && !reached(k)
        invariant
            answers(*reached),
            k <= n,
            first_reached(*reached, 0, n as int) == first_reached(*reached, k as int, n as int),
        ensures
            k <= n,
            k == first_reached(*reached, 0, n as int),
        decreases n - k,
    {
        k += 1;
    }
    if k == 0 {
        Place::At { stop: 0 }
    } else if at_end || k == n {
        Place::At { stop: n - 1 }
    } else {
        Place::Between { later: k }
    }
}

/// A position between two stops lies behind every stop before the later one, and not behind that.
pub proof fn law_neighbours_enclose<F: Fn(usize) -> bool>(n: int, reached: F, at_end: bool, i: int)
    requires
        0 <= n <= usize::MAX,
        place_of(n, reached, at_end) is Between,
        0 <= i < place_of(n, reached, at_end)->later,
    ensures
        0 < place_of(n, reached, at_end)->later < n,
        is_reached(reached, place_of(n, reached, at_end)->later),
        !is_reached(reached, i as usize),
{
    lemma_first_reached(reached, 0, n, i);
}

proof fn lemma_first_reached<F: Fn(usize) -> bool>(reached: F, k: int, n: int, i: int)
    requires
        0 <= k <= n <= usize::MAX,
    ensures
        k <= first_reached(reached, k, n) <= n,
        first_reached(reached, k, n) < n ==> is_reached(reached, first_reached(reached, k, n) as usize),
        k <= i < first_reached(reached, k, n) ==> !is_reached(reached, i as usize),
    decreases n - k,
{
    if k < n && !is_reached(reached, k as usize) {
        lemma_first_reached(reached, k + 1, n, i);
    }
}

/// The alpha that every color of a table has, if they all have the same.
pub open spec fn uniform_alpha_of(lut: Seq<u32>) -> Option<u32> {
    if lut.len() > 0 && (forall|i: int|
        0 <= i < lut.len() ==> argb::alpha_of(#[trigger] lut[i]) == argb::alpha_of(lut[0])) {
        Some(argb::alpha_of(lut[0]) as u32)
    } else {
        None
    }
}

/// Tells the alpha that every color of a table has, if they all have the same.
pub fn uniform_alpha(lut: &[u32]) -> (a: Option<u32>)
    ensures
        a == uniform_alpha_of(lut@),
{
    if lut.len() == 0 {
        return None;
    }
    let first: u32 = alpha(lut[0]);
    let mut i: usize = 0;
    while i < lut.len()
        invariant
            i <= lut@.len(),
            lut@.len() > 0,
            first == argb::alpha_of(lut@[0]),
            forall|k: int| 0 <= k < i ==> argb::alpha_of(#[trigger] lut@[k]) == first,
        decreases lut@.len() - i,
    {
        if alpha(lut[i]) != first {
            assert(argb::alpha_of(lut@[i as int]) != argb::alpha_of(lut@[0]));
            return None;
        }
        i += 1;
    }
    Some(first)
}

/// Color stops are taken as far as they are declared and there are four numbers for each.
pub proof fn law_color_stops_are_those_declared(values: nat, declared: nat)
    ensures
        color_stops(values, declared) <= declared,
        4 * color_stops(values, declared) <= values,
        color_stops(values, declared) == declared || values < 4 * (color_stops(values, declared) + 1),
{
}

/// The numbers behind the color stops are opacity stops all of them or none of them.
pub proof fn law_opacity_stops_are_all_used_or_none(rest: nat, colors: nat)
    ensures
        opacity_stops(rest, colors) == 0 || 2 * opacity_stops(rest, colors) == rest,
        rest % 2 != 0 ==> opacity_stops(rest, colors) == 0,
        rest % 2 == 0 && rest >= 4 ==> 2 * opacity_stops(rest, colors) == rest,
{
}

/// Two opacity stops or more are used whatever color stops stand before them; a lone one is used only
/// where there is at most one color stop to go with it.
pub proof fn law_color_stops_do_not_count_opacity_stops(rest: nat, few: nat, many: nat)
    requires
        few <= many,
    ensures
        rest != 2 ==> opacity_stops(rest, few) == opacity_stops(rest, many),
        rest == 2 ==> (opacity_stops(rest, many) == 1 <==> many <= 1),
{
}

/// A position that does not lie behind the first stop stands at that stop, and one that lies behind all
/// of them, or has come to the last, stands at the last. Any other has a place between two.
pub proof fn law_positions_have_a_place<F: Fn(usize) -> bool>(n: int, reached: F, at_end: bool)
    requires
        0 <= n <= usize::MAX,
    ensures
        n == 0 <==> place_of(n, reached, at_end) is Nowhere,
        n > 0 && is_reached(reached, 0) ==> place_of(n, reached, at_end) == (Place::At { stop: 0 }),
        n > 0 && !is_reached(reached, 0) && at_end ==> place_of(n, reached, at_end) == (Place::At {
            stop: (n - 1) as usize,
        }),
        n > 0 && (forall|i: int| 0 <= i < n ==> !#[trigger] is_reached(reached, i as usize))
            ==> place_of(n, reached, at_end) == (Place::At { stop: (n - 1) as usize }),
        n > 0 && !is_reached(reached, 0) && !at_end && !(place_of(n, reached, at_end) is Between)
            ==> forall|i: int| 0 <= i < n ==> !#[trigger] is_reached(reached, i as usize),
{
    let k = first_reached(reached, 0, n);
    lemma_first_reached(reached, 0, n, 0);
    if n > 0 && is_reached(reached, 0) {
        assert(k == 0);
    }
    if forall|i: int| 0 <= i < n ==> !#[trigger] is_reached(reached, i as usize) {
        if k < n {
            assert(is_reached(reached, k as usize));
        }
    }
    if k == n {
        assert forall|i: int| 0 <= i < n implies !#[trigger] is_reached(reached, i as usize) by {
            lemma_first_reached(reached, 0, n, i);
        }
    }
}

/// A table has one alpha exactly where it has colors and no two of them differ in alpha; it is theirs.
pub proof fn law_one_alpha_for_all(lut: Seq<u32>, i: int, j: int)
    requires
        0 <= i < lut.len(),
        0 <= j < lut.len(),
    ensures
        uniform_alpha_of(lut) matches Some(a) ==> argb::alpha_of(lut[i]) == a,
        argb::alpha_of(lut[i]) != argb::alpha_of(lut[j]) ==> uniform_alpha_of(lut) is None,
        lut.len() == 1 ==> uniform_alpha_of(lut) is Some,
        uniform_alpha_of(lut) is None ==> exists|k: int|
            0 <= k < lut.len() && argb::alpha_of(#[trigger] lut[k]) != argb::alpha_of(lut[0]),
        uniform_alpha_of(Seq::empty()) is None,
{
}

/// Which stops a position has reached is what is answered when it is asked of them: the place is the
/// first stop that is answered with yes, and all before it are answered with no.
pub proof fn law_places_go_by_the_answers<F: Fn(usize) -> bool>(n: usize, reached: F, at_end: bool, k: usize)
    requires
        answers(reached),
        k < n,
        call_ensures(reached, (k,), true),
        forall|j: usize| j < k ==> !#[trigger] call_ensures(reached, (j,), true),
    ensures
        k == 0 ==> place_of(n as int, reached, at_end) == (Place::At { stop: 0 }),
        k > 0 && !at_end ==> place_of(n as int, reached, at_end) == (Place::Between { later: k }),
        k > 0 && at_end ==> place_of(n as int, reached, at_end) == (Place::At {
            stop: (n - 1) as usize,
        }),
{
    lemma_first_reached(reached, 0, n as int, k as int);
    let f = first_reached(reached, 0, n as int);
    assert(is_reached(reached, k));
    if f < k {
        assert(is_reached(reached, f as usize));
        assert(!call_ensures(reached, (f as usize,), true));
    }
}

} // verus!
