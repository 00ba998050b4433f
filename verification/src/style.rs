//! Fill rules, caps and joins.

use vstd::prelude::*;

verus! {

/// How a path's inside is decided.
#[derive(Clone, Copy, Debug, PartialEq, Eq, Structural)]
pub enum FillRule {
    /// Nonzero winding.
    NonZero,
    /// Even-odd winding.
    EvenOdd,
}

/// How an open stroke ends.
#[derive(Clone, Copy, Debug, PartialEq, Eq, Structural)]
pub enum Cap {
    /// At the end point.
    Butt,
    /// With a half disc.
    Round,
    /// With a half square.
    Square,
}

/// How two stroke segments meet.
#[derive(Clone, Copy, Debug, PartialEq, Eq, Structural)]
pub enum Join {
    /// With a pointed corner.
    Miter,
    /// With an arc.
    Round,
    /// With a cut corner.
    Bevel,
}

/// The fill rule of an evaluated paint.
#[derive(Clone, Copy, Debug, PartialEq, Eq, Structural)]
pub enum Rule {
    /// Nonzero winding.
    NonZero,
    /// Even-odd winding.
    EvenOdd,
}

/// The evaluated form of a fill rule.
pub fn rule_of(rule: FillRule) -> (r: Rule)
    ensures
        r is NonZero <==> rule is NonZero,
{
    match rule {
        FillRule::NonZero => Rule::NonZero,
        FillRule::EvenOdd => Rule::EvenOdd,
    }
}

/// The fill rule that an evaluated paint was given.
pub fn fill_rule(rule: Rule) -> (r: FillRule)
    ensures
        r is NonZero <==> rule is NonZero,
{
    match rule {
        Rule::NonZero => FillRule::NonZero,
        Rule::EvenOdd => FillRule::EvenOdd,
    }
}

/// An evaluated solid paint: its rule, and its premultiplied color.
#[derive(Clone, Copy, Debug, PartialEq, Eq, Structural)]
pub struct SolidPaint {
    /// The fill rule.
    pub rule: Rule,
    /// The premultiplied color.
    pub argb: u32,
}

/// The fill rule that a code stands for.
pub fn fill_rule_of(code: u32) -> (r: FillRule)
    ensures
        r is EvenOdd <==> code == 2,
{
    if code == 2 {
        FillRule::EvenOdd
    } else {
        FillRule::NonZero
    }
}

/// The cap that a code stands for.
pub fn cap_of(code: u32) -> (c: Cap)
    ensures
        c is Butt <==> code == 1,
        c is Square <==> code == 3,
{
    if code == 1 {
        Cap::Butt
    } else if code == 3 {
        Cap::Square
    } else {
        Cap::Round
    }
}

/// The join that a code stands for.
pub fn join_of(code: u32) -> (j: Join)
    ensures
        j is Miter <==> code == 1,
        j is Bevel <==> code == 3,
{
    if code == 1 {
        Join::Miter
    } else if code == 3 {
        Join::Bevel
    } else {
        Join::Round
    }
}

/// Codes stand for rules, caps and joins: 2 is the even-odd rule and any other code the nonzero one;
/// 1 and 3 are butt and square caps, mitered and beveled joins; any other cap or join is round.
pub proof fn law_codes_stand_for_styles(code: u32, rule: FillRule, cap: Cap, join: Join)
    requires
        call_ensures(fill_rule_of, (code,), rule),
        call_ensures(cap_of, (code,), cap),
        call_ensures(join_of, (code,), join),
    ensures
        rule == (if code == 2 {
            FillRule::EvenOdd
        } else {
            FillRule::NonZero
        }),
        cap == (if code == 1 {
            Cap::Butt
        } else if code == 3 {
            Cap::Square
        } else {
            Cap::Round
        }),
        join == (if code == 1 {
            Join::Miter
        } else if code == 3 {
            Join::Bevel
        } else {
            Join::Round
        }),
{
}

/// An evaluated paint keeps its fill rule: there and back is the same rule.
pub proof fn law_rules_are_kept(rule: FillRule, evaluated: Rule, back: FillRule)
    requires
        call_ensures(rule_of, (rule,), evaluated),
        call_ensures(fill_rule, (evaluated,), back),
    ensures
        back == rule,
        evaluated is EvenOdd <==> rule is EvenOdd,
{
}

} // verus!
