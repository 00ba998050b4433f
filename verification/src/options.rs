//! Parse-time animation customizations.

use vstd::prelude::*;

verus! {

/// A Fitzpatrick skin-tone modifier.
#[derive(Debug, Clone, Copy, PartialEq, Eq, Structural)]
pub enum FitzModifier {
    /// Do not apply a skin-tone replacement.
    Unmodified,
    /// Fitzpatrick types 1 and 2.
    Type12,
    /// Fitzpatrick type 3.
    Type3,
    /// Fitzpatrick type 4.
    Type4,
    /// Fitzpatrick type 5.
    Type5,
    /// Fitzpatrick type 6.
    Type6,
}

impl FitzModifier {
    /// The modifier's number.
    pub open spec fn number(self) -> int {
        match self {
            FitzModifier::Unmodified => 0,
            FitzModifier::Type12 => 1,
            FitzModifier::Type3 => 2,
            FitzModifier::Type4 => 3,
            FitzModifier::Type5 => 4,
            FitzModifier::Type6 => 5,
        }
    }

    /// The column of the replacement table that the modifier selects.
    pub fn replacement_index(self) -> (r: Option<usize>)
        ensures
            match r {
                Some(i) => self.number() == i + 1,
                None => self.number() == 0,
            },
    {
        match self {
            FitzModifier::Unmodified => None,
            FitzModifier::Type12 => Some(0),
            FitzModifier::Type3 => Some(1),
            FitzModifier::Type4 => Some(2),
            FitzModifier::Type5 => Some(3),
            FitzModifier::Type6 => Some(4),
        }
    }

    /// The modifier with the given number.
    pub fn from_u32(value: u32) -> (r: Option<FitzModifier>)
        ensures
            match r {
                Some(m) => m.number() == value,
                None => value > 5,
            },
    {
        match value {
            0 => Some(FitzModifier::Unmodified),
            1 => Some(FitzModifier::Type12),
            2 => Some(FitzModifier::Type3),
            3 => Some(FitzModifier::Type4),
            4 => Some(FitzModifier::Type5),
            5 => Some(FitzModifier::Type6),
            _ => None,
        }
    }
}

/// The numbers of two modifiers are equal only where the modifiers are.
pub proof fn law_fitz_numbers_are_distinct(a: FitzModifier, b: FitzModifier)
    ensures
        a.number() == b.number() ==> a == b,
        0 <= a.number() <= 5,
{
}

impl Default for FitzModifier {
    fn default() -> (m: FitzModifier)
        ensures
            m == FitzModifier::Unmodified,
    {
        FitzModifier::Unmodified
    }
}

/// A parse-time color override for every solid fill and stroke below a layer.
#[derive(Debug, Clone, PartialEq, Eq)]
pub struct LayerColorReplacement {
    /// Match layers whose `nm` starts with this string.
    pub layer_name_prefix: String,
    /// Replacement color in straight-alpha `0xAARRGGBB` form.
    pub color: u32,
}

/// Options applied while a composition is parsed.
#[derive(Debug, Clone, PartialEq, Eq)]
pub struct ParseOptions {
    /// Skin-tone selection used with the top-level `fitz` table.
    pub fitz_modifier: FitzModifier,
    /// Layer-name-prefix color overrides.
    pub layer_color_replacements: Vec<LayerColorReplacement>,
}

impl Default for ParseOptions {
    fn default() -> (o: ParseOptions)
        ensures
            o.fitz_modifier == FitzModifier::Unmodified,
            o.layer_color_replacements@.len() == 0,
    {
        ParseOptions { fitz_modifier: FitzModifier::Unmodified, layer_color_replacements: Vec::new() }
    }
}

/// The numbers 1 to 5 stand for the five skin tones in their order, and 0 for none.
pub proof fn law_tones_are_numbered_in_order(m: FitzModifier)
    ensures
        m is Unmodified <==> m.number() == 0,
        m is Type12 <==> m.number() == 1,
        m is Type3 <==> m.number() == 2,
        m is Type4 <==> m.number() == 3,
        m is Type5 <==> m.number() == 4,
        m is Type6 <==> m.number() == 5,
{
}

/// Every tone selects a column of the table, one behind the other, and is found by its number.
pub proof fn law_tones_select_their_column(
    m: FitzModifier,
    column: Option<usize>,
    value: u32,
    found: Option<FitzModifier>,
)
    requires
        call_ensures(FitzModifier::replacement_index, (m,), column),
        call_ensures(FitzModifier::from_u32, (value,), found),
    ensures
        m is Unmodified <==> column is None,
        m is Type12 <==> column == Some(0usize),
        m is Type3 <==> column == Some(1usize),
        m is Type4 <==> column == Some(2usize),
        m is Type5 <==> column == Some(3usize),
        m is Type6 <==> column == Some(4usize),
        value == 0 <==> found == Some(FitzModifier::Unmodified),
        value == 1 <==> found == Some(FitzModifier::Type12),
        value == 2 <==> found == Some(FitzModifier::Type3),
        value == 3 <==> found == Some(FitzModifier::Type4),
        value == 4 <==> found == Some(FitzModifier::Type5),
        value == 5 <==> found == Some(FitzModifier::Type6),
        value > 5 <==> found is None,
{
}

} // verus!
