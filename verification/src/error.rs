//! Everything that parsing and rendering can fail with.

use vstd::prelude::*;
use vstd::string::StringExecFns;

verus! {

/// Everything that the library can fail with. Any input, however malformed, surfaces as one of these.
#[derive(Debug, Clone, PartialEq, Eq)]
#[non_exhaustive]
pub enum Error {
    /// The input is not valid JSON.
    Json {
        /// Byte offset into the input where the error was detected.
        offset: usize,
        /// What exactly was wrong.
        kind: JsonErrorKind,
    },
    /// Valid JSON, but not a Lottie composition.
    InvalidLottie {
        /// Byte offset into the input where the error was detected.
        offset: usize,
        /// Human-readable description of the problem.
        what: &'static str,
    },
    /// A hard resource limit was exceeded.
    LimitExceeded(Limit),
    /// The composition has no renderable content at all.
    Empty,
}

/// What exactly was wrong with the JSON.
#[derive(Debug, Clone, Copy, PartialEq, Eq, Structural)]
#[non_exhaustive]
pub enum JsonErrorKind {
    /// Input ended in the middle of a value.
    UnexpectedEof,
    /// A byte that does not belong at this position.
    UnexpectedByte(u8),
    /// Malformed or non-finite number.
    BadNumber,
    /// Malformed string.
    BadString,
    /// Malformed escape sequence inside a string.
    BadEscape,
    /// Extra non-whitespace content after the top-level value.
    TrailingData,
}

/// Which resource limit tripped.
#[derive(Debug, Clone, Copy, PartialEq, Eq, Structural)]
#[non_exhaustive]
pub enum Limit {
    /// Input larger than `Limits::max_input_bytes`.
    InputBytes,
    /// JSON nesting deeper than `Limits::max_nesting_depth`.
    NestingDepth,
    /// More layers than `Limits::max_layers`.
    Layers,
    /// More shapes in one layer than `Limits::max_shapes_per_layer`.
    ShapesPerLayer,
    /// More keyframes on one property than `Limits::max_keyframes`.
    Keyframes,
    /// More assets than `Limits::max_assets`.
    Assets,
    /// Composition dimensions beyond `Limits::max_dimension`.
    CompositionSize,
    /// More evaluated points in one frame than `Limits::max_render_points`.
    RenderGeometry,
    /// More work in one frame than its limits allow.
    RenderWork,
    /// More expanded layers in one frame than `Limits::max_precomp_expansion`.
    PrecompExpansion,
    /// More points in one path than `Limits::max_path_points`.
    PathPoints,
    /// A path coordinate that is not finite.
    PathCoordinate,
    /// More surface memory than `Limits::max_render_bytes`.
    RenderMemory,
    /// More gradient stop values than `Limits::max_gradient_stop_values`.
    GradientStopValues,
    /// More dash elements than `Limits::max_dash_elements`.
    DashElements,
    /// A parent chain that is too long.
    ParentChainDepth,
}

/// `Result` with this library's error.
pub type Result<T> = core::result::Result<T, Error>;

/// The text of one decimal digit.
pub open spec fn digit_text(d: int) -> Seq<char> {
    if d == 0 {
        "0"@
    } else if d == 1 {
        "1"@
    } else if d == 2 {
        "2"@
    } else if d == 3 {
        "3"@
    } else if d == 4 {
        "4"@
    } else if d == 5 {
        "5"@
    } else if d == 6 {
        "6"@
    } else if d == 7 {
        "7"@
    } else if d == 8 {
        "8"@
    } else {
        "9"@
    }
}

/// The decimal text of a number.
pub open spec fn decimal_text(n: nat) -> Seq<char>
    decreases n,
{
    if n < 10 {
        digit_text(n as int)
    } else {
        decimal_text(n / 10) + digit_text((n % 10) as int)
    }
}

/// The name of what was wrong with the JSON.
pub open spec fn json_kind_text(kind: JsonErrorKind) -> Seq<char> {
    match kind {
        JsonErrorKind::UnexpectedEof => "UnexpectedEof"@,
        JsonErrorKind::UnexpectedByte(b) => "UnexpectedByte("@ + decimal_text(b as nat) + ")"@,
        JsonErrorKind::BadNumber => "BadNumber"@,
        JsonErrorKind::BadString => "BadString"@,
        JsonErrorKind::BadEscape => "BadEscape"@,
        JsonErrorKind::TrailingData => "TrailingData"@,
    }
}

/// The name of a limit.
pub open spec fn limit_text(limit: Limit) -> Seq<char> {
    match limit {
        Limit::InputBytes => "InputBytes"@,
        Limit::NestingDepth => "NestingDepth"@,
        Limit::Layers => "Layers"@,
        Limit::ShapesPerLayer => "ShapesPerLayer"@,
        Limit::Keyframes => "Keyframes"@,
        Limit::Assets => "Assets"@,
        Limit::CompositionSize => "CompositionSize"@,
        Limit::RenderGeometry => "RenderGeometry"@,
        Limit::RenderWork => "RenderWork"@,
        Limit::PrecompExpansion => "PrecompExpansion"@,
        Limit::PathPoints => "PathPoints"@,
        Limit::PathCoordinate => "PathCoordinate"@,
        Limit::RenderMemory => "RenderMemory"@,
        Limit::GradientStopValues => "GradientStopValues"@,
        Limit::DashElements => "DashElements"@,
        Limit::ParentChainDepth => "ParentChainDepth"@,
    }
}

/// The message of an error.
pub open spec fn error_text(e: Error) -> Seq<char> {
    match e {
        Error::Json { offset, kind } => "invalid JSON at byte "@ + decimal_text(offset as nat) + ": "@ + json_kind_text(kind),
        Error::InvalidLottie { offset, what } => "invalid Lottie at byte "@ + decimal_text(offset as nat) + ": "@ + what@,
        Error::LimitExceeded(limit) => "resource limit exceeded: "@ + limit_text(limit),
        Error::Empty => "composition has no renderable content"@,
    }
}

/// Appends one decimal digit.
fn append_digit(s: &mut String, d: usize)
    requires
        d < 10,
    ensures
        final(s)@ == old(s)@ + digit_text(d as int),
{
    let text: &str = if d == 0 {
        "0"
    } else if d == 1 {
        "1"
    } else if d == 2 {
        "2"
    } else if d == 3 {
        "3"
    } else if d == 4 {
        "4"
    } else if d == 5 {
        "5"
    } else if d == 6 {
        "6"
    } else if d == 7 {
        "7"
    } else if d == 8 {
        "8"
    } else {
        "9"
    };
    s.append(text);
}

/// Appends a number in decimal.
pub fn append_decimal(s: &mut String, n: usize)
    ensures
        final(s)@ == old(s)@ + decimal_text(n as nat),
    decreases n,
{
    if n < 10 {
        append_digit(s, n);
    } else {
        let ghost before = s@;
        append_decimal(s, n / 10);
        append_digit(s, n % 10);
        assert(s@ =~= before + (decimal_text((n / 10) as nat) + digit_text((n % 10) as int)));
    }
}

impl JsonErrorKind {
    /// The name of what was wrong.
    pub fn to_string(&self) -> (s: String)
        ensures
            s@ == json_kind_text(*self),
    {
        let mut s: String = String::new();
        match self {
            JsonErrorKind::UnexpectedEof => {
                s.append("UnexpectedEof");
            },
            JsonErrorKind::UnexpectedByte(b) => {
                s.append("UnexpectedByte(");
                append_decimal(&mut s, *b as usize);
                s.append(")");
            },
            JsonErrorKind::BadNumber => {
                s.append("BadNumber");
            },
            JsonErrorKind::BadString => {
                s.append("BadString");
            },
            JsonErrorKind::BadEscape => {
                s.append("BadEscape");
            },
            JsonErrorKind::TrailingData => {
                s.append("TrailingData");
            },
        }
        assert(s@ =~= json_kind_text(*self));
        s
    }
}

impl Limit {
    /// The name of the limit.
    pub fn to_string(&self) -> (s: String)
        ensures
            s@ == limit_text(*self),
    {
        let name: &str = match self {
            Limit::InputBytes => "InputBytes",
            Limit::NestingDepth => "NestingDepth",
            Limit::Layers => "Layers",
            Limit::ShapesPerLayer => "ShapesPerLayer",
            Limit::Keyframes => "Keyframes",
            Limit::Assets => "Assets",
            Limit::CompositionSize => "CompositionSize",
            Limit::RenderGeometry => "RenderGeometry",
            Limit::RenderWork => "RenderWork",
            Limit::PrecompExpansion => "PrecompExpansion",
            Limit::PathPoints => "PathPoints",
            Limit::PathCoordinate => "PathCoordinate",
            Limit::RenderMemory => "RenderMemory",
            Limit::GradientStopValues => "GradientStopValues",
            Limit::DashElements => "DashElements",
            Limit::ParentChainDepth => "ParentChainDepth",
        };
        name.to_owned()
    }
}

impl Error {
    /// The error's message.
    pub fn to_string(&self) -> (s: String)
        ensures
            s@ == error_text(*self),
    {
        let mut s: String = String::new();
        match self {
            Error::Json { offset, kind } => {
                s.append("invalid JSON at byte ");
                append_decimal(&mut s, *offset);
                s.append(": ");
                let name: String = kind.to_string();
                s.append(name.as_str());
            },
            Error::InvalidLottie { offset, what } => {
                s.append("invalid Lottie at byte ");
                append_decimal(&mut s, *offset);
                s.append(": ");
                s.append(what);
            },
            Error::LimitExceeded(limit) => {
                s.append("resource limit exceeded: ");
                let name: String = limit.to_string();
                s.append(name.as_str());
            },
            Error::Empty => {
                s.append("composition has no renderable content");
            },
        }
        assert(s@ =~= error_text(*self));
        s
    }
}

/// The text of a digit is that digit.
pub proof fn law_digits_are_written_as_themselves(d: int)
    requires
        0 <= d < 10,
    ensures
        digit_text(d).len() == 1,
        digit_text(d)[0] as int == 0x30 + d,
{
    reveal_strlit("0");
    reveal_strlit("1");
    reveal_strlit("2");
    reveal_strlit("3");
    reveal_strlit("4");
    reveal_strlit("5");
    reveal_strlit("6");
    reveal_strlit("7");
    reveal_strlit("8");
    reveal_strlit("9");
}

/// The number that decimal digits stand for, read from left to right.
pub open spec fn number_in(text: Seq<char>) -> int
    decreases text.len(),
{
    if text.len() == 0 {
        0
    } else {
        10 * number_in(text.drop_last()) + (text.last() as int - 0x30)
    }
}

/// The number in a message is read back as it was.
pub proof fn law_numbers_are_written_in_decimal(n: nat)
    ensures
        number_in(decimal_text(n)) == n,
        decimal_text(n).len() > 0,
        n > 0 ==> decimal_text(n)[0] as int != 0x30,
    decreases n,
{
    if n < 10 {
        law_digits_are_written_as_themselves(n as int);
        assert(decimal_text(n).drop_last() =~= Seq::empty());
        reveal_with_fuel(number_in, 2);
    } else {
        law_numbers_are_written_in_decimal(n / 10);
        law_digits_are_written_as_themselves((n % 10) as int);
        assert(decimal_text(n).drop_last() =~= decimal_text(n / 10));
    }
}

/// A message says where the input is wrong, and what is wrong with it; a broken limit is named.
pub proof fn law_messages_say_where_and_what(offset: usize, kind: JsonErrorKind, what: &'static str, limit: Limit)
    ensures
        error_text(Error::Json { offset, kind }) == "invalid JSON at byte "@ + decimal_text(
            offset as nat,
        ) + ": "@ + json_kind_text(kind),
        error_text(Error::InvalidLottie { offset, what }) == "invalid Lottie at byte "@
            + decimal_text(offset as nat) + ": "@ + what@,
        error_text(Error::LimitExceeded(limit)) == "resource limit exceeded: "@ + limit_text(limit),
{
}

/// Limits and faults go by their own names in messages.
pub proof fn law_limits_and_faults_are_named(b: u8)
    ensures
        limit_text(Limit::InputBytes) == "InputBytes"@,
        limit_text(Limit::NestingDepth) == "NestingDepth"@,
        limit_text(Limit::Layers) == "Layers"@,
        limit_text(Limit::ShapesPerLayer) == "ShapesPerLayer"@,
        limit_text(Limit::Keyframes) == "Keyframes"@,
        limit_text(Limit::Assets) == "Assets"@,
        limit_text(Limit::CompositionSize) == "CompositionSize"@,
        limit_text(Limit::RenderGeometry) == "RenderGeometry"@,
        limit_text(Limit::RenderWork) == "RenderWork"@,
        limit_text(Limit::PrecompExpansion) == "PrecompExpansion"@,
        limit_text(Limit::PathPoints) == "PathPoints"@,
        limit_text(Limit::PathCoordinate) == "PathCoordinate"@,
        limit_text(Limit::RenderMemory) == "RenderMemory"@,
        limit_text(Limit::GradientStopValues) == "GradientStopValues"@,
        limit_text(Limit::DashElements) == "DashElements"@,
        limit_text(Limit::ParentChainDepth) == "ParentChainDepth"@,
        json_kind_text(JsonErrorKind::UnexpectedEof) == "UnexpectedEof"@,
        json_kind_text(JsonErrorKind::UnexpectedByte(b)) == "UnexpectedByte("@ + decimal_text(b as nat)
            + ")"@,
        json_kind_text(JsonErrorKind::BadNumber) == "BadNumber"@,
        json_kind_text(JsonErrorKind::BadString) == "BadString"@,
        json_kind_text(JsonErrorKind::BadEscape) == "BadEscape"@,
        json_kind_text(JsonErrorKind::TrailingData) == "TrailingData"@,
        error_text(Error::Empty) == "composition has no renderable content"@,
{
}

} // verus!
