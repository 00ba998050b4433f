//! A cursor over JSON bytes.
//!
//! The cursor never allocates, never recurses and never reads past its input. Every method has its
//! effect stated by a function on the input and a position: where the cursor ends, and which fault
//! it reports, if any.

use crate::error::{Error, JsonErrorKind, Limit, Result};
use crate::number;
use crate::number::{Number, NumberView};
use vstd::prelude::*;

verus! {

/// How a read ends: the position after it, and what was wrong.
pub struct Scan {
    /// Where the cursor stands afterwards.
    pub end: int,
    /// The error that the read reports, or nothing where it succeeds.
    pub fault: Option<Error>,
}

/// The scan that succeeds and ends at `end`.
pub open spec fn done(end: int) -> Scan {
    Scan { end, fault: None }
}

/// The scan that stops at `end` and reports `kind` there.
pub open spec fn bad(end: int, kind: JsonErrorKind) -> Scan {
    Scan { end, fault: Some(Error::Json { offset: end as usize, kind }) }
}

/// What a read that finds no acceptable byte at `p` reports.
pub open spec fn unexpected(s: Seq<u8>, p: int) -> Scan {
    if 0 <= p < s.len() {
        bad(p, JsonErrorKind::UnexpectedByte(s[p]))
    } else {
        bad(p, JsonErrorKind::UnexpectedEof)
    }
}

/// The byte at `p`, where there is one.
pub open spec fn byte_at(s: Seq<u8>, p: int) -> Option<u8> {
    if 0 <= p < s.len() {
        Some(s[p])
    } else {
        None
    }
}

/// True for whitespace.
pub open spec fn is_space(b: u8) -> bool {
    b == 0x20 || b == 0x09 || b == 0x0a || b == 0x0d
}

/// True for a decimal digit.
pub open spec fn is_digit(b: u8) -> bool {
    0x30 <= b <= 0x39
}

/// The first position from `p` on that holds no whitespace.
pub open spec fn after_space(s: Seq<u8>, p: int) -> int
    decreases s.len() - p,
{
    if 0 <= p < s.len() && is_space(s[p]) {
        after_space(s, p + 1)
    } else {
        p
    }
}

/// The first position from `p` on that holds no decimal digit.
pub open spec fn after_digits(s: Seq<u8>, p: int) -> int
    decreases s.len() - p,
{
    if 0 <= p < s.len() && is_digit(s[p]) {
        after_digits(s, p + 1)
    } else {
        p
    }
}

/// Skipping whitespace passes over whitespace only, all of it, and stays inside the input.
pub proof fn lemma_after_space(s: Seq<u8>, p: int)
    requires
        0 <= p,
    ensures
        p <= after_space(s, p),
        p <= s.len() ==> after_space(s, p) <= s.len(),
        forall|i: int| p <= i < after_space(s, p) ==> is_space(#[trigger] s[i]),
        after_space(s, p) < s.len() ==> !is_space(s[after_space(s, p)]),
    decreases s.len() - p,
{
    if p < s.len() && is_space(s[p]) {
        lemma_after_space(s, p + 1);
    }
}

/// Skipping digits passes over digits only.
pub proof fn lemma_after_digits(s: Seq<u8>, p: int)
    requires
        0 <= p,
    ensures
        p <= after_digits(s, p),
        p < after_digits(s, p) ==> after_digits(s, p) <= s.len(),
        forall|i: int| p <= i < after_digits(s, p) ==> is_digit(#[trigger] s[i]),
    decreases s.len() - p,
{
    if p < s.len() && is_digit(s[p]) {
        lemma_after_digits(s, p + 1);
    }
}

/// The values of the digits in `s[a..b]`.
pub open spec fn digits_of(s: Seq<u8>, a: int, b: int) -> Seq<u8> {
    Seq::new((b - a) as nat, |i: int| (s[a + i] - 0x30) as u8)
}

/// One byte, `b`, at `p`.
pub open spec fn expect_scan(s: Seq<u8>, p: int, b: u8) -> Scan {
    if byte_at(s, p) == Some(b) {
        done(p + 1)
    } else {
        unexpected(s, p)
    }
}

/// The position of the first quote from `p` on that no backslash escapes.
pub open spec fn closing_quote(s: Seq<u8>, p: int) -> Option<int>
    decreases s.len() - p,
{
    if p < 0 || p >= s.len() {
        None
    } else if s[p] == 0x22 {
        Some(p)
    } else if s[p] == 0x5c {
        if p + 1 < s.len() {
            closing_quote(s, p + 2)
        } else {
            None
        }
    } else {
        closing_quote(s, p + 1)
    }
}

/// A closing quote is a quote, and lies inside the input.
pub proof fn lemma_closing_quote(s: Seq<u8>, p: int)
    ensures
        closing_quote(s, p) matches Some(q) ==> p <= q < s.len() && s[q] == 0x22,
    decreases s.len() - p,
{
    if 0 <= p < s.len() {
        if s[p] == 0x5c {
            if p + 1 < s.len() {
                lemma_closing_quote(s, p + 2);
            }
        } else if s[p] != 0x22 {
            lemma_closing_quote(s, p + 1);
        }
    }
}

/// A string at `p`.
pub open spec fn string_scan(s: Seq<u8>, p: int) -> Scan {
    if byte_at(s, p) != Some(0x22u8) {
        unexpected(s, p)
    } else {
        match closing_quote(s, p + 1) {
            Some(q) => done(q + 1),
            None => bad(s.len() as int, JsonErrorKind::UnexpectedEof),
        }
    }
}

/// The bytes between the quotes of a string at `p`, escapes left as they are.
pub open spec fn string_bytes(s: Seq<u8>, p: int) -> Seq<u8> {
    match closing_quote(s, p + 1) {
        Some(q) => s.subrange(p + 1, q),
        None => Seq::empty(),
    }
}

/// Where the digits of a number at `p` start.
pub open spec fn number_whole(s: Seq<u8>, p: int) -> int {
    if byte_at(s, p) == Some(0x2du8) {
        p + 1
    } else {
        p
    }
}

/// Where the whole digits of a number at `p` end.
pub open spec fn number_point(s: Seq<u8>, p: int) -> int {
    after_digits(s, number_whole(s, p))
}

/// Where the fraction digits of a number at `p` start; there are none where this is also their end.
pub open spec fn number_fraction(s: Seq<u8>, p: int) -> int {
    let point = number_point(s, p);
    if byte_at(s, point) == Some(0x2eu8) {
        point + 1
    } else {
        point
    }
}

/// Where the mantissa of a number at `p` ends.
pub open spec fn number_mantissa(s: Seq<u8>, p: int) -> int {
    let point = number_point(s, p);
    if byte_at(s, point) == Some(0x2eu8) {
        after_digits(s, point + 1)
    } else {
        point
    }
}

/// True where an exponent follows the mantissa of a number at `p`.
pub open spec fn number_has_exponent(s: Seq<u8>, p: int) -> bool {
    let e = number_mantissa(s, p);
    byte_at(s, e) == Some(0x65u8) || byte_at(s, e) == Some(0x45u8)
}

/// The sign of the exponent of a number at `p`, where it is written out.
pub open spec fn number_exponent_sign(s: Seq<u8>, p: int) -> Option<u8> {
    match byte_at(s, number_mantissa(s, p) + 1) {
        Some(b) => if b == 0x2b || b == 0x2d {
            Some(b)
        } else {
            None
        },
        None => None,
    }
}

/// Where the digits of the exponent of a number at `p` start.
pub open spec fn number_exponent(s: Seq<u8>, p: int) -> int {
    number_mantissa(s, p) + 1 + (if number_exponent_sign(s, p) is Some {
        1int
    } else {
        0
    })
}

/// Where a number at `p` ends.
pub open spec fn number_end(s: Seq<u8>, p: int) -> int {
    if number_has_exponent(s, p) {
        after_digits(s, number_exponent(s, p))
    } else {
        number_mantissa(s, p)
    }
}

/// The digits of the mantissa of a number at `p`, without the point.
pub open spec fn number_digits(s: Seq<u8>, p: int) -> Seq<u8> {
    digits_of(s, number_whole(s, p), number_point(s, p)) + digits_of(
        s,
        number_fraction(s, p),
        number_mantissa(s, p),
    )
}

/// The power of ten that the mantissa digits of a number at `p` are scaled by.
pub open spec fn number_scale(s: Seq<u8>, p: int) -> int {
    number_power(s, p) - (number_mantissa(s, p) - number_fraction(s, p))
}

/// The number at `p`. An exponent past every length that an input can have is cut down to a fixed
/// one.
pub open spec fn number_at(s: Seq<u8>, p: int) -> NumberView {
    let power = number_power(s, p);
    let kept = if power > MAX_POWER {
        MAX_POWER as int
    } else if power < -MAX_POWER {
        -MAX_POWER
    } else {
        power
    };
    NumberView {
        negative: byte_at(s, p) == Some(0x2du8),
        digits: number_digits(s, p),
        scale: kept - (number_mantissa(s, p) - number_fraction(s, p)),
    }
}

/// The largest exponent, up or down, that a number is kept with.
pub const MAX_POWER: i128 = 0x10_0000_0000_0000_0000_0000_0000;

/// The exponent that a number at `p` is written with.
pub open spec fn number_power(s: Seq<u8>, p: int) -> int {
    if number_has_exponent(s, p) {
        let e = number::nat_of(digits_of(s, number_exponent(s, p), number_end(s, p)));
        if number_exponent_sign(s, p) == Some(0x2du8) {
            -e
        } else {
            e as int
        }
    } else {
        0
    }
}

/// A number at `p`: it has a digit, an exponent has one too, and its value is finite.
pub open spec fn number_scan(s: Seq<u8>, p: int) -> Scan {
    if number_digits(s, p).len() == 0 {
        bad(number_mantissa(s, p), JsonErrorKind::BadNumber)
    } else if number_has_exponent(s, p) && number_end(s, p) == number_exponent(s, p) {
        bad(number_end(s, p), JsonErrorKind::BadNumber)
    } else if !number::in_range(number::nat_of(number_digits(s, p)), number_scale(s, p)) {
        bad(number_end(s, p), JsonErrorKind::BadNumber)
    } else {
        done(number_end(s, p))
    }
}

/// The bytes `rest`, one after another, from `p` on. A wrong byte is consumed.
pub open spec fn keyword_scan(s: Seq<u8>, p: int, rest: Seq<u8>) -> Scan
    decreases rest.len(),
{
    if rest.len() == 0 {
        done(p)
    } else if byte_at(s, p) == Some(rest[0]) {
        keyword_scan(s, p + 1, rest.skip(1))
    } else if 0 <= p < s.len() {
        bad(p + 1, JsonErrorKind::UnexpectedByte(s[p]))
    } else {
        bad(p, JsonErrorKind::UnexpectedEof)
    }
}

/// The rest of a bracketed value, from `p` on, where `depth` brackets are open.
pub open spec fn nest_scan(s: Seq<u8>, p: int, depth: int, max_depth: int) -> Scan
    decreases s.len() - p,
{
    if p < 0 || p >= s.len() {
        bad(p, JsonErrorKind::UnexpectedEof)
    } else if s[p] == 0x7b || s[p] == 0x5b {
        if depth + 1 > max_depth {
            Scan { end: p + 1, fault: Some(Error::LimitExceeded(Limit::NestingDepth)) }
        } else {
            nest_scan(s, p + 1, depth + 1, max_depth)
        }
    } else if s[p] == 0x7d || s[p] == 0x5d {
        if depth <= 1 {
            done(p + 1)
        } else {
            nest_scan(s, p + 1, depth - 1, max_depth)
        }
    } else if s[p] == 0x22 {
        proof {
            lemma_closing_quote(s, p + 1);
        }
        match closing_quote(s, p + 1) {
            Some(q) => nest_scan(s, q + 1, depth, max_depth),
            None => bad(s.len() as int, JsonErrorKind::UnexpectedEof),
        }
    } else {
        nest_scan(s, p + 1, depth, max_depth)
    }
}

/// Any value at `p`, whitespace before it included.
pub open spec fn value_scan(s: Seq<u8>, p: int, max_depth: int) -> Scan {
    let q = after_space(s, p);
    match byte_at(s, q) {
        None => bad(q, JsonErrorKind::UnexpectedEof),
        Some(b) => if b == 0x22 {
            string_scan(s, q)
        } else if b == 0x7b || b == 0x5b {
            nest_scan(s, q, 0, max_depth)
        } else if b == 0x74 {
            keyword_scan(s, q + 1, seq![0x72u8, 0x75u8, 0x65u8])
        } else if b == 0x66 {
            keyword_scan(s, q + 1, seq![0x61u8, 0x6cu8, 0x73u8, 0x65u8])
        } else if b == 0x6e {
            keyword_scan(s, q + 1, seq![0x75u8, 0x6cu8, 0x6cu8])
        } else if b == 0x2d || is_digit(b) {
            number_scan(s, q)
        } else {
            unexpected(s, q)
        },
    }
}

/// A bracketed value takes at least one byte and ends inside the input.
pub proof fn lemma_nest_scan(s: Seq<u8>, p: int, depth: int, max_depth: int)
    requires
        0 <= p <= s.len(),
    ensures
        p <= nest_scan(s, p, depth, max_depth).end <= s.len(),
        nest_scan(s, p, depth, max_depth).fault is None ==> p < nest_scan(
            s,
            p,
            depth,
            max_depth,
        ).end,
    decreases s.len() - p,
{
    if p < s.len() {
        if s[p] == 0x22 {
            lemma_closing_quote(s, p + 1);
            if closing_quote(s, p + 1) is Some {
                lemma_nest_scan(s, closing_quote(s, p + 1)->0 + 1, depth, max_depth);
            }
        } else {
            lemma_nest_scan(s, p + 1, depth + 1, max_depth);
            lemma_nest_scan(s, p + 1, depth - 1, max_depth);
            lemma_nest_scan(s, p + 1, depth, max_depth);
        }
    }
}

/// A keyword ends inside the input.
pub proof fn lemma_keyword_scan(s: Seq<u8>, p: int, rest: Seq<u8>)
    requires
        0 <= p <= s.len(),
    ensures
        p <= keyword_scan(s, p, rest).end <= s.len(),
    decreases rest.len(),
{
    if rest.len() > 0 && byte_at(s, p) == Some(rest[0]) {
        lemma_keyword_scan(s, p + 1, rest.skip(1));
    }
}

/// The parts of a number follow one another inside the input.
pub proof fn lemma_number_scan(s: Seq<u8>, p: int)
    requires
        0 <= p <= s.len(),
    ensures
        p <= number_whole(s, p) <= number_point(s, p) <= number_fraction(s, p) <= number_mantissa(
            s,
            p,
        ) <= number_end(s, p) <= s.len(),
        number_has_exponent(s, p) ==> number_mantissa(s, p) < number_exponent(s, p) <= number_end(
            s,
            p,
        ),
        p <= number_scan(s, p).end <= number_end(s, p),
        number_scan(s, p).fault is None ==> p < number_end(s, p),
        number::all_digits(number_digits(s, p)),
{
    lemma_after_digits(s, number_whole(s, p));
    lemma_after_digits(s, number_point(s, p) + 1);
    lemma_after_digits(s, number_exponent(s, p));
    lemma_after_digits(s, number_fraction(s, p));
}

/// A value that is skipped takes at least one byte and ends inside the input.
pub proof fn law_skipping_advances(s: Seq<u8>, p: int, max_depth: int)
    requires
        0 <= p <= s.len(),
    ensures
        p <= value_scan(s, p, max_depth).end <= s.len(),
        value_scan(s, p, max_depth).fault is None ==> p < value_scan(s, p, max_depth).end,
{
    let q = after_space(s, p);
    lemma_after_space(s, p);
    lemma_closing_quote(s, q + 1);
    lemma_nest_scan(s, q, 0, max_depth);
    lemma_number_scan(s, q);
    if q < s.len() {
        lemma_keyword_scan(s, q + 1, seq![0x72u8, 0x75u8, 0x65u8]);
        lemma_keyword_scan(s, q + 1, seq![0x61u8, 0x6cu8, 0x73u8, 0x65u8]);
        lemma_keyword_scan(s, q + 1, seq![0x75u8, 0x6cu8, 0x6cu8]);
    }
}

/// A position in JSON bytes.
#[derive(Clone, Copy)]
pub struct Cursor<'a> {
    /// The input.
    pub bytes: &'a [u8],
    /// The offset of the next byte.
    pub pos: usize,
    /// How many brackets may be open at once.
    pub max_depth: usize,
}

impl<'a> Cursor<'a> {
    /// True where `other` reads the same input under the same limit.
    pub open spec fn same_input(self, other: Cursor<'a>) -> bool {
        self.bytes == other.bytes && self.max_depth == other.max_depth
    }

    /// A cursor at the start of `bytes`.
    pub fn new(bytes: &'a [u8], max_depth: usize) -> (c: Cursor<'a>)
        ensures
            c.bytes == bytes,
            c.pos == 0,
            c.max_depth == max_depth,
    {
        Cursor { bytes, pos: 0, max_depth }
    }

    /// The current offset.
    pub fn pos(&self) -> (p: usize)
        ensures
            p == self.pos,
    {
        self.pos
    }

    /// A cursor over the same input at another offset, for values whose position was recorded while
    /// the object that holds them was scanned.
    pub fn fork_at(&self, pos: usize) -> (c: Cursor<'a>)
        ensures
            c.same_input(*self),
            c.pos == pos,
    {
        Cursor { bytes: self.bytes, pos, max_depth: self.max_depth }
    }

    /// The error that reports `kind` at the current offset.
    pub fn err(&self, kind: JsonErrorKind) -> (e: Error)
        ensures
            e == (Error::Json { offset: self.pos, kind }),
    {
        Error::Json { offset: self.pos, kind }
    }

    /// The next byte, where there is one.
    pub fn peek(&self) -> (b: Option<u8>)
        ensures
            b == byte_at(self.bytes@, self.pos as int),
            b is Some ==> self.pos < usize::MAX,
    {
        if self.pos < self.bytes.len() {
            Some(self.bytes[self.pos])
        } else {
            None
        }
    }

    /// Takes the next byte, where there is one.
    pub fn bump(&mut self) -> (b: Option<u8>)
        ensures
            final(self).same_input(*old(self)),
            b == byte_at(old(self).bytes@, old(self).pos as int),
            final(self).pos == old(self).pos + (if b is Some {
                1int
            } else {
                0
            }),
    {
        let b = self.peek();
        if b.is_some() {
            self.pos += 1;
        }
        b
    }

    /// Takes whitespace.
    pub fn skip_ws(&mut self)
        ensures
            final(self).same_input(*old(self)),
            final(self).pos == after_space(old(self).bytes@, old(self).pos as int),
    {
        let ghost start = *self;
        while self.pos < self.bytes.len() && (self.bytes[self.pos] == 0x20
            || self.bytes[self.pos] == 0x09 || self.bytes[self.pos] == 0x0a
            || self.bytes[self.pos] == 0x0d)
            invariant
                self.same_input(start),
                after_space(self.bytes@, self.pos as int) == after_space(
                    start.bytes@,
                    start.pos as int,
                ),
            decreases self.bytes@.len() - self.pos,
        {
            self.pos += 1;
        }
    }

    /// Takes one byte, which has to be `expected`.
    pub fn expect(&mut self, expected: u8) -> (r: Result<()>)
        ensures
            final(self).same_input(*old(self)),
            ({
                let scan = expect_scan(old(self).bytes@, old(self).pos as int, expected);
                final(self).pos == scan.end && r == reported(scan, ())
            }),
    {
        match self.peek() {
            Some(b) => {
                if b == expected {
                    self.pos += 1;
                    Ok(())
                } else {
                    Err(self.err(JsonErrorKind::UnexpectedByte(b)))
                }
            },
            None => Err(self.err(JsonErrorKind::UnexpectedEof)),
        }
    }

    /// Takes a string and returns the bytes between its quotes.
    ///
    /// Escapes are not decoded; a backslash and the byte behind it are passed over together, so an
    /// escaped quote does not end the string. A key that holds escapes matches no known name, and
    /// its value is skipped.
    pub fn read_string_bytes(&mut self) -> (r: Result<&'a [u8]>)
        ensures
            final(self).same_input(*old(self)),
            ({
                let s = old(self).bytes@;
                let p = old(self).pos as int;
                let scan = string_scan(s, p);
                &&& final(self).pos == scan.end
                &&& match r {
                    Ok(text) => scan.fault is None && text@ == string_bytes(s, p),
                    Err(e) => scan.fault == Some(e),
                }
            }),
    {
        let ghost s = self.bytes@;
        let ghost p = self.pos as int;
        match self.expect(0x22) {
            Ok(_) => {},
            Err(e) => {
                return Err(e);
            },
        }
        let start: usize = self.pos;
        let whole = self.bytes;
        let depth = self.max_depth;
        loop
            invariant
                whole@ == s,
                self.bytes == whole,
                self.max_depth == depth,
                start == p + 1,
                start <= self.pos <= s.len(),
                byte_at(s, p) == Some(0x22u8),
                closing_quote(s, self.pos as int) == closing_quote(s, p + 1),
                whole == old(self).bytes,
                depth == old(self).max_depth,
                p == old(self).pos,
            decreases s.len() - self.pos,
        {
            match self.bump() {
                Some(b) => {
                    if b == 0x22 {
                        return Ok(vstd::slice::slice_subrange(self.bytes, start, self.pos - 1));
                    }
                    if b == 0x5c && self.bump().is_none() {
                        return Err(self.err(JsonErrorKind::UnexpectedEof));
                    }
                },
                None => {
                    return Err(self.err(JsonErrorKind::UnexpectedEof));
                },
            }
        }
    }

    /// Takes digits and puts their values behind those in `out`.
    fn take_digits(&mut self, out: &mut Vec<u8>)
        ensures
            final(self).same_input(*old(self)),
            final(self).pos == after_digits(old(self).bytes@, old(self).pos as int),
            final(out)@ == old(out)@ + digits_of(
                old(self).bytes@,
                old(self).pos as int,
                final(self).pos as int,
            ),
    {
        let ghost start = *self;
        let ghost before = out@;
        let ghost s = self.bytes@;
        while self.pos < self.bytes.len() && self.bytes[self.pos] >= 0x30 && self.bytes[self.pos]
            <= 0x39
            invariant
                self.same_input(start),
                s == start.bytes@,
                start.pos <= self.pos,
                after_digits(s, self.pos as int) == after_digits(s, start.pos as int),
                out@ == before + digits_of(s, start.pos as int, self.pos as int),
            decreases s.len() - self.pos,
        {
            out.push(self.bytes[self.pos] - 0x30);
            self.pos += 1;
            assert(out@ =~= before + digits_of(s, start.pos as int, self.pos as int));
        }
    }

    /// Takes the exponent of a number, from its letter on.
    fn take_exponent(&mut self) -> (e: Option<i128>)
        requires
            old(self).pos < old(self).bytes@.len(),
        ensures
            final(self).same_input(*old(self)),
            ({
                let s = old(self).bytes@;
                let p = old(self).pos as int;
                let sign = byte_at(s, p + 1);
                let signed = sign == Some(0x2bu8) || sign == Some(0x2du8);
                let from = p + 1 + (if signed {
                    1int
                } else {
                    0
                });
                let end = after_digits(s, from);
                let n = number::nat_of(digits_of(s, from, end));
                let kept = if n < MAX_POWER {
                    n as int
                } else {
                    MAX_POWER as int
                };
                &&& final(self).pos == end
                &&& match e {
                    None => end == from,
                    Some(power) => end > from && power == (if sign == Some(0x2du8) {
                        -kept
                    } else {
                        kept
                    }),
                }
            }),
    {
        let _ = self.bump();
        let sign = self.peek();
        if sign == Some(0x2bu8) || sign == Some(0x2du8) {
            self.pos += 1;
        }
        let ghost s = self.bytes@;
        let ghost from = self.pos as int;
        let mut exponent: Vec<u8> = Vec::new();
        self.take_digits(&mut exponent);
        proof {
            lemma_after_digits(s, from);
            assert(exponent@ =~= digits_of(s, from, self.pos as int));
        }
        if exponent.len() == 0 {
            return None;
        }
        assert(number::all_digits(exponent@));
        let power = clamped(exponent.as_slice());
        if sign == Some(0x2du8) {
            Some(-power)
        } else {
            Some(power)
        }
    }

    /// Takes a number. It has to be finite in double precision.
    pub fn read_number(&mut self) -> (r: Result<Number>)
        ensures
            final(self).same_input(*old(self)),
            ({
                let s = old(self).bytes@;
                let p = old(self).pos as int;
                let scan = number_scan(s, p);
                &&& final(self).pos == scan.end
                &&& match r {
                    Ok(n) => scan.fault is None && n@ == number_at(s, p) && n@.wf(),
                    Err(e) => scan.fault == Some(e),
                }
            }),
    {
        let ghost s = self.bytes@;
        let ghost p = self.pos as int;
        let mut digits: Vec<u8> = Vec::new();
        let negative = self.peek() == Some(0x2du8);
        if negative {
            self.pos += 1;
        }
        let ghost a = self.pos as int;
        self.take_digits(&mut digits);
        let mut fraction: usize = 0;
        proof {
            lemma_after_digits(s, a);
        }
        let ghost whole = digits@;
        if self.peek() == Some(0x2eu8) {
            self.pos += 1;
            let from: usize = self.pos;
            self.take_digits(&mut digits);
            proof {
                lemma_after_digits(s, from as int);
            }
            fraction = self.pos - from;
        }
        assert(digits@ =~= number_digits(s, p));
        if digits.len() == 0 {
            return Err(self.err(JsonErrorKind::BadNumber));
        }
        let mut power: i128 = 0;
        proof {
            lemma_after_digits(s, number_fraction(s, p));
            lemma_after_digits(s, number_exponent(s, p));
            assert(number::all_digits(digits@));
            assert(p < s.len());
            lemma_number_scan(s, p);
        }
        let e = self.peek();
        if e == Some(0x65u8) || e == Some(0x45u8) {
            match self.take_exponent() {
                Some(found) => {
                    power = found;
                },
                None => {
                    return Err(self.err(JsonErrorKind::BadNumber));
                },
            }
        }
        let scale: i128 = power - fraction as i128;
        proof {
            number::lemma_range_beyond(digits@, number_scale(s, p), scale as int);
        }
        if !number::is_finite(digits.as_slice(), scale) {
            return Err(self.err(JsonErrorKind::BadNumber));
        }
        Ok(Number::from_parts(negative, digits, scale))
    }

    /// Takes the bytes of `rest` one after another.
    fn expect_keyword(&mut self, rest: &[u8]) -> (r: Result<()>)
        ensures
            final(self).same_input(*old(self)),
            ({
                let scan = keyword_scan(old(self).bytes@, old(self).pos as int, rest@);
                final(self).pos == scan.end && r == reported(scan, ())
            }),
    {
        let ghost s = self.bytes@;
        let ghost p = self.pos as int;
        let n: usize = rest.len();
        let mut i: usize = 0;
        assert(rest@.skip(0) =~= rest@);
        while i < n
            invariant
                n == rest@.len(),
                i <= n,
                self.same_input(*old(self)),
                s == old(self).bytes@,
                p == old(self).pos,
                keyword_scan(s, self.pos as int, rest@.skip(i as int)) == keyword_scan(s, p, rest@),
            decreases n - i,
        {
            assert(rest@.skip(i as int).skip(1) =~= rest@.skip(i + 1));
            match self.bump() {
                Some(b) => {
                    if b != rest[i] {
                        return Err(self.err(JsonErrorKind::UnexpectedByte(b)));
                    }
                },
                None => {
                    return Err(self.err(JsonErrorKind::UnexpectedEof));
                },
            }
            i += 1;
        }
        Ok(())
    }

    /// Takes a bracketed value, from its first bracket on.
    fn skip_nested(&mut self) -> (r: Result<()>)
        requires
            old(self).pos < old(self).bytes@.len(),
            old(self).bytes@[old(self).pos as int] == 0x7b
                || old(self).bytes@[old(self).pos as int] == 0x5b,
        ensures
            final(self).same_input(*old(self)),
            ({
                let scan = nest_scan(
                    old(self).bytes@,
                    old(self).pos as int,
                    0,
                    old(self).max_depth as int,
                );
                final(self).pos == scan.end && r == reported(scan, ())
            }),
    {
        let ghost s = self.bytes@;
        let ghost p = self.pos as int;
        let ghost most = self.max_depth as int;
        let mut depth: usize = 0;
        loop
            invariant
                s == old(self).bytes@,
                p == old(self).pos,
                most == old(self).max_depth,
                self.same_input(*old(self)),
                p <= self.pos <= s.len(),
                p < s.len(),
                s[p] == 0x7b || s[p] == 0x5b,
                depth <= self.max_depth,
                depth == 0 ==> self.pos == p,
                nest_scan(s, self.pos as int, depth as int, most) == nest_scan(s, p, 0, most),
            decreases s.len() - self.pos,
        {
            match self.bump() {
                Some(b) => {
                    if b == 0x7b || b == 0x5b {
                        if depth >= self.max_depth {
                            return Err(Error::LimitExceeded(Limit::NestingDepth));
                        }
                        depth += 1;
                    } else if b == 0x7d || b == 0x5d {
                        depth -= 1;
                        if depth == 0 {
                            return Ok(());
                        }
                    } else if b == 0x22 {
                        self.pos -= 1;
                        proof {
                            lemma_closing_quote(s, self.pos + 1);
                        }
                        match self.read_string_bytes() {
                            Ok(_) => {},
                            Err(e) => {
                                return Err(e);
                            },
                        }
                    }
                },
                None => {
                    return Err(self.err(JsonErrorKind::UnexpectedEof));
                },
            }
        }
    }

    /// Takes one value of any kind, and whitespace before it.
    pub fn skip_value(&mut self) -> (r: Result<()>)
        ensures
            final(self).same_input(*old(self)),
            ({
                let scan = value_scan(
                    old(self).bytes@,
                    old(self).pos as int,
                    old(self).max_depth as int,
                );
                final(self).pos == scan.end && r == reported(scan, ())
            }),
    {
        self.skip_ws();
        match self.peek() {
            Some(b) => {
                if b == 0x22 {
                    match self.read_string_bytes() {
                        Ok(_) => Ok(()),
                        Err(e) => Err(e),
                    }
                } else if b == 0x7b || b == 0x5b {
                    self.skip_nested()
                } else if b == 0x74 {
                    self.pos += 1;
                    let rest: [u8; 3] = [0x72, 0x75, 0x65];
                    assert(rest@ =~= seq![0x72u8, 0x75u8, 0x65u8]);
                    self.expect_keyword(rest.as_slice())
                } else if b == 0x66 {
                    self.pos += 1;
                    let rest: [u8; 4] = [0x61, 0x6c, 0x73, 0x65];
                    assert(rest@ =~= seq![0x61u8, 0x6cu8, 0x73u8, 0x65u8]);
                    self.expect_keyword(rest.as_slice())
                } else if b == 0x6e {
                    self.pos += 1;
                    let rest: [u8; 3] = [0x75, 0x6c, 0x6c];
                    assert(rest@ =~= seq![0x75u8, 0x6cu8, 0x6cu8]);
                    self.expect_keyword(rest.as_slice())
                } else if b == 0x2d || (b >= 0x30 && b <= 0x39) {
                    match self.read_number() {
                        Ok(_) => Ok(()),
                        Err(e) => Err(e),
                    }
                } else {
                    Err(self.err(JsonErrorKind::UnexpectedByte(b)))
                }
            },
            None => Err(self.err(JsonErrorKind::UnexpectedEof)),
        }
    }
}

/// What a method that yields `value` returns after `scan`.
pub open spec fn reported<T>(scan: Scan, value: T) -> Result<T> {
    match scan.fault {
        None => Ok(value),
        Some(e) => Err(e),
    }
}

/// The number that exponent digits stand for, or the largest exponent where it is larger.
fn clamped(digits: &[u8]) -> (e: i128)
    requires
        number::all_digits(digits@),
    ensures
        e == (if number::nat_of(digits@) < MAX_POWER {
            number::nat_of(digits@) as int
        } else {
            MAX_POWER as int
        }),
{
    let n: usize = digits.len();
    let mut e: i128 = 0;
    let mut i: usize = 0;
    assert(digits@.take(0) =~= Seq::<u8>::empty());
    while i < n
        invariant
            number::all_digits(digits@),
            n == digits@.len(),
            i <= n,
            e == (if number::nat_of(digits@.take(i as int)) < MAX_POWER {
                number::nat_of(digits@.take(i as int)) as int
            } else {
                MAX_POWER as int
            }),
        decreases n - i,
    {
        assert(digits@.take(i + 1).drop_last() =~= digits@.take(i as int));
        if e < MAX_POWER {
            e = e * 10 + digits[i] as i128;
            if e > MAX_POWER {
                e = MAX_POWER;
            }
        }
        i += 1;
    }
    assert(digits@.take(n as int) =~= digits@);
    e
}

/// Whitespace is a space, a tab, a line feed or a carriage return.
pub proof fn law_whitespace_is_four_bytes(b: u8)
    ensures
        is_space(b) <==> b == 32 || b == 9 || b == 10 || b == 13,
        is_digit(b) <==> 48 <= b < 58,
{
}

/// Whitespace is passed over up to the first byte that is none, and digits up to the first that is none.
pub proof fn law_runs_are_passed_over(s: Seq<u8>, p: int, q: int)
    requires
        0 <= p <= q <= s.len(),
    ensures
        (forall|i: int| p <= i < q ==> is_space(#[trigger] s[i])) && (q == s.len() || !is_space(
            s[q],
        )) ==> after_space(s, p) == q,
        (forall|i: int| p <= i < q ==> is_digit(#[trigger] s[i])) && (q == s.len() || !is_digit(
            s[q],
        )) ==> after_digits(s, p) == q,
    decreases q - p,
{
    if p < q {
        law_runs_are_passed_over(s, p + 1, q);
    }
}

/// A number is read as it is written: a minus sign makes it negative, the digits before and behind the
/// point stand one after another, and each digit behind the point scales it down by ten.
pub proof fn law_numbers_are_read_as_written(s: Seq<u8>, p: int, whole: int, point: int, end: int, i: int)
    requires
        0 <= p,
        p < s.len(),
        whole == (if s[p] == 0x2d {
            p + 1
        } else {
            p
        }),
        whole < point < end <= s.len(),
        forall|k: int| whole <= k < point ==> is_digit(#[trigger] s[k]),
        s[point] == 0x2e,
        forall|k: int| point < k < end ==> is_digit(#[trigger] s[k]),
        end == s.len() || (!is_digit(s[end]) && s[end] != 0x65 && s[end] != 0x45),
        0 <= i < end - whole - 1,
    ensures
        ({
            let n = number_at(s, p);
            &&& n.negative <==> s[p] == 0x2d
            &&& n.digits.len() == end - whole - 1
            &&& n.digits[i] == (if whole + i < point {
                s[whole + i] - 0x30
            } else {
                s[whole + i + 1] - 0x30
            })
            &&& n.scale == -(end - point - 1)
            &&& number_scan(s, p).end == end
            &&& number_scan(s, p).fault is None <==> number::in_range(
                number::nat_of(n.digits),
                n.scale,
            )
        }),
{
    law_runs_are_passed_over(s, whole, point);
    law_runs_are_passed_over(s, point + 1, end);
    assert(number_whole(s, p) == whole);
    assert(number_point(s, p) == point);
    assert(number_mantissa(s, p) == end);
    assert(!number_has_exponent(s, p));
}

/// A number without a point is its digits; an exponent scales it up, or down where it has a minus sign.
pub proof fn law_exponents_scale_numbers(s: Seq<u8>, p: int, letter: int, first: int, end: int)
    requires
        0 <= p < letter < first < end <= s.len(),
        s[p] != 0x2d,
        forall|k: int| p <= k < letter ==> is_digit(#[trigger] s[k]),
        s[letter] == 0x65 || s[letter] == 0x45,
        first == (if s[letter + 1] == 0x2b || s[letter + 1] == 0x2d {
            letter + 2
        } else {
            letter + 1
        }),
        forall|k: int| first <= k < end ==> is_digit(#[trigger] s[k]),
        end == s.len() || !is_digit(s[end]),
        end - first <= 20,
    ensures
        ({
            let n = number_at(s, p);
            let e = number::nat_of(digits_of(s, first, end));
            &&& !n.negative
            &&& n.digits == digits_of(s, p, letter)
            &&& n.scale == (if s[letter + 1] == 0x2d {
                -(e as int)
            } else {
                e as int
            })
            &&& number_scan(s, p).end == end
        }),
{
    law_runs_are_passed_over(s, p, letter);
    law_runs_are_passed_over(s, first, end);
    assert(number_whole(s, p) == p);
    assert(number_point(s, p) == letter);
    assert(number_mantissa(s, p) == letter);
    assert(number_exponent(s, p) == first);
    assert(number_end(s, p) == end);
    assert(number_digits(s, p) =~= digits_of(s, p, letter));
    let d = digits_of(s, first, end);
    assert(number::all_digits(d)) by {
        assert forall|i: int| 0 <= i < d.len() implies #[trigger] d[i] <= 9 by {
            assert(is_digit(s[first + i]));
        }
    }
    number::lemma_nat_of_bounds(d);
    vstd::arithmetic::power::lemma_pow_increases(10, d.len(), 20);
    assert(number::pow10(20) == 100000000000000000000) by {
        assert(vstd::arithmetic::power::pow(10, 10) == 10000000000) by {
            reveal_with_fuel(vstd::arithmetic::power::pow, 11);
        }
        vstd::arithmetic::power::lemma_pow_adds(10, 10, 10);
    }
}

/// A string runs from its quote to the next one that no backslash stands before; a backslash takes the
/// byte behind it along, whatever that is.
pub proof fn law_strings_end_at_the_next_quote(s: Seq<u8>, p: int, q: int)
    requires
        0 <= p < q < s.len(),
        s[p] == 0x22,
        s[q] == 0x22,
        forall|k: int| p < k < q ==> #[trigger] s[k] != 0x22 && s[k] != 0x5c,
    ensures
        string_scan(s, p) == done(q + 1),
        string_bytes(s, p) == s.subrange(p + 1, q),
{
    lemma_plain_run(s, p + 1, q);
}

proof fn lemma_plain_run(s: Seq<u8>, p: int, q: int)
    requires
        0 <= p <= q < s.len(),
        s[q] == 0x22,
        forall|k: int| p <= k < q ==> #[trigger] s[k] != 0x22 && s[k] != 0x5c,
    ensures
        closing_quote(s, p) == Some(q),
    decreases q - p,
{
    if p < q {
        lemma_plain_run(s, p + 1, q);
    }
}

/// A backslash takes the byte behind it along, and a string that does not end reports the end of the
/// input.
pub proof fn law_backslashes_escape_one_byte(s: Seq<u8>, p: int)
    requires
        0 <= p,
        p + 1 < s.len(),
        s[p] == 0x5c,
    ensures
        closing_quote(s, p) == closing_quote(s, p + 2),
        closing_quote(s, s.len() as int) is None,
{
}

/// Brackets are counted: an opening one goes one deeper, a closing one comes back, and the one that
/// closes the first ends the value. Strings inside are passed over whole, and going deeper than allowed
/// is a broken limit.
pub proof fn law_brackets_are_counted(s: Seq<u8>, p: int, depth: int, max_depth: int)
    requires
        0 <= p < s.len(),
        0 <= depth,
    ensures
        s[p] == 0x7b || s[p] == 0x5b ==> (if depth < max_depth {
            nest_scan(s, p, depth, max_depth) == nest_scan(s, p + 1, depth + 1, max_depth)
        } else {
            nest_scan(s, p, depth, max_depth).fault == Some(
                Error::LimitExceeded(Limit::NestingDepth),
            )
        }),
        (s[p] == 0x7d || s[p] == 0x5d) && depth <= 1 ==> nest_scan(s, p, depth, max_depth) == done(
            p + 1,
        ),
        (s[p] == 0x7d || s[p] == 0x5d) && depth > 1 ==> nest_scan(s, p, depth, max_depth)
            == nest_scan(s, p + 1, depth - 1, max_depth),
        s[p] == 0x22 && string_scan(s, p).fault is None ==> nest_scan(s, p, depth, max_depth)
            == nest_scan(s, string_scan(s, p).end, depth, max_depth),
        s[p] != 0x7b && s[p] != 0x5b && s[p] != 0x7d && s[p] != 0x5d && s[p] != 0x22 ==> nest_scan(
            s,
            p,
            depth,
            max_depth,
        ) == nest_scan(s, p + 1, depth, max_depth),
        nest_scan(s, s.len() as int, depth, max_depth).fault is Some,
{
    lemma_closing_quote(s, p + 1);
}

/// A value is told by its first byte: a quote, a bracket, the words `true`, `false` and `null`, or a
/// number; any other byte is unexpected.
pub proof fn law_values_are_told_by_their_first_byte(s: Seq<u8>, p: int, max_depth: int)
    requires
        0 <= p < s.len(),
        !is_space(s[p]),
    ensures
        s[p] == 0x22 ==> value_scan(s, p, max_depth) == string_scan(s, p),
        s[p] == 0x7b || s[p] == 0x5b ==> value_scan(s, p, max_depth) == nest_scan(s, p, 0, max_depth),
        s[p] == 0x2d || 48 <= s[p] < 58 ==> value_scan(s, p, max_depth) == number_scan(s, p),
        p + 4 <= s.len() && s.subrange(p, p + 4) == seq![0x74u8, 0x72u8, 0x75u8, 0x65u8]
            ==> value_scan(s, p, max_depth) == done(p + 4),
        p + 4 <= s.len() && s.subrange(p, p + 4) == seq![0x6eu8, 0x75u8, 0x6cu8, 0x6cu8]
            ==> value_scan(s, p, max_depth) == done(p + 4),
        p + 5 <= s.len() && s.subrange(p, p + 5) == seq![0x66u8, 0x61u8, 0x6cu8, 0x73u8, 0x65u8]
            ==> value_scan(s, p, max_depth) == done(p + 5),
        s[p] != 0x22 && s[p] != 0x7b && s[p] != 0x5b && s[p] != 0x74 && s[p] != 0x66 && s[p] != 0x6e
            && s[p] != 0x2d && !(48 <= s[p] < 58) ==> value_scan(s, p, max_depth) == bad(
            p,
            JsonErrorKind::UnexpectedByte(s[p]),
        ),
{
    assert(after_space(s, p) == p);
    if p + 4 <= s.len() {
        let w = s.subrange(p, p + 4);
        assert(w[0] == s[p] && w[1] == s[p + 1] && w[2] == s[p + 2] && w[3] == s[p + 3]);
    }
    if p + 5 <= s.len() {
        let w = s.subrange(p, p + 5);
        assert(w[0] == s[p] && w[1] == s[p + 1] && w[2] == s[p + 2] && w[3] == s[p + 3] && w[4]
            == s[p + 4]);
    }
    reveal_with_fuel(keyword_scan, 5);
}

/// Behind the end of the input there is nothing but its end; any other byte that does not fit is named.
pub proof fn law_unexpected_bytes_are_named(s: Seq<u8>, p: int, b: u8)
    ensures
        0 <= p < s.len() && s[p] != b ==> expect_scan(s, p, b) == bad(
            p,
            JsonErrorKind::UnexpectedByte(s[p]),
        ),
        0 <= p < s.len() && s[p] == b ==> expect_scan(s, p, b) == done(p + 1),
        p >= s.len() ==> expect_scan(s, p, b) == bad(p, JsonErrorKind::UnexpectedEof),
        bad(p, JsonErrorKind::BadNumber).end == p,
        0 <= p <= usize::MAX ==> bad(p, JsonErrorKind::BadNumber).fault == Some(
            Error::Json { offset: p as usize, kind: JsonErrorKind::BadNumber },
        ),
        done(p).fault is None && done(p).end == p,
{
}

} // verus!
