//! The tokenizer: classifies the front of the remaining source text as
//! trivia to skip (whitespace and comments), an identifier, a literal, or a
//! punctuation mark, and reports how many bytes the classification spans.
use vstd::prelude::*;

use crate::literals::{
    escape_spec, escape_str, parse_float, parse_float_spec, parse_int, parse_int_spec,
    FloatParseError, FloatValue, FloatValueView, IntParseError, StringEscapeError,
};
use crate::bignum::big_nat;
use crate::parsing::{parse_step_matches, Parsable, PositionnedErr};
use crate::text_region::TextPosition;
use num_bigint::BigUint;

verus! {

/// An error from tokenizing, with positions relative to the text handed to
/// the failing parser.
#[derive(Debug, Clone, PartialEq, Eq, Structural)]
pub enum TokenParseError {
    EmptyStr,
    NoMatch(TextPosition),
    StringEscapeError(StringEscapeError),
    FloatParseError(FloatParseError),
    IntParseError(IntParseError),
    UnexpectedEOF,
    UnexpectedChar(TextPosition),
}

impl PositionnedErr for TokenParseError {
    /// The largest byte offset the error mentions.
    open spec fn pos_bound(self) -> nat {
        match self {
            TokenParseError::EmptyStr => 0,
            TokenParseError::NoMatch(p) => p.idx as nat,
            TokenParseError::StringEscapeError(e) => e.pos_bound(),
            TokenParseError::FloatParseError(e) => e.pos_bound(),
            TokenParseError::IntParseError(e) => e.pos_bound(),
            TokenParseError::UnexpectedEOF => 0,
            TokenParseError::UnexpectedChar(p) => p.idx as nat,
        }
    }

    /// The error with its positions shifted `off` bytes to the right; the
    /// position-free variants are unchanged.
    open spec fn spec_offset(self, off: nat) -> TokenParseError {
        match self {
            TokenParseError::EmptyStr => TokenParseError::EmptyStr,
            TokenParseError::NoMatch(p) => TokenParseError::NoMatch(
                TextPosition { idx: (p.idx + off) as usize },
            ),
            TokenParseError::StringEscapeError(e) => TokenParseError::StringEscapeError(
                e.spec_offset(off),
            ),
            TokenParseError::FloatParseError(e) => TokenParseError::FloatParseError(
                e.spec_offset(off),
            ),
            TokenParseError::IntParseError(e) => TokenParseError::IntParseError(e.spec_offset(off)),
            TokenParseError::UnexpectedEOF => TokenParseError::UnexpectedEOF,
            TokenParseError::UnexpectedChar(p) => TokenParseError::UnexpectedChar(
                TextPosition { idx: (p.idx + off) as usize },
            ),
        }
    }

    fn offset(&mut self, offset: usize) {
        match self {
            TokenParseError::NoMatch(pos) => pos.idx += offset,
            TokenParseError::StringEscapeError(err) => err.offset(offset),
            TokenParseError::FloatParseError(err) => err.offset(offset),
            TokenParseError::IntParseError(err) => err.offset(offset),
            TokenParseError::UnexpectedChar(pos) => pos.idx += offset,
            _ => {},
        }
    }
}

/// A fixed single-character punctuation mark. The open and close forms of
/// parentheses, braces and brackets each decode to their own distinct
/// variant.
#[derive(Debug, Clone, Copy, PartialEq, Eq)]
pub enum SpecialChar {
    Dot,
    SemiColon,
    Colon,
    Comma,
    Plus,
    Minus,
    Equal,
    GreaterThan,
    LessThan,
    Slash,
    Star,
    OpenParen,
    CloseParen,
    OpenBrace,
    CloseBrace,
    OpenBracket,
    CloseBracket,
    AtSign,
    Bang,
    QuestionMark,
}

/// Which punctuation mark byte `b` denotes, if any.
pub open spec fn special_of(b: u8) -> Option<SpecialChar> {
    if b == 46 {
        Some(SpecialChar::Dot)
    } else if b == 59 {
        Some(SpecialChar::SemiColon)
    } else if b == 58 {
        Some(SpecialChar::Colon)
    } else if b == 44 {
        Some(SpecialChar::Comma)
    } else if b == 43 {
        Some(SpecialChar::Plus)
    } else if b == 45 {
        Some(SpecialChar::Minus)
    } else if b == 61 {
        Some(SpecialChar::Equal)
    } else if b == 62 {
        Some(SpecialChar::GreaterThan)
    } else if b == 60 {
        Some(SpecialChar::LessThan)
    } else if b == 47 {
        Some(SpecialChar::Slash)
    } else if b == 42 {
        Some(SpecialChar::Star)
    } else if b == 40 {
        Some(SpecialChar::OpenParen)
    } else if b == 41 {
        Some(SpecialChar::CloseParen)
    } else if b == 123 {
        Some(SpecialChar::OpenBrace)
    } else if b == 125 {
        Some(SpecialChar::CloseBrace)
    } else if b == 91 {
        Some(SpecialChar::OpenBracket)
    } else if b == 93 {
        Some(SpecialChar::CloseBracket)
    } else if b == 64 {
        Some(SpecialChar::AtSign)
    } else if b == 33 {
        Some(SpecialChar::Bang)
    } else if b == 63 {
        Some(SpecialChar::QuestionMark)
    } else {
        None
    }
}

impl View for SpecialChar {
    type V = SpecialChar;

    open spec fn view(&self) -> SpecialChar {
        *self
    }
}

impl Parsable for SpecialChar {
    type Error = TokenParseError;

    /// The empty text is `UnexpectedEOF`; otherwise a punctuation byte is
    /// one token of one byte, and anything else is no match.
    open spec fn spec_try_parse(s: Seq<u8>) -> Result<
        (Option<SpecialChar>, usize),
        TokenParseError,
    > {
        if s.len() == 0 {
            Err(TokenParseError::UnexpectedEOF)
        } else {
            match special_of(s[0]) {
                Some(c) => Ok((Some(c), 1)),
                None => Ok((None, 0)),
            }
        }
    }

    fn try_parse(s: &[u8]) -> (r: Result<(Option<SpecialChar>, usize), TokenParseError>) {
        if s.len() == 0 {
            return Err(TokenParseError::UnexpectedEOF);
        }
        let b = s[0];
        let m: Option<SpecialChar> = if b == 46 {
            Some(SpecialChar::Dot)
        } else if b == 59 {
            Some(SpecialChar::SemiColon)
        } else if b == 58 {
            Some(SpecialChar::Colon)
        } else if b == 44 {
            Some(SpecialChar::Comma)
        } else if b == 43 {
            Some(SpecialChar::Plus)
        } else if b == 45 {
            Some(SpecialChar::Minus)
        } else if b == 61 {
            Some(SpecialChar::Equal)
        } else if b == 62 {
            Some(SpecialChar::GreaterThan)
        } else if b == 60 {
            Some(SpecialChar::LessThan)
        } else if b == 47 {
            Some(SpecialChar::Slash)
        } else if b == 42 {
            Some(SpecialChar::Star)
        } else if b == 40 {
            Some(SpecialChar::OpenParen)
        } else if b == 41 {
            Some(SpecialChar::CloseParen)
        } else if b == 123 {
            Some(SpecialChar::OpenBrace)
        } else if b == 125 {
            Some(SpecialChar::CloseBrace)
        } else if b == 91 {
            Some(SpecialChar::OpenBracket)
        } else if b == 93 {
            Some(SpecialChar::CloseBracket)
        } else if b == 64 {
            Some(SpecialChar::AtSign)
        } else if b == 33 {
            Some(SpecialChar::Bang)
        } else if b == 63 {
            Some(SpecialChar::QuestionMark)
        } else {
            None
        };
        match m {
            Some(c) => Ok((Some(c), 1)),
            None => Ok((None, 0)),
        }
    }
}

/// Whether byte `b` may start an identifier: an ASCII letter or underscore.
pub open spec fn is_ident_start(b: u8) -> bool {
    (65 <= b && b <= 90) || (97 <= b && b <= 122) || b == 95
}

/// Whether byte `b` may continue an identifier: an ASCII letter, digit or
/// underscore.
pub open spec fn is_ident_byte(b: u8) -> bool {
    is_ident_start(b) || (48 <= b && b <= 57)
}

/// The first position at or after `i` where the identifier run ends.
pub open spec fn ident_end(s: Seq<u8>, i: int) -> int
    decreases s.len() - i,
{
    if i < 0 || i >= s.len() {
        i
    } else if is_ident_byte(s[i]) {
        ident_end(s, i + 1)
    } else {
        i
    }
}

/// An identifier token: an ASCII letter or underscore followed by the
/// longest run of ASCII letters, digits and underscores.
#[derive(Debug, Clone, PartialEq, Eq)]
pub struct Identifier {
    name: Vec<u8>,
}

impl Identifier {
    /// The identifier's text.
    pub fn name(&self) -> (r: &Vec<u8>)
        ensures
            r@ == self@,
    {
        &self.name
    }
}

impl View for Identifier {
    type V = Seq<u8>;

    closed spec fn view(&self) -> Seq<u8> {
        self.name@
    }
}

/// Whether byte `b` may continue an identifier.
fn is_ident_byte_exec(b: u8) -> (r: bool)
    ensures
        r == is_ident_byte(b),
{
    (65 <= b && b <= 90) || (97 <= b && b <= 122) || b == 95 || (48 <= b && b <= 57)
}

impl Parsable for Identifier {
    type Error = TokenParseError;

    /// A text not starting with a letter or underscore is no match;
    /// otherwise the identifier spans the maximal identifier run.
    open spec fn spec_try_parse(s: Seq<u8>) -> Result<(Option<Seq<u8>>, usize), TokenParseError> {
        if s.len() == 0 || !is_ident_start(s[0]) {
            Ok((None, 0))
        } else {
            Ok((Some(s.take(ident_end(s, 1))), ident_end(s, 1) as usize))
        }
    }

    fn try_parse(s: &[u8]) -> (r: Result<(Option<Identifier>, usize), TokenParseError>) {
        if s.len() == 0 {
            return Ok((None, 0));
        }
        let b0 = s[0];
        if !((65 <= b0 && b0 <= 90) || (97 <= b0 && b0 <= 122) || b0 == 95) {
            return Ok((None, 0));
        }
        let mut i: usize = 1;
        while i < s.len() && is_ident_byte_exec(s[i])
            invariant
                1 <= i <= s@.len(),
                ident_end(s@, 1) == ident_end(s@, i as int),
            decreases s@.len() - i,
        {
            i += 1;
        }
        let name = vstd::slice::slice_to_vec(vstd::slice::slice_subrange(s, 0, i));
        proof {
            assert(name@ =~= s@.take(i as int));
        }
        Ok((Some(Identifier { name }), i))
    }
}

/// The position of the closing quote of a string literal scanned from `i`
/// on, skipping the byte after every backslash; `None` when the text ends
/// before a closing quote.
pub open spec fn str_scan(s: Seq<u8>, i: int, escaped: bool) -> Option<int>
    decreases s.len() - i,
{
    if i < 0 || i >= s.len() {
        None
    } else if escaped {
        str_scan(s, i + 1, false)
    } else if s[i] == 92 {
        str_scan(s, i + 1, true)
    } else if s[i] == 34 {
        Some(i)
    } else {
        str_scan(s, i + 1, false)
    }
}

/// Scans a speculative float shape after the decimal dot at `dot`, from `j`
/// on. The result says whether the literal commits to a float and where it
/// ends: a sign not preceded by `e` ends the float immediately; any other
/// non-numeral byte ends the scan, falling back to an integer literal ending
/// at the dot when no fraction digit was seen.
pub open spec fn float_scan(s: Seq<u8>, j: int, dot: int, prev_e: bool, saw_digit: bool) -> (
    bool,
    int,
)
    decreases s.len() - j,
{
    if j < 0 || j >= s.len() {
        if saw_digit {
            (true, s.len() as int)
        } else {
            (false, dot)
        }
    } else {
        let b = s[j];
        if b == 101 {
            float_scan(s, j + 1, dot, true, saw_digit)
        } else if 48 <= b && b <= 57 {
            float_scan(s, j + 1, dot, false, true)
        } else if b == 95 {
            float_scan(s, j + 1, dot, false, saw_digit)
        } else if b == 43 || b == 45 {
            if !prev_e {
                (true, j)
            } else {
                float_scan(s, j + 1, dot, false, saw_digit)
            }
        } else {
            if saw_digit {
                (true, j)
            } else {
                (false, dot)
            }
        }
    }
}

/// Scans a numeral from position `i` on: digits and underscores run on, a
/// decimal dot switches to the speculative float scan, and any other byte
/// ends an integer literal there. The result says whether the literal is a
/// float and where it ends.
pub open spec fn num_scan(s: Seq<u8>, i: int) -> (bool, int)
    decreases s.len() - i,
{
    if i < 0 || i >= s.len() {
        (false, s.len() as int)
    } else {
        let b = s[i];
        if (48 <= b && b <= 57) || b == 95 {
            num_scan(s, i + 1)
        } else if b == 46 {
            float_scan(s, i + 1, i, false, false)
        } else {
            (false, i)
        }
    }
}

/// A literal token: a quoted string with its escapes decoded, an unsigned
/// arbitrary-precision integer, or an exact decimal float.
#[derive(Debug, Clone, PartialEq, Eq)]
pub enum Literal {
    String(Vec<u8>),
    Int(BigUint),
    Float(FloatValue),
}

/// The mathematical content of a [`Literal`].
pub enum LiteralView {
    String(Seq<u8>),
    Int(nat),
    Float(FloatValueView),
}

impl View for Literal {
    type V = LiteralView;

    open spec fn view(&self) -> LiteralView {
        match self {
            Literal::String(v) => LiteralView::String(v@),
            Literal::Int(b) => LiteralView::Int(big_nat(*b)),
            Literal::Float(f) => LiteralView::Float(f@),
        }
    }
}

impl Parsable for Literal {
    type Error = TokenParseError;

    /// A leading quote scans to the unescaped closing quote and decodes the
    /// body; a leading digit scans a numeral and parses it as an integer or
    /// float; anything else is no match.
    open spec fn spec_try_parse(s: Seq<u8>) -> Result<(Option<LiteralView>, usize), TokenParseError> {
        if s.len() == 0 {
            Ok((None, 0))
        } else if s[0] == 34 {
            match str_scan(s, 1, false) {
                None => Err(TokenParseError::UnexpectedEOF),
                Some(q) => match escape_spec(s.subrange(1, q)) {
                    Ok(body) => Ok((Some(LiteralView::String(body)), (q + 1) as usize)),
                    Err(e) => Err(TokenParseError::StringEscapeError(e.spec_offset(1))),
                },
            }
        } else if 48 <= s[0] && s[0] <= 57 {
            let sc = num_scan(s, 1);
            if !sc.0 {
                match parse_int_spec(s.take(sc.1)) {
                    Ok(v) => Ok((Some(LiteralView::Int(v)), sc.1 as usize)),
                    Err(e) => Err(TokenParseError::IntParseError(e)),
                }
            } else {
                match parse_float_spec(s.take(sc.1)) {
                    Ok(v) => Ok((Some(LiteralView::Float(v)), sc.1 as usize)),
                    Err(e) => Err(TokenParseError::FloatParseError(e)),
                }
            }
        } else {
            Ok((None, 0))
        }
    }

    fn try_parse(s: &[u8]) -> (r: Result<(Option<Literal>, usize), TokenParseError>) {
        if s.len() == 0 {
            return Ok((None, 0));
        }
        let b0 = s[0];
        if b0 == 34 {
            let mut i: usize = 1;
            let mut escaped = false;
            while i < s.len()
                invariant
                    1 <= i <= s@.len(),
                    s@.len() > 0,
                    s@[0] == 34,
                    str_scan(s@, 1, false) == str_scan(s@, i as int, escaped),
                decreases s@.len() - i,
            {
                let b = s[i];
                if escaped {
                    escaped = false;
                    i += 1;
                } else if b == 92 {
                    escaped = true;
                    i += 1;
                } else if b == 34 {
                    let body = vstd::slice::slice_subrange(s, 1, i);
                    proof {
                        assert(body@ =~= s@.subrange(1, i as int));
                    }
                    match escape_str(body) {
                        Ok(v) => {
                            return Ok((Some(Literal::String(v)), i + 1));
                        },
                        Err(mut e) => {
                            e.offset(1);
                            return Err(TokenParseError::StringEscapeError(e));
                        },
                    }
                } else {
                    i += 1;
                }
            }
            return Err(TokenParseError::UnexpectedEOF);
        } else if 48 <= b0 && b0 <= 57 {
            let mut i: usize = 1;
            while i < s.len()
                invariant
                    1 <= i <= s@.len(),
                    s@.len() > 0,
                    48 <= s@[0] <= 57,
                    num_scan(s@, 1) == num_scan(s@, i as int),
                decreases s@.len() - i,
            {
                let b = s[i];
                if (48 <= b && b <= 57) || b == 95 {
                    i += 1;
                } else if b == 46 {
                    let ghost dot = i as int;
                    let mut j: usize = i + 1;
                    let mut prev_e = false;
                    let mut saw_digit = false;
                    while j < s.len()
                        invariant
                            i < j <= s@.len(),
                            i < s@.len(),
                            s@.len() > 0,
                            48 <= s@[0] <= 57,
                            s@[i as int] == 46,
                            num_scan(s@, 1) == float_scan(s@, j as int, i as int, prev_e, saw_digit),
                        decreases s@.len() - j,
                    {
                        let c = s[j];
                        if c == 101 {
                            prev_e = true;
                            j += 1;
                        } else if 48 <= c && c <= 57 {
                            saw_digit = true;
                            prev_e = false;
                            j += 1;
                        } else if c == 95 {
                            prev_e = false;
                            j += 1;
                        } else if c == 43 || c == 45 {
                            if !prev_e {
                                return literal_float_at(s, j);
                            }
                            prev_e = false;
                            j += 1;
                        } else {
                            if !saw_digit {
                                return literal_int_at(s, i);
                            }
                            return literal_float_at(s, j);
                        }
                    }
                    if !saw_digit {
                        return literal_int_at(s, i);
                    }
                    return literal_float_at(s, s.len());
                } else {
                    return literal_int_at(s, i);
                }
            }
            return literal_int_at(s, s.len());
        } else {
            return Ok((None, 0));
        }
    }
}

/// Parses the integer literal spanning the first `end` bytes of `s`.
fn literal_int_at(s: &[u8], end: usize) -> (r: Result<(Option<Literal>, usize), TokenParseError>)
    requires
        end <= s@.len(),
        num_scan(s@, 1) == (false, end as int),
        s@.len() > 0,
        48 <= s@[0] <= 57,
    ensures
        parse_step_matches::<Literal, TokenParseError>(r, Literal::spec_try_parse(s@)),
        r matches Err(e) ==> e.pos_bound() <= s@.len(),
{
    let head = vstd::slice::slice_subrange(s, 0, end);
    proof {
        assert(head@ =~= s@.take(end as int));
    }
    match parse_int(head) {
        Ok(v) => Ok((Some(Literal::Int(v)), end)),
        Err(e) => Err(TokenParseError::IntParseError(e)),
    }
}

/// Parses the float literal spanning the first `end` bytes of `s`.
fn literal_float_at(s: &[u8], end: usize) -> (r: Result<(Option<Literal>, usize), TokenParseError>)
    requires
        end <= s@.len(),
        num_scan(s@, 1) == (true, end as int),
        s@.len() > 0,
        48 <= s@[0] <= 57,
    ensures
        parse_step_matches::<Literal, TokenParseError>(r, Literal::spec_try_parse(s@)),
        r matches Err(e) ==> e.pos_bound() <= s@.len(),
{
    let head = vstd::slice::slice_subrange(s, 0, end);
    proof {
        assert(head@ =~= s@.take(end as int));
    }
    match parse_float(head) {
        Ok(v) => Ok((Some(Literal::Float(v)), end)),
        Err(e) => Err(TokenParseError::FloatParseError(e)),
    }
}

/// Which construct the trivia scanner stands in: plain text, a `//` line
/// comment, or a `/* */` comment.
pub enum TrimState {
    Outside,
    LineComment,
    MultiLineComment,
}

/// Whether `b` is an ASCII whitespace byte.
pub open spec fn is_ws(b: u8) -> bool {
    b == 32 || b == 9 || b == 10 || b == 12 || b == 13
}

/// Where the trivia run that starts at `i` in state `st` ends: whitespace
/// and the two comment forms are consumed, a line comment up to and
/// including its line feed, a block comment up to and including `*/` or to
/// the end of the text if unterminated.
pub open spec fn trim_from(s: Seq<u8>, i: int, st: TrimState) -> int
    decreases s.len() - i,
{
    if i < 0 || i >= s.len() {
        i
    } else {
        match st {
            TrimState::Outside => {
                if is_ws(s[i]) {
                    trim_from(s, i + 1, TrimState::Outside)
                } else if i + 1 < s.len() && s[i] == 47 && s[i + 1] == 47 {
                    trim_from(s, i + 2, TrimState::LineComment)
                } else if i + 1 < s.len() && s[i] == 47 && s[i + 1] == 42 {
                    trim_from(s, i + 2, TrimState::MultiLineComment)
                } else {
                    i
                }
            },
            TrimState::LineComment => {
                if s[i] == 10 {
                    trim_from(s, i + 1, TrimState::Outside)
                } else {
                    trim_from(s, i + 1, TrimState::LineComment)
                }
            },
            TrimState::MultiLineComment => {
                if i + 1 < s.len() && s[i] == 42 && s[i + 1] == 47 {
                    trim_from(s, i + 2, TrimState::Outside)
                } else {
                    trim_from(s, i + 1, TrimState::MultiLineComment)
                }
            },
        }
    }
}

/// How many leading trivia bytes `s` holds.
pub open spec fn trim_spec(s: Seq<u8>) -> int {
    trim_from(s, 0, TrimState::Outside)
}

/// Skips the leading whitespace and comments of `s`, returning how many
/// bytes they span, or `None` when nothing was skippable.
fn trim(s: &[u8]) -> (r: Option<usize>)
    ensures
        match r {
            Some(n) => n == trim_spec(s@) && n > 0,
            None => trim_spec(s@) == 0,
        },
{
    let mut skipped: usize = 0;
    let mut st = TrimState::Outside;
    let mut done = false;
    while !done && skipped < s.len()
        invariant
            skipped <= s@.len(),
            trim_spec(s@) == trim_from(s@, skipped as int, st),
            done ==> trim_from(s@, skipped as int, st) == skipped,
        decreases s@.len() - skipped, (if done { 0int } else { 1int }),
    {
        match st {
            TrimState::Outside => {
                let b = s[skipped];
                if b == 32 || b == 9 || b == 10 || b == 12 || b == 13 {
                    skipped += 1;
                } else if skipped + 1 < s.len() && b == 47 && s[skipped + 1] == 47 {
                    st = TrimState::LineComment;
                    skipped += 2;
                } else if skipped + 1 < s.len() && b == 47 && s[skipped + 1] == 42 {
                    st = TrimState::MultiLineComment;
                    skipped += 2;
                } else {
                    done = true;
                }
            },
            TrimState::LineComment => {
                if s[skipped] == 10 {
                    st = TrimState::Outside;
                }
                skipped += 1;
            },
            TrimState::MultiLineComment => {
                if skipped + 1 < s.len() && s[skipped] == 42 && s[skipped + 1] == 47 {
                    st = TrimState::Outside;
                    skipped += 2;
                } else {
                    skipped += 1;
                }
            },
        }
    }
    if skipped == 0 {
        None
    } else {
        Some(skipped)
    }
}

/// Whether byte `b` can stand inside a numeral run: a decimal digit or an
/// underscore separator.
pub open spec fn is_numeral_byte(b: u8) -> bool {
    (48 <= b && b <= 57) || b == 95
}

/// The first position at or after `i` that does not hold a digit or
/// underscore.
pub open spec fn digits_end(s: Seq<u8>, i: int) -> int
    decreases s.len() - i,
{
    if i < 0 || i >= s.len() {
        i
    } else if is_numeral_byte(s[i]) {
        digits_end(s, i + 1)
    } else {
        i
    }
}

/// Everything before the end of the digit run is a digit or underscore, and
/// the byte at its end is not.
proof fn lemma_digits_end_props(s: Seq<u8>, i: int)
    requires
        0 <= i <= s.len(),
    ensures
        i <= digits_end(s, i) <= s.len(),
        forall|j: int| i <= j < digits_end(s, i) ==> is_numeral_byte(#[trigger] s[j]),
        digits_end(s, i) < s.len() ==> !is_numeral_byte(s[digits_end(s, i)]),
    decreases s.len() - i,
{
    if i < s.len() && is_numeral_byte(s[i]) {
        lemma_digits_end_props(s, i + 1);
    }
}

/// The numeral scan splits into its digit run followed by what the byte at
/// the run's end decides: the end of the text or a non-dot byte ends an
/// integer literal, and a dot hands over to the float scan.
proof fn lemma_num_scan_decompose(s: Seq<u8>, i: int)
    requires
        0 <= i <= s.len(),
    ensures
        ({
            let d = digits_end(s, i);
            if d >= s.len() {
                num_scan(s, i) == (false, s.len() as int)
            } else if s[d] == 46 {
                num_scan(s, i) == float_scan(s, d + 1, d, false, false)
            } else {
                num_scan(s, i) == (false, d)
            }
        }),
    decreases s.len() - i,
{
    if i < s.len() && is_numeral_byte(s[i]) {
        lemma_num_scan_decompose(s, i + 1);
    }
}

/// A float scan that commits ends no earlier than where it stands and no
/// later than the text; one that falls back ends at the dot.
proof fn lemma_float_scan_bounds(s: Seq<u8>, j: int, dot: int, pe: bool, sd: bool)
    requires
        0 <= j <= s.len(),
    ensures
        float_scan(s, j, dot, pe, sd).0 ==> j <= float_scan(s, j, dot, pe, sd).1 <= s.len(),
        !float_scan(s, j, dot, pe, sd).0 ==> float_scan(s, j, dot, pe, sd).1 == dot,
    decreases s.len() - j,
{
    if j < s.len() {
        let b = s[j];
        if b == 101 {
            lemma_float_scan_bounds(s, j + 1, dot, true, sd);
        } else if 48 <= b && b <= 57 {
            lemma_float_scan_bounds(s, j + 1, dot, false, true);
        } else if b == 95 {
            lemma_float_scan_bounds(s, j + 1, dot, false, sd);
        } else if (b == 43 || b == 45) && pe {
            lemma_float_scan_bounds(s, j + 1, dot, false, sd);
        }
    }
}

/// A numeral scan that ends an integer literal saw only digits and
/// underscores up to where the literal ends.
proof fn lemma_num_scan_int_props(s: Seq<u8>, i: int)
    requires
        0 <= i <= s.len(),
        !num_scan(s, i).0,
    ensures
        i <= num_scan(s, i).1 <= s.len(),
        forall|j: int| i <= j < num_scan(s, i).1 ==> is_numeral_byte(#[trigger] s[j]),
{
    let d = digits_end(s, i);
    lemma_digits_end_props(s, i);
    lemma_num_scan_decompose(s, i);
    if d < s.len() && s[d] == 46 {
        lemma_float_scan_bounds(s, d + 1, d, false, false);
    }
}

/// A digit run that fills a text to its end scans as an integer literal
/// covering the whole text.
proof fn lemma_num_scan_all_digits(t: Seq<u8>, i: int)
    requires
        0 <= i <= t.len(),
        forall|j: int| i <= j < t.len() ==> is_numeral_byte(#[trigger] t[j]),
    ensures
        num_scan(t, i) == (false, t.len() as int),
    decreases t.len() - i,
{
    if i < t.len() {
        lemma_num_scan_all_digits(t, i + 1);
    }
}

/// Cutting a text right after the committed end of a float scan does not
/// change the scan, given a fraction digit that keeps the scan committed.
proof fn lemma_float_scan_prefix(s: Seq<u8>, j: int, dot: int, pe: bool, sd: bool, e: int, w: int)
    requires
        0 <= j <= e <= s.len(),
        float_scan(s, j, dot, pe, sd) == (true, e),
        sd || (j <= w < e && 48 <= s[w] && s[w] <= 57),
    ensures
        float_scan(s.take(e), j, dot, pe, sd) == (true, e),
    decreases e - j,
{
    let t = s.take(e);
    if j == e {
        assert(sd);
    } else {
        assert(t[j] == s[j]);
        let b = s[j];
        if b == 101 {
            lemma_float_scan_prefix(s, j + 1, dot, true, sd, e, w);
        } else if 48 <= b && b <= 57 {
            lemma_float_scan_prefix(s, j + 1, dot, false, true, e, w);
        } else if b == 95 {
            lemma_float_scan_prefix(s, j + 1, dot, false, sd, e, w);
        } else if b == 43 || b == 45 {
            if pe {
                lemma_float_scan_prefix(s, j + 1, dot, false, sd, e, w);
            }
        }
    }
}

/// Cutting a text right after the closing quote found by the string scan
/// does not change where the scan finds it.
proof fn lemma_str_scan_prefix(s: Seq<u8>, i: int, esc: bool, q: int)
    requires
        0 <= i,
        str_scan(s, i, esc) == Some(q),
    ensures
        i <= q < s.len(),
        str_scan(s.take(q + 1), i, esc) == Some(q),
    decreases s.len() - i,
{
    if i < s.len() {
        if esc {
            lemma_str_scan_prefix(s, i + 1, false, q);
        } else if s[i] == 92 {
            lemma_str_scan_prefix(s, i + 1, true, q);
        } else if s[i] == 34 {
        } else {
            lemma_str_scan_prefix(s, i + 1, false, q);
        }
    }
}

/// Everything before the end of an identifier run is an identifier byte,
/// and the run ends within the text.
proof fn lemma_ident_end_props(s: Seq<u8>, i: int)
    requires
        0 <= i <= s.len(),
    ensures
        i <= ident_end(s, i) <= s.len(),
        forall|j: int| i <= j < ident_end(s, i) ==> is_ident_byte(#[trigger] s[j]),
    decreases s.len() - i,
{
    if i < s.len() && is_ident_byte(s[i]) {
        lemma_ident_end_props(s, i + 1);
    }
}

/// Cutting a text right at the end of an identifier run does not change
/// where the run ends.
proof fn lemma_ident_end_prefix(s: Seq<u8>, i: int, e: int)
    requires
        0 <= i <= e <= s.len(),
        ident_end(s, i) == e,
    ensures
        ident_end(s.take(e), i) == e,
    decreases e - i,
{
    lemma_ident_end_props(s, i);
    if i < e {
        assert(s.take(e)[i] == s[i]);
        lemma_ident_end_prefix(s, i + 1, e);
    }
}

/// The first dot of a text whose earlier bytes are known not to be dots is
/// found exactly at its position.
proof fn lemma_find_byte_at(s: Seq<u8>, from: int, d: int, b1: u8, b2: u8)
    requires
        0 <= from <= d < s.len(),
        forall|j: int| from <= j < d ==> #[trigger] s[j] != b1 && s[j] != b2,
        s[d] == b1 || s[d] == b2,
    ensures
        crate::literals::find_byte(s, from, b1, b2) == Some(d),
    decreases d - from,
{
    if from < d {
        lemma_find_byte_at(s, from + 1, d, b1, b2);
    }
}

/// A digit run bounded as stated ends exactly at the stated bound.
proof fn lemma_digits_end_eq(s: Seq<u8>, i: int, d: int)
    requires
        0 <= i <= d <= s.len(),
        forall|j: int| i <= j < d ==> is_numeral_byte(#[trigger] s[j]),
        d < s.len() ==> !is_numeral_byte(s[d]),
    ensures
        digits_end(s, i) == d,
    decreases d - i,
{
    if i < d {
        lemma_digits_end_eq(s, i + 1, d);
    }
}

/// A found byte lies at or after the search's start, inside the text.
proof fn lemma_find_byte_range(s: Seq<u8>, from: int, b1: u8, b2: u8)
    requires
        0 <= from,
    ensures
        crate::literals::find_byte(s, from, b1, b2) matches Some(i) ==> from <= i < s.len(),
    decreases s.len() - from,
{
    if from < s.len() && s[from] != b1 && s[from] != b2 {
        lemma_find_byte_range(s, from + 1, b1, b2);
    }
}

/// Re-parsing exactly the bytes of a returned literal, in isolation,
/// reproduces the same literal over the same length.
proof fn lemma_literal_reparse(s: Seq<u8>, v: LiteralView, n: usize)
    requires
        s.len() <= usize::MAX,
        Literal::spec_try_parse(s) == Ok::<(Option<LiteralView>, usize), TokenParseError>(
            (Some(v), n),
        ),
    ensures
        0 < n <= s.len(),
        Literal::spec_try_parse(s.take(n as int)) == Ok::<
            (Option<LiteralView>, usize),
            TokenParseError,
        >((Some(v), n)),
{
    assert(s.len() > 0);
    if s[0] == 34 {
        match str_scan(s, 1, false) {
            Some(q) => {
                lemma_str_scan_prefix(s, 1, false, q);
                assert(n == q + 1);
                let t = s.take(n as int);
                assert(t[0] == 34);
                assert(t.subrange(1, q) =~= s.subrange(1, q));
            },
            None => {
                assert(false);
            },
        }
    } else {
        assert(48 <= s[0] <= 57);
        let sc = num_scan(s, 1);
        lemma_num_scan_decompose(s, 1);
        lemma_digits_end_props(s, 1);
        let d = digits_end(s, 1);
        if !sc.0 {
            lemma_num_scan_int_props(s, 1);
            assert(n == sc.1);
            let t = s.take(n as int);
            assert(t[0] == s[0]);
            assert forall|j: int| 1 <= j < t.len() implies is_numeral_byte(#[trigger] t[j]) by {
                assert(t[j] == s[j]);
            }
            lemma_num_scan_all_digits(t, 1);
            assert(t.take(n as int) =~= s.take(n as int));
        } else {
            let e = sc.1;
            assert(d < s.len() && s[d] == 46);
            lemma_float_scan_bounds(s, d + 1, d, false, false);
            assert(d + 1 <= e <= s.len());
            assert(n == sc.1);
            let t = s.take(e);
            assert forall|j: int| 0 <= j < d implies #[trigger] t[j] != 46 by {
                assert(t[j] == s[j]);
                if j >= 1 {
                    assert(is_numeral_byte(s[j]));
                }
            }
            assert(t[d] == 46);
            lemma_find_byte_at(t, 0, d, 46, 46);
            assert(parse_float_spec(t) is Ok);
            let e_idx = crate::literals::find_byte(t, d + 1, 101, 69);
            lemma_find_byte_range(t, d + 1, 101, 69);
            let frac_end: int = match e_idx {
                Some(ei) => ei,
                None => t.len() as int,
            };
            let frac = t.subrange(d + 1, frac_end);
            assert(crate::literals::parse_radix_spec(10, frac) is Ok);
            assert(frac.len() > 0);
            assert(frac[0] != 95);
            assert(48 <= frac[0] <= 57) by {
                if !(48 <= frac[0] <= 57) {
                    assert(crate::literals::digit_val(10, frac[0]) is None);
                    assert(crate::literals::fold_digits(10, frac, 0, 0) is Err);
                }
            }
            assert(frac[0] == t[d + 1]);
            assert(t[d + 1] == s[d + 1]);
            assert(d + 1 < e);
            lemma_float_scan_prefix(s, d + 1, d, false, false, e, d + 1);
            assert forall|j: int| 1 <= j < d implies is_numeral_byte(#[trigger] t[j]) by {
                assert(t[j] == s[j]);
            }
            lemma_digits_end_eq(t, 1, d);
            lemma_num_scan_decompose(t, 1);
            assert(num_scan(t, 1) == (true, e));
            assert(t.take(e) =~= t);
            assert(t[0] == s[0]);
        }
    }
}

/// The trivia scanner neither moves backwards nor runs past the text.
proof fn lemma_trim_from_bounds(s: Seq<u8>, i: int, st: TrimState)
    requires
        0 <= i <= s.len(),
    ensures
        i <= trim_from(s, i, st) <= s.len(),
    decreases s.len() - i,
{
    if i < s.len() {
        match st {
            TrimState::Outside => {
                if is_ws(s[i]) {
                    lemma_trim_from_bounds(s, i + 1, TrimState::Outside);
                } else if i + 1 < s.len() && s[i] == 47 && s[i + 1] == 47 {
                    lemma_trim_from_bounds(s, i + 2, TrimState::LineComment);
                } else if i + 1 < s.len() && s[i] == 47 && s[i + 1] == 42 {
                    lemma_trim_from_bounds(s, i + 2, TrimState::MultiLineComment);
                }
            },
            TrimState::LineComment => {
                if s[i] == 10 {
                    lemma_trim_from_bounds(s, i + 1, TrimState::Outside);
                } else {
                    lemma_trim_from_bounds(s, i + 1, TrimState::LineComment);
                }
            },
            TrimState::MultiLineComment => {
                if i + 1 < s.len() && s[i] == 42 && s[i + 1] == 47 {
                    lemma_trim_from_bounds(s, i + 2, TrimState::Outside);
                } else {
                    lemma_trim_from_bounds(s, i + 1, TrimState::MultiLineComment);
                }
            },
        }
    }
}

/// Re-tokenizing the exact bytes of a returned token, in isolation,
/// reproduces the same token value over the same length.
pub proof fn lemma_token_reparse(s: Seq<u8>, v: TokenView, n: usize)
    requires
        s.len() <= usize::MAX,
        Token::spec_try_parse(s) == Ok::<(Option<TokenView>, usize), TokenParseError>(
            (Some(v), n),
        ),
    ensures
        0 < n <= s.len(),
        Token::spec_try_parse(s.take(n as int)) == Ok::<(Option<TokenView>, usize), TokenParseError>(
            (Some(v), n),
        ),
{
    assert(s.len() > 0);
    lemma_trim_from_bounds(s, 0, TrimState::Outside);
    assert(trim_spec(s) == 0);
    match Identifier::spec_try_parse(s) {
        Ok((Some(idv), m)) => {
            lemma_ident_end_props(s, 1);
            let e = ident_end(s, 1);
            assert(n == e);
            let t = s.take(n as int);
            assert(t[0] == s[0]);
            lemma_ident_end_prefix(s, 1, e);
            assert(t.take(e) =~= s.take(e));
            assert(!is_ws(t[0]) && t[0] != 47);
            assert(trim_spec(t) == 0);
        },
        Ok((None, _)) => {
            assert(!is_ident_start(s[0]));
            match Literal::spec_try_parse(s) {
                Ok((Some(lv), m)) => {
                    assert(n == m);
                    lemma_literal_reparse(s, lv, n);
                    let t = s.take(n as int);
                    assert(t[0] == s[0]);
                    assert(s[0] == 34 || (48 <= s[0] <= 57));
                    assert(!is_ws(t[0]) && t[0] != 47);
                    assert(trim_spec(t) == 0);
                    assert(!is_ident_start(t[0]));
                },
                Ok((None, _)) => {
                    match SpecialChar::spec_try_parse(s) {
                        Ok((Some(c), m)) => {
                            assert(n == 1);
                            let t = s.take(1int);
                            assert(t[0] == s[0]);
                            assert(special_of(s[0]) is Some);
                            assert(!is_ws(t[0])) by {
                                if is_ws(s[0]) {
                                    assert(trim_spec(s) >= 1);
                                }
                            }
                            assert(trim_spec(t) == 0);
                            assert(!is_ident_start(t[0]));
                            assert(!(48 <= t[0] <= 57) && t[0] != 34);
                        },
                        _ => {
                            assert(false);
                        },
                    }
                },
                Err(_) => {
                    assert(false);
                },
            }
        },
        Err(_) => {
            assert(false);
        },
    }
}

/// The driver returns exactly as many spans as values.
proof fn lemma_parse_spec_lens(s: Seq<u8>, start: nat)
    requires
        crate::parsing::parse_spec::<Token>(s, start) is Ok,
    ensures
        ({
            let r = match crate::parsing::parse_spec::<Token>(s, start) {
                Ok(r) => r,
                Err(_) => (Seq::empty(), Seq::empty()),
            };
            r.0.len() == r.1.len()
        }),
    decreases s.len(),
{
    if s.len() > 0 {
        match Token::spec_try_parse(s) {
            Ok((res, sk)) => {
                if 0 < sk <= s.len() {
                    lemma_parse_spec_lens(s.skip(sk as int), (start + sk) as nat);
                }
            },
            Err(_) => {},
        }
    }
}

/// Driver idempotence: every span a successful parse returns identifies a
/// substring of the input that, re-tokenized in isolation, yields exactly
/// the value recorded for it, over exactly the span's length.
/// A window into a text equals the same window into its tail, shifted.
proof fn lemma_subrange_skip(s: Seq<u8>, sk: int, a: int, b: int)
    requires
        0 <= sk <= a <= b <= s.len(),
    ensures
        s.subrange(a, b) == s.skip(sk).subrange(a - sk, b - sk),
{
    assert(s.subrange(a, b) =~= s.skip(sk).subrange(a - sk, b - sk));
}

#[verifier::rlimit(100)]
#[verifier::spinoff_prover]
pub proof fn lemma_span_reparse(s: Seq<u8>, start: nat, k: int)
    requires
        s.len() + start <= usize::MAX,
        crate::parsing::parse_spec::<Token>(s, start) is Ok,
    ensures
        ({
            let r = match crate::parsing::parse_spec::<Token>(s, start) {
                Ok(r) => r,
                Err(_) => (Seq::empty(), Seq::empty()),
            };
            0 <= k < r.1.len() ==> {
                let sp = r.1[k];
                &&& r.0.len() == r.1.len()
                &&& start <= sp.idx
                &&& sp.idx + sp.len - start <= s.len()
                &&& Token::spec_try_parse(s.subrange(sp.idx - start, sp.idx + sp.len - start))
                    == Ok::<(Option<TokenView>, usize), TokenParseError>((Some(r.0[k]), sp.len))
            }
        }),
    decreases s.len(),
{
    lemma_parse_spec_lens(s, start);
    if s.len() > 0 {
        match Token::spec_try_parse(s) {
            Ok((res, sk)) => {
                assert(0 < sk <= s.len());
                let tail = s.skip(sk as int);
                lemma_parse_spec_lens(tail, (start + sk) as nat);
                match res {
                    None => {
                        lemma_span_reparse(tail, (start + sk) as nat, k);
                        let rr = match crate::parsing::parse_spec::<Token>(tail, (start + sk) as nat) {
                            Ok(r) => r,
                            Err(_) => (Seq::empty(), Seq::empty()),
                        };
                        if 0 <= k < rr.1.len() {
                            let sp = rr.1[k];
                            lemma_subrange_skip(
                                s,
                                sk as int,
                                sp.idx - start,
                                sp.idx + sp.len - start,
                            );
                        }
                    },
                    Some(v) => {
                        let rr = match crate::parsing::parse_spec::<Token>(tail, (start + sk) as nat) {
                            Ok(r) => r,
                            Err(_) => (Seq::empty(), Seq::empty()),
                        };
                        if k == 0 {
                            lemma_token_reparse(s, v, sk);
                            assert(s.subrange(0, sk as int) =~= s.take(sk as int));
                        } else if 1 <= k < rr.1.len() + 1 {
                            lemma_span_reparse(tail, (start + sk) as nat, k - 1);
                            let sp = rr.1[k - 1];
                            lemma_subrange_skip(
                                s,
                                sk as int,
                                sp.idx - start,
                                sp.idx + sp.len - start,
                            );
                        }
                    },
                }
            },
            Err(_) => {
                assert(false);
            },
        }
    }
}

/// The end of the line comment whose body starts at `i`: one past the next
/// line feed, or the end of the text.
pub open spec fn line_comment_end(s: Seq<u8>, i: int) -> int
    decreases s.len() - i,
{
    if i < 0 || i >= s.len() {
        s.len() as int
    } else if s[i] == 10 {
        i + 1
    } else {
        line_comment_end(s, i + 1)
    }
}

/// The end of the block comment whose body starts at `i`: one past the
/// closing `*/`, or the end of the text when unterminated.
pub open spec fn block_comment_end(s: Seq<u8>, i: int) -> int
    decreases s.len() - i,
{
    if i < 0 || i + 1 >= s.len() {
        s.len() as int
    } else if s[i] == 42 && s[i + 1] == 47 {
        i + 2
    } else {
        block_comment_end(s, i + 1)
    }
}

/// A line comment never ends before its body starts, nor past the text.
pub proof fn lemma_line_comment_end_bounds(s: Seq<u8>, i: int)
    requires
        0 <= i <= s.len(),
    ensures
        i <= line_comment_end(s, i) <= s.len(),
    decreases s.len() - i,
{
    if i < s.len() && s[i] != 10 {
        lemma_line_comment_end_bounds(s, i + 1);
    }
}

/// A block comment never ends before its body starts, nor past the text.
pub proof fn lemma_block_comment_end_bounds(s: Seq<u8>, i: int)
    requires
        0 <= i <= s.len(),
    ensures
        i <= block_comment_end(s, i) <= s.len(),
    decreases s.len() - i,
{
    if i + 1 < s.len() && !(s[i] == 42 && s[i + 1] == 47) {
        lemma_block_comment_end_bounds(s, i + 1);
    }
}

/// Whether everything from `i` to the end of `s` is whitespace and
/// comments: a whitespace byte, a `//` comment running to its line feed or
/// the end, or a `/*` comment running to its `*/` or the end, followed by
/// more of the same.
pub open spec fn trivia_from(s: Seq<u8>, i: int) -> bool
    decreases s.len() - i,
{
    if i < 0 {
        false
    } else if i >= s.len() {
        true
    } else if is_ws(s[i]) {
        trivia_from(s, i + 1)
    } else if i + 1 < s.len() && s[i] == 47 && s[i + 1] == 47 {
        proof {
            lemma_line_comment_end_bounds(s, i + 2);
        }
        trivia_from(s, line_comment_end(s, i + 2))
    } else if i + 1 < s.len() && s[i] == 47 && s[i + 1] == 42 {
        proof {
            lemma_block_comment_end_bounds(s, i + 2);
        }
        trivia_from(s, block_comment_end(s, i + 2))
    } else {
        false
    }
}

/// Whether `s` consists solely of whitespace and comments.
pub open spec fn is_trivia(s: Seq<u8>) -> bool {
    trivia_from(s, 0)
}

/// The trivia scanner inside a line comment runs to the comment's end and
/// continues outside it.
proof fn lemma_trim_line_comment(s: Seq<u8>, i: int)
    requires
        0 <= i <= s.len(),
    ensures
        trim_from(s, i, TrimState::LineComment) == trim_from(
            s,
            line_comment_end(s, i),
            TrimState::Outside,
        ),
    decreases s.len() - i,
{
    if i < s.len() && s[i] != 10 {
        lemma_trim_line_comment(s, i + 1);
    }
}

/// The trivia scanner inside a block comment runs to the comment's end and
/// continues outside it.
proof fn lemma_trim_block_comment(s: Seq<u8>, i: int)
    requires
        0 <= i <= s.len(),
    ensures
        trim_from(s, i, TrimState::MultiLineComment) == trim_from(
            s,
            block_comment_end(s, i),
            TrimState::Outside,
        ),
    decreases s.len() - i,
{
    if i + 1 >= s.len() {
        if i < s.len() {
            assert(trim_from(s, i, TrimState::MultiLineComment) == trim_from(
                s,
                i + 1,
                TrimState::MultiLineComment,
            ));
        }
    } else if !(s[i] == 42 && s[i + 1] == 47) {
        lemma_trim_block_comment(s, i + 1);
    }
}

/// On trivia, the trivia scanner consumes everything to the end of the
/// text.
proof fn lemma_trivia_trim(s: Seq<u8>, i: int)
    requires
        0 <= i <= s.len(),
        trivia_from(s, i),
    ensures
        trim_from(s, i, TrimState::Outside) == s.len(),
    decreases s.len() - i,
{
    if i < s.len() {
        if is_ws(s[i]) {
            lemma_trivia_trim(s, i + 1);
        } else if i + 1 < s.len() && s[i] == 47 && s[i + 1] == 47 {
            lemma_line_comment_end_bounds(s, i + 2);
            lemma_trim_line_comment(s, i + 2);
            lemma_trivia_trim(s, line_comment_end(s, i + 2));
        } else {
            lemma_block_comment_end_bounds(s, i + 2);
            lemma_trim_block_comment(s, i + 2);
            lemma_trivia_trim(s, block_comment_end(s, i + 2));
        }
    }
}

/// For an input consisting solely of whitespace and comments, the driver
/// returns an empty value sequence and an empty span sequence, consuming
/// the entire input without error.
pub proof fn lemma_trivia_parses_empty(s: Seq<u8>, start: nat)
    requires
        is_trivia(s),
        s.len() <= usize::MAX,
    ensures
        crate::parsing::parse_spec::<Token>(s, start) == Ok::<
            (Seq<TokenView>, Seq<crate::text_region::TextSpan>),
            crate::parsing::ParsingError<TokenParseError>,
        >((Seq::empty(), Seq::empty())),
{
    if s.len() > 0 {
        lemma_trivia_trim(s, 0);
        assert(trim_spec(s) == s.len());
        assert(Token::spec_try_parse(s) == Ok::<(Option<TokenView>, usize), TokenParseError>(
            (None, s.len() as usize),
        ));
        assert(s.skip(s.len() as int) =~= Seq::<u8>::empty());
        assert(crate::parsing::parse_spec::<Token>(s.skip(s.len() as int), start + s.len())
            == Ok::<
            (Seq<TokenView>, Seq<crate::text_region::TextSpan>),
            crate::parsing::ParsingError<TokenParseError>,
        >((Seq::empty(), Seq::empty())));
    }
}

/// A classified lexical unit: an identifier, a literal, or a punctuation
/// mark. Positions are tracked externally, alongside each token, by the
/// parser driver.
#[derive(Debug, Clone, PartialEq, Eq)]
pub enum Token {
    Identifier(Identifier),
    Literal(Literal),
    SpecialChar(SpecialChar),
}

/// The mathematical content of a [`Token`].
pub enum TokenView {
    Identifier(Seq<u8>),
    Literal(LiteralView),
    SpecialChar(SpecialChar),
}

impl View for Token {
    type V = TokenView;

    open spec fn view(&self) -> TokenView {
        match self {
            Token::Identifier(id) => TokenView::Identifier(id@),
            Token::Literal(l) => TokenView::Literal(l@),
            Token::SpecialChar(c) => TokenView::SpecialChar(*c),
        }
    }
}

impl Parsable for Token {
    type Error = TokenParseError;

    /// The empty text is `EmptyStr`. Leading trivia is reported as a
    /// discardable skip. Otherwise the sub-parsers are tried in a fixed
    /// priority order - identifier, literal, punctuation - and the first
    /// non-empty match wins; if none applies the text is `NoMatch` at its
    /// start.
    open spec fn spec_try_parse(s: Seq<u8>) -> Result<(Option<TokenView>, usize), TokenParseError> {
        if s.len() == 0 {
            Err(TokenParseError::EmptyStr)
        } else if trim_spec(s) > 0 {
            Ok((None, trim_spec(s) as usize))
        } else {
            match Identifier::spec_try_parse(s) {
                Err(e) => Err(e),
                Ok((Some(idv), n)) => Ok((Some(TokenView::Identifier(idv)), n)),
                Ok((None, _)) => match Literal::spec_try_parse(s) {
                    Err(e) => Err(e),
                    Ok((Some(lv), n)) => Ok((Some(TokenView::Literal(lv)), n)),
                    Ok((None, _)) => match SpecialChar::spec_try_parse(s) {
                        Err(e) => Err(e),
                        Ok((Some(c), n)) => Ok((Some(TokenView::SpecialChar(c)), n)),
                        Ok((None, _)) => Err(
                            TokenParseError::NoMatch(TextPosition { idx: 0 }),
                        ),
                    },
                },
            }
        }
    }

    fn try_parse(s: &[u8]) -> (r: Result<(Option<Token>, usize), TokenParseError>) {
        if s.len() == 0 {
            return Err(TokenParseError::EmptyStr);
        }
        if let Some(len) = trim(s) {
            return Ok((None, len));
        }
        match Identifier::try_parse(s) {
            Err(e) => {
                return Err(e);
            },
            Ok((Some(ident), len)) => {
                return Ok((Some(Token::Identifier(ident)), len));
            },
            Ok((None, _)) => {},
        }
        match Literal::try_parse(s) {
            Err(e) => {
                return Err(e);
            },
            Ok((Some(literal), len)) => {
                return Ok((Some(Token::Literal(literal)), len));
            },
            Ok((None, _)) => {},
        }
        match SpecialChar::try_parse(s) {
            Err(e) => {
                return Err(e);
            },
            Ok((Some(special_char), len)) => {
                return Ok((Some(Token::SpecialChar(special_char)), len));
            },
            Ok((None, _)) => {},
        }
        Err(TokenParseError::NoMatch(TextPosition { idx: 0 }))
    }
}

} // verus!
