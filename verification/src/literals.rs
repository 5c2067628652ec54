//! Literal decoding: arbitrary-precision integer parsing in four bases,
//! exact decimal float parsing as a (mantissa, base-10 exponent) pair, and
//! string escape decoding.
//!
//! All positions carried by errors are byte offsets relative to the input
//! handed to the failing parser; callers rebase them with the `offset`
//! methods before propagating.
use vstd::prelude::*;

use crate::bignum::{
    big_add_big, big_add_usize, big_from_usize, big_int_val, big_mul_big, big_mul_usize, big_nat,
    big_to_isize, bigint_add, bigint_from_isize, bigint_from_usize, bigint_neg,
};
use crate::text_region::{TextPosition, TextSpan};
use num_bigint::{BigInt, BigUint};

verus! {

/// An error from one of the integer parsers, with a position relative to the
/// parsed digit string.
#[derive(Debug, Clone, PartialEq, Eq, Structural)]
pub enum IntParseError {
    InvalidChar(TextPosition),
    ZeroLength(TextPosition),
}

impl IntParseError {
    /// The largest byte offset the error mentions.
    pub open spec fn pos_bound(self) -> nat {
        match self {
            IntParseError::InvalidChar(p) => p.idx as nat,
            IntParseError::ZeroLength(p) => p.idx as nat,
        }
    }

    /// The error with its position shifted `off` bytes to the right.
    pub open spec fn spec_offset(self, off: nat) -> IntParseError {
        match self {
            IntParseError::InvalidChar(p) => IntParseError::InvalidChar(
                TextPosition { idx: (p.idx + off) as usize },
            ),
            IntParseError::ZeroLength(p) => IntParseError::ZeroLength(
                TextPosition { idx: (p.idx + off) as usize },
            ),
        }
    }

    /// Rebases the error's position by `offset` bytes, turning a position
    /// local to a substring into one local to the enclosing text.
    pub fn offset(&mut self, offset: usize)
        requires
            old(self).pos_bound() + offset <= usize::MAX,
        ensures
            *final(self) == old(self).spec_offset(offset as nat),
    {
        match self {
            IntParseError::InvalidChar(pos) => pos.idx += offset,
            IntParseError::ZeroLength(pos) => pos.idx += offset,
        }
    }
}

/// The value of byte `b` as a digit in the given base, if it is one. Bases
/// up to 10 use the leading decimal digits; base 16 adds `a`-`f` in either
/// case.
pub open spec fn digit_val(base: nat, b: u8) -> Option<nat> {
    if 48 <= b <= 57 && b - 48 < base {
        Some((b - 48) as nat)
    } else if base == 16 && 97 <= b <= 102 {
        Some((b - 87) as nat)
    } else if base == 16 && 65 <= b <= 70 {
        Some((b - 55) as nat)
    } else {
        None
    }
}

/// Folds the digits of `s` from position `i` on into `acc`, most significant
/// first, skipping underscores, and failing at the first byte that is not a
/// digit of the base.
pub open spec fn fold_digits(base: nat, s: Seq<u8>, i: int, acc: nat) -> Result<nat, IntParseError>
    decreases s.len() - i,
{
    if i < 0 || i >= s.len() {
        Ok(acc)
    } else if s[i] == 95 {
        fold_digits(base, s, i + 1, acc)
    } else {
        match digit_val(base, s[i]) {
            Some(d) => fold_digits(base, s, i + 1, acc * base + d),
            None => Err(IntParseError::InvalidChar(TextPosition { idx: i as usize })),
        }
    }
}

/// What parsing `s` as an unsigned integer in the given base yields: the
/// empty input is `ZeroLength` at 0, a leading or trailing underscore is
/// `InvalidChar` at its index, and otherwise the digits are folded
/// most-significant first with interior underscores skipped.
pub open spec fn parse_radix_spec(base: nat, s: Seq<u8>) -> Result<nat, IntParseError> {
    if s.len() == 0 {
        Err(IntParseError::ZeroLength(TextPosition { idx: 0 }))
    } else if s[0] == 95 {
        Err(IntParseError::InvalidChar(TextPosition { idx: 0 }))
    } else if s.last() == 95 {
        Err(IntParseError::InvalidChar(TextPosition { idx: (s.len() - 1) as usize }))
    } else {
        fold_digits(base, s, 0, 0)
    }
}

/// The exec results of the integer parsers agree with their model when the
/// parsed values are compared through [`big_nat`].
pub open spec fn int_result_matches(
    r: Result<BigUint, IntParseError>,
    m: Result<nat, IntParseError>,
) -> bool {
    match (r, m) {
        (Ok(b), Ok(v)) => big_nat(b) == v,
        (Err(e), Err(f)) => e == f,
        _ => false,
    }
}

/// Parses `s` as an unsigned integer in the given base, exactly as
/// [`parse_radix_spec`] describes.
fn parse_radix(s: &[u8], base: usize) -> (r: Result<BigUint, IntParseError>)
    requires
        2 <= base <= 16,
    ensures
        int_result_matches(r, parse_radix_spec(base as nat, s@)),
        r matches Err(e) ==> e.pos_bound() <= s@.len(),
{
    if s.len() == 0 {
        return Err(IntParseError::ZeroLength(TextPosition { idx: 0 }));
    }
    if s[0] == 95 {
        return Err(IntParseError::InvalidChar(TextPosition { idx: 0 }));
    }
    if s[s.len() - 1] == 95 {
        return Err(IntParseError::InvalidChar(TextPosition { idx: s.len() - 1 }));
    }
    let mut acc = big_from_usize(0);
    let mut i: usize = 0;
    while i < s.len()
        invariant
            2 <= base <= 16,
            i <= s@.len(),
            s@.len() > 0,
            s@[0] != 95,
            s@.last() != 95,
            fold_digits(base as nat, s@, 0, 0) == fold_digits(base as nat, s@, i as int, big_nat(acc)),
        decreases s@.len() - i,
    {
        let b = s[i];
        if b == 95 {
            i += 1;
            continue;
        }
        let dv: Option<u8> = if 48 <= b && b <= 57 && ((b - 48) as usize) < base {
            Some(b - 48)
        } else if base == 16 && 97 <= b && b <= 102 {
            Some(b - 87)
        } else if base == 16 && 65 <= b && b <= 70 {
            Some(b - 55)
        } else {
            None
        };
        match dv {
            None => {
                proof {
                    assert(digit_val(base as nat, s@[i as int]) is None);
                }
                return Err(IntParseError::InvalidChar(TextPosition { idx: i }));
            },
            Some(d) => {
                proof {
                    assert(digit_val(base as nat, s@[i as int]) == Some(d as nat));
                }
                big_mul_usize(&mut acc, base);
                big_add_usize(&mut acc, d as usize);
            },
        }
        i += 1;
    }
    Ok(acc)
}

/// Parses an unsigned binary numeral: digits `0` and `1` with interior
/// underscore separators.
pub fn parse_binary(s: &[u8]) -> (r: Result<BigUint, IntParseError>)
    ensures
        int_result_matches(r, parse_radix_spec(2, s@)),
        r matches Err(e) ==> e.pos_bound() <= s@.len(),
{
    parse_radix(s, 2)
}

/// Parses an unsigned octal numeral: digits `0` to `7` with interior
/// underscore separators.
pub fn parse_octal(s: &[u8]) -> (r: Result<BigUint, IntParseError>)
    ensures
        int_result_matches(r, parse_radix_spec(8, s@)),
        r matches Err(e) ==> e.pos_bound() <= s@.len(),
{
    parse_radix(s, 8)
}

/// Parses an unsigned decimal numeral: digits `0` to `9` with interior
/// underscore separators.
pub fn parse_decimal(s: &[u8]) -> (r: Result<BigUint, IntParseError>)
    ensures
        int_result_matches(r, parse_radix_spec(10, s@)),
        r matches Err(e) ==> e.pos_bound() <= s@.len(),
{
    parse_radix(s, 10)
}

/// Parses an unsigned hexadecimal numeral: digits `0` to `9` and letters `a`
/// to `f` in either case, with interior underscore separators.
pub fn parse_hexadecimal(s: &[u8]) -> (r: Result<BigUint, IntParseError>)
    ensures
        int_result_matches(r, parse_radix_spec(16, s@)),
        r matches Err(e) ==> e.pos_bound() <= s@.len(),
{
    parse_radix(s, 16)
}

/// What the base dispatcher yields: a `0b`/`0o`/`0d`/`0x` prefix selects the
/// base and parses the rest with errors rebased past the two prefix bytes;
/// everything else is decimal.
pub open spec fn parse_int_spec(s: Seq<u8>) -> Result<nat, IntParseError> {
    if s.len() >= 2 && s[0] == 48 {
        if s[1] == 98 {
            rebase_int_result(parse_radix_spec(2, s.skip(2)), 2)
        } else if s[1] == 111 {
            rebase_int_result(parse_radix_spec(8, s.skip(2)), 2)
        } else if s[1] == 100 {
            rebase_int_result(parse_radix_spec(10, s.skip(2)), 2)
        } else if s[1] == 120 {
            rebase_int_result(parse_radix_spec(16, s.skip(2)), 2)
        } else {
            parse_radix_spec(10, s)
        }
    } else {
        parse_radix_spec(10, s)
    }
}

/// Shifts the position of a failed integer parse by `off` bytes.
pub open spec fn rebase_int_result(
    r: Result<nat, IntParseError>,
    off: nat,
) -> Result<nat, IntParseError> {
    match r {
        Ok(v) => Ok(v),
        Err(e) => Err(e.spec_offset(off)),
    }
}

/// Parses an unsigned integer numeral with an optional base prefix, exactly
/// as [`parse_int_spec`] describes.
pub fn parse_int(s: &[u8]) -> (r: Result<BigUint, IntParseError>)
    ensures
        int_result_matches(r, parse_int_spec(s@)),
        r matches Err(e) ==> e.pos_bound() <= s@.len(),
{
    if s.len() >= 2 && s[0] == 48 {
        let base: usize = if s[1] == 98 {
            2
        } else if s[1] == 111 {
            8
        } else if s[1] == 100 {
            10
        } else if s[1] == 120 {
            16
        } else {
            0
        };
        if base != 0 {
            let rest = vstd::slice::slice_subrange(s, 2, s.len());
            proof {
                assert(rest@ =~= s@.skip(2));
            }
            return match parse_radix(rest, base) {
                Ok(v) => Ok(v),
                Err(mut e) => {
                    e.offset(2);
                    Err(e)
                },
            };
        }
    }
    parse_radix(s, 10)
}

/// The base selected by the byte after a leading zero in a numeral prefix.
pub open spec fn prefix_base(b: u8) -> nat {
    if b == 98 {
        2
    } else if b == 111 {
        8
    } else if b == 100 {
        10
    } else {
        16
    }
}

/// For a malformed numeral behind a `0b`/`0o`/`0d`/`0x` prefix, the
/// base-specific parser reports `InvalidChar` at the index of the first
/// invalid digit, and the dispatcher's rebasing reports that same index
/// shifted by the two prefix bytes.
pub proof fn lemma_prefix_rebase(s: Seq<u8>, p: TextPosition)
    requires
        s.len() >= 2,
        s[0] == 48,
        s[1] == 98 || s[1] == 111 || s[1] == 100 || s[1] == 120,
        parse_radix_spec(prefix_base(s[1]), s.skip(2)) == Err::<nat, IntParseError>(
            IntParseError::InvalidChar(p),
        ),
        p.idx + 2 <= usize::MAX,
    ensures
        parse_int_spec(s) == Err::<nat, IntParseError>(
            IntParseError::InvalidChar(TextPosition { idx: (p.idx + 2) as usize }),
        ),
{
}

/// A leading or trailing underscore separator is rejected as `InvalidChar`
/// at its index, regardless of base.
pub proof fn lemma_underscore_rejected(base: nat, s: Seq<u8>)
    requires
        s.len() > 0,
        s[0] == 95 || s.last() == 95,
    ensures
        s[0] == 95 ==> parse_radix_spec(base, s) == Err::<nat, IntParseError>(
            IntParseError::InvalidChar(TextPosition { idx: 0 }),
        ),
        s[0] != 95 ==> parse_radix_spec(base, s) == Err::<nat, IntParseError>(
            IntParseError::InvalidChar(TextPosition { idx: (s.len() - 1) as usize }),
        ),
{
}

/// The decimal value of a pure digit string, by the usual positional rule.
pub open spec fn digits_value(s: Seq<u8>) -> nat
    decreases s.len(),
{
    if s.len() == 0 {
        0
    } else {
        digits_value(s.drop_last()) * 10 + (s.last() - 48) as nat
    }
}

/// Appending one byte to a digit string folds it into the accumulated
/// value: an underscore changes nothing, a digit of the base shifts and
/// adds, and anything else fails at the appended position.
proof fn lemma_fold_push(base: nat, s: Seq<u8>, b: u8, i: int, acc: nat)
    requires
        0 <= i <= s.len(),
        s.len() < usize::MAX,
    ensures
        fold_digits(base, s.push(b), i, acc) == (match fold_digits(base, s, i, acc) {
            Ok(v) => {
                if b == 95 {
                    Ok::<nat, IntParseError>(v)
                } else {
                    match digit_val(base, b) {
                        Some(d) => Ok::<nat, IntParseError>(v * base + d),
                        None => Err::<nat, IntParseError>(
                            IntParseError::InvalidChar(TextPosition { idx: s.len() as usize }),
                        ),
                    }
                }
            },
            Err(e) => Err::<nat, IntParseError>(e),
        }),
    decreases s.len() - i,
{
    if i < s.len() {
        assert(s.push(b)[i] == s[i]);
        if s[i] == 95 {
            lemma_fold_push(base, s, b, i + 1, acc);
        } else {
            match digit_val(base, s[i]) {
                Some(d) => {
                    lemma_fold_push(base, s, b, i + 1, acc * base + d);
                },
                None => {},
            }
        }
    } else {
        assert(s.push(b)[i] == b);
        if b == 95 {
            assert(fold_digits(base, s.push(b), i + 1, acc) == Ok::<nat, IntParseError>(acc));
        } else {
            match digit_val(base, b) {
                Some(d) => {
                    assert(fold_digits(base, s.push(b), i + 1, acc * base + d) == Ok::<
                        nat,
                        IntParseError,
                    >(acc * base + d));
                },
                None => {},
            }
        }
    }
}

/// Decimal parsing is the identity on canonical digit strings: a nonempty
/// text of plain decimal digits parses to its positional value.
pub proof fn lemma_decimal_identity(s: Seq<u8>)
    requires
        s.len() > 0,
        s.len() < usize::MAX,
        forall|i: int| 0 <= i < s.len() ==> 48 <= #[trigger] s[i] <= 57,
    ensures
        parse_radix_spec(10, s) == Ok::<nat, IntParseError>(digits_value(s)),
    decreases s.len(),
{
    let t = s.drop_last();
    let b = s.last();
    assert(s =~= t.push(b));
    assert(48 <= s[s.len() - 1] <= 57);
    assert(digit_val(10, b) == Some((b - 48) as nat));
    lemma_fold_push(10, t, b, 0, 0);
    if t.len() > 0 {
        assert(48 <= s[0] <= 57);
        assert(t[0] == s[0] && t.last() == s[t.len() - 1]);
        lemma_decimal_identity(t);
        assert(fold_digits(10, t, 0, 0) == Ok::<nat, IntParseError>(digits_value(t)));
    } else {
        assert(fold_digits(10, t, 0, 0) == Ok::<nat, IntParseError>(0));
    }
    assert(fold_digits(10, s, 0, 0) == Ok::<nat, IntParseError>(
        digits_value(t) * 10 + (b - 48) as nat,
    ));
    assert(digits_value(s) == digits_value(t) * 10 + (b - 48) as nat);
}

/// The digits of `s` with every underscore separator removed, in order.
pub open spec fn strip_underscores(s: Seq<u8>) -> Seq<u8>
    decreases s.len(),
{
    if s.len() == 0 {
        Seq::empty()
    } else if s.last() == 95 {
        strip_underscores(s.drop_last())
    } else {
        strip_underscores(s.drop_last()).push(s.last())
    }
}

/// Folding a digit string and folding it with its underscores removed
/// succeed together and agree on the value.
proof fn lemma_fold_strip(base: nat, s: Seq<u8>)
    requires
        s.len() < usize::MAX,
    ensures
        strip_underscores(s).len() <= s.len(),
        fold_digits(base, s, 0, 0) is Ok <==> fold_digits(base, strip_underscores(s), 0, 0) is Ok,
        fold_digits(base, s, 0, 0) is Ok ==> fold_digits(base, s, 0, 0) == fold_digits(
            base,
            strip_underscores(s),
            0,
            0,
        ),
    decreases s.len(),
{
    if s.len() > 0 {
        let t = s.drop_last();
        let b = s.last();
        assert(s =~= t.push(b));
        lemma_fold_strip(base, t);
        lemma_fold_push(base, t, b, 0, 0);
        if b != 95 {
            lemma_fold_push(base, strip_underscores(t), b, 0, 0);
        }
    }
}

/// No underscore survives stripping, and the last kept byte is the last
/// non-underscore byte.
proof fn lemma_strip_shape(s: Seq<u8>)
    ensures
        forall|i: int| 0 <= i < strip_underscores(s).len() ==> #[trigger] strip_underscores(s)[i]
            != 95,
        s.len() > 0 && s[0] != 95 ==> strip_underscores(s).len() > 0 && strip_underscores(s)[0]
            == s[0],
    decreases s.len(),
{
    if s.len() > 0 {
        let t = s.drop_last();
        let b = s.last();
        lemma_strip_shape(t);
        assert forall|i: int|
            0 <= i < strip_underscores(s).len() implies #[trigger] strip_underscores(s)[i]
            != 95 by {
            if b != 95 {
                assert(strip_underscores(s) == strip_underscores(t).push(b));
                if i < strip_underscores(t).len() {
                    assert(strip_underscores(s)[i] == strip_underscores(t)[i]);
                } else {
                    assert(strip_underscores(s)[i] == b);
                }
            }
        }
        if s[0] != 95 {
            if t.len() == 0 {
                assert(b == s[0]);
                assert(strip_underscores(s)[0] == b);
            } else {
                assert(t[0] == s[0]);
                if b != 95 {
                    assert(strip_underscores(s)[0] == strip_underscores(t)[0]);
                }
            }
        }
    }
}

/// Underscore separators are transparent to the value: a numeral parses
/// exactly when it parses with its underscores removed, to the same value,
/// in every base.
pub proof fn lemma_underscores_transparent(base: nat, s: Seq<u8>)
    requires
        s.len() > 0,
        s.len() < usize::MAX,
        s[0] != 95,
        s.last() != 95,
    ensures
        parse_radix_spec(base, s) is Ok <==> parse_radix_spec(base, strip_underscores(s)) is Ok,
        parse_radix_spec(base, s) is Ok ==> parse_radix_spec(base, s) == parse_radix_spec(
            base,
            strip_underscores(s),
        ),
{
    let f = strip_underscores(s);
    lemma_strip_shape(s);
    lemma_fold_strip(base, s);
    assert(f.len() > 0);
    assert(f[0] != 95);
    assert(f.last() != 95);
}

/// An exact decimal float literal: the value `value * 10^exponent`, with
/// both parts arbitrary precision so nothing is rounded.
#[derive(Debug, Clone, PartialEq, Eq)]
pub struct FloatValue {
    pub value: BigUint,
    pub exponent: BigInt,
}

/// The mathematical content of a [`FloatValue`].
pub struct FloatValueView {
    pub value: nat,
    pub exponent: int,
}

impl View for FloatValue {
    type V = FloatValueView;

    open spec fn view(&self) -> FloatValueView {
        FloatValueView { value: big_nat(self.value), exponent: big_int_val(self.exponent) }
    }
}

/// An error from the float parser, with positions relative to the parsed
/// text.
#[derive(Debug, Clone, PartialEq, Eq, Structural)]
pub enum FloatParseError {
    NoDecimalDot(TextSpan),
    NumberParseError(IntParseError),
    ExponentTooLarge(TextSpan),
}

impl FloatParseError {
    /// The largest byte offset the error mentions.
    pub open spec fn pos_bound(self) -> nat {
        match self {
            FloatParseError::NoDecimalDot(sp) => sp.idx as nat,
            FloatParseError::NumberParseError(e) => e.pos_bound(),
            FloatParseError::ExponentTooLarge(sp) => sp.idx as nat,
        }
    }

    /// The error with its position shifted `off` bytes to the right.
    pub open spec fn spec_offset(self, off: nat) -> FloatParseError {
        match self {
            FloatParseError::NoDecimalDot(sp) => FloatParseError::NoDecimalDot(
                TextSpan { len: sp.len, idx: (sp.idx + off) as usize },
            ),
            FloatParseError::NumberParseError(e) => FloatParseError::NumberParseError(
                e.spec_offset(off),
            ),
            FloatParseError::ExponentTooLarge(sp) => FloatParseError::ExponentTooLarge(
                TextSpan { len: sp.len, idx: (sp.idx + off) as usize },
            ),
        }
    }

    /// Rebases the error's position by `offset` bytes, turning a position
    /// local to a substring into one local to the enclosing text.
    pub fn offset(&mut self, offset: usize)
        requires
            old(self).pos_bound() + offset <= usize::MAX,
        ensures
            *final(self) == old(self).spec_offset(offset as nat),
    {
        match self {
            FloatParseError::NoDecimalDot(value) => value.idx += offset,
            FloatParseError::NumberParseError(err) => err.offset(offset),
            FloatParseError::ExponentTooLarge(value) => value.idx += offset,
        }
    }
}

impl From<IntParseError> for FloatParseError {
    /// Wraps an integer-parse failure from one of the numeral parts.
    fn from(value: IntParseError) -> (r: Self) {
        FloatParseError::NumberParseError(value)
    }
}

impl vstd::std_specs::convert::FromSpecImpl<IntParseError> for FloatParseError {
    open spec fn obeys_from_spec() -> bool {
        true
    }

    open spec fn from_spec(value: IntParseError) -> Self {
        FloatParseError::NumberParseError(value)
    }
}

/// The first position at or after `from` where `s` holds `b1` or `b2`.
pub open spec fn find_byte(s: Seq<u8>, from: int, b1: u8, b2: u8) -> Option<int>
    decreases s.len() - from,
{
    if from < 0 || from >= s.len() {
        None
    } else if s[from] == b1 || s[from] == b2 {
        Some(from)
    } else {
        find_byte(s, from + 1, b1, b2)
    }
}

/// How many underscore bytes `s` holds.
pub open spec fn underscores(s: Seq<u8>) -> nat
    decreases s.len(),
{
    if s.len() == 0 {
        0
    } else {
        underscores(s.drop_last()) + if s.last() == 95 {
            1nat
        } else {
            0nat
        }
    }
}

/// A text never holds more underscores than bytes.
pub proof fn lemma_underscores_le(s: Seq<u8>)
    ensures
        underscores(s) <= s.len(),
    decreases s.len(),
{
    if s.len() > 0 {
        lemma_underscores_le(s.drop_last());
    }
}

/// Ten to the `n`-th power.
pub open spec fn pow10(n: nat) -> nat
    decreases n,
{
    if n == 0 {
        1
    } else {
        10 * pow10((n - 1) as nat)
    }
}

/// What parsing `s` as a decimal float literal yields. The text must hold a
/// decimal dot; the mantissa shifts the integer part left by the count of
/// fraction digits (underscores not counted) and adds the fraction's value;
/// the exponent is that count negated, adjusted by the optional signed
/// `e`/`E` suffix, which must fit a signed machine word. Errors from the
/// fraction are rebased to the fraction's position.
pub open spec fn parse_float_spec(s: Seq<u8>) -> Result<FloatValueView, FloatParseError> {
    match find_byte(s, 0, 46, 46) {
        None => Err(FloatParseError::NoDecimalDot(TextSpan { len: s.len() as usize, idx: 0 })),
        Some(d) => {
            let e_idx = find_byte(s, d + 1, 101, 69);
            match parse_radix_spec(10, s.take(d)) {
                Err(e) => Err(FloatParseError::NumberParseError(e)),
                Ok(ip) => {
                    let frac_end = match e_idx {
                        Some(ei) => ei,
                        None => s.len() as int,
                    };
                    let frac = s.subrange(d + 1, frac_end);
                    match parse_radix_spec(10, frac) {
                        Err(e) => Err(FloatParseError::NumberParseError(e.spec_offset((d + 1) as nat))),
                        Ok(fv) => {
                            let digits = frac.len() - underscores(frac);
                            let mantissa = ip * pow10(digits as nat) + fv;
                            match e_idx {
                                None => Ok(
                                    FloatValueView { value: mantissa, exponent: -digits },
                                ),
                                Some(ei) => parse_float_exponent_spec(s, ei, mantissa, digits),
                            }
                        },
                    }
                },
            }
        },
    }
}

/// What the signed exponent suffix after the `e` at `ei` contributes: an
/// optional sign, then a decimal magnitude that must fit a signed machine
/// word, added to the negated fraction digit count. A magnitude too large
/// for a machine word is reported with a span over the suffix digits, and
/// other magnitude errors are rebased to the first digit's position.
pub open spec fn parse_float_exponent_spec(
    s: Seq<u8>,
    ei: int,
    mantissa: nat,
    digits: int,
) -> Result<FloatValueView, FloatParseError> {
    let es = s.skip(ei + 1);
    if es.len() == 0 {
        Err(
            FloatParseError::NumberParseError(
                IntParseError::ZeroLength(TextPosition { idx: s.len() as usize }),
            ),
        )
    } else {
        let neg = es[0] == 45;
        let has_sign = es[0] == 43 || es[0] == 45;
        let mag_s = if has_sign {
            es.skip(1)
        } else {
            es
        };
        let mag_idx = if has_sign {
            ei + 2
        } else {
            ei + 1
        };
        match parse_radix_spec(10, mag_s) {
            Err(e) => Err(FloatParseError::NumberParseError(e.spec_offset(mag_idx as nat))),
            Ok(m) => {
                if m > isize::MAX {
                    Err(
                        FloatParseError::ExponentTooLarge(
                            TextSpan { len: mag_s.len() as usize, idx: mag_idx as usize },
                        ),
                    )
                } else {
                    let ex = if neg {
                        -(m as int)
                    } else {
                        m as int
                    };
                    Ok(FloatValueView { value: mantissa, exponent: -digits + ex })
                }
            },
        }
    }
}

/// The exec result of the float parser agrees with its model when the parsed
/// value is compared through its view.
pub open spec fn float_result_matches(
    r: Result<FloatValue, FloatParseError>,
    m: Result<FloatValueView, FloatParseError>,
) -> bool {
    match (r, m) {
        (Ok(f), Ok(v)) => f@ == v,
        (Err(e), Err(f)) => e == f,
        _ => false,
    }
}

/// Finds the first position at or after `from` holding `b1` or `b2`.
fn find_first(s: &[u8], from: usize, b1: u8, b2: u8) -> (r: Option<usize>)
    requires
        from <= s@.len(),
    ensures
        match r {
            Some(i) => find_byte(s@, from as int, b1, b2) == Some(i as int) && from <= i
                < s@.len(),
            None => find_byte(s@, from as int, b1, b2) is None,
        },
{
    let mut i = from;
    while i < s.len()
        invariant
            from <= i <= s@.len(),
            find_byte(s@, from as int, b1, b2) == find_byte(s@, i as int, b1, b2),
        decreases s@.len() - i,
    {
        if s[i] == b1 || s[i] == b2 {
            return Some(i);
        }
        i += 1;
    }
    None
}

/// Counts the underscore bytes of `s`.
fn count_underscores(s: &[u8]) -> (r: usize)
    ensures
        r == underscores(s@),
{
    let mut count: usize = 0;
    let mut i: usize = 0;
    while i < s.len()
        invariant
            i <= s@.len(),
            count == underscores(s@.take(i as int)),
            count <= i,
        decreases s@.len() - i,
    {
        proof {
            assert(s@.take(i + 1).drop_last() =~= s@.take(i as int));
            assert(s@.take(i + 1).last() == s@[i as int]);
        }
        if s[i] == 95 {
            count += 1;
        }
        i += 1;
    }
    proof {
        assert(s@.take(s@.len() as int) =~= s@);
    }
    count
}

/// Ten to the `n`-th power as a big number.
fn pow10_big(n: usize) -> (r: BigUint)
    ensures
        big_nat(r) == pow10(n as nat),
{
    let mut p = big_from_usize(1);
    let mut j: usize = 0;
    while j < n
        invariant
            j <= n,
            big_nat(p) == pow10(j as nat),
        decreases n - j,
    {
        big_mul_usize(&mut p, 10);
        j += 1;
    }
    p
}

/// Parses `s` as an exact decimal float literal, exactly as
/// [`parse_float_spec`] describes.
pub fn parse_float(s: &[u8]) -> (r: Result<FloatValue, FloatParseError>)
    ensures
        float_result_matches(r, parse_float_spec(s@)),
        r matches Err(e) ==> e.pos_bound() <= s@.len(),
{
    let n = s.len();
    let dot = match find_first(s, 0, 46, 46) {
        Some(d) => d,
        None => {
            return Err(FloatParseError::NoDecimalDot(TextSpan { len: n, idx: 0 }));
        },
    };
    let e_idx = find_first(s, dot + 1, 101, 69);
    let int_part = vstd::slice::slice_subrange(s, 0, dot);
    proof {
        assert(int_part@ =~= s@.take(dot as int));
    }
    let mut value = match parse_decimal(int_part) {
        Ok(v) => v,
        Err(e) => {
            return Err(FloatParseError::NumberParseError(e));
        },
    };
    let frac_end = match e_idx {
        Some(ei) => ei,
        None => n,
    };
    let frac = vstd::slice::slice_subrange(s, dot + 1, frac_end);
    let frac_val = match parse_decimal(frac) {
        Ok(v) => v,
        Err(mut e) => {
            e.offset(dot + 1);
            return Err(FloatParseError::NumberParseError(e));
        },
    };
    proof {
        lemma_underscores_le(frac@);
    }
    let us = count_underscores(frac);
    let digits = frac.len() - us;
    let p = pow10_big(digits);
    big_mul_big(&mut value, &p);
    big_add_big(&mut value, &frac_val);
    let exp_suffix: isize = match e_idx {
        None => 0,
        Some(ei) => {
            proof {
                assert(s@.skip(ei + 1).len() == n - ei - 1);
            }
            if ei + 1 >= n {
                return Err(
                    FloatParseError::NumberParseError(
                        IntParseError::ZeroLength(TextPosition { idx: n }),
                    ),
                );
            }
            let first = s[ei + 1];
            let neg = first == 45;
            let mag_start = if first == 45 || first == 43 {
                ei + 2
            } else {
                ei + 1
            };
            let mag_s = vstd::slice::slice_subrange(s, mag_start, n);
            proof {
                if first == 45 || first == 43 {
                    assert(mag_s@ =~= s@.skip(ei + 1).skip(1));
                } else {
                    assert(mag_s@ =~= s@.skip(ei + 1));
                }
            }
            let m = match parse_decimal(mag_s) {
                Ok(v) => v,
                Err(mut e) => {
                    e.offset(mag_start);
                    return Err(FloatParseError::NumberParseError(e));
                },
            };
            match big_to_isize(&m) {
                Some(v) => if neg {
                    -v
                } else {
                    v
                },
                None => {
                    return Err(
                        FloatParseError::ExponentTooLarge(
                            TextSpan { len: n - mag_start, idx: mag_start },
                        ),
                    );
                },
            }
        },
    };
    let exponent = bigint_add(bigint_neg(bigint_from_usize(digits)), bigint_from_isize(exp_suffix));
    Ok(FloatValue { value, exponent })
}

/// An error from the string escape decoder, with positions relative to the
/// string body.
#[derive(Debug, Clone, PartialEq, Eq, Structural)]
pub enum StringEscapeError {
    UnexpectedStrEnd,
    InvalidEscapedChar(TextSpan),
    /// Escaped unicode values have brackets that must be closed after at most
    /// 6 characters; this is returned if that isn't upheld.
    ExpectedCloseBracket(TextPosition),
}

impl StringEscapeError {
    /// The largest byte offset the error mentions.
    pub open spec fn pos_bound(self) -> nat {
        match self {
            StringEscapeError::UnexpectedStrEnd => 0,
            StringEscapeError::InvalidEscapedChar(sp) => sp.idx as nat,
            StringEscapeError::ExpectedCloseBracket(p) => p.idx as nat,
        }
    }

    /// The error with its position shifted `off` bytes to the right; the
    /// position-free variant is unchanged.
    pub open spec fn spec_offset(self, off: nat) -> StringEscapeError {
        match self {
            StringEscapeError::UnexpectedStrEnd => StringEscapeError::UnexpectedStrEnd,
            StringEscapeError::InvalidEscapedChar(sp) => StringEscapeError::InvalidEscapedChar(
                TextSpan { len: sp.len, idx: (sp.idx + off) as usize },
            ),
            StringEscapeError::ExpectedCloseBracket(p) => StringEscapeError::ExpectedCloseBracket(
                TextPosition { idx: (p.idx + off) as usize },
            ),
        }
    }

    /// Rebases the error's position by `offset` bytes, turning a position
    /// local to a substring into one local to the enclosing text.
    pub fn offset(&mut self, offset: usize)
        requires
            old(self).pos_bound() + offset <= usize::MAX,
        ensures
            *final(self) == old(self).spec_offset(offset as nat),
    {
        match self {
            StringEscapeError::InvalidEscapedChar(span) => span.idx += offset,
            StringEscapeError::ExpectedCloseBracket(position) => position.idx += offset,
            _ => {},
        }
    }
}

/// Whether `v` is a Unicode scalar value: below the surrogate range, or
/// between it and the last code point.
pub open spec fn is_scalar_value(v: nat) -> bool {
    v < 0xd800 || (0xe000 <= v && v < 0x110000)
}

/// How many bytes the UTF-8 sequence starting with lead byte `b` spans; a
/// byte that cannot lead a sequence counts as one.
pub open spec fn utf8_width(b: u8) -> nat {
    if b < 0x80 {
        1
    } else if b < 0xc0 {
        1
    } else if b < 0xe0 {
        2
    } else if b < 0xf0 {
        3
    } else {
        4
    }
}

/// The UTF-8 encoding of the scalar value `v`.
pub open spec fn utf8_encode(v: nat) -> Seq<u8> {
    if v < 0x80 {
        seq![v as u8]
    } else if v < 0x800 {
        seq![(0xc0 + v / 0x40) as u8, (0x80 + v % 0x40) as u8]
    } else if v < 0x10000 {
        seq![
            (0xe0 + v / 0x1000) as u8,
            (0x80 + (v / 0x40) % 0x40) as u8,
            (0x80 + v % 0x40) as u8,
        ]
    } else {
        seq![
            (0xf0 + v / 0x40000) as u8,
            (0x80 + (v / 0x1000) % 0x40) as u8,
            (0x80 + (v / 0x40) % 0x40) as u8,
            (0x80 + v % 0x40) as u8,
        ]
    }
}

/// The byte a single-character escape decodes to, if the character after the
/// backslash is one of the simple escapes.
pub open spec fn simple_escape(b: u8) -> Option<u8> {
    if b == 110 {
        Some(10u8)
    } else if b == 114 {
        Some(13u8)
    } else if b == 116 {
        Some(9u8)
    } else if b == 92 {
        Some(92u8)
    } else if b == 48 {
        Some(0u8)
    } else if b == 39 {
        Some(39u8)
    } else if b == 34 {
        Some(34u8)
    } else {
        None
    }
}

/// What decoding the string body `s` from position `i` on yields. Plain
/// bytes pass through; a backslash starts an escape: `\xHH` must name an
/// ASCII byte, `\u` followed by six hex digits must name a scalar value, the
/// simple escapes map to their character, anything else is rejected. A hex
/// escape cut short by the end of the body is skipped over without output,
/// and a backslash ending the body is `UnexpectedStrEnd`.
pub open spec fn esc_from(s: Seq<u8>, i: int) -> Result<Seq<u8>, StringEscapeError>
    decreases s.len() - i,
{
    if i < 0 || i >= s.len() {
        Ok(Seq::empty())
    } else if s[i] != 92 {
        match esc_from(s, i + 1) {
            Ok(rest) => Ok(seq![s[i]] + rest),
            Err(e) => Err(e),
        }
    } else if i + 1 >= s.len() {
        Err(StringEscapeError::UnexpectedStrEnd)
    } else {
        let c = s[i + 1];
        if c == 120 {
            if i + 4 <= s.len() {
                match parse_radix_spec(16, s.subrange(i + 2, i + 4)) {
                    Ok(v) => if v <= 0x7f {
                        match esc_from(s, i + 4) {
                            Ok(rest) => Ok(seq![v as u8] + rest),
                            Err(e) => Err(e),
                        }
                    } else {
                        Err(
                            StringEscapeError::InvalidEscapedChar(
                                TextSpan { len: 4, idx: i as usize },
                            ),
                        )
                    },
                    Err(_) => Err(
                        StringEscapeError::InvalidEscapedChar(TextSpan { len: 4, idx: i as usize }),
                    ),
                }
            } else {
                esc_from(s, i + 2)
            }
        } else if c == 117 {
            if i + 8 <= s.len() {
                match parse_radix_spec(16, s.subrange(i + 2, i + 8)) {
                    Ok(v) => if is_scalar_value(v) {
                        match esc_from(s, i + 8) {
                            Ok(rest) => Ok(utf8_encode(v) + rest),
                            Err(e) => Err(e),
                        }
                    } else {
                        Err(
                            StringEscapeError::InvalidEscapedChar(
                                TextSpan { len: 8, idx: i as usize },
                            ),
                        )
                    },
                    Err(_) => Err(
                        StringEscapeError::InvalidEscapedChar(TextSpan { len: 8, idx: i as usize }),
                    ),
                }
            } else {
                esc_from(s, i + 2)
            }
        } else {
            match simple_escape(c) {
                Some(b) => match esc_from(s, i + 2) {
                    Ok(rest) => Ok(seq![b] + rest),
                    Err(e) => Err(e),
                },
                None => Err(
                    StringEscapeError::InvalidEscapedChar(
                        TextSpan { len: (1 + utf8_width(c)) as usize, idx: i as usize },
                    ),
                ),
            }
        }
    }
}

/// What decoding the whole string body `s` yields.
pub open spec fn escape_spec(s: Seq<u8>) -> Result<Seq<u8>, StringEscapeError> {
    esc_from(s, 0)
}

/// Appends the UTF-8 encoding of the scalar value `v` to `out`.
fn push_utf8(out: &mut Vec<u8>, v: u32)
    requires
        is_scalar_value(v as nat),
    ensures
        final(out)@ == old(out)@ + utf8_encode(v as nat),
{
    if v < 0x80 {
        out.push(v as u8);
    } else if v < 0x800 {
        proof {
            vstd::arithmetic::div_mod::lemma_div_is_ordered(v as int, 0x7ff, 0x40);
        }
        out.push((0xc0 + v / 0x40) as u8);
        out.push((0x80 + v % 0x40) as u8);
    } else if v < 0x10000 {
        proof {
            vstd::arithmetic::div_mod::lemma_div_is_ordered(v as int, 0xffff, 0x1000);
        }
        out.push((0xe0 + v / 0x1000) as u8);
        out.push((0x80 + (v / 0x40) % 0x40) as u8);
        out.push((0x80 + v % 0x40) as u8);
    } else {
        proof {
            vstd::arithmetic::div_mod::lemma_div_is_ordered(v as int, 0x10ffff, 0x40000);
        }
        out.push((0xf0 + v / 0x40000) as u8);
        out.push((0x80 + (v / 0x1000) % 0x40) as u8);
        out.push((0x80 + (v / 0x40) % 0x40) as u8);
        out.push((0x80 + v % 0x40) as u8);
    }
    proof {
        assert(out@ =~= old(out)@ + utf8_encode(v as nat));
    }
}

/// Decodes the body of a quoted string literal (the text between, and
/// excluding, the quotes), exactly as [`escape_spec`] describes.
pub fn escape_str(s: &[u8]) -> (r: Result<Vec<u8>, StringEscapeError>)
    ensures
        match (r, escape_spec(s@)) {
            (Ok(v), Ok(m)) => v@ == m,
            (Err(e), Err(f)) => e == f,
            _ => false,
        },
        r matches Err(e) ==> e.pos_bound() <= s@.len(),
{
    let mut out: Vec<u8> = Vec::new();
    let mut i: usize = 0;
    while i < s.len()
        invariant
            i <= s@.len(),
            match esc_from(s@, i as int) {
                Ok(rest) => esc_from(s@, 0) == Ok::<Seq<u8>, StringEscapeError>(out@ + rest),
                Err(e) => esc_from(s@, 0) == Err::<Seq<u8>, StringEscapeError>(e),
            },
        decreases s@.len() - i,
    {
        let ghost out0 = out@;
        let b = s[i];
        if b != 92 {
            out.push(b);
            proof {
                match esc_from(s@, i + 1) {
                    Ok(rest) => {
                        assert(out0 + (seq![b] + rest) =~= out@ + rest);
                    },
                    Err(e) => {},
                }
            }
            i += 1;
        } else if i + 1 >= s.len() {
            return Err(StringEscapeError::UnexpectedStrEnd);
        } else {
            let c = s[i + 1];
            if c == 120 {
                if s.len() - i >= 4 {
                    let hex = vstd::slice::slice_subrange(s, i + 2, i + 4);
                    match parse_hexadecimal(hex) {
                        Ok(v) => {
                            match big_to_isize(&v) {
                                Some(val) => {
                                    if val <= 0x7f {
                                        out.push(val as u8);
                                        proof {
                                            match esc_from(s@, i + 4) {
                                                Ok(rest) => {
                                                    assert(out0 + (seq![(big_nat(v) as u8)] + rest)
                                                        =~= out@ + rest);
                                                },
                                                Err(e) => {},
                                            }
                                        }
                                        i += 4;
                                    } else {
                                        return Err(
                                            StringEscapeError::InvalidEscapedChar(
                                                TextSpan { len: 4, idx: i },
                                            ),
                                        );
                                    }
                                },
                                None => {
                                    return Err(
                                        StringEscapeError::InvalidEscapedChar(
                                            TextSpan { len: 4, idx: i },
                                        ),
                                    );
                                },
                            }
                        },
                        Err(_) => {
                            return Err(
                                StringEscapeError::InvalidEscapedChar(TextSpan { len: 4, idx: i }),
                            );
                        },
                    }
                } else {
                    i += 2;
                }
            } else if c == 117 {
                if s.len() - i >= 8 {
                    let hex = vstd::slice::slice_subrange(s, i + 2, i + 8);
                    match parse_hexadecimal(hex) {
                        Ok(v) => {
                            match big_to_isize(&v) {
                                Some(val) => {
                                    if val < 0xd800 || (0xe000 <= val && val < 0x110000) {
                                        push_utf8(&mut out, val as u32);
                                        proof {
                                            match esc_from(s@, i + 8) {
                                                Ok(rest) => {
                                                    assert(out0 + (utf8_encode(big_nat(v)) + rest)
                                                        =~= out@ + rest);
                                                },
                                                Err(e) => {},
                                            }
                                        }
                                        i += 8;
                                    } else {
                                        return Err(
                                            StringEscapeError::InvalidEscapedChar(
                                                TextSpan { len: 8, idx: i },
                                            ),
                                        );
                                    }
                                },
                                None => {
                                    return Err(
                                        StringEscapeError::InvalidEscapedChar(
                                            TextSpan { len: 8, idx: i },
                                        ),
                                    );
                                },
                            }
                        },
                        Err(_) => {
                            return Err(
                                StringEscapeError::InvalidEscapedChar(TextSpan { len: 8, idx: i }),
                            );
                        },
                    }
                } else {
                    i += 2;
                }
            } else {
                let m: Option<u8> = if c == 110 {
                    Some(10)
                } else if c == 114 {
                    Some(13)
                } else if c == 116 {
                    Some(9)
                } else if c == 92 {
                    Some(92)
                } else if c == 48 {
                    Some(0)
                } else if c == 39 {
                    Some(39)
                } else if c == 34 {
                    Some(34)
                } else {
                    None
                };
                match m {
                    Some(x) => {
                        out.push(x);
                        proof {
                            match esc_from(s@, i + 2) {
                                Ok(rest) => {
                                    assert(out0 + (seq![x] + rest) =~= out@ + rest);
                                },
                                Err(e) => {},
                            }
                        }
                        i += 2;
                    },
                    None => {
                        let w: usize = if c < 0x80 {
                            1
                        } else if c < 0xc0 {
                            1
                        } else if c < 0xe0 {
                            2
                        } else if c < 0xf0 {
                            3
                        } else {
                            4
                        };
                        return Err(
                            StringEscapeError::InvalidEscapedChar(TextSpan { len: 1 + w, idx: i }),
                        );
                    },
                }
            }
        }
    }
    Ok(out)
}

} // verus!
