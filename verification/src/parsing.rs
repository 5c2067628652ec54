//! The generic incremental parser driver: repeatedly applies a single-token
//! parse function over the remaining input, skipping trivia and recording
//! each value together with its absolute byte span.
use vstd::prelude::*;

use crate::text_region::{TextPosition, TextSpan};

verus! {

/// An error that carries byte positions local to the substring its parser
/// was given, and can be rebased into an enclosing text.
pub trait PositionnedErr: Sized {
    /// The largest byte offset the error mentions.
    spec fn pos_bound(self) -> nat;

    /// The error with its positions shifted `off` bytes to the right.
    spec fn spec_offset(self, off: nat) -> Self;

    /// Rebases the error's positions by `offset` bytes.
    fn offset(&mut self, offset: usize)
        requires
            old(self).pos_bound() + offset <= usize::MAX,
        ensures
            *final(self) == old(self).spec_offset(offset as nat),
    ;
}

/// A single-shot parse attempt, tried on the front of the remaining input.
///
/// `Ok((Some(v), n))` is a value spanning `n` bytes, `Ok((None, n))` with
/// `n > 0` is trivia to discard, `Ok((None, 0))` means the rule does not
/// apply, and `Err` is a fatal mismatch with a local position.
pub trait Parsable: View + Sized {
    type Error: PositionnedErr;

    /// What one parse attempt on `s` yields, at the level of views.
    spec fn spec_try_parse(s: Seq<u8>) -> Result<(Option<Self::V>, usize), Self::Error>;

    /// On success, returns the parsed value, if any, and the number of bytes
    /// consumed from the front of `s`.
    fn try_parse(s: &[u8]) -> (r: Result<(Option<Self>, usize), Self::Error>)
        ensures
            parse_step_matches::<Self, Self::Error>(r, Self::spec_try_parse(s@)),
            r matches Err(e) ==> e.pos_bound() <= s@.len(),
    ;
}

/// The exec result of one parse attempt agrees with its model when the
/// parsed value is compared through its view.
pub open spec fn parse_step_matches<T: View, E>(
    r: Result<(Option<T>, usize), E>,
    m: Result<(Option<T::V>, usize), E>,
) -> bool {
    match (r, m) {
        (Ok((Some(v), n)), Ok((Some(w), k))) => v@ == w && n == k,
        (Ok((None, n)), Ok((None, k))) => n == k,
        (Err(e), Err(f)) => e == f,
        _ => false,
    }
}

/// A fatal driver error: either the parse function's own error, rebased to
/// an absolute position, or a protocol violation by the parse function.
#[derive(Debug, Clone)]
pub enum ParsingError<T> {
    ParsableError(T),
    OutOfCharBoundError(TextPosition),
    /// This indicates that the `Parsable` implementation asked to skip 0
    /// bytes; it errors because it would otherwise cause an infinite loop.
    ZeroLenSkip(TextPosition),
}

/// The views of a sequence of values.
pub open spec fn views_of<T: View>(v: Seq<T>) -> Seq<T::V> {
    v.map_values(|t: T| t@)
}

/// Whether offset `i` of `s` lies on a UTF-8 character boundary, for text
/// that is valid UTF-8: the end of the text and any byte but a continuation
/// byte start a character there.
pub open spec fn is_char_boundary(s: Seq<u8>, i: int) -> bool {
    i == s.len() || !(128 <= s[i] && s[i] < 192)
}

/// What driving `T`'s parse function over `s` yields, with `start` the
/// absolute offset of `s` in the full text: the values encountered, each
/// paired index-for-index with its absolute span; or the first fatal error.
/// A step that consumes zero bytes is `ZeroLenSkip`; one that consumes more
/// than remains, or whose new cursor falls inside a UTF-8 character, is
/// `OutOfCharBoundError`; and a failing step has its error rebased by
/// `start`.
pub open spec fn parse_spec<T: Parsable>(s: Seq<u8>, start: nat) -> Result<
    (Seq<T::V>, Seq<TextSpan>),
    ParsingError<T::Error>,
>
    decreases s.len(),
{
    if s.len() == 0 {
        Ok((Seq::empty(), Seq::empty()))
    } else {
        match T::spec_try_parse(s) {
            Err(e) => Err(ParsingError::ParsableError(e.spec_offset(start))),
            Ok((res, skipped)) => {
                if skipped == 0 {
                    Err(ParsingError::ZeroLenSkip(TextPosition { idx: start as usize }))
                } else if skipped > s.len() || !is_char_boundary(s, skipped as int) {
                    Err(ParsingError::OutOfCharBoundError(TextPosition { idx: start as usize }))
                } else {
                    match parse_spec::<T>(s.skip(skipped as int), (start + skipped) as nat) {
                        Err(e) => Err(e),
                        Ok((vs, sps)) => match res {
                            None => Ok((vs, sps)),
                            Some(v) => Ok(
                                (
                                    seq![v] + vs,
                                    seq![TextSpan { len: skipped, idx: start as usize }] + sps,
                                ),
                            ),
                        },
                    }
                }
            },
        }
    }
}

/// A parse step that reports consuming zero bytes while not reporting an
/// error is rejected by the driver as `ZeroLenSkip` at the current cursor,
/// whether or not it carries a value, rather than looping forever.
pub proof fn lemma_zero_len_skip<T: Parsable>(s: Seq<u8>, start: nat, step: (Option<T::V>, usize))
    requires
        s.len() > 0,
        T::spec_try_parse(s) == Ok::<(Option<T::V>, usize), T::Error>(step),
        step.1 == 0,
    ensures
        parse_spec::<T>(s, start) == Err::<(Seq<T::V>, Seq<TextSpan>), ParsingError<T::Error>>(
            ParsingError::ZeroLenSkip(TextPosition { idx: start as usize }),
        ),
{
}

/// Drives `T`'s parse function over the whole of `text`, exactly as
/// [`parse_spec`] describes, returning the recorded values and their spans
/// in the order encountered.
pub fn parse<T: Parsable>(text: &[u8]) -> (r: Result<
    (Vec<T>, Vec<TextSpan>),
    ParsingError<T::Error>,
>)
    ensures
        match (r, parse_spec::<T>(text@, 0)) {
            (Ok((vs, sps)), Ok((mvs, msps))) => views_of(vs@) == mvs && sps@ == msps,
            (Err(e), Err(f)) => e == f,
            _ => false,
        },
{
    let mut toks: Vec<T> = Vec::new();
    let mut spans: Vec<TextSpan> = Vec::new();
    let mut curr_start: usize = 0;
    proof {
        assert(text@.skip(0) =~= text@);
        match parse_spec::<T>(text@, 0) {
            Ok(rest) => {
                assert(views_of(toks@) + rest.0 =~= rest.0);
                assert(spans@ + rest.1 =~= rest.1);
            },
            Err(e) => {},
        }
    }
    while curr_start < text.len()
        invariant
            curr_start <= text@.len(),
            match parse_spec::<T>(text@.skip(curr_start as int), curr_start as nat) {
                Ok(rest) => parse_spec::<T>(text@, 0) == Ok::<
                    (Seq<T::V>, Seq<TextSpan>),
                    ParsingError<T::Error>,
                >((views_of(toks@) + rest.0, spans@ + rest.1)),
                Err(e) => parse_spec::<T>(text@, 0) == Err::<
                    (Seq<T::V>, Seq<TextSpan>),
                    ParsingError<T::Error>,
                >(e),
            },
        decreases text@.len() - curr_start,
    {
        let ghost toks0 = toks@;
        let ghost spans0 = spans@;
        let rem = vstd::slice::slice_subrange(text, curr_start, text.len());
        proof {
            assert(rem@ =~= text@.skip(curr_start as int));
        }
        let (res, skipped) = match T::try_parse(rem) {
            Ok(step) => step,
            Err(mut err) => {
                err.offset(curr_start);
                return Err(ParsingError::ParsableError(err));
            },
        };
        if skipped == 0 {
            return Err(ParsingError::ZeroLenSkip(TextPosition { idx: curr_start }));
        }
        if skipped > text.len() - curr_start {
            return Err(ParsingError::OutOfCharBoundError(TextPosition { idx: curr_start }));
        }
        if skipped < text.len() - curr_start {
            let b = rem[skipped];
            if 128 <= b && b < 192 {
                return Err(ParsingError::OutOfCharBoundError(TextPosition { idx: curr_start }));
            }
        }
        proof {
            assert(text@.skip(curr_start as int).skip(skipped as int) =~= text@.skip(
                curr_start + skipped,
            ));
        }
        match res {
            Some(t) => {
                let ghost tv = t@;
                toks.push(t);
                spans.push(TextSpan { len: skipped, idx: curr_start });
                proof {
                    assert(views_of(toks@) =~= views_of(toks0).push(tv));
                    match parse_spec::<T>(text@.skip(curr_start + skipped), (curr_start + skipped) as nat) {
                        Ok(rest) => {
                            assert(views_of(toks0) + (seq![tv] + rest.0) =~= views_of(toks@)
                                + rest.0);
                            assert(spans0 + (seq![
                                TextSpan { len: skipped, idx: curr_start },
                            ] + rest.1) =~= spans@ + rest.1);
                        },
                        Err(e) => {},
                    }
                }
            },
            None => {},
        }
        curr_start += skipped;
    }
    proof {
        assert(text@.skip(curr_start as int) =~= Seq::<u8>::empty());
        assert(views_of(toks@) + Seq::<T::V>::empty() =~= views_of(toks@));
        assert(spans@ + Seq::<TextSpan>::empty() =~= spans@);
    }
    Ok((toks, spans))
}

} // verus!
