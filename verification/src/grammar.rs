//! The grammar, as functions from a sequence of characters and a position to
//! the span that starts there.

use vstd::prelude::*;
use crate::span::{Span, is_delimiter, wrap};

verus! {

/// Why a text is not a paragraph.
#[derive(Clone, Copy, Debug, PartialEq, Eq, Structural)]
pub enum ParseError {
    /// An opening delimiter is not closed before the text ends.
    UnterminatedSpan,
    /// No span starts here: the text is empty, or an emphasis is.
    NoSpanMatched,
    /// Spans were read, but text is left over that starts none.
    TrailingInput,
}

/// Where the run of literal characters that starts at `p` ends.
pub open spec fn plain_end(s: Seq<char>, p: int) -> int
    decreases s.len() - p,
{
    if p < 0 || p >= s.len() || is_delimiter(s[p]) {
        p
    } else {
        plain_end(s, p + 1)
    }
}

/// Plain text at `p`: the longest run of literal characters, which must not
/// be empty.
pub open spec fn spec_plain(s: Seq<char>, p: int) -> Result<(Span, int), ParseError> {
    if p < 0 || p >= s.len() || is_delimiter(s[p]) {
        Err(ParseError::NoSpanMatched)
    } else {
        Ok((Span::Plain(s.subrange(p, plain_end(s, p))), plain_end(s, p)))
    }
}

/// An emphasis at `p`: the delimiter `d`, one or more spans up to the next
/// `d` at their level, and that `d`.
pub open spec fn spec_delimited(s: Seq<char>, p: int, d: char) -> Result<(Span, int), ParseError>
    decreases s.len() - p, 1int,
{
    if p < 0 || p >= s.len() || s[p] != d {
        Err(ParseError::NoSpanMatched)
    } else if p + 1 >= s.len() {
        Err(ParseError::UnterminatedSpan)
    } else {
        match spec_many1(s, p + 1, Some(d)) {
            Err(e) => Err(e),
            Ok((children, q)) => if 0 <= q < s.len() && s[q] == d {
                Ok((wrap(d, children), q + 1))
            } else {
                Err(ParseError::UnterminatedSpan)
            },
        }
    }
}

/// A span at `p`: bold, else italic, else plain. Only `NoSpanMatched` lets
/// the next alternative be tried.
pub open spec fn spec_span(s: Seq<char>, p: int) -> Result<(Span, int), ParseError>
    decreases s.len() - p, 2int,
{
    match spec_delimited(s, p, '*') {
        Err(ParseError::NoSpanMatched) => match spec_delimited(s, p, '_') {
            Err(ParseError::NoSpanMatched) => spec_plain(s, p),
            r => r,
        },
        r => r,
    }
}

/// Spans from `p` on, as many as there are: up to the end of the text, to
/// the delimiter `closer`, or to a place where no span starts.
///
/// A span ends after the place where it starts and within the text, so the
/// test on `q` always holds; it is there to make the recursion well founded.
pub open spec fn spec_many(s: Seq<char>, p: int, closer: Option<char>) -> Result<
    (Seq<Span>, int),
    ParseError,
>
    decreases s.len() - p, 3int,
{
    if p < 0 || p >= s.len() || closer == Some(s[p]) {
        Ok((Seq::empty(), p))
    } else {
        match spec_span(s, p) {
            Err(ParseError::NoSpanMatched) => Ok((Seq::empty(), p)),
            Err(e) => Err(e),
            Ok((t, q)) => if p < q <= s.len() {
                prepend(seq![t], spec_many(s, q, closer))
            } else {
                Ok((Seq::empty(), p))
            },
        }
    }
}

/// The result `r` with `ts` put before its spans.
pub open spec fn prepend(ts: Seq<Span>, r: Result<(Seq<Span>, int), ParseError>) -> Result<
    (Seq<Span>, int),
    ParseError,
> {
    match r {
        Ok((rest, q)) => Ok((ts + rest, q)),
        Err(e) => Err(e),
    }
}

/// One or more spans from `p` on.
pub open spec fn spec_many1(s: Seq<char>, p: int, closer: Option<char>) -> Result<
    (Seq<Span>, int),
    ParseError,
>
    decreases s.len() - p, 4int,
{
    match spec_many(s, p, closer) {
        Ok((ts, q)) => if ts.len() == 0 {
            Err(ParseError::NoSpanMatched)
        } else {
            Ok((ts, q))
        },
        Err(e) => Err(e),
    }
}

/// A paragraph: one or more spans that take up the whole text.
pub open spec fn spec_paragraph(s: Seq<char>) -> Result<Seq<Span>, ParseError> {
    match spec_many1(s, 0, None) {
        Ok((ts, q)) => if q == s.len() {
            Ok(ts)
        } else {
            Err(ParseError::TrailingInput)
        },
        Err(e) => Err(e),
    }
}

} // verus!
