//! The parser: the grammar, run on the characters of a text.

use vstd::prelude::*;
use vstd::std_specs::iter::IteratorSpec;
use crate::grammar::{
    ParseError, plain_end, prepend, spec_delimited, spec_many, spec_many1, spec_paragraph,
    spec_plain, spec_span,
};
use crate::laws::{
    is_markup, lemma_delimited_sound, lemma_many_sound, lemma_paragraph_iff_markup, span_at,
    spans_at,
};
use crate::paragraph::{
    Paragraph, Text, lemma_texts_model_index, lemma_texts_model_push, texts_model,
};
use crate::span::{Span, is_delimiter, source_of_spans, wf_spans, wrap};

verus! {

/// `String::push` puts the character at the end of the string and leaves the
/// rest as it was.
pub assume_specification[ String::push ](s: &mut String, c: char)
    ensures
        final(s)@ == old(s)@.push(c),
;

/// The parser's answer for one span is the grammar's.
pub open spec fn agrees(
    res: Result<(Text, usize), ParseError>,
    model: Result<(Span, int), ParseError>,
) -> bool {
    match res {
        Ok((t, q)) => model == Ok::<(Span, int), ParseError>((t@, q as int)),
        Err(e) => model == Err::<(Span, int), ParseError>(e),
    }
}

/// The parser's answer for a sequence of spans is the grammar's.
pub open spec fn agrees_many(
    res: Result<(Vec<Text>, usize), ParseError>,
    model: Result<(Seq<Span>, int), ParseError>,
) -> bool {
    match res {
        Ok((ts, q)) => model == Ok::<(Seq<Span>, int), ParseError>((texts_model(ts@), q as int)),
        Err(e) => model == Err::<(Seq<Span>, int), ParseError>(e),
    }
}

/// Whether `c` opens and closes an emphasis.
pub fn is_delimiter_char(c: char) -> (b: bool)
    ensures
        b == is_delimiter(c),
{
    c == '*' || c == '_'
}

/// The characters of `text`, in their order.
pub fn to_chars(text: &str) -> (chars: Vec<char>)
    ensures
        chars@ == text@,
{
    broadcast use vstd::string::group_string_axioms;

    let mut chars: Vec<char> = Vec::new();
    for c in it: text.chars()
        invariant
            it.seq() == text@,
            chars@ == text@.take(it.index() as int),
    {
        assert(text@.take(it.index() as int).push(c) =~= text@.take(it.index() + 1));
        chars.push(c);
    }
    assert(text@.take(text@.len() as int) =~= text@);
    chars
}

/// Plain text at `start`: the longest run of characters that are no
/// delimiters. Where none stands at `start`, no span is matched.
pub fn parse_plain(input: &[char], start: usize) -> (res: Result<(Text, usize), ParseError>)
    ensures
        agrees(res, spec_plain(input@, start as int)),
        res matches Ok((t, q)) ==> span_at(input@, start as int, t@, q as int),
{
    if start >= input.len() || is_delimiter_char(input[start]) {
        return Err(ParseError::NoSpanMatched);
    }
    let mut text = String::new();
    let mut p: usize = start;
    while p < input.len() && !is_delimiter_char(input[p])
        invariant
            start <= p <= input.len(),
            text@ == input@.subrange(start as int, p as int),
            plain_end(input@, p as int) == plain_end(input@, start as int),
            forall|j: int| start <= j < p ==> !is_delimiter(#[trigger] input@[j]),
        decreases input.len() - p,
    {
        text.push(input[p]);
        assert(input@.subrange(start as int, p as int).push(input@[p as int])
            =~= input@.subrange(start as int, p + 1));
        p += 1;
    }
    Ok((Text::Plain(text), p))
}

/// An emphasis at `start`, bold or italic: its delimiter, one or more spans,
/// and the delimiter again. Where another character stands at `start`, or the
/// emphasis is empty, no span is matched; where the text ends before the
/// emphasis does, or something follows its spans that is neither a span nor
/// its delimiter, the span is unterminated.
pub fn parse_delimited(input: &[char], start: usize, bold: bool) -> (res: Result<
    (Text, usize),
    ParseError,
>)
    ensures
        agrees(res, spec_delimited(input@, start as int, if bold { '*' } else { '_' })),
        res matches Ok((t, q)) ==> span_at(input@, start as int, t@, q as int),
    decreases input@.len() - start, 1int,
{
    let d: char = if bold { '*' } else { '_' };
    if start >= input.len() || input[start] != d {
        return Err(ParseError::NoSpanMatched);
    }
    if start + 1 >= input.len() {
        return Err(ParseError::UnterminatedSpan);
    }
    match parse_many1(input, start + 1, Some(d)) {
        Err(e) => Err(e),
        Ok((children, q)) => {
            if q < input.len() && input[q] == d {
                let inner = Paragraph::new(children);
                let t = if bold { Text::Bold(inner) } else { Text::Italics(inner) };
                proof {
                    assert(t@ == wrap(d, texts_model(children@)));
                    lemma_delimited_sound(input@, start as int, d);
                }
                Ok((t, q + 1))
            } else {
                Err(ParseError::UnterminatedSpan)
            }
        },
    }
}

/// A bold span at `start`.
pub fn parse_bold(input: &[char], start: usize) -> (res: Result<(Text, usize), ParseError>)
    ensures
        agrees(res, spec_delimited(input@, start as int, '*')),
        res matches Ok((t, q)) ==> span_at(input@, start as int, t@, q as int),
    decreases input@.len() - start, 2int,
{
    parse_delimited(input, start, true)
}

/// An italic span at `start`.
pub fn parse_italics(input: &[char], start: usize) -> (res: Result<(Text, usize), ParseError>)
    ensures
        agrees(res, spec_delimited(input@, start as int, '_')),
        res matches Ok((t, q)) ==> span_at(input@, start as int, t@, q as int),
    decreases input@.len() - start, 2int,
{
    parse_delimited(input, start, false)
}

/// The span at `start`: bold, else italic, else plain.
pub fn parse_span(input: &[char], start: usize) -> (res: Result<(Text, usize), ParseError>)
    ensures
        agrees(res, spec_span(input@, start as int)),
        res matches Ok((t, q)) ==> span_at(input@, start as int, t@, q as int),
    decreases input@.len() - start, 3int,
{
    match parse_bold(input, start) {
        Err(ParseError::NoSpanMatched) => match parse_italics(input, start) {
            Err(ParseError::NoSpanMatched) => parse_plain(input, start),
            r => r,
        },
        r => r,
    }
}

/// The spans from `start` on, as many as there are: up to the end of the
/// text, to `closer`, or to a place where no span is matched. An unterminated
/// span among them is an error.
pub fn parse_many(input: &[char], start: usize, closer: Option<char>) -> (res: Result<
    (Vec<Text>, usize),
    ParseError,
>)
    ensures
        agrees_many(res, spec_many(input@, start as int, closer)),
        start <= input@.len() ==> (res matches Ok((ts, q)) ==> spans_at(
            input@,
            start as int,
            texts_model(ts@),
            q as int,
            closer,
        )),
    decreases input@.len() - start, 4int,
{
    let mut parts: Vec<Text> = Vec::new();
    let mut p: usize = start;
    if start >= input.len() {
        proof {
            if start <= input@.len() {
                assert(input@.subrange(start as int, start as int) =~= Seq::<char>::empty());
            }
        }
        return Ok((parts, p));
    }
    let ghost s = input@;
    assert(prepend(Seq::<Span>::empty(), spec_many(s, start as int, closer)) == spec_many(
        s,
        start as int,
        closer,
    )) by {
        match spec_many(s, start as int, closer) {
            Ok((rest, q)) => {
                assert(Seq::<Span>::empty() + rest =~= rest);
            },
            Err(_) => {},
        }
    }
    let mut done = false;
    while !done
        invariant
            s == input@,
            start <= p <= s.len(),
            spec_many(s, start as int, closer) == prepend(
                texts_model(parts@),
                spec_many(s, p as int, closer),
            ),
            done ==> spec_many(s, p as int, closer) == Ok::<(Seq<Span>, int), ParseError>(
                (Seq::empty(), p as int),
            ),
        decreases s.len() - p + (if done { 0int } else { 1int }),
    {
        let at_closer = match closer {
            Some(c) => p < input.len() && input[p] == c,
            None => false,
        };
        if p >= input.len() || at_closer {
            done = true;
        } else {
            match parse_span(input, p) {
                Ok((t, q)) => {
                    let ghost before = texts_model(parts@);
                    proof {
                        lemma_texts_model_push(parts@, t);
                        let after = before.push(t@);
                        match spec_many(s, q as int, closer) {
                            Ok((rest, r)) => {
                                assert(before + (seq![t@] + rest) =~= after + rest);
                            },
                            Err(_) => {},
                        }
                    }
                    parts.push(t);
                    p = q;
                },
                Err(ParseError::NoSpanMatched) => {
                    done = true;
                },
                Err(e) => {
                    return Err(e);
                },
            }
        }
    }
    proof {
        assert(texts_model(parts@) + Seq::<Span>::empty() =~= texts_model(parts@));
        lemma_many_sound(s, start as int, closer);
    }
    Ok((parts, p))
}

/// One or more spans from `start` on; none is an error.
pub fn parse_many1(input: &[char], start: usize, closer: Option<char>) -> (res: Result<
    (Vec<Text>, usize),
    ParseError,
>)
    ensures
        agrees_many(res, spec_many1(input@, start as int, closer)),
        start <= input@.len() ==> (res matches Ok((ts, q)) ==> ts@.len() > 0 && spans_at(
            input@,
            start as int,
            texts_model(ts@),
            q as int,
            closer,
        )),
    decreases input@.len() - start, 5int,
{
    match parse_many(input, start, closer) {
        Ok((parts, q)) => {
            proof {
                lemma_texts_model_index(parts@);
            }
            if parts.len() == 0 {
                Err(ParseError::NoSpanMatched)
            } else {
                Ok((parts, q))
            }
        },
        Err(e) => Err(e),
    }
}

/// The paragraph that `text` is: one or more spans that take up all of it.
/// The text is a paragraph exactly where the grammar says so, and the error
/// is the grammar's. The paragraph is well formed, and written out as markup
/// it is `text` again.
///
/// The parser calls itself once for each emphasis that is open at a time, so
/// the depth of the calls is the depth of the nesting, which is at most half
/// the length of `text`.
pub fn parse_paragraph(text: &str) -> (res: Result<Paragraph, ParseError>)
    ensures
        match res {
            Ok(p) => spec_paragraph(text@) == Ok::<Seq<Span>, ParseError>(p@),
            Err(e) => spec_paragraph(text@) == Err::<Seq<Span>, ParseError>(e),
        },
        res matches Ok(p) ==> wf_spans(p@) && source_of_spans(p@) == text@,
        res is Ok <==> is_markup(text@),
{
    proof {
        lemma_paragraph_iff_markup(text@);
    }
    let chars = to_chars(text);
    match parse_many1(chars.as_slice(), 0, None) {
        Ok((parts, q)) => {
            if q == chars.len() {
                assert(text@.subrange(0, text@.len() as int) =~= text@);
                Ok(Paragraph::new(parts))
            } else {
                Err(ParseError::TrailingInput)
            }
        },
        Err(e) => Err(e),
    }
}

} // verus!
