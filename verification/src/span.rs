//! The model of a parsed paragraph: a sequence of spans.

use vstd::prelude::*;

verus! {

/// One node of the tree: literal text, or an emphasis around further spans.
pub enum Span {
    Plain(Seq<char>),
    Bold(Seq<Span>),
    Italic(Seq<Span>),
}

/// The two characters that open and close an emphasis.
pub open spec fn is_delimiter(c: char) -> bool {
    c == '*' || c == '_'
}

/// The emphasis that the delimiter `d` stands for, around `children`.
pub open spec fn wrap(d: char, children: Seq<Span>) -> Span {
    if d == '*' {
        Span::Bold(children)
    } else {
        Span::Italic(children)
    }
}

/// The markup text that a span was written as.
pub open spec fn source_of_span(t: Span) -> Seq<char>
    decreases t, 0int,
{
    match t {
        Span::Plain(s) => s,
        Span::Bold(children) => seq!['*'] + source_of_spans(children) + seq!['*'],
        Span::Italic(children) => seq!['_'] + source_of_spans(children) + seq!['_'],
    }
}

/// The markup text of a sequence of spans: theirs, one after the other.
pub open spec fn source_of_spans(ts: Seq<Span>) -> Seq<char>
    decreases ts, 1int,
{
    if ts.len() == 0 {
        Seq::empty()
    } else {
        source_of_spans(ts.drop_last()) + source_of_span(ts.last())
    }
}

/// The HTML of a span: plain text as it is, an emphasis as its tag around the
/// HTML of its children.
pub open spec fn html_of_span(t: Span) -> Seq<char>
    decreases t, 0int,
{
    match t {
        Span::Plain(s) => s,
        Span::Bold(children) => "<strong>"@ + html_of_spans(children) + "</strong>"@,
        Span::Italic(children) => "<em>"@ + html_of_spans(children) + "</em>"@,
    }
}

/// The HTML of a sequence of spans: theirs, one after the other.
pub open spec fn html_of_spans(ts: Seq<Span>) -> Seq<char>
    decreases ts, 1int,
{
    if ts.len() == 0 {
        Seq::empty()
    } else {
        html_of_spans(ts.drop_last()) + html_of_span(ts.last())
    }
}

/// Text that holds no delimiter.
pub open spec fn is_literal(s: Seq<char>) -> bool {
    forall|i: int| 0 <= i < s.len() ==> !is_delimiter(#[trigger] s[i])
}

/// Whether the markup of `t` begins with the delimiter `d`.
pub open spec fn opens_with(t: Span, d: char) -> bool {
    match t {
        Span::Plain(_) => false,
        Span::Bold(_) => d == '*',
        Span::Italic(_) => d == '_',
    }
}

/// None of `ts` begins with the delimiter `d`.
pub open spec fn avoids(ts: Seq<Span>, d: char) -> bool {
    forall|i: int| 0 <= i < ts.len() ==> !opens_with(#[trigger] ts[i], d)
}

/// What holds of every span that the parser builds: plain text is not empty
/// and holds no delimiter, and the children of an emphasis are well formed
/// with no emphasis of its own kind among them (its delimiter, where it
/// stands between them, closes it).
pub open spec fn wf_span(t: Span) -> bool
    decreases t, 0int,
{
    match t {
        Span::Plain(s) => s.len() > 0 && is_literal(s),
        Span::Bold(children) => wf_spans(children) && avoids(children, '*'),
        Span::Italic(children) => wf_spans(children) && avoids(children, '_'),
    }
}

/// What holds of every sequence of spans that the parser builds: it is not
/// empty, each span is well formed, and no plain text follows plain text.
pub open spec fn wf_spans(ts: Seq<Span>) -> bool
    decreases ts, 1int,
{
    &&& ts.len() > 0
    &&& forall|i: int| 0 <= i < ts.len() ==> wf_span(#[trigger] ts[i])
    &&& forall|i: int| 0 <= i < ts.len() - 1 ==> !(#[trigger] ts[i] is Plain && ts[i + 1] is Plain)
}

} // verus!
