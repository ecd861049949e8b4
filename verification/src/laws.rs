//! What holds between the grammar and the trees: what the grammar reads is
//! well formed and written as the text that was read, and every well-formed
//! tree is what the grammar reads in its own markup.

use vstd::prelude::*;
use crate::grammar::{
    ParseError, plain_end, spec_delimited, spec_many, spec_many1, spec_paragraph, spec_span,
};
use crate::span::{
    Span, avoids, html_of_span, html_of_spans, is_delimiter, is_literal, opens_with, source_of_span,
    source_of_spans, wf_span, wf_spans, wrap,
};

verus! {

/// The span `t` begins with the character at `p`: an emphasis with its
/// delimiter, plain text with a literal character.
pub open spec fn starts_as(s: Seq<char>, p: int, t: Span) -> bool {
    match t {
        Span::Plain(_) => !is_delimiter(s[p]),
        Span::Bold(_) => s[p] == '*',
        Span::Italic(_) => s[p] == '_',
    }
}

/// Plain text goes on as far as it can: it ends at `q` only before a
/// delimiter or at the end of the text.
pub open spec fn ends_as(s: Seq<char>, q: int, t: Span) -> bool {
    t is Plain ==> q == s.len() || is_delimiter(s[q])
}

/// The span `t` is what the characters of `s` from `p` up to `q` say: it is
/// well formed, not empty, and written as exactly these characters.
pub open spec fn span_at(s: Seq<char>, p: int, t: Span, q: int) -> bool {
    &&& 0 <= p < q <= s.len()
    &&& source_of_span(t) == s.subrange(p, q)
    &&& wf_span(t)
    &&& starts_as(s, p, t)
    &&& ends_as(s, q, t)
}

/// The spans `ts` are what the characters of `s` from `p` up to `q` say, in
/// a place where `closer` would end them.
pub open spec fn spans_at(s: Seq<char>, p: int, ts: Seq<Span>, q: int, closer: Option<char>) -> bool {
    &&& 0 <= p <= q <= s.len()
    &&& source_of_spans(ts) == s.subrange(p, q)
    &&& ts.len() == 0 ==> q == p
    &&& closer matches Some(d) ==> avoids(ts, d)
    &&& ts.len() > 0 ==> {
        &&& wf_spans(ts)
        &&& starts_as(s, p, ts[0])
        &&& closer != Some(s[p])
        &&& ends_as(s, q, ts.last())
    }
}

/// The markup of spans is that of the first, then that of the others.
pub proof fn lemma_source_front(ts: Seq<Span>)
    requires
        ts.len() > 0,
    ensures
        source_of_spans(ts) == source_of_span(ts[0]) + source_of_spans(ts.drop_first()),
    decreases ts.len(),
{
    if ts.len() == 1 {
        assert(ts.drop_last() =~= Seq::<Span>::empty());
        assert(ts.drop_first() =~= Seq::<Span>::empty());
        assert(Seq::<char>::empty() + source_of_span(ts[0]) =~= source_of_span(ts[0])
            + Seq::<char>::empty());
    } else {
        lemma_source_front(ts.drop_last());
        assert(ts.drop_last().drop_first() =~= ts.drop_first().drop_last());
        assert(ts.drop_first().last() == ts.last());
        assert(ts.drop_last()[0] == ts[0]);
        let a = source_of_span(ts[0]);
        let b = source_of_spans(ts.drop_first().drop_last());
        let c = source_of_span(ts.last());
        assert((a + b) + c =~= a + (b + c));
    }
}

/// The markup of a well-formed span is not empty, and its first character
/// tells the span's kind.
pub proof fn lemma_source_head(t: Span)
    requires
        wf_span(t),
    ensures
        source_of_span(t).len() > 0,
        opens_with(t, '*') <==> source_of_span(t)[0] == '*',
        opens_with(t, '_') <==> source_of_span(t)[0] == '_',
{
    match t {
        Span::Plain(s) => {
            assert(!is_delimiter(s[0]));
        },
        Span::Bold(children) => {},
        Span::Italic(children) => {},
    }
}

/// A run of literal characters that a delimiter or the end of the text
/// follows ends there.
pub proof fn lemma_plain_end(s: Seq<char>, p: int, q: int)
    requires
        0 <= p <= q <= s.len(),
        forall|j: int| p <= j < q ==> !is_delimiter(#[trigger] s[j]),
        q == s.len() || is_delimiter(s[q]),
    ensures
        plain_end(s, p) == q,
    decreases q - p,
{
    if p < q {
        lemma_plain_end(s, p + 1, q);
    }
}

/// A well-formed span is what the grammar reads where its markup stands,
/// if plain text is followed by a delimiter or by the end of the text.
pub proof fn lemma_span_complete(s: Seq<char>, p: int, t: Span, q: int)
    requires
        0 <= p <= q <= s.len(),
        wf_span(t),
        source_of_span(t) == s.subrange(p, q),
        ends_as(s, q, t),
    ensures
        spec_span(s, p) == Ok::<(Span, int), ParseError>((t, q)),
    decreases t, 0int,
{
    lemma_source_head(t);
    let src = source_of_span(t);
    assert(src[0] == s[p]);
    match t {
        Span::Plain(text) => {
            assert forall|j: int| p <= j < q implies !is_delimiter(#[trigger] s[j]) by {
                assert(s[j] == text[j - p]);
            }
            lemma_plain_end(s, p, q);
        },
        Span::Bold(children) => {
            lemma_delimited_complete(s, p, '*', children, q);
        },
        Span::Italic(children) => {
            lemma_delimited_complete(s, p, '_', children, q);
        },
    }
}

/// Well-formed children between two delimiters `d`, none of which begins
/// with `d`, are read as the children of one emphasis.
pub proof fn lemma_delimited_complete(s: Seq<char>, p: int, d: char, children: Seq<Span>, q: int)
    requires
        0 <= p <= q <= s.len(),
        is_delimiter(d),
        wf_spans(children),
        avoids(children, d),
        seq![d] + source_of_spans(children) + seq![d] == s.subrange(p, q),
    ensures
        spec_many1(s, p + 1, Some(d)) == Ok::<(Seq<Span>, int), ParseError>((children, q - 1)),
        s[p] == d,
        s[q - 1] == d,
        p + 1 < q - 1,
    decreases children, 2int,
{
    let inner = source_of_spans(children);
    let whole = seq![d] + inner + seq![d];
    assert(whole.len() == inner.len() + 2);
    assert(whole[0] == d);
    assert(whole[whole.len() - 1] == d);
    assert(s[p] == whole[0]);
    assert(s[q - 1] == whole[q - 1 - p]);
    assert(s.subrange(p + 1, q - 1) =~= inner) by {
        assert forall|j: int| 0 <= j < inner.len() implies s[p + 1 + j] == inner[j] by {
            assert(s[p + 1 + j] == whole[j + 1]);
        }
    }
    lemma_many_complete(s, p + 1, children, q - 1, Some(d));
    lemma_source_front(children);
    lemma_source_head(children[0]);
}

/// Well-formed spans are what the grammar reads where their markup stands,
/// if the end of the text or the closing delimiter follows them and none of
/// them begins with that delimiter.
pub proof fn lemma_many_complete(
    s: Seq<char>,
    p: int,
    ts: Seq<Span>,
    q: int,
    closer: Option<char>,
)
    requires
        0 <= p <= q <= s.len(),
        ts.len() == 0 || wf_spans(ts),
        closer matches Some(d) ==> is_delimiter(d) && avoids(ts, d),
        source_of_spans(ts) == s.subrange(p, q),
        q == s.len() || closer == Some(s[q]),
    ensures
        spec_many(s, p, closer) == Ok::<(Seq<Span>, int), ParseError>((ts, q)),
    decreases ts, 1int,
{
    if ts.len() == 0 {
        assert(s.subrange(p, q).len() == 0);
        assert(ts =~= Seq::<Span>::empty());
    } else {
        let t = ts[0];
        let rest = ts.drop_first();
        lemma_source_front(ts);
        lemma_source_head(t);
        let m = p + source_of_span(t).len();
        let whole = source_of_span(t) + source_of_spans(rest);
        assert(whole.len() == q - p);
        assert(s.subrange(p, m) =~= source_of_span(t)) by {
            assert forall|j: int| 0 <= j < m - p implies s[p + j] == source_of_span(t)[j] by {
                assert(s[p + j] == whole[j]);
            }
        }
        assert(s.subrange(m, q) =~= source_of_spans(rest)) by {
            assert forall|j: int| 0 <= j < q - m implies s[m + j] == source_of_spans(rest)[j] by {
                assert(s[m + j] == whole[j + (m - p)]);
            }
        }
        assert(s[p] == source_of_span(t)[0]) by {
            assert(s[p] == whole[0]);
        }
        if rest.len() > 0 {
            assert(rest[0] == ts[1]);
            assert(wf_span(ts[1]));
            lemma_source_front(rest);
            lemma_source_head(rest[0]);
            assert(s[m] == source_of_spans(rest)[0]);
            assert(rest.last() == ts.last());
            assert forall|i: int| 0 <= i < rest.len() implies wf_span(#[trigger] rest[i]) by {
                assert(rest[i] == ts[i + 1]);
            }
            assert forall|i: int| 0 <= i < rest.len() - 1 implies !(#[trigger] rest[i] is Plain
                && rest[i + 1] is Plain) by {
                assert(rest[i] == ts[i + 1]);
                assert(rest[i + 1] == ts[i + 2]);
            }
            assert(wf_spans(rest));
        }
        assert(closer matches Some(d) ==> avoids(rest, d)) by {
            if let Some(d) = closer {
                assert forall|i: int| 0 <= i < rest.len() implies !opens_with(
                    #[trigger] rest[i],
                    d,
                ) by {
                    assert(rest[i] == ts[i + 1]);
                }
            }
        }
        assert(ends_as(s, m, t)) by {
            if t is Plain && m < s.len() {
                if rest.len() > 0 {
                    assert(!(ts[0] is Plain && ts[1] is Plain));
                }
            }
        }
        assert(closer != Some(s[p]));
        lemma_span_complete(s, p, t, m);
        lemma_many_complete(s, m, rest, q, closer);
        assert(seq![t] + rest =~= ts);
    }
}

/// Where the run of literal characters from `p` ends: not before `p`, not
/// after the text, with no delimiter on the way, and before a delimiter or
/// at the end of the text.
pub proof fn lemma_plain_end_is_maximal(s: Seq<char>, p: int)
    requires
        0 <= p <= s.len(),
    ensures
        p <= plain_end(s, p) <= s.len(),
        forall|j: int| p <= j < plain_end(s, p) ==> !is_delimiter(#[trigger] s[j]),
        plain_end(s, p) == s.len() || is_delimiter(s[plain_end(s, p)]),
    decreases s.len() - p,
{
    if p < s.len() && !is_delimiter(s[p]) {
        lemma_plain_end_is_maximal(s, p + 1);
    }
}

/// The span that the grammar reads at `p` is well formed and written as the
/// characters that were read.
pub proof fn lemma_span_sound(s: Seq<char>, p: int)
    requires
        spec_span(s, p) is Ok,
    ensures
        span_at(s, p, spec_span(s, p)->Ok_0.0, spec_span(s, p)->Ok_0.1),
    decreases s.len() - p, 2int,
{
    if spec_delimited(s, p, '*') is Ok {
        lemma_delimited_sound(s, p, '*');
    } else if spec_delimited(s, p, '_') is Ok {
        lemma_delimited_sound(s, p, '_');
    } else {
        lemma_plain_end_is_maximal(s, p);
    }
}

/// The emphasis that the grammar reads at `p` is well formed and written as
/// the characters that were read.
pub proof fn lemma_delimited_sound(s: Seq<char>, p: int, d: char)
    requires
        is_delimiter(d),
        spec_delimited(s, p, d) is Ok,
    ensures
        span_at(s, p, spec_delimited(s, p, d)->Ok_0.0, spec_delimited(s, p, d)->Ok_0.1),
    decreases s.len() - p, 1int,
{
    let (children, q) = spec_many1(s, p + 1, Some(d))->Ok_0;
    lemma_many_sound(s, p + 1, Some(d));
    assert(seq![d] + s.subrange(p + 1, q) + seq![d] =~= s.subrange(p, q + 1));
    let t = wrap(d, children);
    assert(source_of_span(t) == seq![d] + source_of_spans(children) + seq![d]);
    assert(wf_span(t));
}

/// The spans that the grammar reads from `p` on are well formed, unless
/// there is none, and written as the characters that were read.
pub proof fn lemma_many_sound(s: Seq<char>, p: int, closer: Option<char>)
    requires
        0 <= p <= s.len(),
        spec_many(s, p, closer) is Ok,
    ensures
        spans_at(s, p, spec_many(s, p, closer)->Ok_0.0, spec_many(s, p, closer)->Ok_0.1, closer),
    decreases s.len() - p, 3int,
{
    let (ts, q) = spec_many(s, p, closer)->Ok_0;
    if ts.len() == 0 {
        assert(s.subrange(p, p) =~= Seq::<char>::empty());
    } else {
        let (t, m) = spec_span(s, p)->Ok_0;
        lemma_span_sound(s, p);
        lemma_many_sound(s, m, closer);
        let (rest, r) = spec_many(s, m, closer)->Ok_0;
        assert(ts == seq![t] + rest);
        assert(ts[0] == t);
        assert(ts.drop_first() =~= rest);
        lemma_source_front(ts);
        assert(s.subrange(p, m) + s.subrange(m, q) =~= s.subrange(p, q));
        assert forall|i: int| 0 <= i < ts.len() implies wf_span(#[trigger] ts[i]) by {
            if i > 0 {
                assert(ts[i] == rest[i - 1]);
            }
        }
        assert forall|i: int| 0 <= i < ts.len() - 1 implies !(#[trigger] ts[i] is Plain && ts[i
            + 1] is Plain) by {
            assert(ts[i + 1] == rest[i]);
            if i > 0 {
                assert(ts[i] == rest[i - 1]);
            }
        }
        if rest.len() > 0 {
            assert(ts.last() == rest.last());
        }
        if let Some(d) = closer {
            assert forall|i: int| 0 <= i < ts.len() implies !opens_with(#[trigger] ts[i], d) by {
                if i > 0 {
                    assert(ts[i] == rest[i - 1]);
                }
            }
        }
    }
}

/// What the grammar reads as a paragraph is well formed, and written out as
/// markup it is the text that was read.
pub proof fn lemma_parsed_is_well_formed(s: Seq<char>)
    requires
        spec_paragraph(s) is Ok,
    ensures
        wf_spans(spec_paragraph(s)->Ok_0),
        source_of_spans(spec_paragraph(s)->Ok_0) == s,
{
    lemma_many_sound(s, 0, None);
    assert(s.subrange(0, s.len() as int) =~= s);
}

/// Every well-formed sequence of spans is the paragraph that the grammar
/// reads in its markup.
pub proof fn lemma_well_formed_is_parsed(ts: Seq<Span>)
    requires
        wf_spans(ts),
    ensures
        spec_paragraph(source_of_spans(ts)) == Ok::<Seq<Span>, ParseError>(ts),
{
    let s = source_of_spans(ts);
    assert(s.subrange(0, s.len() as int) =~= s);
    lemma_many_complete(s, 0, ts, s.len() as int, None);
}

/// A text without delimiters that is not empty is read as one plain span,
/// and its HTML is the text itself.
pub proof fn lemma_literal_passes_through(s: Seq<char>)
    requires
        s.len() > 0,
        is_literal(s),
    ensures
        spec_paragraph(s) == Ok::<Seq<Span>, ParseError>(seq![Span::Plain(s)]),
        html_of_spans(seq![Span::Plain(s)]) == s,
{
    let ts = seq![Span::Plain(s)];
    let none = Seq::<Span>::empty();
    assert(ts.drop_last() =~= none);
    assert(source_of_spans(none) =~= Seq::<char>::empty());
    assert(html_of_spans(none) =~= Seq::<char>::empty());
    assert(ts.last() == Span::Plain(s));
    assert(source_of_span(ts.last()) == s);
    assert(html_of_span(ts.last()) == s);
    assert(source_of_spans(ts) == source_of_spans(ts.drop_last()) + source_of_span(ts.last()));
    assert(html_of_spans(ts) == html_of_spans(ts.drop_last()) + html_of_span(ts.last()));
    assert(source_of_spans(ts) =~= s);
    assert(html_of_spans(ts) =~= s);
    lemma_well_formed_is_parsed(ts);
}

/// The text `s` is the markup of some well-formed sequence of spans.
pub open spec fn is_markup(s: Seq<char>) -> bool {
    exists|ts: Seq<Span>| #[trigger] wf_spans(ts) && source_of_spans(ts) == s
}

/// The grammar reads a paragraph in exactly the texts that are the markup of
/// a well-formed sequence of spans.
pub proof fn lemma_paragraph_iff_markup(s: Seq<char>)
    ensures
        spec_paragraph(s) is Ok <==> is_markup(s),
{
    if spec_paragraph(s) is Ok {
        lemma_parsed_is_well_formed(s);
        assert(wf_spans(spec_paragraph(s)->Ok_0));
    }
    if is_markup(s) {
        let ts = choose|ts: Seq<Span>| #[trigger] wf_spans(ts) && source_of_spans(ts) == s;
        lemma_well_formed_is_parsed(ts);
    }
}

/// Two well-formed sequences of spans with the same markup are the same.
pub proof fn lemma_markup_is_unique(a: Seq<Span>, b: Seq<Span>)
    requires
        wf_spans(a),
        wf_spans(b),
        source_of_spans(a) == source_of_spans(b),
    ensures
        a == b,
{
    lemma_well_formed_is_parsed(a);
    lemma_well_formed_is_parsed(b);
}

} // verus!
