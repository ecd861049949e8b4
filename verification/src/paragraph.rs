//! The executable tree and its rendering as HTML.

use vstd::prelude::*;
use vstd::string::StringExecFns;
use crate::span::{Span, html_of_span, html_of_spans};

verus! {

/// One span of a paragraph.
#[derive(Debug, PartialEq)]
pub enum Text {
    Plain(String),
    Bold(Paragraph),
    Italics(Paragraph),
}

/// A sequence of spans: a whole paragraph, or what an emphasis holds.
#[derive(Debug, PartialEq)]
pub struct Paragraph {
    pub parts: Vec<Text>,
}

/// The span that `t` stands for.
pub open spec fn text_model(t: Text) -> Span
    decreases t, 0int,
{
    match t {
        Text::Plain(s) => Span::Plain(s@),
        Text::Bold(p) => Span::Bold(texts_model(p.parts@)),
        Text::Italics(p) => Span::Italic(texts_model(p.parts@)),
    }
}

/// The spans that `ts` stand for, in their order.
pub open spec fn texts_model(ts: Seq<Text>) -> Seq<Span>
    decreases ts, 1int,
{
    if ts.len() == 0 {
        Seq::empty()
    } else {
        texts_model(ts.drop_last()).push(text_model(ts.last()))
    }
}

impl View for Text {
    type V = Span;

    open spec fn view(&self) -> Span {
        text_model(*self)
    }
}

impl View for Paragraph {
    type V = Seq<Span>;

    open spec fn view(&self) -> Seq<Span> {
        texts_model(self.parts@)
    }
}

/// One more text at the end is one more span at the end.
pub proof fn lemma_texts_model_push(ts: Seq<Text>, t: Text)
    ensures
        texts_model(ts.push(t)) == texts_model(ts).push(text_model(t)),
{
    assert(ts.push(t).drop_last() =~= ts);
}

/// As many spans as texts, and each span is that of the text in its place.
pub proof fn lemma_texts_model_index(ts: Seq<Text>)
    ensures
        texts_model(ts).len() == ts.len(),
        forall|i: int| 0 <= i < ts.len() ==> texts_model(ts)[i] == text_model(#[trigger] ts[i]),
    decreases ts.len(),
{
    if ts.len() > 0 {
        lemma_texts_model_index(ts.drop_last());
        assert forall|i: int| 0 <= i < ts.len() implies texts_model(ts)[i] == text_model(
            #[trigger] ts[i],
        ) by {
            if i < ts.len() - 1 {
                assert(ts.drop_last()[i] == ts[i]);
            }
        }
    }
}

impl Paragraph {
    /// The paragraph made of `parts`.
    pub fn new(parts: Vec<Text>) -> (p: Paragraph)
        ensures
            p.parts == parts,
            p@ == texts_model(parts@),
    {
        Paragraph { parts }
    }

    /// The HTML of the paragraph: that of its spans, first to last, with
    /// plain text as it is, `<strong>` around bold and `<em>` around italic.
    /// It depends on the spans alone: the same paragraph gives the same HTML
    /// each time.
    pub fn to_html(&self) -> (html: String)
        ensures
            html@ == html_of_spans(self@),
        decreases self,
    {
        let mut html = String::new();
        let mut i: usize = 0;
        while i < self.parts.len()
            invariant
                i <= self.parts.len(),
                html@ == html_of_spans(texts_model(self.parts@.take(i as int))),
            decreases self.parts.len() - i,
        {
            proof {
                lemma_texts_model_push(self.parts@.take(i as int), self.parts@[i as int]);
                assert(self.parts@.take(i as int).push(self.parts@[i as int])
                    =~= self.parts@.take(i + 1));
                let done = texts_model(self.parts@.take(i + 1));
                assert(done.drop_last() =~= texts_model(self.parts@.take(i as int)));
            }
            let ghost before = html@;
            let ghost span = text_model(self.parts@[i as int]);
            match &self.parts[i] {
                Text::Plain(s) => {
                    html.append(s.as_str());
                },
                Text::Bold(p) => {
                    let inner = p.to_html();
                    html.append("<strong>");
                    html.append(inner.as_str());
                    html.append("</strong>");
                    assert(html@ =~= before + ("<strong>"@ + inner@ + "</strong>"@));
                },
                Text::Italics(p) => {
                    let inner = p.to_html();
                    html.append("<em>");
                    html.append(inner.as_str());
                    html.append("</em>");
                    assert(html@ =~= before + ("<em>"@ + inner@ + "</em>"@));
                },
            }
            assert(html@ == before + html_of_span(span));
            i += 1;
        }
        assert(self.parts@.take(i as int) =~= self.parts@);
        html
    }
}

} // verus!
