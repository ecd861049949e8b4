//! A document: paragraphs, one after the other.

use vstd::prelude::*;
use vstd::string::StringExecFns;
use crate::grammar::{ParseError, spec_paragraph};
use crate::laws::is_markup;
use crate::paragraph::Paragraph;
use crate::parser::parse_paragraph;
use crate::span::{Span, html_of_spans, source_of_spans, wf_spans};

verus! {

/// One block of a document.
pub enum DocPart {
    Paragraph(Paragraph),
}

/// A sequence of blocks.
pub struct Document {
    content: Vec<DocPart>,
}

/// The spans of the paragraph that a block is.
pub open spec fn part_model(part: DocPart) -> Seq<Span> {
    match part {
        DocPart::Paragraph(p) => p@,
    }
}

/// The HTML of a sequence of paragraphs: theirs, one after the other.
pub open spec fn html_of_paragraphs(ps: Seq<Seq<Span>>) -> Seq<char>
    decreases ps.len(),
{
    if ps.len() == 0 {
        Seq::empty()
    } else {
        html_of_paragraphs(ps.drop_last()) + html_of_spans(ps.last())
    }
}

impl View for Document {
    type V = Seq<Seq<Span>>;

    closed spec fn view(&self) -> Seq<Seq<Span>> {
        Seq::new(self.content@.len(), |i: int| part_model(self.content@[i]))
    }
}

/// The document that `text` is: its one paragraph, where it is one.
pub fn parse_document(text: &str) -> (res: Result<Document, ParseError>)
    ensures
        match res {
            Ok(doc) => spec_paragraph(text@) == Ok::<Seq<Span>, ParseError>(doc@[0]) && doc@.len()
                == 1,
            Err(e) => spec_paragraph(text@) == Err::<Seq<Span>, ParseError>(e),
        },
        res matches Ok(doc) ==> wf_spans(doc@[0]) && source_of_spans(doc@[0]) == text@,
        res is Ok <==> is_markup(text@),
{
    match parse_paragraph(text) {
        Ok(p) => {
            let mut content: Vec<DocPart> = Vec::new();
            content.push(DocPart::Paragraph(p));
            Ok(Document { content })
        },
        Err(e) => Err(e),
    }
}

impl Document {
    /// The document that `text` is. The text must be the markup of a
    /// paragraph; [`parse_document`] takes any text.
    pub fn new(text: &str) -> (doc: Document)
        requires
            is_markup(text@),
        ensures
            doc@ == seq![spec_paragraph(text@)->Ok_0],
            wf_spans(doc@[0]),
            source_of_spans(doc@[0]) == text@,
    {
        match parse_document(text) {
            Ok(doc) => {
                assert(doc@ =~= seq![doc@[0]]);
                doc
            },
            Err(_) => Document { content: Vec::new() },
        }
    }

    /// The HTML of the document: that of its paragraphs, first to last.
    pub fn to_html(&self) -> (html: String)
        ensures
            html@ == html_of_paragraphs(self@),
    {
        let mut html = String::new();
        let mut i: usize = 0;
        while i < self.content.len()
            invariant
                i <= self.content.len(),
                html@ == html_of_paragraphs(self@.take(i as int)),
            decreases self.content.len() - i,
        {
            assert(self@.take(i + 1).drop_last() =~= self@.take(i as int));
            match &self.content[i] {
                DocPart::Paragraph(p) => {
                    let inner = p.to_html();
                    html.append(inner.as_str());
                },
            }
            i += 1;
        }
        assert(self@.take(i as int) =~= self@);
        html
    }
}

} // verus!
