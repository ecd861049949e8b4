use inline_markup::document::{parse_document, Document};
use inline_markup::grammar::ParseError;
use inline_markup::paragraph::{Paragraph, Text};
use inline_markup::parser::parse_paragraph;

#[test]
fn test_html1() {
    let p = Paragraph::new(vec![
        Text::Plain("plaintext ".to_string()),
        Text::Bold(Paragraph::new(vec![Text::Plain("bold text".to_string())])),
    ]);

    assert!(p.to_html() == "plaintext <strong>bold text</strong>".to_owned());
}

#[test]
fn test_integration() {
    let data = "This *is _a_ serious* _test *of* this_ parser";
    if let Ok(p) = parse_paragraph(data) {
        assert_eq!(
            p.to_html(),
            "This <strong>is <em>a</em> serious</strong> <em>test <strong>of</strong> this</em> parser"
        );
    } else {
        panic!("Parse failed");
    }
}

#[test]
fn nesting_is_rendered_inside_out() {
    assert_eq!(
        parse_paragraph("*a _b_ c*").unwrap().to_html(),
        "<strong>a <em>b</em> c</strong>"
    );
}

#[test]
fn adjacent_spans_are_rendered_apart() {
    assert_eq!(
        parse_paragraph("*This* is *a test*").unwrap().to_html(),
        "<strong>This</strong> is <strong>a test</strong>"
    );
}

#[test]
fn plain_text_passes_through() {
    assert_eq!(parse_paragraph("no markup here").unwrap().to_html(), "no markup here");
}

#[test]
fn plain_text_is_not_escaped() {
    assert_eq!(parse_paragraph("a < b & c").unwrap().to_html(), "a < b & c");
    assert_eq!(parse_paragraph("_<b>_").unwrap().to_html(), "<em><b></em>");
}

#[test]
fn rendering_twice_gives_the_same() {
    let p = parse_paragraph("_x_ *y _z_*").unwrap();
    let first = p.to_html();
    let second = p.to_html();
    assert_eq!(first, second);
    assert_eq!(first, "<em>x</em> <strong>y <em>z</em></strong>");
}

#[test]
fn empty_children_render_as_empty_tags() {
    let p = Paragraph::new(vec![
        Text::Bold(Paragraph::new(vec![])),
        Text::Italics(Paragraph::new(vec![])),
    ]);
    assert_eq!(p.to_html(), "<strong></strong><em></em>");
    assert_eq!(Paragraph::new(vec![]).to_html(), "");
}

#[test]
fn document_renders_its_paragraph() {
    let doc = Document::new("Hello *World*");
    assert_eq!(doc.to_html(), "Hello <strong>World</strong>");
}

#[test]
fn document_parse_reports_the_error() {
    assert!(matches!(parse_document(""), Err(ParseError::NoSpanMatched)));
    assert!(matches!(parse_document("*a"), Err(ParseError::UnterminatedSpan)));
    assert!(matches!(parse_document("a__"), Err(ParseError::TrailingInput)));
    let doc = parse_document("_a_").ok().unwrap();
    assert_eq!(doc.to_html(), "<em>a</em>");
}
