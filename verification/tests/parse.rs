use inline_markup::grammar::ParseError;
use inline_markup::paragraph::{Paragraph, Text};
use inline_markup::parser::{
    is_delimiter_char, parse_bold, parse_italics, parse_many, parse_many1, parse_paragraph,
    parse_plain, parse_span, to_chars,
};

fn plain(s: &str) -> Text {
    Text::Plain(s.to_string())
}

fn bold(parts: Vec<Text>) -> Text {
    Text::Bold(Paragraph::new(parts))
}

fn italics(parts: Vec<Text>) -> Text {
    Text::Italics(Paragraph::new(parts))
}

fn rest(input: &[char], from: usize) -> String {
    input[from..].iter().collect()
}

#[test]
fn test_plain_parse() {
    let input = to_chars("Hello *World*");
    match parse_plain(&input, 0) {
        Ok((output, end)) => {
            assert_eq!(rest(&input, end), "*World*");
            assert_eq!(output, Text::Plain("Hello ".to_string()));
        }
        Err(_) => panic!(r#" Plain parse failed with "Hello *World*" "#),
    }

    let input = to_chars("*Hello World*");
    match parse_plain(&input, 0) {
        Err(ParseError::NoSpanMatched) => (),
        _ => panic!(r#" Plain failed with "*Hello World*" "#),
    }
}

#[test]
fn test_bold_parse() {
    let input = to_chars("*Hello* World");
    match parse_bold(&input, 0) {
        Ok((output, end)) => {
            assert_eq!(rest(&input, end), " World");
            assert_eq!(output, Text::Bold(Paragraph::new(vec![Text::Plain("Hello".to_string())])));
        }
        Err(_) => panic!(r#" Bold failed with "*Hello* World" "#),
    }

    let input = to_chars("Hello World");
    match parse_bold(&input, 0) {
        Err(ParseError::NoSpanMatched) => (),
        _ => panic!(r#" Bold failed with "Hello World" "#),
    };

    let input = to_chars("*Hello World");
    match parse_bold(&input, 0) {
        Err(ParseError::UnterminatedSpan) => (),
        _ => panic!(r#" Bold failed with "*Hello World" "#),
    }
}

fn serious_tree() -> Vec<Text> {
    vec![
        plain("This "),
        bold(vec![plain("is "), italics(vec![plain("a")]), plain(" serious")]),
        plain(" "),
        italics(vec![plain("test "), bold(vec![plain("of")]), plain(" this")]),
        plain(" parser"),
    ]
}

#[test]
fn test_paragraph_parse() {
    let data = "This *is _a_ serious* _test *of* this_ parser";
    let input = to_chars(data);
    match parse_many1(&input, 0, None) {
        Ok((parts, end)) => {
            assert_eq!(rest(&input, end), "");
            println!("{:#?}", parts);
            assert_eq!(parts, serious_tree());
        }
        Err(_) => panic!("Parse failed"),
    }
    let output = parse_paragraph(data).unwrap();
    assert_eq!(output.parts, serious_tree());
}

#[test]
fn chars_are_kept_in_order() {
    assert_eq!(to_chars(""), Vec::<char>::new());
    assert_eq!(to_chars("a*b"), vec!['a', '*', 'b']);
    assert_eq!(to_chars("é_ü"), vec!['é', '_', 'ü']);
}

#[test]
fn delimiters_are_star_and_underscore() {
    assert!(is_delimiter_char('*'));
    assert!(is_delimiter_char('_'));
    assert!(!is_delimiter_char('a'));
    assert!(!is_delimiter_char(' '));
    assert!(!is_delimiter_char('\\'));
}

#[test]
fn plain_text_holds_every_character_of_its_run() {
    let input = to_chars("ab_");
    assert_eq!(parse_plain(&input, 0), Ok((plain("ab"), 2)));
    assert_eq!(parse_plain(&input, 1), Ok((plain("b"), 2)));
    assert_eq!(parse_plain(&input, 2), Err(ParseError::NoSpanMatched));
    assert_eq!(parse_plain(&input, 3), Err(ParseError::NoSpanMatched));
    assert_eq!(parse_plain(&input, 9), Err(ParseError::NoSpanMatched));
}

#[test]
fn plain_text_may_hold_any_other_character() {
    let input = to_chars("grüße <b> & \\ 1*");
    assert_eq!(parse_plain(&input, 0), Ok((plain("grüße <b> & \\ 1"), 15)));
}

#[test]
fn italics_parse() {
    let input = to_chars("_Hello_ World");
    assert_eq!(parse_italics(&input, 0), Ok((italics(vec![plain("Hello")]), 7)));
    let input = to_chars("*Hello* World");
    assert_eq!(parse_italics(&input, 0), Err(ParseError::NoSpanMatched));
    let input = to_chars("_Hello World");
    assert_eq!(parse_italics(&input, 0), Err(ParseError::UnterminatedSpan));
}

#[test]
fn span_is_bold_then_italic_then_plain() {
    let input = to_chars("*a*_b_c");
    assert_eq!(parse_span(&input, 0), Ok((bold(vec![plain("a")]), 3)));
    assert_eq!(parse_span(&input, 3), Ok((italics(vec![plain("b")]), 6)));
    assert_eq!(parse_span(&input, 6), Ok((plain("c"), 7)));
    assert_eq!(parse_span(&input, 7), Err(ParseError::NoSpanMatched));
}

#[test]
fn many_stops_at_the_closer() {
    let input = to_chars("a_b_*c");
    assert_eq!(
        parse_many(&input, 0, Some('*')),
        Ok((vec![plain("a"), italics(vec![plain("b")])], 4))
    );
    assert_eq!(parse_many(&input, 4, Some('*')), Ok((vec![], 4)));
    assert_eq!(parse_many1(&input, 4, Some('*')), Err(ParseError::NoSpanMatched));
    assert_eq!(parse_many(&input, 6, None), Ok((vec![], 6)));
    assert_eq!(parse_many(&input, 4, None), Err(ParseError::UnterminatedSpan));
}

#[test]
fn many_stops_before_an_empty_emphasis() {
    let input = to_chars("a**b");
    assert_eq!(parse_many(&input, 0, None), Ok((vec![plain("a")], 1)));
    assert_eq!(parse_many1(&input, 0, None), Ok((vec![plain("a")], 1)));
    assert_eq!(parse_many1(&input, 1, None), Err(ParseError::NoSpanMatched));
}

#[test]
fn unterminated_span_fails() {
    assert_eq!(parse_paragraph("*unterminated"), Err(ParseError::UnterminatedSpan));
    assert_eq!(parse_paragraph("_unterminated"), Err(ParseError::UnterminatedSpan));
    assert_eq!(parse_paragraph("a *b"), Err(ParseError::UnterminatedSpan));
    assert_eq!(parse_paragraph("*"), Err(ParseError::UnterminatedSpan));
    assert_eq!(parse_paragraph("a_"), Err(ParseError::UnterminatedSpan));
}

#[test]
fn mismatched_delimiters_fail_as_unterminated() {
    assert_eq!(parse_paragraph("*a _b* c_"), Err(ParseError::UnterminatedSpan));
    assert_eq!(parse_paragraph("_a *b_ c*"), Err(ParseError::UnterminatedSpan));
    assert_eq!(parse_paragraph("*a__b*"), Err(ParseError::UnterminatedSpan));
}

#[test]
fn empty_input_matches_no_span() {
    assert_eq!(parse_paragraph(""), Err(ParseError::NoSpanMatched));
}

#[test]
fn empty_emphasis_matches_no_span() {
    assert_eq!(parse_paragraph("**"), Err(ParseError::NoSpanMatched));
    assert_eq!(parse_paragraph("__"), Err(ParseError::NoSpanMatched));
    assert_eq!(parse_paragraph("**a"), Err(ParseError::NoSpanMatched));
    assert_eq!(parse_paragraph("*__*"), Err(ParseError::NoSpanMatched));
}

#[test]
fn text_after_the_last_span_is_trailing_input() {
    assert_eq!(parse_paragraph("a**"), Err(ParseError::TrailingInput));
    assert_eq!(parse_paragraph("*a*__b"), Err(ParseError::TrailingInput));
}

#[test]
fn adjacent_spans_stay_siblings() {
    assert_eq!(
        parse_paragraph("*a* *b*").unwrap().parts,
        vec![bold(vec![plain("a")]), plain(" "), bold(vec![plain("b")])]
    );
    assert_eq!(
        parse_paragraph("*a**b*").unwrap().parts,
        vec![bold(vec![plain("a")]), bold(vec![plain("b")])]
    );
    assert_eq!(
        parse_paragraph("*a*b*c*").unwrap().parts,
        vec![bold(vec![plain("a")]), plain("b"), bold(vec![plain("c")])]
    );
}

#[test]
fn emphasis_nests_through_the_other_kind() {
    assert_eq!(
        parse_paragraph("*a _b *c* d_ e*").unwrap().parts,
        vec![bold(vec![
            plain("a "),
            italics(vec![plain("b "), bold(vec![plain("c")]), plain(" d")]),
            plain(" e"),
        ])]
    );
    assert_eq!(
        parse_paragraph("_*a*_").unwrap().parts,
        vec![italics(vec![bold(vec![plain("a")])])]
    );
}

fn source_of(parts: &[Text], out: &mut String) {
    for part in parts {
        match part {
            Text::Plain(s) => out.push_str(s),
            Text::Bold(p) => {
                out.push('*');
                source_of(&p.parts, out);
                out.push('*');
            }
            Text::Italics(p) => {
                out.push('_');
                source_of(&p.parts, out);
                out.push('_');
            }
        }
    }
}

#[test]
fn leaves_and_delimiters_give_the_input_back() {
    for input in [
        "no markup here",
        "*a _b_ c*",
        "*This* is *a test*",
        "This *is _a_ serious* _test *of* this_ parser",
        "_ä_*ö*ü",
    ] {
        let paragraph = parse_paragraph(input).unwrap();
        let mut written = String::new();
        source_of(&paragraph.parts, &mut written);
        assert_eq!(written, input);
    }
}
