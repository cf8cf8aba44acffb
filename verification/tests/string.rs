use cmdlang::lexer::{Span, Token, TokenKind};
use cmdlang::parser::{ParserError, ParserErrorKind};
use cmdlang::string::parse_string;

fn literal(start: usize, text: &str) -> Token<'_> {
    Token { kind: TokenKind::String, span: Span::new(start, start + text.len()), view: text }
}

#[test]
fn plain_text_passes_through() {
    assert_eq!(parse_string(literal(0, "\"abc\"")), Ok("abc".to_string()));
    assert_eq!(parse_string(literal(0, "\"\"")), Ok(String::new()));
    assert_eq!(parse_string(literal(3, "\"h\u{e9} \u{2192}!\"")), Ok("h\u{e9} \u{2192}!".to_string()));
}

#[test]
fn each_escape_has_its_character() {
    assert_eq!(parse_string(literal(0, "\"\\n\"")), Ok("\n".to_string()));
    assert_eq!(parse_string(literal(0, "\"\\r\"")), Ok("\r".to_string()));
    assert_eq!(parse_string(literal(0, "\"\\t\"")), Ok("\t".to_string()));
    assert_eq!(parse_string(literal(0, "\"\\\"\"")), Ok("\"".to_string()));
    assert_eq!(
        parse_string(literal(0, "\"a\\tb\\nc\\rd\\\"e\"")),
        Ok("a\tb\nc\rd\"e".to_string())
    );
}

#[test]
fn hi_and_a_newline() {
    assert_eq!(parse_string(literal(5, "\"hi\\n\"")), Ok("hi\n".to_string()));
}

#[test]
fn missing_closing_quote_is_unclosed() {
    assert_eq!(
        parse_string(literal(0, "\"abc")),
        Err(ParserError { span: Span::new(0, 4), kind: ParserErrorKind::UnclosedString })
    );
    assert_eq!(
        parse_string(literal(7, "\"abc")),
        Err(ParserError { span: Span::new(7, 11), kind: ParserErrorKind::UnclosedString })
    );
}

#[test]
fn lone_quote_is_unclosed() {
    assert_eq!(
        parse_string(literal(2, "\"")),
        Err(ParserError { span: Span::new(2, 3), kind: ParserErrorKind::UnclosedString })
    );
}

#[test]
fn backslash_before_the_last_quote_is_unclosed() {
    assert_eq!(
        parse_string(literal(0, "\"a\\\"")),
        Err(ParserError { span: Span::new(2, 3), kind: ParserErrorKind::UnclosedString })
    );
    assert_eq!(
        parse_string(literal(10, "\"\u{e9}\\\"")),
        Err(ParserError { span: Span::new(13, 14), kind: ParserErrorKind::UnclosedString })
    );
}

#[test]
fn unknown_escape_is_invalid_at_its_character() {
    assert_eq!(
        parse_string(literal(0, "\"a\\q\"")),
        Err(ParserError { span: Span::new(3, 4), kind: ParserErrorKind::InvalidEscapeSequence })
    );
    assert_eq!(
        parse_string(literal(5, "\"a\\q\"")),
        Err(ParserError { span: Span::new(8, 9), kind: ParserErrorKind::InvalidEscapeSequence })
    );
    assert_eq!(
        parse_string(literal(0, "\"\\\\\"")),
        Err(ParserError { span: Span::new(2, 3), kind: ParserErrorKind::InvalidEscapeSequence })
    );
    assert_eq!(
        parse_string(literal(0, "\"\u{e9}\\\u{2192}x\"")),
        Err(ParserError { span: Span::new(4, 7), kind: ParserErrorKind::InvalidEscapeSequence })
    );
}

#[test]
fn first_fault_wins() {
    assert_eq!(
        parse_string(literal(0, "\"\\q\\\"")),
        Err(ParserError { span: Span::new(2, 3), kind: ParserErrorKind::InvalidEscapeSequence })
    );
    assert_eq!(
        parse_string(literal(0, "\"\\n\\z\\q\"")),
        Err(ParserError { span: Span::new(4, 5), kind: ParserErrorKind::InvalidEscapeSequence })
    );
}

#[test]
fn bare_quote_inside_passes_through() {
    assert_eq!(parse_string(literal(0, "\"a\"b\"")), Ok("a\"b".to_string()));
}
