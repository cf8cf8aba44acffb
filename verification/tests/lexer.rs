use cmdlang::lexer::{
    classify, extends, punctuation, BracketKind, Lexer, Span, Token, TokenKind,
};

fn scan_all(source: &str) -> Vec<Token<'_>> {
    let mut lexer = Lexer::from_source(source);
    let mut tokens = Vec::new();
    while let Some(token) = lexer.next() {
        tokens.push(token);
    }
    tokens
}

fn kinds_of(source: &str) -> Vec<TokenKind> {
    scan_all(source).iter().map(|token| token.kind()).collect()
}

fn texts_of(source: &str) -> Vec<&str> {
    scan_all(source).iter().map(|token| token.view()).collect()
}

const SAMPLES: [&str; 12] = [
    "",
    "a;b;c",
    "{}",
    "echo \"hi\\n\"",
    "[1 2",
    "(x)",
    "\"abc",
    "\"a\\q\"",
    "foo 12 # c\n\"s\" {}[]();$",
    "h\u{e9}llo w\u{f6}rld \u{2192} \u{1f600}\n# caf\u{e9}\n\"\u{e9}\\\"\" 7",
    "  \t\r\n  _x9 0012abc \"unterminated \\",
    "\"\\",
];

#[test]
fn span_new_keeps_both_ends() {
    let span = Span::new(3, 8);
    assert_eq!(span.start(), 3);
    assert_eq!(span.end(), 8);
    assert_eq!(span, Span { start: 3, end: 8 });
}

#[test]
fn span_starting_at_covers_one_byte() {
    assert_eq!(Span::starting_at(0), Span::new(0, 1));
    assert_eq!(Span::starting_at(41), Span::new(41, 42));
}

#[test]
fn span_extend_to_includes_the_position() {
    let mut span = Span::starting_at(2);
    span.extend_to(6);
    assert_eq!(span, Span::new(2, 7));
    span.extend_to(2);
    assert_eq!(span, Span::new(2, 3));
}

#[test]
fn span_as_range_is_half_open() {
    assert_eq!(Span::new(2, 5).as_range(), 2..5);
    assert_eq!(&"abcdefg"[Span::new(2, 5).as_range()], "cde");
}

#[test]
fn span_join_runs_from_first_start_to_second_end() {
    assert_eq!(Span::new(1, 3).join(Span::new(4, 9)), Span::new(1, 9));
    assert_eq!(Span::new(1, 3).join(Span::new(0, 2)), Span::new(1, 2));
}

#[test]
fn empty_source_has_no_tokens() {
    let mut lexer = Lexer::from_source("");
    assert_eq!(lexer.peek(), None);
    assert_eq!(lexer.next(), None);
    assert_eq!(lexer.next(), None);
    assert_eq!(lexer.source(), "");
}

#[test]
fn every_rule_gives_its_kind() {
    assert_eq!(
        kinds_of("foo 12 # c\n\"s\" {}[]();$"),
        vec![
            TokenKind::Identifier,
            TokenKind::Whitespace,
            TokenKind::Integer,
            TokenKind::Whitespace,
            TokenKind::Comment,
            TokenKind::Whitespace,
            TokenKind::String,
            TokenKind::Whitespace,
            TokenKind::Open(BracketKind::Curly),
            TokenKind::Close(BracketKind::Curly),
            TokenKind::Open(BracketKind::Square),
            TokenKind::Close(BracketKind::Square),
            TokenKind::Open(BracketKind::Paren),
            TokenKind::Close(BracketKind::Paren),
            TokenKind::Semicolon,
            TokenKind::Unknown('$'),
        ]
    );
    assert_eq!(
        texts_of("foo 12 # c\n\"s\" {}[]();$"),
        vec!["foo", " ", "12", " ", "# c", "\n", "\"s\"", " ", "{", "}", "[", "]", "(", ")", ";", "$"]
    );
}

#[test]
fn last_token_is_handed_out() {
    let tokens = scan_all("a;b;c");
    assert_eq!(tokens.len(), 5);
    assert_eq!(
        tokens[4],
        Token { kind: TokenKind::Identifier, span: Span::new(4, 5), view: "c" }
    );
}

#[test]
fn peek_does_not_consume() {
    let mut lexer = Lexer::from_source("ab 1");
    let first = Token { kind: TokenKind::Identifier, span: Span::new(0, 2), view: "ab" };
    assert_eq!(lexer.peek(), Some(first));
    assert_eq!(lexer.peek(), Some(first));
    assert_eq!(lexer.next(), Some(first));
    let second = Token { kind: TokenKind::Whitespace, span: Span::new(2, 3), view: " " };
    assert_eq!(lexer.peek(), Some(second));
    assert_eq!(lexer.next(), Some(second));
    let third = Token { kind: TokenKind::Integer, span: Span::new(3, 4), view: "1" };
    assert_eq!(lexer.next(), Some(third));
    assert_eq!(lexer.peek(), None);
    assert_eq!(lexer.next(), None);
    assert_eq!(lexer.source(), "ab 1");
}

#[test]
fn spans_count_bytes() {
    let tokens = scan_all("\u{e9} x\u{2192}");
    assert_eq!(
        tokens,
        vec![
            Token { kind: TokenKind::Identifier, span: Span::new(0, 2), view: "\u{e9}" },
            Token { kind: TokenKind::Whitespace, span: Span::new(2, 3), view: " " },
            Token { kind: TokenKind::Identifier, span: Span::new(3, 4), view: "x" },
            Token { kind: TokenKind::Unknown('\u{2192}'), span: Span::new(4, 7), view: "\u{2192}" },
        ]
    );
}

#[test]
fn identifier_takes_letters_digits_and_underscores() {
    assert_eq!(texts_of("_a1 b2c"), vec!["_a1", " ", "b2c"]);
    assert_eq!(
        kinds_of("_a1 b2c"),
        vec![TokenKind::Identifier, TokenKind::Whitespace, TokenKind::Identifier]
    );
    assert_eq!(texts_of("x\u{663}y"), vec!["x\u{663}y"]);
}

#[test]
fn integer_stops_at_the_first_non_digit() {
    assert_eq!(texts_of("12ab"), vec!["12", "ab"]);
    assert_eq!(kinds_of("12ab"), vec![TokenKind::Integer, TokenKind::Identifier]);
    assert_eq!(texts_of("0012"), vec!["0012"]);
    assert_eq!(kinds_of("\u{663}"), vec![TokenKind::Unknown('\u{663}')]);
}

#[test]
fn whitespace_is_one_run() {
    assert_eq!(texts_of(" \t\r\n\u{a0} x"), vec![" \t\r\n\u{a0} ", "x"]);
}

#[test]
fn comment_stops_before_the_newline() {
    assert_eq!(texts_of("# a b\nc"), vec!["# a b", "\n", "c"]);
    assert_eq!(
        kinds_of("# a b\nc"),
        vec![TokenKind::Comment, TokenKind::Whitespace, TokenKind::Identifier]
    );
    assert_eq!(texts_of("#x"), vec!["#x"]);
    assert_eq!(texts_of("#"), vec!["#"]);
}

#[test]
fn string_ends_at_the_first_bare_quote() {
    assert_eq!(texts_of("\"ab\"cd"), vec!["\"ab\"", "cd"]);
    assert_eq!(texts_of("\"a\\\"b\" c"), vec!["\"a\\\"b\"", " ", "c"]);
    assert_eq!(texts_of("\"a\\\\\"b"), vec!["\"a\\\\\"", "b"]);
    assert_eq!(texts_of("\"\"\"\""), vec!["\"\"", "\"\""]);
}

#[test]
fn unterminated_string_runs_to_the_end() {
    assert_eq!(
        scan_all("x \"abc"),
        vec![
            Token { kind: TokenKind::Identifier, span: Span::new(0, 1), view: "x" },
            Token { kind: TokenKind::Whitespace, span: Span::new(1, 2), view: " " },
            Token { kind: TokenKind::String, span: Span::new(2, 6), view: "\"abc" },
        ]
    );
    assert_eq!(texts_of("\"a\\"), vec!["\"a\\"]);
    assert_eq!(texts_of("\"a\\\""), vec!["\"a\\\""]);
    assert_eq!(texts_of("\""), vec!["\""]);
}

#[test]
fn token_texts_make_up_the_source() {
    for source in SAMPLES {
        let mut joined = String::new();
        for token in scan_all(source) {
            joined.push_str(token.view());
        }
        assert_eq!(joined, source);
    }
}

#[test]
fn token_spans_lie_end_to_end() {
    for source in SAMPLES {
        let mut position = 0;
        for token in scan_all(source) {
            assert_eq!(token.span().start(), position);
            assert!(token.span().start() < token.span().end());
            assert_eq!(&source[token.span().as_range()], token.view());
            position = token.span().end();
        }
        assert_eq!(position, source.len());
    }
}

#[test]
fn scanning_a_token_again_gives_it_back() {
    for source in SAMPLES {
        for token in scan_all(source) {
            let again = scan_all(token.view());
            assert_eq!(again.len(), 1);
            assert_eq!(again[0].kind(), token.kind());
            assert_eq!(again[0].view(), token.view());
            assert_eq!(again[0].span(), Span::new(0, token.view().len()));
        }
    }
}

#[test]
fn line_and_column_count_characters() {
    let lexer = Lexer::from_source("ab\ncd\n\ne");
    assert_eq!(lexer.resolve_line_col(Span::new(0, 1)), (1, 1));
    assert_eq!(lexer.resolve_line_col(Span::new(1, 2)), (1, 2));
    assert_eq!(lexer.resolve_line_col(Span::new(2, 3)), (1, 3));
    assert_eq!(lexer.resolve_line_col(Span::new(3, 4)), (2, 1));
    assert_eq!(lexer.resolve_line_col(Span::new(4, 5)), (2, 2));
    assert_eq!(lexer.resolve_line_col(Span::new(6, 7)), (3, 1));
    assert_eq!(lexer.resolve_line_col(Span::new(7, 8)), (4, 1));
    assert_eq!(lexer.resolve_line_col(Span::new(8, 9)), (4, 2));
    assert_eq!(lexer.resolve_line_col(Span::new(100, 101)), (4, 2));
}

#[test]
fn line_and_column_of_text_that_is_not_ascii() {
    let lexer = Lexer::from_source("\u{e9}\u{e9}\nx");
    assert_eq!(lexer.resolve_line_col(Span::new(0, 2)), (1, 1));
    assert_eq!(lexer.resolve_line_col(Span::new(1, 2)), (1, 2));
    assert_eq!(lexer.resolve_line_col(Span::new(2, 4)), (1, 2));
    assert_eq!(lexer.resolve_line_col(Span::new(4, 5)), (1, 3));
    assert_eq!(lexer.resolve_line_col(Span::new(5, 6)), (2, 1));
}

#[test]
fn token_getters_return_the_fields() {
    let token = Token { kind: TokenKind::Integer, span: Span::new(5, 7), view: "42" };
    assert_eq!(token.kind(), TokenKind::Integer);
    assert_eq!(token.span(), Span::new(5, 7));
    assert_eq!(token.view(), "42");
}

#[test]
fn classify_tries_the_rules_in_order() {
    assert_eq!(classify('a', true, false), TokenKind::Identifier);
    assert_eq!(classify('_', false, false), TokenKind::Identifier);
    assert_eq!(classify(' ', true, true), TokenKind::Identifier);
    assert_eq!(classify(' ', false, true), TokenKind::Whitespace);
    assert_eq!(classify('7', false, true), TokenKind::Whitespace);
    assert_eq!(classify('7', false, false), TokenKind::Integer);
    assert_eq!(classify('0', false, false), TokenKind::Integer);
    assert_eq!(classify('9', false, false), TokenKind::Integer);
    assert_eq!(classify('#', false, false), TokenKind::Comment);
    assert_eq!(classify('"', false, false), TokenKind::String);
    assert_eq!(classify('{', false, false), TokenKind::Open(BracketKind::Curly));
    assert_eq!(classify(';', false, false), TokenKind::Semicolon);
    assert_eq!(classify('/', false, false), TokenKind::Unknown('/'));
    assert_eq!(classify(':', false, false), TokenKind::Unknown(':'));
    assert_eq!(classify('a', false, false), TokenKind::Unknown('a'));
}

#[test]
fn punctuation_names_brackets_and_the_semicolon() {
    assert_eq!(punctuation('('), TokenKind::Open(BracketKind::Paren));
    assert_eq!(punctuation(')'), TokenKind::Close(BracketKind::Paren));
    assert_eq!(punctuation('['), TokenKind::Open(BracketKind::Square));
    assert_eq!(punctuation(']'), TokenKind::Close(BracketKind::Square));
    assert_eq!(punctuation('{'), TokenKind::Open(BracketKind::Curly));
    assert_eq!(punctuation('}'), TokenKind::Close(BracketKind::Curly));
    assert_eq!(punctuation(';'), TokenKind::Semicolon);
    assert_eq!(punctuation('$'), TokenKind::Unknown('$'));
}

#[test]
fn identifier_characters_follow_the_answers() {
    assert!(Lexer::ident_start('x', true));
    assert!(Lexer::ident_start('_', false));
    assert!(!Lexer::ident_start('1', false));
    assert!(Lexer::ident_body('1', false, true));
    assert!(Lexer::ident_body('_', false, false));
    assert!(Lexer::ident_body('x', true, false));
    assert!(!Lexer::ident_body('-', false, false));
}

#[test]
fn extends_follows_the_kind() {
    assert!(extends(TokenKind::Identifier, '1', false, true, false));
    assert!(extends(TokenKind::Identifier, '_', false, false, false));
    assert!(!extends(TokenKind::Identifier, ' ', false, false, true));
    assert!(extends(TokenKind::Whitespace, ' ', false, false, true));
    assert!(!extends(TokenKind::Whitespace, 'a', true, true, false));
    assert!(extends(TokenKind::Integer, '5', false, true, false));
    assert!(!extends(TokenKind::Integer, 'a', true, true, false));
    assert!(!extends(TokenKind::Integer, '\u{663}', false, true, false));
    assert!(extends(TokenKind::Comment, ' ', false, false, true));
    assert!(extends(TokenKind::Comment, '#', false, false, false));
    assert!(!extends(TokenKind::Comment, '\n', false, false, true));
    assert!(!extends(TokenKind::String, 'a', true, true, false));
    assert!(!extends(TokenKind::Semicolon, ';', false, false, false));
    assert!(!extends(TokenKind::Unknown('$'), '$', false, false, false));
}
