use cmdlang::lexer::{BracketKind, Span, Token, TokenKind};
use cmdlang::parser::{ParserError, ParserErrorKind};
use cmdlang::tree::{GroupKind, TokenTree, TokenTreeData};

fn leaf(kind: TokenKind, start: usize, text: &str) -> TokenTree<'_> {
    let span = Span::new(start, start + text.len());
    TokenTree { span, data: TokenTreeData::Token(Token { kind, span, view: text }) }
}

fn group(kind: GroupKind, start: usize, end: usize, body: Vec<TokenTree<'_>>) -> TokenTree<'_> {
    TokenTree { span: Span::new(start, end), data: TokenTreeData::Group(kind, body) }
}

fn depth_of(tree: &TokenTree<'_>) -> usize {
    match tree.data() {
        TokenTreeData::Token(_) => 0,
        TokenTreeData::Group(_, body) => 1 + body.iter().map(depth_of).max().unwrap_or(0),
    }
}

fn flatten_into<'a>(tree: &TokenTree<'a>, source: &'a str, out: &mut Vec<&'a str>) {
    match tree.data() {
        TokenTreeData::Token(token) => out.push(token.view()),
        TokenTreeData::Group(kind, body) => {
            if *kind != GroupKind::TopLevel {
                out.push(&source[tree.span().start()..tree.span().start() + 1]);
            }
            for child in body {
                flatten_into(child, source, out);
            }
            if *kind != GroupKind::TopLevel {
                out.push(&source[tree.span().end() - 1..tree.span().end()]);
            }
        }
    }
}

#[test]
fn group_kinds_follow_brackets() {
    assert_eq!(GroupKind::from_bracket(BracketKind::Curly), GroupKind::Batch);
    assert_eq!(GroupKind::from_bracket(BracketKind::Square), GroupKind::Inline);
    assert_eq!(GroupKind::Batch.into_bracket(), BracketKind::Curly);
    assert_eq!(GroupKind::Inline.into_bracket(), BracketKind::Square);
}

#[test]
fn empty_source_is_an_empty_top_level() {
    assert_eq!(TokenTree::from_source(""), Ok(group(GroupKind::TopLevel, 0, 1, vec![])));
    assert_eq!(TokenTree::try_from_source(""), Some(Ok(group(GroupKind::TopLevel, 0, 1, vec![]))));
}

#[test]
fn whitespace_and_comments_are_dropped() {
    assert_eq!(
        TokenTree::from_source(" a # b\n c "),
        Ok(group(
            GroupKind::TopLevel,
            0,
            10,
            vec![leaf(TokenKind::Identifier, 1, "a"), leaf(TokenKind::Identifier, 8, "c")]
        ))
    );
    assert_eq!(TokenTree::from_source("  # only\n"), Ok(group(GroupKind::TopLevel, 0, 9, vec![])));
}

#[test]
fn nesting_follows_the_brackets() {
    assert_eq!(
        TokenTree::from_source("{a [b c] {}} d"),
        Ok(group(
            GroupKind::TopLevel,
            0,
            14,
            vec![
                group(
                    GroupKind::Batch,
                    0,
                    12,
                    vec![
                        leaf(TokenKind::Identifier, 1, "a"),
                        group(
                            GroupKind::Inline,
                            3,
                            8,
                            vec![
                                leaf(TokenKind::Identifier, 4, "b"),
                                leaf(TokenKind::Identifier, 6, "c"),
                            ]
                        ),
                        group(GroupKind::Batch, 9, 11, vec![]),
                    ]
                ),
                leaf(TokenKind::Identifier, 13, "d"),
            ]
        ))
    );
}

#[test]
fn leaves_keep_their_tokens() {
    assert_eq!(
        TokenTree::from_source("x;12 \"s\" $"),
        Ok(group(
            GroupKind::TopLevel,
            0,
            10,
            vec![
                leaf(TokenKind::Identifier, 0, "x"),
                leaf(TokenKind::Semicolon, 1, ";"),
                leaf(TokenKind::Integer, 2, "12"),
                leaf(TokenKind::String, 5, "\"s\""),
                leaf(TokenKind::Unknown('$'), 9, "$"),
            ]
        ))
    );
}

#[test]
fn balanced_sources_have_trees_of_their_depth() {
    let cases: [(&str, usize); 7] = [
        ("", 1),
        ("a b", 1),
        ("{}", 2),
        ("[{}]", 3),
        ("{[{[]}]} {}", 5),
        ("a { b [ c ] d } e [ ] f", 3),
        ("{{{{{{{{}}}}}}}}", 9),
    ];
    for (source, depth) in cases {
        let tree = TokenTree::from_source(source).unwrap();
        assert_eq!(depth_of(&tree), depth);
        let mut flat = Vec::new();
        flatten_into(&tree, source, &mut flat);
        let expected: Vec<&str> = source.split_whitespace().flat_map(|word| {
            (0..word.len()).map(move |i| &word[i..i + 1])
        }).collect();
        assert_eq!(flat, expected);
    }
}

#[test]
fn unclosed_square_group_lacks_its_delimiter() {
    assert_eq!(
        TokenTree::from_source("[1 2"),
        Err(ParserError {
            span: Span::new(0, 1),
            kind: ParserErrorKind::ExpectedDelimiter(BracketKind::Square),
        })
    );
}

#[test]
fn innermost_open_group_is_named() {
    assert_eq!(
        TokenTree::from_source("a { b [ c"),
        Err(ParserError {
            span: Span::new(6, 7),
            kind: ParserErrorKind::ExpectedDelimiter(BracketKind::Square),
        })
    );
    assert_eq!(
        TokenTree::from_source("[ { } "),
        Err(ParserError {
            span: Span::new(0, 1),
            kind: ParserErrorKind::ExpectedDelimiter(BracketKind::Square),
        })
    );
    assert_eq!(
        TokenTree::from_source("{"),
        Err(ParserError {
            span: Span::new(0, 1),
            kind: ParserErrorKind::ExpectedDelimiter(BracketKind::Curly),
        })
    );
}

#[test]
fn wrong_closing_bracket_is_unexpected() {
    assert_eq!(
        TokenTree::from_source("a { b ]"),
        Err(ParserError {
            span: Span::new(2, 7),
            kind: ParserErrorKind::UnexpectedDelimiter(BracketKind::Square),
        })
    );
    assert_eq!(
        TokenTree::from_source("[}"),
        Err(ParserError {
            span: Span::new(0, 2),
            kind: ParserErrorKind::UnexpectedDelimiter(BracketKind::Curly),
        })
    );
}

#[test]
fn closing_bracket_at_top_level_is_unexpected() {
    assert_eq!(
        TokenTree::from_source("}"),
        Err(ParserError {
            span: Span::new(0, 1),
            kind: ParserErrorKind::UnexpectedDelimiter(BracketKind::Curly),
        })
    );
    assert_eq!(
        TokenTree::from_source("ab {} ]"),
        Err(ParserError {
            span: Span::new(0, 7),
            kind: ParserErrorKind::UnexpectedDelimiter(BracketKind::Square),
        })
    );
}

#[test]
fn closing_parenthesis_is_unexpected() {
    assert_eq!(
        TokenTree::from_source("a )"),
        Err(ParserError {
            span: Span::new(0, 3),
            kind: ParserErrorKind::UnexpectedDelimiter(BracketKind::Paren),
        })
    );
    assert_eq!(
        TokenTree::from_source("{ )"),
        Err(ParserError {
            span: Span::new(0, 3),
            kind: ParserErrorKind::UnexpectedDelimiter(BracketKind::Paren),
        })
    );
}

#[test]
fn first_mismatch_is_reported() {
    assert_eq!(
        TokenTree::from_source("{ ] [ }"),
        Err(ParserError {
            span: Span::new(0, 3),
            kind: ParserErrorKind::UnexpectedDelimiter(BracketKind::Square),
        })
    );
    assert_eq!(
        TokenTree::try_from_source("} ("),
        Some(Err(ParserError {
            span: Span::new(0, 1),
            kind: ParserErrorKind::UnexpectedDelimiter(BracketKind::Curly),
        }))
    );
}

#[test]
fn opening_parenthesis_is_reserved() {
    assert_eq!(TokenTree::try_from_source("(x)"), None);
    assert_eq!(TokenTree::try_from_source("a { ( } "), None);
    assert_eq!(TokenTree::try_from_source("(" ), None);
}

#[test]
fn brackets_inside_strings_and_comments_do_not_count() {
    assert_eq!(
        TokenTree::from_source("\"{\" # [\n"),
        Ok(group(GroupKind::TopLevel, 0, 8, vec![leaf(TokenKind::String, 0, "\"{\"")]))
    );
}

#[test]
fn tree_getters_return_the_fields() {
    let tree = TokenTree::from_source("{}").unwrap();
    assert_eq!(tree.span(), Span::new(0, 2));
    assert_eq!(
        tree.data(),
        &TokenTreeData::Group(GroupKind::TopLevel, vec![group(GroupKind::Batch, 0, 2, vec![])])
    );
}
