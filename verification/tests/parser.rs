use cmdlang::lexer::{BracketKind, Span};
use cmdlang::parser::{
    parse, parse_atom, parse_group, try_parse, try_parse_atom, try_parse_group, Atom, AtomData,
    BatchKind, Command, ParserError, ParserErrorKind,
};
use cmdlang::tree::{TokenTree, TokenTreeData};

fn ident(name: &str, start: usize) -> Atom {
    Atom { data: AtomData::Identifier(name.to_string()), span: Span::new(start, start + name.len()) }
}

fn number(value: u64, start: usize, end: usize) -> Atom {
    Atom { data: AtomData::Number(value), span: Span::new(start, end) }
}

fn text(value: &str, start: usize, end: usize) -> Atom {
    Atom { data: AtomData::String(value.to_string()), span: Span::new(start, end) }
}

fn command(data: Vec<Atom>, start: usize, end: usize) -> Command {
    Command { data, span: Span::new(start, end) }
}

fn batch(body: Vec<Command>, start: usize, end: usize) -> Atom {
    Atom { data: AtomData::Batch(body), span: Span::new(start, end) }
}

fn inline(body: Vec<Command>, start: usize, end: usize) -> Atom {
    Atom { data: AtomData::Inline(body), span: Span::new(start, end) }
}

#[test]
fn three_commands_of_one_identifier() {
    assert_eq!(
        parse("a;b;c"),
        Ok(batch(
            vec![
                command(vec![ident("a", 0)], 0, 2),
                command(vec![ident("b", 2)], 2, 4),
                command(vec![ident("c", 4)], 4, 5),
            ],
            0,
            5
        ))
    );
}

#[test]
fn empty_batch_holds_one_empty_command() {
    assert_eq!(
        parse("{}"),
        Ok(batch(
            vec![command(vec![batch(vec![command(vec![], 1, 2)], 0, 2)], 0, 2)],
            0,
            2
        ))
    );
}

#[test]
fn echo_with_a_decoded_string() {
    assert_eq!(
        parse("echo \"hi\\n\""),
        Ok(batch(vec![command(vec![ident("echo", 0), text("hi\n", 5, 11)], 0, 11)], 0, 11))
    );
}

#[test]
fn unclosed_square_group_fails() {
    assert_eq!(
        parse("[1 2"),
        Err(ParserError {
            span: Span::new(0, 1),
            kind: ParserErrorKind::ExpectedDelimiter(BracketKind::Square),
        })
    );
}

#[test]
fn parenthesized_group_is_not_parsed() {
    assert_eq!(try_parse("(x)"), None);
    assert_eq!(try_parse("a; (b c)"), None);
    assert_eq!(try_parse("{ ( }"), None);
}

#[test]
fn string_without_closing_quote_fails() {
    assert_eq!(
        parse("\"abc"),
        Err(ParserError { span: Span::new(0, 4), kind: ParserErrorKind::UnclosedString })
    );
    assert_eq!(
        parse("x \""),
        Err(ParserError { span: Span::new(2, 3), kind: ParserErrorKind::UnclosedString })
    );
    assert_eq!(
        parse("x \"a\\\""),
        Err(ParserError { span: Span::new(4, 5), kind: ParserErrorKind::UnclosedString })
    );
}

#[test]
fn invalid_escape_fails_at_its_character() {
    assert_eq!(
        parse("\"a\\q\""),
        Err(ParserError { span: Span::new(3, 4), kind: ParserErrorKind::InvalidEscapeSequence })
    );
    assert_eq!(
        parse("say \"a\\q\""),
        Err(ParserError { span: Span::new(7, 8), kind: ParserErrorKind::InvalidEscapeSequence })
    );
}

#[test]
fn empty_source_is_one_empty_command() {
    assert_eq!(parse(""), Ok(batch(vec![command(vec![], 0, 1)], 0, 1)));
    assert_eq!(try_parse(""), Some(Ok(batch(vec![command(vec![], 0, 1)], 0, 1))));
}

#[test]
fn trailing_semicolon_leaves_an_empty_command() {
    assert_eq!(
        parse("a;"),
        Ok(batch(vec![command(vec![ident("a", 0)], 0, 2), command(vec![], 2, 3)], 0, 2))
    );
    assert_eq!(
        parse(";;"),
        Ok(batch(
            vec![command(vec![], 0, 1), command(vec![], 1, 2), command(vec![], 2, 3)],
            0,
            2
        ))
    );
}

#[test]
fn numbers_are_read_in_decimal() {
    assert_eq!(
        parse("42 007 0"),
        Ok(batch(
            vec![command(vec![number(42, 0, 2), number(7, 3, 6), number(0, 7, 8)], 0, 8)],
            0,
            8
        ))
    );
    assert_eq!(
        parse("18446744073709551615"),
        Ok(batch(vec![command(vec![number(u64::MAX, 0, 20)], 0, 20)], 0, 20))
    );
}

#[test]
fn number_that_does_not_fit_is_not_parsed() {
    assert_eq!(try_parse("18446744073709551616"), None);
    assert_eq!(try_parse("99999999999999999999999999"), None);
    assert_eq!(
        try_parse("018446744073709551615"),
        Some(Ok(batch(vec![command(vec![number(u64::MAX, 0, 21)], 0, 21)], 0, 21)))
    );
}

#[test]
fn unknown_character_is_not_parsed() {
    assert_eq!(try_parse("$"), None);
    assert_eq!(try_parse("a { b ; % }"), None);
}

#[test]
fn first_failure_in_order_decides() {
    assert_eq!(
        try_parse("\"\\q\" $"),
        Some(Err(ParserError {
            span: Span::new(2, 3),
            kind: ParserErrorKind::InvalidEscapeSequence,
        }))
    );
    assert_eq!(try_parse("$ \"\\q\""), None);
    assert_eq!(
        try_parse("$ \"\\q\" }"),
        Some(Err(ParserError {
            span: Span::new(0, 8),
            kind: ParserErrorKind::UnexpectedDelimiter(BracketKind::Curly),
        }))
    );
}

#[test]
fn inline_group_of_two_numbers() {
    assert_eq!(
        parse("[1 2]"),
        Ok(batch(
            vec![command(
                vec![inline(vec![command(vec![number(1, 1, 2), number(2, 3, 4)], 1, 4)], 0, 5)],
                0,
                5
            )],
            0,
            5
        ))
    );
}

#[test]
fn nested_groups_split_on_their_own_semicolons() {
    assert_eq!(
        parse("run {a; b} [c;];"),
        Ok(batch(
            vec![
                command(
                    vec![
                        ident("run", 0),
                        batch(
                            vec![
                                command(vec![ident("a", 5)], 5, 7),
                                command(vec![ident("b", 8)], 7, 9),
                            ],
                            4,
                            10
                        ),
                        inline(
                            vec![command(vec![ident("c", 12)], 12, 14), command(vec![], 14, 15)],
                            11,
                            15
                        ),
                    ],
                    0,
                    16
                ),
                command(vec![], 16, 17),
            ],
            0,
            16
        ))
    );
}

#[test]
fn error_inside_a_group_ends_the_parse() {
    assert_eq!(
        parse("a { b [ \"x\\y\" ] } c"),
        Err(ParserError { span: Span::new(11, 12), kind: ParserErrorKind::InvalidEscapeSequence })
    );
}

#[test]
fn identifiers_keep_letters_that_are_not_ascii() {
    assert_eq!(
        parse("\u{e9}t\u{e9} \"\u{2192}\""),
        Ok(batch(
            vec![command(vec![ident("\u{e9}t\u{e9}", 0), text("\u{2192}", 6, 11)], 0, 11)],
            0,
            11
        ))
    );
}

#[test]
fn group_and_atom_parsers_agree_with_parse() {
    let tree = TokenTree::from_source("x [y] 3").unwrap();
    let whole = batch(
        vec![command(
            vec![
                ident("x", 0),
                inline(vec![command(vec![ident("y", 3)], 3, 4)], 2, 5),
                number(3, 6, 7),
            ],
            0,
            7
        )],
        0,
        7
    );
    assert_eq!(parse_group(&tree), Ok(batch(whole_body(&whole), 0, 7)));
    assert_eq!(parse_atom(&tree), parse("x [y] 3"));
    assert_eq!(try_parse_group(&tree), Some(parse("x [y] 3")));
    let TokenTreeData::Group(_, body) = tree.data() else {
        panic!("the root is a group");
    };
    assert_eq!(parse_atom(&body[0]), Ok(ident("x", 0)));
    assert_eq!(parse_atom(&body[1]), Ok(inline(vec![command(vec![ident("y", 3)], 3, 4)], 2, 5)));
    assert_eq!(parse_group(&body[1]), parse_atom(&body[1]));
    assert_eq!(try_parse_atom(&body[2]), Some(Ok(number(3, 6, 7))));
}

fn whole_body(atom: &Atom) -> Vec<Command> {
    match atom.data() {
        AtomData::Batch(body) => body
            .iter()
            .map(|c| Command { data: clone_atoms(c.data()), span: c.span() })
            .collect(),
        _ => panic!("a batch"),
    }
}

fn clone_atoms(atoms: &[Atom]) -> Vec<Atom> {
    atoms
        .iter()
        .map(|atom| Atom {
            data: match atom.data() {
                AtomData::Identifier(name) => AtomData::Identifier(name.clone()),
                AtomData::Number(value) => AtomData::Number(*value),
                AtomData::String(value) => AtomData::String(value.clone()),
                AtomData::Batch(body) => AtomData::Batch(
                    body.iter()
                        .map(|c| Command { data: clone_atoms(c.data()), span: c.span() })
                        .collect(),
                ),
                AtomData::Inline(body) => AtomData::Inline(
                    body.iter()
                        .map(|c| Command { data: clone_atoms(c.data()), span: c.span() })
                        .collect(),
                ),
            },
            span: atom.span(),
        })
        .collect()
}

#[test]
fn semicolon_alone_has_no_atom() {
    let tree = TokenTree::from_source(";").unwrap();
    let TokenTreeData::Group(_, body) = tree.data() else {
        panic!("the root is a group");
    };
    assert_eq!(try_parse_atom(&body[0]), None);
    assert_eq!(
        try_parse_group(&tree),
        Some(Ok(batch(vec![command(vec![], 0, 1), command(vec![], 1, 2)], 0, 1)))
    );
}

#[test]
fn commands_are_one_more_than_semicolons() {
    let cases: [(&str, usize); 6] =
        [("", 1), (";", 2), ("a b c", 1), ("a;b", 2), ("a;{b;c;d};", 3), (";;;;", 5)];
    for (source, count) in cases {
        match parse(source).unwrap().data() {
            AtomData::Batch(body) => assert_eq!(body.len(), count),
            other => panic!("not a batch: {:?}", other),
        }
    }
}

#[test]
fn getters_return_the_fields() {
    let atom = parse("a").unwrap();
    assert_eq!(atom.span(), Span::new(0, 1));
    let AtomData::Batch(body) = atom.data() else {
        panic!("the root is a batch");
    };
    assert_eq!(body[0].span(), Span::new(0, 1));
    assert_eq!(body[0].data(), &vec![ident("a", 0)]);
    assert_ne!(BatchKind::Quote, BatchKind::Inline);
}

fn covers_its_atoms(atom: &Atom) {
    assert!(atom.span().start() <= atom.span().end());
    let body = match atom.data() {
        AtomData::Batch(body) => body,
        AtomData::Inline(body) => body,
        _ => return,
    };
    for command in body {
        assert!(command.span().start() <= command.span().end());
        for inner in command.data() {
            assert!(command.span().start() <= inner.span().start());
            assert!(inner.span().end() <= command.span().end());
            covers_its_atoms(inner);
        }
    }
}

#[test]
fn commands_cover_their_atoms() {
    for source in [
        "",
        "a",
        "a;b;c",
        ";;",
        "{}",
        "  lead {a; [b c;] \"s\" } 12 ;tail  ",
        "\u{e9} [\u{e9};\u{e9}] # c\n x;",
    ] {
        covers_its_atoms(&parse(source).unwrap());
    }
}
