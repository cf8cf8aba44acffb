//! The syntax tree and the parser that builds it from a token tree.

use crate::lexer::{is_digit, BracketKind, Span, TokenKind, TokenView};
use crate::string::{decode, parse_string};
use crate::text::{byte_len, chars_of};
use crate::tree::{
    build_error, in_order, reserved, tree_of, GroupKind, TokenTree, TokenTreeData,
    TokenTreeDataView, TokenTreeView,
};
use crate::lexer::{lemma_lex_adjacent, lex};
use vstd::prelude::*;

verus! {

/// One statement: the atoms between two separators of a group.
#[derive(Debug, PartialEq, Eq)]
pub struct Command {
    pub data: Vec<Atom>,
    pub span: Span,
}

/// How a batch is meant to be run.
#[derive(Debug, Clone, Copy, PartialEq, Eq, Structural)]
pub enum BatchKind {
    Quote,
    Inline,
}

/// What an atom is: a name, a number, a decoded string, or the commands of
/// a group.
#[derive(Debug, PartialEq, Eq)]
pub enum AtomData {
    Identifier(String),
    Number(u64),
    String(String),
    Batch(Vec<Command>),
    Inline(Vec<Command>),
}

/// One parsed value.
#[derive(Debug, PartialEq, Eq)]
pub struct Atom {
    pub data: AtomData,
    pub span: Span,
}

/// A command as contracts see it.
pub struct CommandView {
    pub data: Seq<AtomView>,
    pub span: Span,
}

/// The content of an atom as contracts see it.
pub enum AtomDataView {
    Identifier(Seq<char>),
    Number(u64),
    String(Seq<char>),
    Batch(Seq<CommandView>),
    Inline(Seq<CommandView>),
}

/// An atom as contracts see it.
pub struct AtomView {
    pub data: AtomDataView,
    pub span: Span,
}

/// What `atom` holds, as a value of the model.
pub open spec fn atom_view(atom: Atom) -> AtomView
    decreases atom,
{
    AtomView {
        data: match atom.data {
            AtomData::Identifier(name) => AtomDataView::Identifier(name@),
            AtomData::Number(value) => AtomDataView::Number(value),
            AtomData::String(text) => AtomDataView::String(text@),
            AtomData::Batch(body) => AtomDataView::Batch(
                Seq::new(
                    body@.len(),
                    |i: int|
                        if 0 <= i < body@.len() {
                            command_view(body@[i])
                        } else {
                            arbitrary()
                        },
                ),
            ),
            AtomData::Inline(body) => AtomDataView::Inline(
                Seq::new(
                    body@.len(),
                    |i: int|
                        if 0 <= i < body@.len() {
                            command_view(body@[i])
                        } else {
                            arbitrary()
                        },
                ),
            ),
        },
        span: atom.span,
    }
}

/// What `command` holds, as a value of the model.
pub open spec fn command_view(command: Command) -> CommandView
    decreases command,
{
    CommandView {
        data: Seq::new(
            command.data@.len(),
            |i: int|
                if 0 <= i < command.data@.len() {
                    atom_view(command.data@[i])
                } else {
                    arbitrary()
                },
        ),
        span: command.span,
    }
}

impl View for Atom {
    type V = AtomView;

    open spec fn view(&self) -> AtomView {
        atom_view(*self)
    }
}

impl View for Command {
    type V = CommandView;

    open spec fn view(&self) -> CommandView {
        command_view(*self)
    }
}

impl Command {
    /// The atoms of the command, in order.
    pub fn data(&self) -> (data: &Vec<Atom>)
        ensures
            data == self.data,
    {
        &self.data
    }

    /// The bytes of the source that the command is read from.
    pub fn span(&self) -> (span: Span)
        ensures
            span == self.span,
    {
        self.span
    }
}

impl Atom {
    /// What the atom is.
    pub fn data(&self) -> (data: &AtomData)
        ensures
            data == self.data,
    {
        &self.data
    }

    /// The bytes of the source that the atom covers.
    pub fn span(&self) -> (span: Span)
        ensures
            span == self.span,
    {
        self.span
    }
}

/// Why a source was rejected.
#[derive(Debug, Clone, Copy, PartialEq, Eq, Structural)]
pub enum ParserErrorKind {
    /// A closing bracket that does not match the innermost open group.
    UnexpectedDelimiter(BracketKind),
    /// The source ended inside a group that this bracket would have closed.
    ExpectedDelimiter(BracketKind),
    /// A string literal without its closing quote.
    UnclosedString,
    /// A backslash before a character that is no escape.
    InvalidEscapeSequence,
}

/// A rejection and the place in the source that caused it.
#[derive(Debug, Clone, Copy, PartialEq, Eq, Structural)]
pub struct ParserError {
    pub span: Span,
    pub kind: ParserErrorKind,
}

/// What `atoms` hold, as values of the model.
pub open spec fn atoms_view(atoms: Seq<Atom>) -> Seq<AtomView> {
    Seq::new(atoms.len(), |i: int| atom_view(atoms[i]))
}

/// What `commands` hold, as values of the model.
pub open spec fn commands_view(commands: Seq<Command>) -> Seq<CommandView> {
    Seq::new(commands.len(), |i: int| command_view(commands[i]))
}

/// Whether every character of `text` is a decimal digit.
pub open spec fn all_digits(text: Seq<char>) -> bool {
    forall|i: int| 0 <= i < text.len() ==> is_digit(#[trigger] text[i])
}

/// The number that the decimal digits `digits` write.
pub open spec fn decimal(digits: Seq<char>) -> nat
    decreases digits.len(),
{
    if digits.len() == 0 {
        0
    } else {
        (decimal(digits.drop_last()) * 10 + (digits.last() as u32 - '0' as u32)) as nat
    }
}

/// The value of an integer literal, if it is one that fits the numbers of
/// the language.
pub open spec fn number_of(text: Seq<char>) -> Option<u64> {
    if text.len() > 0 && all_digits(text) && decimal(text) <= u64::MAX {
        Some(decimal(text) as u64)
    } else {
        None
    }
}

/// The atom that a single token stands for, or the error that it is
/// rejected with; `None` for a token that the language has no atom for: any
/// token but an identifier, an integer that fits and a string.
pub open spec fn leaf_atom(token: TokenView) -> Option<Result<AtomView, ParserError>> {
    match token.kind {
        TokenKind::Identifier => Some(
            Ok(AtomView { data: AtomDataView::Identifier(token.text), span: token.span }),
        ),
        TokenKind::Integer => match number_of(token.text) {
            Some(value) => Some(
                Ok(AtomView { data: AtomDataView::Number(value), span: token.span }),
            ),
            None => None,
        },
        TokenKind::String => match decode(token) {
            Ok(text) => Some(Ok(AtomView { data: AtomDataView::String(text), span: token.span })),
            Err(error) => Some(Err(error)),
        },
        _ => None,
    }
}

/// Where the splitting of a group's children into commands stands.
pub struct Splitting {
    /// The commands that a semicolon has closed.
    pub done: Seq<CommandView>,
    /// The atoms of the command that is still open.
    pub open: Seq<AtomView>,
    /// The span of the command that is still open.
    pub span: Span,
}

/// Whether `tree` is a semicolon.
pub open spec fn is_separator(tree: TokenTreeView) -> bool {
    tree.data matches TokenTreeDataView::Token(token) && token.kind is Semicolon
}

/// The splitting of the first `n` of `body`, the children of a group whose
/// first command is anchored at byte offset `anchor`. A command's span
/// begins as the one byte at its anchor and then ends where the child last
/// read ends. A semicolon closes the open command and anchors the next just
/// behind itself; any other child adds its atom to the open command. The
/// first child that has no atom ends the splitting.
pub open spec fn split_first(body: Seq<TokenTreeView>, n: int, anchor: int) -> Option<
    Result<Splitting, ParserError>,
>
    decreases body, n,
{
    if n <= 0 || n > body.len() {
        Some(
            Ok(
                Splitting {
                    done: Seq::empty(),
                    open: Seq::empty(),
                    span: Span { start: anchor as usize, end: (anchor + 1) as usize },
                },
            ),
        )
    } else {
        match split_first(body, n - 1, anchor) {
            Some(Ok(state)) => {
                let span = Span { start: state.span.start, end: body[n - 1].span.end };
                if is_separator(body[n - 1]) {
                    Some(
                        Ok(
                            Splitting {
                                done: state.done.push(CommandView { data: state.open, span }),
                                open: Seq::empty(),
                                span: Span { start: span.end, end: (span.end + 1) as usize },
                            },
                        ),
                    )
                } else {
                    match atom_of(body[n - 1]) {
                        Some(Ok(atom)) => Some(
                            Ok(Splitting { done: state.done, open: state.open.push(atom), span }),
                        ),
                        Some(Err(error)) => Some(Err(error)),
                        None => None,
                    }
                }
            },
            stopped => stopped,
        }
    }
}

/// The atom that `tree` stands for, or the error that it is rejected with;
/// `None` if it holds a token that the language has no atom for. A leaf is
/// the atom of its token. A group is a batch, or, between square brackets,
/// an inline group, of the commands that its children split into, the open
/// command being the last of them; the first command is anchored where the
/// children of the group may begin: just behind its opening bracket, or, at
/// the top level, at its first byte.
pub open spec fn atom_of(tree: TokenTreeView) -> Option<Result<AtomView, ParserError>>
    decreases tree,
{
    match tree.data {
        TokenTreeDataView::Token(token) => leaf_atom(token),
        TokenTreeDataView::Group(kind, body) => match split_first(
            body,
            body.len() as int,
            tree.inner_start(),
        ) {
            Some(Ok(state)) => {
                let commands = state.done.push(CommandView { data: state.open, span: state.span });
                Some(
                    Ok(
                        AtomView {
                            data: match kind {
                                GroupKind::Inline => AtomDataView::Inline(commands),
                                _ => AtomDataView::Batch(commands),
                            },
                            span: tree.span,
                        },
                    ),
                )
            },
            Some(Err(error)) => Some(Err(error)),
            None => None,
        },
    }
}

/// Whether `result` is what `expected` says: the same outcome, with the
/// atom that the model describes.
pub open spec fn agrees(
    result: Option<Result<Atom, ParserError>>,
    expected: Option<Result<AtomView, ParserError>>,
) -> bool {
    match expected {
        None => result is None,
        Some(Err(error)) => result == Some(Err::<Atom, ParserError>(error)),
        Some(Ok(atom)) => result matches Some(Ok(parsed)) && parsed@ == atom,
    }
}

proof fn lemma_decimal_grows(digits: Seq<char>, n: int)
    requires
        0 <= n <= digits.len(),
        all_digits(digits),
    ensures
        decimal(digits.take(n)) <= decimal(digits),
    decreases digits.len() - n,
{
    if n < digits.len() {
        assert(digits.take(n + 1).drop_last() =~= digits.take(n));
        assert(is_digit(digits[n]));
        lemma_decimal_grows(digits, n + 1);
    } else {
        assert(digits.take(n) =~= digits);
    }
}

/// Once a child has no atom, later children change nothing.
proof fn lemma_split_stops(body: Seq<TokenTreeView>, n: int, m: int, anchor: int)
    requires
        0 <= n <= m <= body.len(),
        !(split_first(body, n, anchor) matches Some(Ok(_))),
    ensures
        split_first(body, m, anchor) == split_first(body, n, anchor),
    decreases m - n,
{
    if n < m {
        lemma_split_stops(body, n, m - 1, anchor);
    }
}

/// The value of the integer literal `text`, if it has one.
fn parse_number(text: &str) -> (value: Option<u64>)
    ensures
        value == number_of(text@),
{
    let digits = chars_of(text);
    if digits.len() == 0 {
        return None;
    }
    let mut value: u64 = 0;
    let mut i: usize = 0;
    assert(digits@.take(0) =~= Seq::<char>::empty());
    while i < digits.len()
        invariant
            digits@ == text@,
            i <= digits.len(),
            all_digits(digits@.take(i as int)),
            value == decimal(digits@.take(i as int)),
        decreases digits.len() - i,
    {
        let c = digits[i];
        if !('0' <= c && c <= '9') {
            assert(!is_digit(digits@[i as int]));
            return None;
        }
        let digit: u64 = (c as u32 - '0' as u32) as u64;
        proof {
            assert(digits@.take(i + 1).drop_last() =~= digits@.take(i as int));
            assert(digits@.take(i + 1).last() == c);
            assert forall|k: int| 0 <= k < i + 1 implies is_digit(
                #[trigger] digits@.take(i + 1)[k],
            ) by {
                if k < i {
                    assert(digits@.take(i as int)[k] == digits@[k]);
                }
            }
        }
        if value > (u64::MAX - digit) / 10 {
            proof {
                if all_digits(digits@) {
                    lemma_decimal_grows(digits@, i + 1);
                }
            }
            return None;
        }
        value = value * 10 + digit;
        i = i + 1;
    }
    assert(digits@.take(i as int) =~= digits@);
    Some(value)
}

/// The atom that `tree` stands for, or the error that it is rejected with;
/// `None` if it holds a token that the language has no atom for. A top-level
/// tree must end before the largest offset, so that a command can be
/// anchored behind its last semicolon.
pub fn try_parse_atom(tree: &TokenTree) -> (result: Option<Result<Atom, ParserError>>)
    requires
        tree@.wf(),
        tree@.inner_end() < usize::MAX,
    ensures
        agrees(result, atom_of(tree@)),
    decreases tree, 1int,
{
    match &tree.data {
        TokenTreeData::Token(token) => match token.kind() {
            TokenKind::Identifier => Some(
                Ok(
                    Atom {
                        data: AtomData::Identifier(token.view().to_owned()),
                        span: token.span(),
                    },
                ),
            ),
            TokenKind::Integer => match parse_number(token.view()) {
                Some(value) => Some(Ok(Atom { data: AtomData::Number(value), span: token.span() })),
                None => None,
            },
            TokenKind::String => match parse_string(*token) {
                Ok(text) => Some(Ok(Atom { data: AtomData::String(text), span: token.span() })),
                Err(error) => Some(Err(error)),
            },
            _ => None,
        },
        TokenTreeData::Group(_, _) => try_parse_group(tree),
    }
}

/// The batch or inline atom that the group `tree` stands for, or the error
/// that it is rejected with; `None` if it holds a token that the language
/// has no atom for. A top-level tree must end before the largest offset, so
/// that a command can be anchored behind its last semicolon.
pub fn try_parse_group(tree: &TokenTree) -> (result: Option<Result<Atom, ParserError>>)
    requires
        tree@.wf(),
        tree@.data is Group,
        tree@.inner_end() < usize::MAX,
    ensures
        agrees(result, atom_of(tree@)),
    decreases tree, 0int,
{
    let span = tree.span();
    match &tree.data {
        TokenTreeData::Token(_) => unreached(),
        TokenTreeData::Group(group, body) => {
            let ghost children = tree@.data->Group_1;
            let ghost anchor = tree@.inner_start();
            let mut group_body: Vec<Command> = Vec::new();
            let mut command: Vec<Atom> = Vec::new();
            let mut command_span = Span::starting_at(
                match group {
                    GroupKind::TopLevel => span.start(),
                    _ => span.start() + 1,
                },
            );
            let mut i: usize = 0;
            assert(commands_view(group_body@) =~= Seq::<CommandView>::empty());
            assert(atoms_view(command@) =~= Seq::<AtomView>::empty());
            while i < body.len()
                invariant
                    tree@.wf(),
                    tree.data == TokenTreeData::Group(*group, *body),
                    children == tree@.data->Group_1,
                    children.len() == body@.len(),
                    forall|k: int| 0 <= k < body@.len() ==> children[k] == (#[trigger] body@[k])@,
                    anchor == tree@.inner_start(),
                    tree@.inner_end() < usize::MAX,
                    i <= body.len(),
                    split_first(children, i as int, anchor) == Some(
                        Ok::<Splitting, ParserError>(
                            Splitting {
                                done: commands_view(group_body@),
                                open: atoms_view(command@),
                                span: command_span,
                            },
                        ),
                    ),
                    command_span.start <= (if i == 0 {
                        tree@.inner_start()
                    } else {
                        children[i - 1].span.end as int
                    }),
                decreases body.len() - i,
            {
                let child = &body[i];
                proof {
                    assert(children[i as int].wf());
                    assert(in_order(children, tree@.inner_start(), tree@.inner_end()));
                    if i > 0 {
                        assert(children[i - 1].span.end <= children[i as int].span.start);
                    }
                }
                command_span = command_span.join(child.span());
                let separator = match &child.data {
                    TokenTreeData::Token(token) => match token.kind() {
                        TokenKind::Semicolon => true,
                        _ => false,
                    },
                    _ => false,
                };
                if separator {
                    let ghost done = commands_view(group_body@);
                    let ghost open = atoms_view(command@);
                    let ghost closed = command_span;
                    let finished = Command { data: command, span: command_span };
                    assert(finished@.data =~= open);
                    group_body.push(finished);
                    command = Vec::new();
                    command_span = Span::starting_at(command_span.end());
                    assert(commands_view(group_body@) =~= done.push(
                        CommandView { data: open, span: closed },
                    ));
                    assert(atoms_view(command@) =~= Seq::<AtomView>::empty());
                } else {
                    match try_parse_atom(child) {
                        Some(Ok(atom)) => {
                            let ghost open = atoms_view(command@);
                            command.push(atom);
                            assert(atoms_view(command@) =~= open.push(atom@));
                        },
                        Some(Err(error)) => {
                            proof {
                                lemma_split_stops(
                                    children,
                                    i as int + 1,
                                    children.len() as int,
                                    anchor,
                                );
                            }
                            return Some(Err(error));
                        },
                        None => {
                            proof {
                                lemma_split_stops(
                                    children,
                                    i as int + 1,
                                    children.len() as int,
                                    anchor,
                                );
                            }
                            return None;
                        },
                    }
                }
                i = i + 1;
            }
            let ghost done = commands_view(group_body@);
            let ghost open = atoms_view(command@);
            let finished = Command { data: command, span: command_span };
            assert(finished@.data =~= open);
            group_body.push(finished);
            assert(commands_view(group_body@) =~= done.push(
                CommandView { data: open, span: command_span },
            ));
            let ghost commands = commands_view(group_body@);
            let data = match group {
                GroupKind::Inline => AtomData::Inline(group_body),
                _ => AtomData::Batch(group_body),
            };
            let atom = Atom { data, span };
            proof {
                if atom@.data is Inline {
                    assert(atom@.data->Inline_0 =~= commands);
                } else {
                    assert(atom@.data->Batch_0 =~= commands);
                }
            }
            Some(Ok(atom))
        },
    }
}

/// What a result is when the model has an outcome: the same outcome, with
/// the atom that the model describes.
pub open spec fn agrees_on(
    result: Result<Atom, ParserError>,
    expected: Result<AtomView, ParserError>,
) -> bool {
    match expected {
        Err(error) => result == Err::<Atom, ParserError>(error),
        Ok(atom) => result matches Ok(parsed) && parsed@ == atom,
    }
}

/// The batch or inline atom that the group `tree` stands for, or the error
/// that it is rejected with. The tree must hold no token that the language
/// has no atom for, and a top-level tree must end before the largest offset.
pub fn parse_group(tree: &TokenTree) -> (result: Result<Atom, ParserError>)
    requires
        tree@.wf(),
        tree@.data is Group,
        tree@.inner_end() < usize::MAX,
        atom_of(tree@) is Some,
    ensures
        agrees_on(result, atom_of(tree@)->0),
{
    match try_parse_group(tree) {
        Some(result) => result,
        None => unreached(),
    }
}

/// The atom that `tree` stands for, or the error that it is rejected with.
/// The tree must hold no token that the language has no atom for, and a
/// top-level tree must end before the largest offset.
pub fn parse_atom(tree: &TokenTree) -> (result: Result<Atom, ParserError>)
    requires
        tree@.wf(),
        tree@.inner_end() < usize::MAX,
        atom_of(tree@) is Some,
    ensures
        agrees_on(result, atom_of(tree@)->0),
{
    match try_parse_atom(tree) {
        Some(result) => result,
        None => unreached(),
    }
}

/// What parsing the source `source` comes to: nothing, if it opens a group
/// with a parenthesis; the error of its brackets, if they do not nest;
/// otherwise what the tree of its tokens stands for.
pub open spec fn parse_of(source: Seq<char>) -> Option<Result<AtomView, ParserError>> {
    if reserved(lex(source)) {
        None
    } else {
        match build_error(lex(source)) {
            Some(error) => Some(Err(error)),
            None => atom_of(tree_of(lex(source))),
        }
    }
}

/// The batch that `source` stands for, or the error that it is rejected
/// with; `None` if it uses what the language reserves or has no atom for.
/// The source must be shorter than the largest offset.
pub fn try_parse(source: &str) -> (result: Option<Result<Atom, ParserError>>)
    requires
        byte_len(source@) < usize::MAX,
    ensures
        agrees(result, parse_of(source@)),
        result matches Some(Ok(atom)) ==> atom@.wf(),
{
    match TokenTree::try_from_source(source) {
        None => None,
        Some(Err(error)) => Some(Err(error)),
        Some(Ok(tree)) => {
            proof {
                let tokens = lex(source@);
                if tokens.len() > 0 {
                    lemma_lex_adjacent(source@, tokens.len() - 1);
                }
                if atom_of(tree@) matches Some(Ok(_)) {
                    lemma_atom_wf(tree@);
                }
            }
            try_parse_group(&tree)
        },
    }
}

/// The batch that `source` stands for, or the error that it is rejected
/// with. The source must use nothing that the language reserves or has no
/// atom for.
pub fn parse(source: &str) -> (result: Result<Atom, ParserError>)
    requires
        byte_len(source@) < usize::MAX,
        parse_of(source@) is Some,
    ensures
        agrees_on(result, parse_of(source@)->0),
        result matches Ok(atom) ==> atom@.wf(),
{
    match try_parse(source) {
        Some(result) => result,
        None => unreached(),
    }
}

/// Number of semicolons among the first `n` of `body`.
pub open spec fn separators(body: Seq<TokenTreeView>, n: int) -> nat
    decreases n,
{
    if n <= 0 || n > body.len() {
        0
    } else if is_separator(body[n - 1]) {
        separators(body, n - 1) + 1
    } else {
        separators(body, n - 1)
    }
}

/// Where the first `n` children of a group split, each semicolon among
/// them has closed one command.
pub proof fn lemma_split_count(body: Seq<TokenTreeView>, n: int, anchor: int)
    requires
        0 <= n <= body.len(),
        split_first(body, n, anchor) matches Some(Ok(_)),
    ensures
        split_first(body, n, anchor)->0->Ok_0.done.len() == separators(body, n),
    decreases n,
{
    if n > 0 {
        lemma_split_count(body, n - 1, anchor);
    }
}

/// A group that parses has one command more than it has semicolons among
/// its children: an empty group has one command, which is empty.
pub proof fn lemma_command_count(tree: TokenTreeView)
    requires
        tree.data is Group,
        atom_of(tree) matches Some(Ok(_)),
    ensures
        ({
            let body = tree.data->Group_1;
            let atom = atom_of(tree)->0->Ok_0;
            match atom.data {
                AtomDataView::Batch(commands) => !(tree.data->Group_0 is Inline) && commands.len()
                    == separators(body, body.len() as int) + 1,
                AtomDataView::Inline(commands) => tree.data->Group_0 is Inline && commands.len()
                    == separators(body, body.len() as int) + 1,
                _ => false,
            }
        }),
{
    let body = tree.data->Group_1;
    lemma_split_count(body, body.len() as int, tree.inner_start());
}

/// The atoms of `commands`, one command after the other.
pub open spec fn all_atoms(commands: Seq<CommandView>) -> Seq<AtomView>
    decreases commands.len(),
{
    if commands.len() == 0 {
        Seq::empty()
    } else {
        all_atoms(commands.drop_last()) + commands.last().data
    }
}

/// The commands of a group, whatever its kind.
pub open spec fn commands_of(atom: AtomView) -> Seq<CommandView> {
    match atom.data {
        AtomDataView::Batch(commands) => commands,
        AtomDataView::Inline(commands) => commands,
        _ => Seq::empty(),
    }
}

/// The atoms of those of the first `n` of `body` that are no semicolons.
pub open spec fn child_atoms(body: Seq<TokenTreeView>, n: int) -> Seq<AtomView>
    decreases n,
{
    if n <= 0 || n > body.len() {
        Seq::empty()
    } else if is_separator(body[n - 1]) {
        child_atoms(body, n - 1)
    } else {
        child_atoms(body, n - 1).push(atom_of(body[n - 1])->0->Ok_0)
    }
}

/// Where the first `n` children of a group split, the atoms of the closed
/// commands and of the open one are the atoms of the children, in order.
pub proof fn lemma_split_atoms(body: Seq<TokenTreeView>, n: int, anchor: int)
    requires
        0 <= n <= body.len(),
        split_first(body, n, anchor) matches Some(Ok(_)),
    ensures
        all_atoms(split_first(body, n, anchor)->0->Ok_0.done) + split_first(
            body,
            n,
            anchor,
        )->0->Ok_0.open == child_atoms(body, n),
    decreases n,
{
    let state = split_first(body, n, anchor)->0->Ok_0;
    if n > 0 {
        lemma_split_atoms(body, n - 1, anchor);
        let before = split_first(body, n - 1, anchor)->0->Ok_0;
        if is_separator(body[n - 1]) {
            assert(state.done.drop_last() =~= before.done);
            assert(all_atoms(state.done) + state.open =~= all_atoms(before.done) + before.open);
        } else {
            let atom = atom_of(body[n - 1])->0->Ok_0;
            assert(all_atoms(state.done) + state.open =~= (all_atoms(before.done)
                + before.open).push(atom));
        }
    } else {
        assert(all_atoms(state.done) + state.open =~= Seq::<AtomView>::empty());
    }
}

/// Splitting into commands loses no atom: the atoms of the commands of a
/// group that parses, read one command after the other, are the atoms of
/// its children other than semicolons, in order.
pub proof fn lemma_command_atoms(tree: TokenTreeView)
    requires
        tree.data is Group,
        atom_of(tree) matches Some(Ok(_)),
    ensures
        all_atoms(commands_of(atom_of(tree)->0->Ok_0)) == child_atoms(
            tree.data->Group_1,
            tree.data->Group_1.len() as int,
        ),
{
    let body = tree.data->Group_1;
    let state = split_first(body, body.len() as int, tree.inner_start())->0->Ok_0;
    lemma_split_atoms(body, body.len() as int, tree.inner_start());
    let commands = state.done.push(CommandView { data: state.open, span: state.span });
    assert(commands.drop_last() =~= state.done);
}

impl AtomView {
    /// An atom is well formed when its span does not end before it starts
    /// and, in a group, its commands are well formed.
    pub open spec fn wf(self) -> bool
        decreases self,
    {
        &&& self.span.wf()
        &&& forall|i: int|
            0 <= i < commands_of(self).len() ==> (#[trigger] commands_of(self)[i]).wf()
    }
}

impl CommandView {
    /// A command is well formed when its span does not end before it
    /// starts and covers its atoms, which are well formed.
    pub open spec fn wf(self) -> bool
        decreases self,
    {
        &&& self.span.wf()
        &&& forall|i: int|
            0 <= i < self.data.len() ==> (#[trigger] self.data[i]).wf() && self.span.start
                <= self.data[i].span.start && self.data[i].span.end <= self.span.end
    }
}

/// Byte offset that the child with index `n` of the group `tree` does not
/// start before: where the child before it ends, or where children may begin.
spec fn floor_of(tree: TokenTreeView, n: int) -> int {
    if n <= 0 {
        tree.inner_start()
    } else {
        tree.data->Group_1[n - 1].span.end as int
    }
}

/// An atom covers the bytes of the tree that it stands for.
pub proof fn lemma_atom_span(tree: TokenTreeView)
    requires
        tree.wf(),
        atom_of(tree) matches Some(Ok(_)),
    ensures
        atom_of(tree)->0->Ok_0.span == tree.span,
{
}

/// Where the first `n` children of a well-formed group split, the closed
/// commands are well formed, and the open command begins no later than the
/// next child may and covers its atoms so far.
proof fn lemma_split_wf(tree: TokenTreeView, n: int)
    requires
        tree.wf(),
        tree.data is Group,
        tree.inner_end() < usize::MAX,
        0 <= n <= tree.data->Group_1.len(),
        split_first(tree.data->Group_1, n, tree.inner_start()) matches Some(Ok(_)),
    ensures
        ({
            let state = split_first(tree.data->Group_1, n, tree.inner_start())->0->Ok_0;
            &&& state.span.wf()
            &&& state.span.start <= floor_of(tree, n)
            &&& state.open.len() > 0 ==> state.span.end == floor_of(tree, n)
            &&& forall|i: int| 0 <= i < state.done.len() ==> (#[trigger] state.done[i]).wf()
            &&& forall|i: int|
                0 <= i < state.open.len() ==> (#[trigger] state.open[i]).wf() && state.span.start
                    <= state.open[i].span.start && state.open[i].span.end <= floor_of(tree, n)
        }),
    decreases tree, 0int, n,
{
    let body = tree.data->Group_1;
    let anchor = tree.inner_start();
    if n > 0 {
        let child = body[n - 1];
        let before = split_first(body, n - 1, anchor)->0->Ok_0;
        let state = split_first(body, n, anchor)->0->Ok_0;
        lemma_split_wf(tree, n - 1);
        assert(in_order(body, tree.inner_start(), tree.inner_end()));
        assert(child.wf());
        assert(floor_of(tree, n - 1) <= child.span.start) by {
            if n > 1 {
                assert(body[n - 2].span.end <= body[n - 1].span.start);
            }
        }
        let span = Span { start: before.span.start, end: child.span.end };
        if is_separator(child) {
            let closed = CommandView { data: before.open, span };
            assert(closed.wf());
            assert forall|i: int| 0 <= i < state.done.len() implies (#[trigger] state.done[i]).wf() by {
                if i < before.done.len() {
                    assert(state.done[i] == before.done[i]);
                }
            }
        } else {
            lemma_atom_wf(child);
            lemma_atom_span(child);
            assert forall|i: int| 0 <= i < state.open.len() implies (#[trigger] state.open[i]).wf()
                && state.span.start <= state.open[i].span.start && state.open[i].span.end
                <= floor_of(tree, n) by {
                if i < before.open.len() {
                    assert(state.open[i] == before.open[i]);
                }
            }
        }
    }
}

/// Parsing keeps spans well formed: in the atom of a well-formed tree no
/// span ends before it starts, and every command covers its atoms.
pub proof fn lemma_atom_wf(tree: TokenTreeView)
    requires
        tree.wf(),
        tree.inner_end() < usize::MAX,
        atom_of(tree) matches Some(Ok(_)),
    ensures
        atom_of(tree)->0->Ok_0.wf(),
    decreases tree, 1int, 0int,
{
    match tree.data {
        TokenTreeDataView::Token(token) => {
            let atom = atom_of(tree)->0->Ok_0;
            assert(commands_of(atom) =~= Seq::<CommandView>::empty());
        },
        TokenTreeDataView::Group(kind, body) => {
            lemma_split_wf(tree, body.len() as int);
            let state = split_first(body, body.len() as int, tree.inner_start())->0->Ok_0;
            let last = CommandView { data: state.open, span: state.span };
            let commands = state.done.push(last);
            let atom = atom_of(tree)->0->Ok_0;
            assert(commands_of(atom) == commands);
            assert(last.wf());
            assert forall|i: int| 0 <= i < commands.len() implies (#[trigger] commands[i]).wf() by {
                if i < state.done.len() {
                    assert(commands[i] == state.done[i]);
                }
            }
        },
    }
}

} // verus!
