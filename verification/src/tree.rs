//! The tree builder: tokens grouped by bracket nesting.
//!
//! Which sources are accepted is defined by [`nesting`], which follows the
//! brackets of a token sequence. The tree of an accepted source is defined by
//! what it flattens to: the tokens of the source other than whitespace and
//! comments, in order ([`TokenTreeView::flatten`]).

use crate::lexer::{
    lemma_lex_adjacent, lemma_lex_wf, lex, BracketKind, Lexer, Span, Token, TokenKind, TokenView,
};
use crate::parser::{ParserError, ParserErrorKind};
use crate::text::{byte_len, lemma_byte_len_bounds, lemma_byte_len_single};
use vstd::prelude::*;

verus! {

/// The role of a group of trees.
#[derive(Debug, Clone, Copy, PartialEq, Eq, Structural)]
pub enum GroupKind {
    /// What stands between curly brackets.
    Batch,
    /// What stands between square brackets.
    Inline,
    /// The whole source, which no bracket encloses.
    TopLevel,
}

impl GroupKind {
    /// The group that a bracket opens. Parentheses are reserved and open none.
    pub open spec fn of_bracket(bracket: BracketKind) -> Option<GroupKind> {
        match bracket {
            BracketKind::Curly => Some(GroupKind::Batch),
            BracketKind::Square => Some(GroupKind::Inline),
            BracketKind::Paren => None,
        }
    }

    /// The bracket that encloses a group. The top level has none.
    pub open spec fn bracket(self) -> Option<BracketKind> {
        match self {
            GroupKind::Batch => Some(BracketKind::Curly),
            GroupKind::Inline => Some(BracketKind::Square),
            GroupKind::TopLevel => None,
        }
    }

    /// The group that `bracket` opens.
    pub fn from_bracket(bracket: BracketKind) -> (kind: GroupKind)
        requires
            !(bracket is Paren),
        ensures
            Some(kind) == GroupKind::of_bracket(bracket),
    {
        match bracket {
            BracketKind::Curly => GroupKind::Batch,
            _ => GroupKind::Inline,
        }
    }

    /// The bracket that encloses a group of this kind.
    pub fn into_bracket(self) -> (bracket: BracketKind)
        requires
            !(self is TopLevel),
        ensures
            Some(bracket) == self.bracket(),
    {
        match self {
            GroupKind::Batch => BracketKind::Curly,
            _ => BracketKind::Square,
        }
    }
}

/// What a token tree holds: its token, or its kind and its children.
#[derive(Debug, PartialEq, Eq)]
pub enum TokenTreeData<'a> {
    Group(GroupKind, Vec<TokenTree<'a>>),
    Token(Token<'a>),
}

/// A structured sequence of tokens.
#[derive(Debug, PartialEq, Eq)]
pub struct TokenTree<'a> {
    pub span: Span,
    pub data: TokenTreeData<'a>,
}

/// The content of a token tree as contracts see it.
pub enum TokenTreeDataView {
    Group(GroupKind, Seq<TokenTreeView>),
    Token(TokenView),
}

/// A token tree as contracts see it.
pub struct TokenTreeView {
    pub span: Span,
    pub data: TokenTreeDataView,
}

/// What `tree` holds, as a value of the model.
pub open spec fn tree_view(tree: TokenTree) -> TokenTreeView
    decreases tree,
{
    TokenTreeView {
        span: tree.span,
        data: match tree.data {
            TokenTreeData::Token(token) => TokenTreeDataView::Token(token.model()),
            TokenTreeData::Group(kind, body) => TokenTreeDataView::Group(
                kind,
                Seq::new(
                    body@.len(),
                    |i: int|
                        if 0 <= i < body@.len() {
                            tree_view(body@[i])
                        } else {
                            arbitrary()
                        },
                ),
            ),
        },
    }
}

/// What `trees` hold, as values of the model.
pub open spec fn trees_view(trees: Seq<TokenTree>) -> Seq<TokenTreeView> {
    Seq::new(trees.len(), |i: int| tree_view(trees[i]))
}

impl<'a> View for TokenTree<'a> {
    type V = TokenTreeView;

    open spec fn view(&self) -> TokenTreeView {
        tree_view(*self)
    }
}

/// Whether a token of this kind is dropped before trees are built.
pub open spec fn is_trivia(kind: TokenKind) -> bool {
    kind is Whitespace || kind is Comment
}

/// The tokens of `tokens` that are neither whitespace nor comments.
pub open spec fn significant(tokens: Seq<TokenView>) -> Seq<TokenView>
    decreases tokens.len(),
{
    if tokens.len() == 0 {
        Seq::empty()
    } else if is_trivia(tokens.last().kind) {
        significant(tokens.drop_last())
    } else {
        significant(tokens.drop_last()).push(tokens.last())
    }
}

/// The text of an opening bracket.
pub open spec fn open_text(bracket: BracketKind) -> Seq<char> {
    match bracket {
        BracketKind::Paren => seq!['('],
        BracketKind::Square => seq!['['],
        BracketKind::Curly => seq!['{'],
    }
}

/// The text of a closing bracket.
pub open spec fn close_text(bracket: BracketKind) -> Seq<char> {
    match bracket {
        BracketKind::Paren => seq![')'],
        BracketKind::Square => seq![']'],
        BracketKind::Curly => seq!['}'],
    }
}

/// The opening bracket token at byte offset `start`.
pub open spec fn open_token(bracket: BracketKind, start: int) -> TokenView {
    TokenView {
        kind: TokenKind::Open(bracket),
        span: Span { start: start as usize, end: (start + 1) as usize },
        text: open_text(bracket),
    }
}

/// The closing bracket token that ends at byte offset `end`.
pub open spec fn close_token(bracket: BracketKind, end: int) -> TokenView {
    TokenView {
        kind: TokenKind::Close(bracket),
        span: Span { start: (end - 1) as usize, end: end as usize },
        text: close_text(bracket),
    }
}

/// The tokens of the first `n` of `trees`, in order.
pub open spec fn flatten_first(trees: Seq<TokenTreeView>, n: int) -> Seq<TokenView>
    decreases trees, n,
{
    if 0 < n <= trees.len() {
        flatten_first(trees, n - 1) + trees[n - 1].flatten()
    } else {
        Seq::empty()
    }
}

/// The tokens of `trees`, in order.
pub open spec fn flatten_all(trees: Seq<TokenTreeView>) -> Seq<TokenView> {
    flatten_first(trees, trees.len() as int)
}

/// Whether the spans of `trees` lie in order between the byte offsets `lo`
/// and `hi`, none of them empty and no two of them overlapping.
pub open spec fn in_order(trees: Seq<TokenTreeView>, lo: int, hi: int) -> bool {
    &&& forall|i: int|
        0 <= i < trees.len() ==> lo <= (#[trigger] trees[i]).span.start && trees[i].span.start
            < trees[i].span.end && trees[i].span.end <= hi
    &&& forall|i: int, j: int|
        0 <= i < j < trees.len() ==> (#[trigger] trees[i]).span.end <= (
        #[trigger] trees[j]).span.start
}

impl TokenTreeView {
    /// The tokens that the tree was built from: a leaf is its token, the top
    /// level is the tokens of its children, and any other group is its
    /// opening bracket, the tokens of its children and its closing bracket.
    pub open spec fn flatten(self) -> Seq<TokenView>
        decreases self,
    {
        match self.data {
            TokenTreeDataView::Token(token) => seq![token],
            TokenTreeDataView::Group(kind, body) => match kind.bracket() {
                None => flatten_first(body, body.len() as int),
                Some(bracket) => seq![open_token(bracket, self.span.start as int)] + flatten_first(
                    body,
                    body.len() as int,
                ) + seq![close_token(bracket, self.span.end as int)],
            },
        }
    }

    /// Whether the tree may stand inside a group: anything but the top level.
    pub open spec fn nested(self) -> bool {
        match self.data {
            TokenTreeDataView::Token(_) => true,
            TokenTreeDataView::Group(kind, _) => !(kind is TopLevel),
        }
    }

    /// Byte offset at which the children of a group may begin.
    pub open spec fn inner_start(self) -> int {
        match self.data {
            TokenTreeDataView::Group(GroupKind::TopLevel, _) => self.span.start as int,
            _ => self.span.start + 1,
        }
    }

    /// Byte offset at which the children of a group must have ended.
    pub open spec fn inner_end(self) -> int {
        match self.data {
            TokenTreeDataView::Group(GroupKind::TopLevel, _) => self.span.end as int,
            _ => self.span.end - 1,
        }
    }

    /// A well-formed tree is one that the builder can have made. A leaf is a
    /// well-formed token other than a bracket, whitespace or a comment, and
    /// has the token's span. The children of a group are well formed, none of
    /// them is the top level, and they lie in order inside the group: between
    /// its two brackets, or, at the top level, inside a span that is not
    /// empty.
    pub open spec fn wf(self) -> bool
        decreases self,
    {
        match self.data {
            TokenTreeDataView::Token(token) => {
                &&& token.wf()
                &&& self.span == token.span
                &&& !is_trivia(token.kind)
                &&& !(token.kind is Open)
                &&& !(token.kind is Close)
            },
            TokenTreeDataView::Group(kind, body) => {
                &&& kind is TopLevel ==> self.span.start < self.span.end
                &&& !(kind is TopLevel) ==> self.span.start + 2 <= self.span.end
                &&& forall|i: int|
                    0 <= i < body.len() ==> (#[trigger] body[i]).wf() && body[i].nested()
                &&& in_order(body, self.inner_start(), self.inner_end())
            },
        }
    }
}

/// A group that a bracket has opened and none has closed yet.
pub struct OpenGroup {
    /// The span of the opening bracket.
    pub span: Span,
    pub kind: GroupKind,
}

/// What the brackets of a token sequence come to.
pub enum Nesting {
    /// Every closing bracket so far closed the innermost open group. The
    /// groups that are still open, the innermost last.
    Open(Seq<OpenGroup>),
    /// The token with this index is a closing bracket that does not match
    /// the innermost open group, or finds none open.
    Mismatch(int),
    /// The token with this index opens a group with a parenthesis.
    Reserved(int),
}

/// What the brackets among the first `n` of `tokens` come to. Tokens after
/// the first mismatch or reserved bracket are not looked at.
pub open spec fn nesting(tokens: Seq<TokenView>, n: int) -> Nesting
    decreases n,
{
    if n <= 0 {
        Nesting::Open(Seq::empty())
    } else {
        match nesting(tokens, n - 1) {
            Nesting::Open(open) => match tokens[n - 1].kind {
                TokenKind::Open(bracket) => match GroupKind::of_bracket(bracket) {
                    Some(kind) => Nesting::Open(
                        open.push(OpenGroup { span: tokens[n - 1].span, kind }),
                    ),
                    None => Nesting::Reserved(n - 1),
                },
                TokenKind::Close(bracket) => if open.len() > 0 && GroupKind::of_bracket(bracket)
                    == Some(open.last().kind) {
                    Nesting::Open(open.drop_last())
                } else {
                    Nesting::Mismatch(n - 1)
                },
                _ => Nesting::Open(open),
            },
            stopped => stopped,
        }
    }
}

/// The span of the top level after `n` tokens: from the first byte to the
/// end of the last token, or the one-byte span at offset 0 before any token.
pub open spec fn root_span(tokens: Seq<TokenView>, n: int) -> Span {
    Span { start: 0, end: if n <= 0 { 1 } else { tokens[n - 1].span.end } }
}

/// Whether the builder has no tree for `tokens` because they open a group
/// with a parenthesis before anything else is wrong.
pub open spec fn reserved(tokens: Seq<TokenView>) -> bool {
    nesting(tokens, tokens.len() as int) is Reserved
}

/// The error that `tokens` are rejected with, if they are. A closing
/// bracket that does not match is unexpected; the span runs from the start
/// of the innermost open group, or of the source if none is open, to the end
/// of that bracket. A group still open at the end lacks its delimiter; the
/// span is that of the bracket that opened the innermost such group.
pub open spec fn build_error(tokens: Seq<TokenView>) -> Option<ParserError> {
    match nesting(tokens, tokens.len() as int) {
        Nesting::Open(open) => if open.len() == 0 {
            None
        } else {
            Some(
                ParserError {
                    span: open.last().span,
                    kind: ParserErrorKind::ExpectedDelimiter(open.last().kind.bracket()->0),
                },
            )
        },
        Nesting::Mismatch(at) => Some(
            ParserError {
                span: Span {
                    start: match nesting(tokens, at) {
                        Nesting::Open(open) => if open.len() > 0 {
                            open.last().span.start
                        } else {
                            0
                        },
                        _ => 0,
                    },
                    end: tokens[at].span.end,
                },
                kind: ParserErrorKind::UnexpectedDelimiter(tokens[at].kind->Close_0),
            },
        ),
        Nesting::Reserved(_) => None,
    }
}

/// Whether `tree` is the tree of `tokens`: the well-formed top-level group
/// over the whole of them that flattens to those of them that are neither
/// whitespace nor comments.
pub open spec fn is_tree_of(tree: TokenTreeView, tokens: Seq<TokenView>) -> bool {
    &&& tree.wf()
    &&& tree.data is Group
    &&& tree.data->Group_0 is TopLevel
    &&& tree.span == root_span(tokens, tokens.len() as int)
    &&& tree.flatten() == significant(tokens)
}

/// Whether every tree of `trees` is well formed and may stand inside a group.
pub open spec fn all_nested(trees: Seq<TokenTreeView>) -> bool {
    forall|i: int| 0 <= i < trees.len() ==> (#[trigger] trees[i]).wf() && trees[i].nested()
}

/// The tokens of a tree that stands inside a group begin with a token that is
/// no closing bracket: the token of a leaf, the opening bracket of a group.
pub proof fn lemma_flatten_head(tree: TokenTreeView)
    requires
        tree.wf(),
        tree.nested(),
    ensures
        tree.flatten().len() > 0,
        !(tree.flatten()[0].kind is Close),
        tree.data matches TokenTreeDataView::Token(token) ==> tree.flatten() == seq![token] && !(
        token.kind is Open),
        tree.data matches TokenTreeDataView::Group(kind, body) ==> kind.bracket() is Some
            && tree.flatten() == seq![open_token(kind.bracket()->0, tree.span.start as int)]
            + flatten_all(body) + seq![close_token(kind.bracket()->0, tree.span.end as int)],
{
}

/// The tokens of the first `n` trees are the tokens of the first tree and
/// then those of the `n - 1` that follow it.
proof fn lemma_flatten_first_front(trees: Seq<TokenTreeView>, n: int)
    requires
        0 < n <= trees.len(),
    ensures
        flatten_first(trees, n) == trees[0].flatten() + flatten_first(trees.drop_first(), n - 1),
    decreases n,
{
    let rest = trees.drop_first();
    if n == 1 {
        assert(flatten_first(trees, 0) =~= Seq::<TokenView>::empty());
        assert(flatten_first(rest, 0) =~= Seq::<TokenView>::empty());
        assert(flatten_first(trees, 1) =~= trees[0].flatten());
        assert(trees[0].flatten() + flatten_first(rest, 0) =~= trees[0].flatten());
    } else {
        lemma_flatten_first_front(trees, n - 1);
        assert(rest[n - 2] == trees[n - 1]);
        assert(flatten_first(rest, n - 1) == flatten_first(rest, n - 2) + trees[n - 1].flatten());
        assert(flatten_first(trees, n) =~= trees[0].flatten() + flatten_first(rest, n - 1));
    }
}

/// The tokens of a sequence of trees are the tokens of the first tree and
/// then those of the rest.
proof fn lemma_flatten_all_front(trees: Seq<TokenTreeView>)
    requires
        trees.len() > 0,
    ensures
        flatten_all(trees) == trees[0].flatten() + flatten_all(trees.drop_first()),
{
    lemma_flatten_first_front(trees, trees.len() as int);
}

/// How the tokens of a group, followed by `rest`, fall apart.
proof fn lemma_regroup(open: TokenView, inner: Seq<TokenView>, close: TokenView, rest: Seq<TokenView>)
    ensures
        ((seq![open] + inner + seq![close]) + rest)[0] == open,
        ((seq![open] + inner + seq![close]) + rest).drop_first() == inner + (seq![close] + rest),
        (seq![close] + rest)[0] == close,
        (seq![close] + rest).drop_first() == rest,
        (seq![close] + rest).len() == rest.len() + 1,
        ((seq![open] + inner + seq![close]) + rest).len() == inner.len() + rest.len() + 2,
{
    assert(((seq![open] + inner + seq![close]) + rest).drop_first() =~= inner + (seq![close]
        + rest));
    assert((seq![close] + rest).drop_first() =~= rest);
}

/// How the token of a leaf, followed by `rest`, falls apart.
proof fn lemma_unprefix(token: TokenView, rest: Seq<TokenView>)
    ensures
        (seq![token] + rest)[0] == token,
        (seq![token] + rest).drop_first() == rest,
        (seq![token] + rest).len() == rest.len() + 1,
{
    assert((seq![token] + rest).drop_first() =~= rest);
}

/// The tokens of trees that are followed by `rest`: those of the first tree,
/// then those of the others and `rest`.
proof fn lemma_front(trees: Seq<TokenTreeView>, rest: Seq<TokenView>)
    requires
        all_nested(trees),
        trees.len() > 0,
    ensures
        flatten_all(trees) + rest == trees[0].flatten() + (flatten_all(trees.drop_first())
            + rest),
        all_nested(trees.drop_first()),
        trees == seq![trees[0]] + trees.drop_first(),
        trees[0].wf(),
        trees[0].nested(),
{
    lemma_flatten_all_front(trees);
    assert(flatten_all(trees) + rest =~= trees[0].flatten() + (flatten_all(trees.drop_first())
        + rest));
    assert forall|i: int| 0 <= i < trees.drop_first().len() implies (
    #[trigger] trees.drop_first()[i]).wf() && trees.drop_first()[i].nested() by {
        assert(trees.drop_first()[i] == trees[i + 1]);
    }
    assert(trees =~= seq![trees[0]] + trees.drop_first());
}

/// Tokens that begin with those of a tree do not begin with a closing bracket.
proof fn lemma_no_tree_at_close(trees: Seq<TokenTreeView>, rest: Seq<TokenView>, other: Seq<TokenView>)
    requires
        all_nested(trees),
        other.len() > 0 ==> other[0].kind is Close,
        flatten_all(trees) + rest == other,
    ensures
        trees.len() == 0,
        rest == other,
{
    if trees.len() > 0 {
        lemma_front(trees, rest);
        lemma_flatten_head(trees[0]);
        let head = trees[0].flatten();
        let tail = flatten_all(trees.drop_first()) + rest;
        assert((head + tail)[0] == head[0]);
    }
    assert(flatten_all(trees) =~= Seq::<TokenView>::empty());
    assert(flatten_all(trees) + rest =~= rest);
}

/// Two trees that stand inside a group and begin with the same token are
/// both leaves, and then the same leaf, or both groups of one kind that
/// start at the same offset.
proof fn lemma_same_head(first: TokenTreeView, other: TokenTreeView)
    requires
        first.wf(),
        first.nested(),
        other.wf(),
        other.nested(),
        first.flatten()[0] == other.flatten()[0],
    ensures
        first.data is Token ==> first == other,
        first.data is Group ==> other.data is Group && first.data->Group_0
            == other.data->Group_0 && first.span.start == other.span.start,
{
    lemma_flatten_head(first);
    lemma_flatten_head(other);
    if first.data is Group && other.data is Group {
        let bracket = first.data->Group_0.bracket()->0;
        let other_bracket = other.data->Group_0.bracket()->0;
        assert(first.flatten()[0] == open_token(bracket, first.span.start as int));
        assert(other.flatten()[0] == open_token(other_bracket, other.span.start as int));
    }
}

/// Two sequences of trees whose tokens, each followed by tokens that do not
/// go on with another tree, read the same are the same trees, followed by
/// the same tokens.
proof fn lemma_forest_unique(
    a: Seq<TokenTreeView>,
    b: Seq<TokenTreeView>,
    x: Seq<TokenView>,
    y: Seq<TokenView>,
)
    requires
        all_nested(a),
        all_nested(b),
        x.len() > 0 ==> x[0].kind is Close,
        y.len() > 0 ==> y[0].kind is Close,
        flatten_all(a) + x == flatten_all(b) + y,
    ensures
        a == b,
        x == y,
    decreases (flatten_all(a) + x).len(),
{
    if a.len() == 0 {
        assert(flatten_all(a) =~= Seq::<TokenView>::empty());
        assert(flatten_all(a) + x =~= x);
        lemma_no_tree_at_close(b, y, x);
        assert(a =~= b);
    } else if b.len() == 0 {
        assert(flatten_all(b) =~= Seq::<TokenView>::empty());
        assert(flatten_all(b) + y =~= y);
        lemma_no_tree_at_close(a, x, y);
    } else {
        let first = a[0];
        let other = b[0];
        let ra = flatten_all(a.drop_first()) + x;
        let rb = flatten_all(b.drop_first()) + y;
        lemma_front(a, x);
        lemma_front(b, y);
        lemma_flatten_head(first);
        lemma_flatten_head(other);
        assert((first.flatten() + ra)[0] == first.flatten()[0]);
        assert((other.flatten() + rb)[0] == other.flatten()[0]);
        lemma_same_head(first, other);
        if first.data is Token {
            let token = first.data->Token_0;
            lemma_unprefix(token, ra);
            lemma_unprefix(token, rb);
            lemma_forest_unique(a.drop_first(), b.drop_first(), x, y);
        } else {
            let kind = first.data->Group_0;
            let bracket = kind.bracket()->0;
            let body = first.data->Group_1;
            let other_body = other.data->Group_1;
            let open = open_token(bracket, first.span.start as int);
            let close = close_token(bracket, first.span.end as int);
            let other_close = close_token(bracket, other.span.end as int);
            lemma_regroup(open, flatten_all(body), close, ra);
            lemma_regroup(open, flatten_all(other_body), other_close, rb);
            assert(all_nested(body));
            assert(all_nested(other_body));
            lemma_forest_unique(body, other_body, seq![close] + ra, seq![other_close] + rb);
            assert(first.span.end == other.span.end);
            assert(first == other);
            lemma_forest_unique(a.drop_first(), b.drop_first(), x, y);
        }
    }
}

/// A token sequence has at most one tree.
pub proof fn lemma_tree_unique(a: TokenTreeView, b: TokenTreeView, tokens: Seq<TokenView>)
    requires
        is_tree_of(a, tokens),
        is_tree_of(b, tokens),
    ensures
        a == b,
{
    let none = Seq::<TokenView>::empty();
    assert(flatten_all(a.data->Group_1) + none =~= flatten_all(b.data->Group_1) + none);
    lemma_forest_unique(a.data->Group_1, b.data->Group_1, none, none);
}

/// The tree of `tokens`, where they have one.
pub open spec fn tree_of(tokens: Seq<TokenView>) -> TokenTreeView {
    choose|tree: TokenTreeView| is_tree_of(tree, tokens)
}

/// Whether every opening bracket of `tokens` is closed by the bracket that
/// matches it, and nothing else is closed.
pub open spec fn balanced(tokens: Seq<TokenView>) -> bool {
    nesting(tokens, tokens.len() as int) == Nesting::Open(Seq::empty())
}

/// What the brackets among the first `n` tokens come to depends on those tokens alone.
proof fn lemma_nesting_prefix(a: Seq<TokenView>, b: Seq<TokenView>, n: int)
    requires
        0 <= n <= a.len(),
        n <= b.len(),
        forall|i: int| 0 <= i < n ==> a[i] == b[i],
    ensures
        nesting(a, n) == nesting(b, n),
    decreases n,
{
    if n > 0 {
        lemma_nesting_prefix(a, b, n - 1);
    }
}

/// The groups that are open after all of `tokens`, if the brackets nest.
spec fn open_after(tokens: Seq<TokenView>) -> Option<Seq<OpenGroup>> {
    match nesting(tokens, tokens.len() as int) {
        Nesting::Open(open) => Some(open),
        _ => None,
    }
}

/// What one more token does to the open groups.
proof fn lemma_open_after_push(tokens: Seq<TokenView>, token: TokenView)
    ensures
        open_after(tokens.push(token)) == match open_after(tokens) {
            Some(open) => match token.kind {
                TokenKind::Open(bracket) => match GroupKind::of_bracket(bracket) {
                    Some(kind) => Some(open.push(OpenGroup { span: token.span, kind })),
                    None => None,
                },
                TokenKind::Close(bracket) => if open.len() > 0 && GroupKind::of_bracket(bracket)
                    == Some(open.last().kind) {
                    Some(open.drop_last())
                } else {
                    None
                },
                _ => Some(open),
            },
            None => None,
        },
{
    let longer = tokens.push(token);
    lemma_nesting_prefix(tokens, longer, tokens.len() as int);
    assert(longer[tokens.len() as int] == token);
}

/// Whitespace and comments do not count for the nesting of brackets.
proof fn lemma_open_after_significant(tokens: Seq<TokenView>)
    ensures
        open_after(significant(tokens)) == open_after(tokens),
    decreases tokens.len(),
{
    if tokens.len() > 0 {
        let rest = tokens.drop_last();
        let token = tokens.last();
        lemma_open_after_significant(rest);
        assert(tokens =~= rest.push(token));
        lemma_open_after_push(rest, token);
        if !is_trivia(token.kind) {
            lemma_open_after_push(significant(rest), token);
        }
    }
}

/// The tokens of a tree that stands inside a group leave the open groups as
/// they were.
proof fn lemma_tree_nests(before: Seq<TokenView>, tree: TokenTreeView)
    requires
        tree.wf(),
        tree.nested(),
        open_after(before) is Some,
    ensures
        open_after(before + tree.flatten()) == open_after(before),
    decreases tree, 0int,
{
    match tree.data {
        TokenTreeDataView::Token(token) => {
            lemma_open_after_push(before, token);
            assert(before + tree.flatten() =~= before.push(token));
        },
        TokenTreeDataView::Group(kind, body) => {
            let bracket = kind.bracket()->0;
            let open = open_token(bracket, tree.span.start as int);
            let close = close_token(bracket, tree.span.end as int);
            let groups = open_after(before)->0;
            lemma_open_after_push(before, open);
            assert(all_nested(body));
            lemma_forest_nests(before.push(open), body, body.len() as int);
            let inner = before.push(open) + flatten_all(body);
            lemma_open_after_push(inner, close);
            assert(groups.push(OpenGroup { span: open.span, kind }).drop_last() =~= groups);
            assert(before + tree.flatten() =~= inner.push(close));
        },
    }
}

/// The tokens of trees that stand inside a group leave the open groups as
/// they were.
proof fn lemma_forest_nests(before: Seq<TokenView>, trees: Seq<TokenTreeView>, n: int)
    requires
        all_nested(trees),
        0 <= n <= trees.len(),
        open_after(before) is Some,
    ensures
        open_after(before + flatten_first(trees, n)) == open_after(before),
    decreases trees, n,
{
    if n == 0 {
        assert(before + flatten_first(trees, 0) =~= before);
    } else {
        lemma_forest_nests(before, trees, n - 1);
        let sofar = before + flatten_first(trees, n - 1);
        lemma_tree_nests(sofar, trees[n - 1]);
        assert(before + flatten_first(trees, n) =~= sofar + trees[n - 1].flatten());
    }
}

/// Only balanced tokens have a tree: the brackets of a token sequence that
/// is what a well-formed tree flattens to, whitespace and comments apart,
/// nest, and none of them is left open.
pub proof fn lemma_tree_is_balanced(tree: TokenTreeView, tokens: Seq<TokenView>)
    requires
        is_tree_of(tree, tokens),
    ensures
        balanced(tokens),
{
    let none = Seq::<TokenView>::empty();
    let body = tree.data->Group_1;
    lemma_forest_nests(none, body, body.len() as int);
    assert(none + flatten_all(body) =~= flatten_all(body));
    lemma_open_after_significant(tokens);
}

/// A source that opens a group with a parenthesis has no tree: whatever
/// else it holds, its tokens are not balanced.
pub proof fn lemma_parenthesis_has_no_tree(tokens: Seq<TokenView>, at: int)
    requires
        0 <= at < tokens.len(),
        tokens[at].kind == TokenKind::Open(BracketKind::Paren),
    ensures
        !balanced(tokens),
{
    assert(!(nesting(tokens, at + 1) is Open));
    lemma_nesting_stops(tokens, at + 1, tokens.len() as int);
}

/// A group that is being built: the span of its opening bracket (for the top
/// level, the span of the tokens read so far), its kind and the trees that
/// it holds so far.
struct Frame<'a> {
    span: Span,
    kind: GroupKind,
    body: Vec<TokenTree<'a>>,
}

/// A frame as contracts see it.
struct FrameView {
    span: Span,
    kind: GroupKind,
    body: Seq<TokenTreeView>,
}

impl<'a> View for Frame<'a> {
    type V = FrameView;

    closed spec fn view(&self) -> FrameView {
        FrameView { span: self.span, kind: self.kind, body: trees_view(self.body@) }
    }
}

/// The groups that are being built, the innermost last.
struct Stack<'a> {
    stack: Vec<Frame<'a>>,
}

impl<'a> View for Stack<'a> {
    type V = Seq<FrameView>;

    closed spec fn view(&self) -> Seq<FrameView> {
        Seq::new(self.stack@.len(), |i: int| self.stack@[i]@)
    }
}

/// The frames with the span of the top level moved to end at `end`.
spec fn covered(frames: Seq<FrameView>, end: usize) -> Seq<FrameView> {
    frames.update(
        0,
        FrameView { span: Span { start: frames[0].span.start, end }, ..frames[0] },
    )
}

/// The frames with `tree` added to the innermost.
spec fn pushed(frames: Seq<FrameView>, tree: TokenTreeView) -> Seq<FrameView> {
    frames.update(
        frames.len() - 1,
        FrameView { body: frames.last().body.push(tree), ..frames.last() },
    )
}

/// The group that the innermost frame becomes when a bracket that ends at `end` closes it.
spec fn closed_group(frames: Seq<FrameView>, end: usize) -> TokenTreeView {
    TokenTreeView {
        span: Span { start: frames.last().span.start, end },
        data: TokenTreeDataView::Group(frames.last().kind, frames.last().body),
    }
}

/// The open groups that the frames above the top level stand for.
spec fn open_groups(frames: Seq<FrameView>) -> Seq<OpenGroup> {
    Seq::new(
        (frames.len() - 1) as nat,
        |i: int| OpenGroup { span: frames[i + 1].span, kind: frames[i + 1].kind },
    )
}

/// The tokens that frame `i` holds: its opening bracket, unless it is the
/// top level, and the tokens of its trees.
spec fn frame_flat(frames: Seq<FrameView>, i: int) -> Seq<TokenView> {
    if i == 0 {
        flatten_all(frames[i].body)
    } else {
        seq![open_token(frames[i].kind.bracket()->0, frames[i].span.start as int)] + flatten_all(
            frames[i].body,
        )
    }
}

/// The tokens that the first `n` frames hold.
spec fn frames_flat(frames: Seq<FrameView>, n: int) -> Seq<TokenView>
    decreases n,
{
    if n <= 0 {
        Seq::empty()
    } else {
        frames_flat(frames, n - 1) + frame_flat(frames, n - 1)
    }
}

/// Byte offset at which the last of the first `n` tokens ends.
spec fn end_of(tokens: Seq<TokenView>, n: int) -> int {
    if n <= 0 {
        0
    } else {
        tokens[n - 1].span.end as int
    }
}

/// Byte offset from which the trees of frame `i` may begin.
spec fn lo(frames: Seq<FrameView>, i: int) -> int {
    if i == 0 {
        0
    } else {
        frames[i].span.end as int
    }
}

/// Byte offset by which the trees of frame `i` have ended, `pos` being the
/// end of the last token read.
spec fn hi(frames: Seq<FrameView>, i: int, pos: int) -> int {
    if i + 1 < frames.len() {
        frames[i + 1].span.start as int
    } else {
        pos
    }
}

/// The frames are what the first `n` tokens leave behind.
#[verifier::opaque]
spec fn inv(frames: Seq<FrameView>, tokens: Seq<TokenView>, n: int) -> bool {
    &&& 0 <= n <= tokens.len()
    &&& frames.len() >= 1
    &&& frames[0].kind is TopLevel
    &&& frames[0].span == root_span(tokens, n)
    &&& n > 0 ==> end_of(tokens, n) > 0
    &&& forall|i: int|
        1 <= i < frames.len() ==> !((#[trigger] frames[i]).kind is TopLevel) && frames[i].span.end
            == frames[i].span.start + 1
    &&& nesting(tokens, n) == Nesting::Open(open_groups(frames))
    &&& frames_flat(frames, frames.len() as int) == significant(tokens.take(n))
    &&& forall|i: int|
        0 <= i < frames.len() ==> lo(frames, i) <= hi(frames, i, end_of(tokens, n)) && in_order(
            (#[trigger] frames[i]).body,
            lo(frames, i),
            hi(frames, i, end_of(tokens, n)),
        )
    &&& forall|i: int, k: int|
        0 <= i < frames.len() && 0 <= k < frames[i].body.len() ==> (
        #[trigger] frames[i].body[k]).wf() && frames[i].body[k].nested()
}

/// What is known of the token with index `n` before it is read.
spec fn next_ok(tokens: Seq<TokenView>, n: int) -> bool {
    &&& 0 <= n < tokens.len()
    &&& tokens[n].wf()
    &&& end_of(tokens, n) <= tokens[n].span.start
}

proof fn lemma_bracket_token(token: TokenView)
    requires
        token.wf(),
        token.kind is Open || token.kind is Close,
    ensures
        token.span.end == token.span.start + 1,
        token.kind matches TokenKind::Open(bracket) ==> token == open_token(
            bracket,
            token.span.start as int,
        ),
        token.kind matches TokenKind::Close(bracket) ==> token == close_token(
            bracket,
            token.span.end as int,
        ),
{
    let c = token.text[0];
    assert(token.text =~= seq![c]);
    lemma_byte_len_single(c);
}

proof fn lemma_token_not_empty(token: TokenView)
    requires
        token.wf(),
    ensures
        token.span.start < token.span.end,
{
    lemma_byte_len_bounds(token.text);
}

proof fn lemma_flatten_first_push(trees: Seq<TokenTreeView>, tree: TokenTreeView, n: int)
    requires
        0 <= n <= trees.len(),
    ensures
        flatten_first(trees.push(tree), n) == flatten_first(trees, n),
    decreases n,
{
    if n > 0 {
        lemma_flatten_first_push(trees, tree, n - 1);
        assert(trees.push(tree)[n - 1] == trees[n - 1]);
    }
}

proof fn lemma_flatten_all_push(trees: Seq<TokenTreeView>, tree: TokenTreeView)
    ensures
        flatten_all(trees.push(tree)) == flatten_all(trees) + tree.flatten(),
{
    lemma_flatten_first_push(trees, tree, trees.len() as int);
    assert(trees.push(tree)[trees.len() as int] == tree);
}

/// The tokens of the first `n` frames depend on those frames alone, and of
/// the top level not on its span.
proof fn lemma_frames_flat_same(a: Seq<FrameView>, b: Seq<FrameView>, n: int)
    requires
        0 <= n <= a.len(),
        n <= b.len(),
        n > 0 ==> a[0].body == b[0].body,
        forall|i: int| 1 <= i < n ==> a[i] == b[i],
    ensures
        frames_flat(a, n) == frames_flat(b, n),
    decreases n,
{
    if n > 0 {
        lemma_frames_flat_same(a, b, n - 1);
    }
}

proof fn lemma_in_order_wider(trees: Seq<TokenTreeView>, lo: int, hi: int, wider: int)
    requires
        in_order(trees, lo, hi),
        hi <= wider,
    ensures
        in_order(trees, lo, wider),
{
}

proof fn lemma_in_order_push(trees: Seq<TokenTreeView>, tree: TokenTreeView, lo: int, hi: int, end: int)
    requires
        in_order(trees, lo, hi),
        lo <= hi <= tree.span.start < tree.span.end <= end,
    ensures
        in_order(trees.push(tree), lo, end),
{
    let after = trees.push(tree);
    assert forall|i: int| 0 <= i < after.len() implies lo <= (#[trigger] after[i]).span.start
        && after[i].span.start < after[i].span.end && after[i].span.end <= end by {
        if i < trees.len() {
            assert(after[i] == trees[i]);
        }
    }
    assert forall|i: int, j: int| 0 <= i < j < after.len() implies (#[trigger] after[i]).span.end
        <= (#[trigger] after[j]).span.start by {
        assert(after[i] == trees[i]);
        if j < trees.len() {
            assert(after[j] == trees[j]);
        }
    }
}

/// What the reader needs of the frames before it reads token `n`.
proof fn lemma_frames_ready(frames: Seq<FrameView>, tokens: Seq<TokenView>, n: int)
    requires
        inv(frames, tokens, n),
        next_ok(tokens, n),
    ensures
        frames.len() >= 1,
        frames[0].kind is TopLevel,
        frames[0].span.start == 0,
        frames.last().span.start <= tokens[n].span.end,
{
    reveal(inv);
    let last = frames.len() - 1;
    assert(lo(frames, last) <= hi(frames, last, end_of(tokens, n)));
    lemma_token_not_empty(tokens[n]);
}

/// Reading the top level's span forward keeps everything else as it was.
proof fn lemma_step_trivia(frames: Seq<FrameView>, tokens: Seq<TokenView>, n: int)
    requires
        inv(frames, tokens, n),
        next_ok(tokens, n),
        !(tokens[n].kind is Open),
        !(tokens[n].kind is Close),
        is_trivia(tokens[n].kind),
    ensures
        inv(covered(frames, tokens[n].span.end), tokens, n + 1),
{
    reveal(inv);
    let after = covered(frames, tokens[n].span.end);
    let pos = end_of(tokens, n);
    let end = end_of(tokens, n + 1);
    lemma_token_not_empty(tokens[n]);
    assert(open_groups(after) =~= open_groups(frames));
    assert(tokens.take(n + 1).drop_last() =~= tokens.take(n));
    lemma_frames_flat_same(frames, after, frames.len() as int);
    assert forall|i: int| 0 <= i < after.len() implies lo(after, i) <= hi(after, i, end)
        && in_order((#[trigger] after[i]).body, lo(after, i), hi(after, i, end)) by {
        assert(after[i].body == frames[i].body);
        assert(lo(after, i) == lo(frames, i));
        assert(hi(frames, i, pos) <= hi(after, i, end));
        lemma_in_order_wider(frames[i].body, lo(frames, i), hi(frames, i, pos), hi(after, i, end));
    }
    assert forall|i: int, k: int| 0 <= i < after.len() && 0 <= k < after[i].body.len() implies (
    #[trigger] after[i].body[k]).wf() && after[i].body[k].nested() by {
        assert(after[i].body[k] == frames[i].body[k]);
    }
}

/// A token that is neither a bracket nor whitespace nor a comment becomes a
/// leaf of the innermost frame.
proof fn lemma_step_leaf(frames: Seq<FrameView>, tokens: Seq<TokenView>, n: int)
    requires
        inv(frames, tokens, n),
        next_ok(tokens, n),
        !(tokens[n].kind is Open),
        !(tokens[n].kind is Close),
        !is_trivia(tokens[n].kind),
    ensures
        inv(
            pushed(
                covered(frames, tokens[n].span.end),
                TokenTreeView { span: tokens[n].span, data: TokenTreeDataView::Token(tokens[n]) },
            ),
            tokens,
            n + 1,
        ),
{
    reveal(inv);
    let token = tokens[n];
    let leaf = TokenTreeView { span: token.span, data: TokenTreeDataView::Token(token) };
    let moved = covered(frames, token.span.end);
    let after = pushed(moved, leaf);
    let last = frames.len() - 1;
    let pos = end_of(tokens, n);
    let end = end_of(tokens, n + 1);
    lemma_token_not_empty(token);
    assert(open_groups(after) =~= open_groups(frames));
    assert(tokens.take(n + 1).drop_last() =~= tokens.take(n));
    assert(after[last].body == frames[last].body.push(leaf));
    lemma_flatten_all_push(frames[last].body, leaf);
    lemma_frames_flat_same(frames, after, last);
    assert(leaf.flatten() == seq![token]);
    assert(frames_flat(after, last + 1) =~= frames_flat(frames, last + 1).push(token));
    assert forall|i: int| 0 <= i < after.len() implies lo(after, i) <= hi(after, i, end)
        && in_order((#[trigger] after[i]).body, lo(after, i), hi(after, i, end)) by {
        assert(lo(after, i) == lo(frames, i));
        if i < last {
            assert(after[i].body == frames[i].body);
            assert(hi(frames, i, pos) == hi(after, i, end));
        } else {
            lemma_in_order_push(frames[last].body, leaf, lo(frames, last), pos, end);
        }
    }
    assert forall|i: int, k: int| 0 <= i < after.len() && 0 <= k < after[i].body.len() implies (
    #[trigger] after[i].body[k]).wf() && after[i].body[k].nested() by {
        if i < last || k < frames[last].body.len() {
            assert(after[i].body[k] == frames[i].body[k]);
        }
    }
}

/// An opening bracket becomes a new innermost frame.
proof fn lemma_step_open(frames: Seq<FrameView>, tokens: Seq<TokenView>, n: int, kind: GroupKind)
    requires
        inv(frames, tokens, n),
        next_ok(tokens, n),
        tokens[n].kind is Open,
        GroupKind::of_bracket(tokens[n].kind->Open_0) == Some(kind),
    ensures
        inv(
            covered(frames, tokens[n].span.end).push(
                FrameView { span: tokens[n].span, kind, body: Seq::empty() },
            ),
            tokens,
            n + 1,
        ),
{
    reveal(inv);
    let token = tokens[n];
    let frame = FrameView { span: token.span, kind, body: Seq::empty() };
    let moved = covered(frames, token.span.end);
    let after = moved.push(frame);
    let count = frames.len() as int;
    let pos = end_of(tokens, n);
    let end = end_of(tokens, n + 1);
    lemma_bracket_token(token);
    assert(open_groups(after) =~= open_groups(frames).push(
        OpenGroup { span: token.span, kind },
    ));
    assert(tokens.take(n + 1).drop_last() =~= tokens.take(n));
    lemma_frames_flat_same(frames, after, count);
    assert(flatten_all(frame.body) =~= Seq::<TokenView>::empty());
    assert(frame_flat(after, count) =~= seq![token]);
    assert(frames_flat(after, count + 1) =~= frames_flat(frames, count).push(token));
    assert forall|i: int| 1 <= i < after.len() implies !((#[trigger] after[i]).kind is TopLevel)
        && after[i].span.end == after[i].span.start + 1 by {
        if i < count {
            assert(after[i] == frames[i]);
        }
    }
    assert forall|i: int| 0 <= i < after.len() implies lo(after, i) <= hi(after, i, end)
        && in_order((#[trigger] after[i]).body, lo(after, i), hi(after, i, end)) by {
        if i < count {
            assert(after[i].body == frames[i].body);
            assert(lo(after, i) == lo(frames, i));
            assert(hi(frames, i, pos) <= hi(after, i, end));
            lemma_in_order_wider(
                frames[i].body,
                lo(frames, i),
                hi(frames, i, pos),
                hi(after, i, end),
            );
        }
    }
    assert forall|i: int, k: int| 0 <= i < after.len() && 0 <= k < after[i].body.len() implies (
    #[trigger] after[i].body[k]).wf() && after[i].body[k].nested() by {
        assert(after[i].body[k] == frames[i].body[k]);
    }
}

/// The frames after a closing bracket that ends at `end` has closed the innermost of them.
spec fn closed(frames: Seq<FrameView>, end: usize) -> Seq<FrameView> {
    pushed(covered(frames, end).drop_last(), closed_group(covered(frames, end), end))
}

/// What the next token is when it closes the innermost frame.
spec fn closes(frames: Seq<FrameView>, tokens: Seq<TokenView>, n: int) -> bool {
    &&& inv(frames, tokens, n)
    &&& next_ok(tokens, n)
    &&& tokens[n].kind is Close
    &&& GroupKind::of_bracket(tokens[n].kind->Close_0) == Some(frames.last().kind)
}

proof fn lemma_close_shape(frames: Seq<FrameView>, tokens: Seq<TokenView>, n: int)
    requires
        closes(frames, tokens, n),
    ensures
        frames.len() >= 2,
        closed(frames, tokens[n].span.end).len() == frames.len() - 1,
        closed(frames, tokens[n].span.end)[0].body == if frames.len() == 2 {
            frames[0].body.push(closed_group(frames, tokens[n].span.end))
        } else {
            frames[0].body
        },
        closed(frames, tokens[n].span.end)[0].kind == frames[0].kind,
        closed(frames, tokens[n].span.end)[0].span == root_span(tokens, n + 1),
        forall|i: int|
            1 <= i < frames.len() - 2 ==> closed(frames, tokens[n].span.end)[i] == frames[i],
        frames.len() > 2 ==> closed(frames, tokens[n].span.end)[frames.len() - 2] == (FrameView {
            body: frames[frames.len() - 2].body.push(closed_group(frames, tokens[n].span.end)),
            ..frames[frames.len() - 2]
        }),
        closed_group(covered(frames, tokens[n].span.end), tokens[n].span.end) == closed_group(
            frames,
            tokens[n].span.end,
        ),
        tokens[n].span.end == tokens[n].span.start + 1,
        tokens[n] == close_token(frames.last().kind.bracket()->0, tokens[n].span.end as int),
        frames.last().span.end == frames.last().span.start + 1,
        frames.last().kind.bracket() is Some,
{
    reveal(inv);
    lemma_bracket_token(tokens[n]);
    assert(frames[0].kind is TopLevel);
    let count = frames.len() as int;
    assert(!(frames[count - 1].kind is TopLevel));
}

proof fn lemma_close_nesting(frames: Seq<FrameView>, tokens: Seq<TokenView>, n: int)
    requires
        closes(frames, tokens, n),
    ensures
        nesting(tokens, n + 1) == Nesting::Open(
            open_groups(closed(frames, tokens[n].span.end)),
        ),
{
    reveal(inv);
    lemma_close_shape(frames, tokens, n);
    let after = closed(frames, tokens[n].span.end);
    assert(open_groups(frames).len() > 0);
    assert(open_groups(frames).last().kind == frames.last().kind);
    assert forall|i: int| 0 <= i < open_groups(after).len() implies open_groups(after)[i]
        == open_groups(frames).drop_last()[i] by {
        assert(after[i + 1].span == frames[i + 1].span);
        assert(after[i + 1].kind == frames[i + 1].kind);
    }
    assert(open_groups(after) =~= open_groups(frames).drop_last());
}

proof fn lemma_close_flat(frames: Seq<FrameView>, tokens: Seq<TokenView>, n: int)
    requires
        closes(frames, tokens, n),
    ensures
        frames_flat(
            closed(frames, tokens[n].span.end),
            closed(frames, tokens[n].span.end).len() as int,
        ) == significant(tokens.take(n + 1)),
{
    reveal(inv);
    lemma_close_shape(frames, tokens, n);
    let token = tokens[n];
    let after = closed(frames, token.span.end);
    let group = closed_group(frames, token.span.end);
    let count = frames.len() as int;
    let top = frames[count - 1];
    let below = frames[count - 2];
    let bracket = top.kind.bracket()->0;
    assert(tokens.take(n + 1).drop_last() =~= tokens.take(n));
    assert(tokens.take(n + 1).last() == token);
    assert(significant(tokens.take(n + 1)) == significant(tokens.take(n)).push(token));
    let base = frames_flat(frames, count - 2);
    let lower = frame_flat(frames, count - 2);
    let upper = frame_flat(frames, count - 1);
    assert(frames_flat(frames, count - 1) == base + lower);
    assert(frames_flat(frames, count) == (base + lower) + upper);
    lemma_frames_flat_same(frames, after, count - 2);
    assert(frames_flat(after, count - 2) == base);
    assert(after[count - 2].body == below.body.push(group));
    lemma_flatten_all_push(below.body, group);
    assert(upper == seq![open_token(bracket, top.span.start as int)] + flatten_all(top.body));
    assert(group.flatten() == seq![open_token(bracket, top.span.start as int)] + flatten_all(
        top.body,
    ) + seq![token]);
    assert(group.flatten() =~= upper.push(token));
    assert(after[count - 2].kind == below.kind);
    assert(after[count - 2].span.start == below.span.start);
    assert(frame_flat(after, count - 2) =~= lower + upper.push(token));
    assert(frames_flat(after, count - 1) == base + frame_flat(after, count - 2));
    assert(base + (lower + upper.push(token)) =~= ((base + lower) + upper).push(token));
}

proof fn lemma_close_group(frames: Seq<FrameView>, tokens: Seq<TokenView>, n: int)
    requires
        closes(frames, tokens, n),
    ensures
        closed_group(frames, tokens[n].span.end).wf(),
        closed_group(frames, tokens[n].span.end).nested(),
        in_order(
            frames[frames.len() - 2].body.push(closed_group(frames, tokens[n].span.end)),
            lo(frames, frames.len() - 2),
            tokens[n].span.end as int,
        ),
{
    reveal(inv);
    lemma_close_shape(frames, tokens, n);
    let token = tokens[n];
    let group = closed_group(frames, token.span.end);
    let count = frames.len() as int;
    let pos = end_of(tokens, n);
    let top = frames[count - 1];
    let below = frames[count - 2];
    assert(lo(frames, count - 1) <= hi(frames, count - 1, pos));
    assert(in_order(top.body, lo(frames, count - 1), hi(frames, count - 1, pos)));
    assert(lo(frames, count - 2) <= hi(frames, count - 2, pos));
    assert(in_order(below.body, lo(frames, count - 2), hi(frames, count - 2, pos)));
    lemma_in_order_wider(top.body, top.span.end as int, pos, token.span.start as int);
    assert(group.inner_start() == top.span.end);
    assert(group.inner_end() == token.span.start);
    assert forall|k: int| 0 <= k < top.body.len() implies (#[trigger] top.body[k]).wf()
        && top.body[k].nested() by {
        assert(frames[count - 1].body[k].wf());
    }
    lemma_in_order_push(
        below.body,
        group,
        lo(frames, count - 2),
        top.span.start as int,
        token.span.end as int,
    );
}

/// A closing bracket that matches the innermost frame turns it into a group
/// of the frame below.
proof fn lemma_step_close(frames: Seq<FrameView>, tokens: Seq<TokenView>, n: int)
    requires
        closes(frames, tokens, n),
    ensures
        frames.len() >= 2,
        inv(closed(frames, tokens[n].span.end), tokens, n + 1),
{
    reveal(inv);
    lemma_close_shape(frames, tokens, n);
    lemma_close_nesting(frames, tokens, n);
    lemma_close_flat(frames, tokens, n);
    lemma_close_group(frames, tokens, n);
    let token = tokens[n];
    let after = closed(frames, token.span.end);
    let group = closed_group(frames, token.span.end);
    let count = frames.len() as int;
    let pos = end_of(tokens, n);
    let end = end_of(tokens, n + 1);
    let below = frames[count - 2];
    assert(after[count - 2].body == below.body.push(group));
    assert forall|i: int| 1 <= i < after.len() implies !((#[trigger] after[i]).kind is TopLevel)
        && after[i].span.end == after[i].span.start + 1 by {
        assert(after[i].kind == frames[i].kind);
        assert(after[i].span == frames[i].span);
    }
    assert forall|i: int| 0 <= i < after.len() implies lo(after, i) <= hi(after, i, end)
        && in_order((#[trigger] after[i]).body, lo(after, i), hi(after, i, end)) by {
        assert(lo(after, i) == lo(frames, i));
        assert(lo(frames, i) <= hi(frames, i, pos));
        assert(in_order(frames[i].body, lo(frames, i), hi(frames, i, pos)));
        if i < count - 2 {
            assert(after[i].body == frames[i].body);
            assert(after[i + 1].span == frames[i + 1].span);
            assert(hi(frames, i, pos) == hi(after, i, end));
        }
    }
    assert forall|i: int, k: int| 0 <= i < after.len() && 0 <= k < after[i].body.len() implies (
    #[trigger] after[i].body[k]).wf() && after[i].body[k].nested() by {
        if i < count - 2 || k < below.body.len() {
            assert(after[i].body[k] == frames[i].body[k]);
        }
    }
}

/// Once the brackets have gone wrong, later tokens change nothing.
proof fn lemma_nesting_stops(tokens: Seq<TokenView>, n: int, m: int)
    requires
        0 <= n <= m,
        !(nesting(tokens, n) is Open),
    ensures
        nesting(tokens, m) == nesting(tokens, n),
    decreases m - n,
{
    if n < m {
        lemma_nesting_stops(tokens, n, m - 1);
    }
}

/// What the frames come to when the tokens are used up.
proof fn lemma_finish(frames: Seq<FrameView>, tokens: Seq<TokenView>)
    requires
        inv(frames, tokens, tokens.len() as int),
    ensures
        !reserved(tokens),
        frames.len() >= 1,
        frames.len() > 1 ==> !(frames.last().kind is TopLevel) && build_error(tokens) == Some(
            ParserError {
                span: frames.last().span,
                kind: ParserErrorKind::ExpectedDelimiter(frames.last().kind.bracket()->0),
            },
        ),
        frames.len() == 1 ==> balanced(tokens) && build_error(tokens) is None && is_tree_of(
            TokenTreeView {
                span: frames[0].span,
                data: TokenTreeDataView::Group(frames[0].kind, frames[0].body),
            },
            tokens,
        ),
{
    reveal(inv);
    let n = tokens.len() as int;
    if frames.len() > 1 {
        assert(open_groups(frames).last().span == frames.last().span);
        assert(open_groups(frames).last().kind == frames.last().kind);
    } else {
        let tree = TokenTreeView {
            span: frames[0].span,
            data: TokenTreeDataView::Group(frames[0].kind, frames[0].body),
        };
        assert(tokens.take(n) =~= tokens);
        assert(open_groups(frames) =~= Seq::<OpenGroup>::empty());
        assert(frames_flat(frames, 1) == frames_flat(frames, 0) + frame_flat(frames, 0));
        assert(frames_flat(frames, 1) =~= flatten_all(frames[0].body));
        assert(in_order(frames[0].body, lo(frames, 0), hi(frames, 0, end_of(tokens, n))));
        lemma_in_order_wider(frames[0].body, 0, end_of(tokens, n), tree.span.end as int);
        assert forall|k: int| 0 <= k < frames[0].body.len() implies (
        #[trigger] frames[0].body[k]).wf() && frames[0].body[k].nested() by {}
        assert(tree.wf());
    }
}

/// What the frames are before any token is read.
proof fn lemma_start(tokens: Seq<TokenView>)
    ensures
        inv(
            seq![
                FrameView {
                    span: Span { start: 0, end: 1 },
                    kind: GroupKind::TopLevel,
                    body: Seq::empty(),
                },
            ],
            tokens,
            0,
        ),
{
    reveal(inv);
    let frames = seq![
        FrameView { span: Span { start: 0, end: 1 }, kind: GroupKind::TopLevel, body: Seq::empty() },
    ];
    assert(open_groups(frames) =~= Seq::<OpenGroup>::empty());
    assert(tokens.take(0) =~= Seq::<TokenView>::empty());
    assert(frames_flat(frames, 1) == frames_flat(frames, 0) + frame_flat(frames, 0));
    assert(frames_flat(frames, 1) =~= Seq::<TokenView>::empty());
}

/// A closing bracket that does not match ends the reading with an error.
proof fn lemma_step_mismatch(frames: Seq<FrameView>, tokens: Seq<TokenView>, n: int)
    requires
        inv(frames, tokens, n),
        next_ok(tokens, n),
        tokens[n].kind is Close,
        GroupKind::of_bracket(tokens[n].kind->Close_0) != Some(frames.last().kind),
    ensures
        !reserved(tokens),
        build_error(tokens) == Some(
            ParserError {
                span: Span { start: frames.last().span.start, end: tokens[n].span.end },
                kind: ParserErrorKind::UnexpectedDelimiter(tokens[n].kind->Close_0),
            },
        ),
{
    reveal(inv);
    if frames.len() > 1 {
        assert(open_groups(frames).last().span == frames.last().span);
        assert(open_groups(frames).last().kind == frames.last().kind);
    }
    assert(nesting(tokens, n + 1) == Nesting::Mismatch(n));
    lemma_nesting_stops(tokens, n + 1, tokens.len() as int);
}

/// A parenthesis that opens a group ends the reading without a result.
proof fn lemma_step_reserved(frames: Seq<FrameView>, tokens: Seq<TokenView>, n: int)
    requires
        inv(frames, tokens, n),
        next_ok(tokens, n),
        tokens[n].kind == TokenKind::Open(BracketKind::Paren),
    ensures
        reserved(tokens),
{
    reveal(inv);
    assert(nesting(tokens, n + 1) == Nesting::Reserved(n));
    lemma_nesting_stops(tokens, n + 1, tokens.len() as int);
}

impl<'a> Stack<'a> {
    fn new() -> (stack: Stack<'a>)
        ensures
            stack@ == seq![
                FrameView {
                    span: Span { start: 0, end: 1 },
                    kind: GroupKind::TopLevel,
                    body: Seq::empty(),
                },
            ],
    {
        let stack = Stack {
            stack: vec![
                Frame { span: Span::starting_at(0), kind: GroupKind::TopLevel, body: Vec::new() },
            ],
        };
        assert(stack@ =~= seq![
            FrameView {
                span: Span { start: 0, end: 1 },
                kind: GroupKind::TopLevel,
                body: Seq::empty(),
            },
        ]) by {
            assert(stack.stack@[0]@.body =~= Seq::<TokenTreeView>::empty());
        }
        stack
    }

    /// Moves the end of the top level's span to the end of `span`.
    fn cover(&mut self, span: Span)
        requires
            old(self)@.len() >= 1,
            old(self)@[0].span.start <= span.end,
        ensures
            final(self)@ == covered(old(self)@, span.end),
    {
        self.stack[0].span = self.stack[0].span.join(span);
        assert(self@ =~= covered(old(self)@, span.end));
    }

    /// Adds `tree` to the innermost group.
    fn push(&mut self, tree: TokenTree<'a>)
        requires
            old(self)@.len() >= 1,
        ensures
            final(self)@ == pushed(old(self)@, tree@),
    {
        let last = self.stack.len() - 1;
        self.stack[last].body.push(tree);
        assert(self@ =~= pushed(old(self)@, tree@)) by {
            assert(self.stack@[last as int]@.body =~= old(self).stack@[last as int]@.body.push(
                tree@,
            ));
        }
    }

    /// Begins a group at the bracket that covers `start`.
    fn open(&mut self, start: Span, kind: BracketKind)
        requires
            !(kind is Paren),
        ensures
            final(self)@ == old(self)@.push(
                FrameView {
                    span: start,
                    kind: GroupKind::of_bracket(kind)->0,
                    body: Seq::empty(),
                },
            ),
    {
        self.stack.push(Frame { span: start, kind: GroupKind::from_bracket(kind), body: Vec::new() });
        assert(self@ =~= old(self)@.push(
            FrameView { span: start, kind: GroupKind::of_bracket(kind)->0, body: Seq::empty() },
        )) by {
            let last = old(self).stack@.len() as int;
            assert(self.stack@[last]@.body =~= Seq::<TokenTreeView>::empty());
        }
    }

    /// Ends the innermost group at the bracket that covers `end`, if the
    /// bracket is the one that the group was opened with.
    fn close(&mut self, end: Span, kind: BracketKind) -> (result: Result<(), ParserError>)
        requires
            old(self)@.len() >= 1,
            old(self)@[0].kind is TopLevel,
            old(self)@.last().span.start <= end.end,
        ensures
            GroupKind::of_bracket(kind) == Some(old(self)@.last().kind) ==> result is Ok
                && final(self)@ == pushed(
                old(self)@.drop_last(),
                closed_group(old(self)@, end.end),
            ),
            GroupKind::of_bracket(kind) != Some(old(self)@.last().kind) ==> result == Err::<
                (),
                ParserError,
            >(
                ParserError {
                    span: Span { start: old(self)@.last().span.start, end: end.end },
                    kind: ParserErrorKind::UnexpectedDelimiter(kind),
                },
            ),
    {
        let frame = self.stack.pop().unwrap();
        assert(frame@ == old(self)@.last());
        assert(self@ =~= old(self)@.drop_last());
        let matches = match kind {
            BracketKind::Paren => false,
            _ => GroupKind::from_bracket(kind) == frame.kind,
        };
        if !matches {
            return Err(
                ParserError {
                    span: frame.span.join(end),
                    kind: ParserErrorKind::UnexpectedDelimiter(kind),
                },
            );
        }
        let tree = TokenTree {
            span: frame.span.join(end),
            data: TokenTreeData::Group(frame.kind, frame.body),
        };
        assert(tree@ == closed_group(old(self)@, end.end)) by {
            assert(tree@.data->Group_1 =~= frame@.body);
        }
        self.push(tree);
        Ok(())
    }

    /// Turns the top level into the root tree, unless a group is still open.
    fn finalise(self) -> (result: Result<TokenTree<'a>, ParserError>)
        requires
            self@.len() >= 1,
            self@.len() > 1 ==> !(self@.last().kind is TopLevel),
        ensures
            self@.len() > 1 ==> result == Err::<TokenTree<'a>, ParserError>(
                ParserError {
                    span: self@.last().span,
                    kind: ParserErrorKind::ExpectedDelimiter(self@.last().kind.bracket()->0),
                },
            ),
            self@.len() == 1 ==> result is Ok && result->Ok_0@ == (TokenTreeView {
                span: self@[0].span,
                data: TokenTreeDataView::Group(self@[0].kind, self@[0].body),
            }),
    {
        let ghost frames = self@;
        let mut stack = self.stack;
        let frame = stack.pop().unwrap();
        assert(frame@ == frames.last());
        if stack.len() != 0 {
            Err(
                ParserError {
                    span: frame.span,
                    kind: ParserErrorKind::ExpectedDelimiter(frame.kind.into_bracket()),
                },
            )
        } else {
            let tree = TokenTree {
                span: frame.span,
                data: TokenTreeData::Group(frame.kind, frame.body),
            };
            assert(tree@.data->Group_1 =~= frame@.body);
            Ok(tree)
        }
    }

    /// Reads the tokens of `lexer` into the frames. The result is `None` if
    /// a parenthesis opens a group, and the error if a closing bracket does
    /// not match.
    fn feed(&mut self, lexer: &mut Lexer<'a>) -> (outcome: Option<Result<(), ParserError>>)
        requires
            old(lexer).wf(),
            old(lexer).remaining() == lex(old(lexer).input()),
            byte_len(old(lexer).input()) <= usize::MAX,
            inv(old(self)@, lex(old(lexer).input()), 0),
        ensures
            final(lexer).wf(),
            final(lexer).input() == old(lexer).input(),
            outcome matches Some(Ok(_)) ==> final(lexer).remaining().len() == 0,
            match outcome {
                None => reserved(lex(old(lexer).input())),
                Some(Err(error)) => !reserved(lex(old(lexer).input())) && build_error(
                    lex(old(lexer).input()),
                ) == Some(error),
                Some(Ok(_)) => inv(
                    final(self)@,
                    lex(old(lexer).input()),
                    lex(old(lexer).input()).len() as int,
                ),
            },
    {
        let ghost source = lexer.input();
        let ghost tokens = lex(source);
        let ghost mut n: int = 0;
        assert(tokens.skip(0) =~= tokens);
        let mut next = lexer.next();
        proof {
            if 0 < tokens.len() {
                assert(tokens.skip(0).drop_first() =~= tokens.skip(1));
            }
        }
        while next.is_some()
            invariant
                lexer.wf(),
                lexer.input() == source,
                source == old(lexer).input(),
                tokens == lex(source),
                byte_len(source) <= usize::MAX,
                0 <= n <= tokens.len(),
                inv(self@, tokens, n),
                next is None ==> n == tokens.len() && lexer.remaining().len() == 0,
                next is Some ==> n < tokens.len() && next->0.model() == tokens[n]
                    && lexer.remaining() == tokens.skip(n + 1),
            decreases tokens.len() - n,
        {
            let token = next.unwrap();
            let ghost frames = self@;
            proof {
                lemma_lex_wf(source, n);
                lemma_lex_adjacent(source, n);
                lemma_token_not_empty(tokens[n]);
                assert(next_ok(tokens, n));
                lemma_frames_ready(frames, tokens, n);
            }
            self.cover(token.span());
            match token.kind() {
                TokenKind::Whitespace | TokenKind::Comment => {
                    proof {
                        lemma_step_trivia(frames, tokens, n);
                    }
                },
                TokenKind::Open(bracket) => {
                    match bracket {
                        BracketKind::Paren => {
                            proof {
                                lemma_step_reserved(frames, tokens, n);
                            }
                            return None;
                        },
                        _ => {
                            self.open(token.span(), bracket);
                            proof {
                                lemma_step_open(
                                    frames,
                                    tokens,
                                    n,
                                    GroupKind::of_bracket(bracket)->0,
                                );
                            }
                        },
                    }
                },
                TokenKind::Close(bracket) => {
                    proof {
                        if GroupKind::of_bracket(bracket) == Some(frames.last().kind) {
                            lemma_step_close(frames, tokens, n);
                        } else {
                            lemma_step_mismatch(frames, tokens, n);
                        }
                    }
                    match self.close(token.span(), bracket) {
                        Err(error) => {
                            return Some(Err(error));
                        },
                        Ok(_) => {},
                    }
                },
                _ => {
                    let tree = TokenTree { span: token.span(), data: TokenTreeData::Token(token) };
                    self.push(tree);
                    proof {
                        lemma_step_leaf(frames, tokens, n);
                    }
                },
            }
            proof {
                n = n + 1;
            }
            next = lexer.next();
            proof {
                if n < tokens.len() {
                    assert(tokens.skip(n)[0] == tokens[n]);
                    assert(tokens.skip(n).drop_first() =~= tokens.skip(n + 1));
                }
            }
        }
        Some(Ok(()))
    }
}

impl<'a> TokenTree<'a> {
    /// The tree of `source`, or the error that its brackets are rejected
    /// with; `None` if the source opens a group with a parenthesis, which
    /// the language reserves.
    pub fn try_from_source(source: &'a str) -> (result: Option<Result<TokenTree<'a>, ParserError>>)
        ensures
            match result {
                None => reserved(lex(source@)),
                Some(Err(error)) => !reserved(lex(source@)) && build_error(lex(source@)) == Some(
                    error,
                ),
                Some(Ok(tree)) => balanced(lex(source@)) && tree@ == tree_of(lex(source@))
                    && is_tree_of(tree@, lex(source@)),
            },
            balanced(lex(source@)) ==> result matches Some(Ok(_)),
    {
        let mut lexer = Lexer::from_source(source);
        let mut stack = Stack::new();
        proof {
            lemma_start(lex(source@));
        }
        match stack.feed(&mut lexer) {
            None => None,
            Some(Err(error)) => Some(Err(error)),
            Some(Ok(_)) => {
                proof {
                    lemma_finish(stack@, lex(source@));
                }
                let result = stack.finalise();
                proof {
                    if result is Ok {
                        lemma_tree_unique(result->Ok_0@, tree_of(lex(source@)), lex(source@));
                    }
                }
                Some(result)
            },
        }
    }

    /// The tree of `source`, or the error that its brackets are rejected
    /// with. The source must not open a group with a parenthesis.
    pub fn from_source(source: &'a str) -> (result: Result<TokenTree<'a>, ParserError>)
        requires
            !reserved(lex(source@)),
        ensures
            match result {
                Err(error) => build_error(lex(source@)) == Some(error),
                Ok(tree) => balanced(lex(source@)) && tree@ == tree_of(lex(source@))
                    && is_tree_of(tree@, lex(source@)),
            },
            balanced(lex(source@)) ==> result is Ok,
    {
        match TokenTree::try_from_source(source) {
            Some(result) => result,
            None => unreached(),
        }
    }

    /// The bytes of the source that the tree covers.
    pub fn span(&self) -> (span: Span)
        ensures
            span == self.span,
    {
        self.span
    }

    /// The token of a leaf, or the kind and the children of a group.
    pub fn data(&self) -> (data: &TokenTreeData<'a>)
        ensures
            data == self.data,
    {
        &self.data
    }
}

} // verus!
