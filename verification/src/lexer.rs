//! The scanner: source text to classified tokens with byte spans.
//!
//! What the scanner produces is defined by [`lex`], a function from the
//! characters of the source to a sequence of [`TokenView`]s. [`Lexer`] hands
//! out exactly that sequence, one token at a time, with one token of lookahead.

use crate::text::{
    byte_len, byte_offset, chars_of, lemma_byte_offset_monotone, lemma_byte_offset_split,
    lemma_byte_offset_step, len_of, slice, width_of,
};
use std::ops::Range;
use vstd::prelude::*;

verus! {

/// A half-open interval `[start, end)` of byte offsets into the source.
#[derive(Debug, Copy, Clone, PartialEq, Eq, Structural)]
pub struct Span {
    pub start: usize,
    pub end: usize,
}

impl Span {
    /// A span does not end before it starts.
    pub open spec fn wf(self) -> bool {
        self.start <= self.end
    }

    /// The span from `start` up to, but not including, `end`.
    pub fn new(start: usize, end: usize) -> (span: Span)
        requires
            start <= end,
        ensures
            span == (Span { start, end }),
            span.wf(),
    {
        Span { start, end }
    }

    /// The one-byte span at `start`.
    pub fn starting_at(start: usize) -> (span: Span)
        requires
            start < usize::MAX,
        ensures
            span == (Span { start, end: (start + 1) as usize }),
            span.wf(),
    {
        Span::new(start, start + 1)
    }

    /// Moves the end so that the byte at `pos` is the last one covered.
    pub fn extend_to(&mut self, pos: usize)
        requires
            pos < usize::MAX,
            old(self).start <= pos + 1,
        ensures
            *final(self) == (Span { start: old(self).start, end: (pos + 1) as usize }),
            final(self).wf(),
    {
        self.end = pos + 1;
    }

    /// Offset of the first byte covered.
    pub fn start(&self) -> (start: usize)
        ensures
            start == self.start,
    {
        self.start
    }

    /// Offset just behind the last byte covered.
    pub fn end(&self) -> (end: usize)
        ensures
            end == self.end,
    {
        self.end
    }

    /// The span as a range, to index the source with.
    pub fn as_range(&self) -> (range: Range<usize>)
        ensures
            range.start == self.start,
            range.end == self.end,
    {
        self.start..self.end
    }

    /// The span from the start of `self` to the end of `rhs`, which must not
    /// end before `self` starts.
    pub fn join(self, rhs: Span) -> (span: Span)
        requires
            self.start <= rhs.end,
        ensures
            span == (Span { start: self.start, end: rhs.end }),
            span.wf(),
    {
        Span::new(self.start, rhs.end)
    }
}

/// The three families of brackets.
#[derive(Debug, Copy, Clone, PartialEq, Eq, Structural)]
pub enum BracketKind {
    Paren,
    Square,
    Curly,
}

/// What a token is. An unrecognised character is a token of its own.
#[derive(Debug, Copy, Clone, PartialEq, Eq, Structural)]
pub enum TokenKind {
    Whitespace,
    Comment,
    Open(BracketKind),
    Close(BracketKind),
    Semicolon,
    Identifier,
    Integer,
    String,
    Unknown(char),
}

/// A token as contracts see it: its kind, its span and the characters it covers.
pub struct TokenView {
    pub kind: TokenKind,
    pub span: Span,
    pub text: Seq<char>,
}

/// A classified slice of the source.
#[derive(Debug, Copy, Clone, PartialEq, Eq)]
pub struct Token<'a> {
    pub kind: TokenKind,
    pub span: Span,
    pub view: &'a str,
}

impl<'a> Token<'a> {
    /// The token with its text taken as a sequence of characters.
    pub open spec fn model(self) -> TokenView {
        TokenView { kind: self.kind, span: self.span, text: self.view@ }
    }

    /// What the token is.
    pub fn kind(&self) -> (kind: TokenKind)
        ensures
            kind == self.kind,
    {
        self.kind
    }

    /// The bytes of the source that the token covers.
    pub fn span(&self) -> (span: Span)
        ensures
            span == self.span,
    {
        self.span
    }

    /// The text that the token covers.
    pub fn view(&self) -> (text: &'a str)
        ensures
            text == self.view,
    {
        self.view
    }
}

/// Whether `c` has the Unicode property `Alphabetic`, as `char::is_alphabetic` reports it.
pub uninterp spec fn is_alphabetic(c: char) -> bool;

/// Whether `c` is alphabetic or numeric in Unicode's sense, as `char::is_alphanumeric` reports it.
pub uninterp spec fn is_alphanumeric(c: char) -> bool;

/// Whether `c` has the Unicode property `White_Space`, as `char::is_whitespace` reports it.
pub uninterp spec fn is_whitespace(c: char) -> bool;

/// `char::is_alphabetic` of the standard library. Its answer is a fixed
/// property of the character; nothing more is claimed of it.
pub assume_specification[ char::is_alphabetic ](c: char) -> (b: bool)
    ensures
        b == is_alphabetic(c),
;

/// `char::is_alphanumeric` of the standard library. Its answer is a fixed
/// property of the character; nothing more is claimed of it.
pub assume_specification[ char::is_alphanumeric ](c: char) -> (b: bool)
    ensures
        b == is_alphanumeric(c),
;

/// `char::is_whitespace` of the standard library. Its answer is a fixed
/// property of the character; nothing more is claimed of it.
pub assume_specification[ char::is_whitespace ](c: char) -> (b: bool)
    ensures
        b == is_whitespace(c),
;

/// Characters that may begin an identifier.
pub open spec fn is_ident_start(c: char) -> bool {
    is_alphabetic(c) || c == '_'
}

/// Characters that may continue an identifier.
pub open spec fn is_ident_body(c: char) -> bool {
    is_ident_start(c) || is_alphanumeric(c)
}

/// The decimal digits `0` to `9`.
pub open spec fn is_digit(c: char) -> bool {
    '0' <= c <= '9'
}

/// Kind of a bracket, semicolon or unrecognised character.
pub open spec fn punctuation_kind(c: char) -> TokenKind {
    if c == '(' {
        TokenKind::Open(BracketKind::Paren)
    } else if c == ')' {
        TokenKind::Close(BracketKind::Paren)
    } else if c == '[' {
        TokenKind::Open(BracketKind::Square)
    } else if c == ']' {
        TokenKind::Close(BracketKind::Square)
    } else if c == '{' {
        TokenKind::Open(BracketKind::Curly)
    } else if c == '}' {
        TokenKind::Close(BracketKind::Curly)
    } else if c == ';' {
        TokenKind::Semicolon
    } else {
        TokenKind::Unknown(c)
    }
}

/// Kind of the token that begins with `c`. The rules are tried in this order.
pub open spec fn kind_of(c: char) -> TokenKind {
    if is_ident_start(c) {
        TokenKind::Identifier
    } else if is_whitespace(c) {
        TokenKind::Whitespace
    } else if is_digit(c) {
        TokenKind::Integer
    } else if c == '#' {
        TokenKind::Comment
    } else if c == '"' {
        TokenKind::String
    } else {
        punctuation_kind(c)
    }
}

/// Whether a token of kind `kind`, once begun, goes on over `c`. Only
/// identifiers, whitespace, integers and comments are runs of characters.
pub open spec fn in_run(kind: TokenKind, c: char) -> bool {
    match kind {
        TokenKind::Identifier => is_ident_body(c),
        TokenKind::Whitespace => is_whitespace(c),
        TokenKind::Integer => is_digit(c),
        TokenKind::Comment => c != '\n',
        _ => false,
    }
}

/// Index of the first character at or after `i` that does not continue a run
/// of kind `kind`, or the length of `s` if there is none.
pub open spec fn run_end(s: Seq<char>, i: int, kind: TokenKind) -> int
    decreases s.len() - i,
{
    if 0 <= i < s.len() && in_run(kind, s[i]) {
        run_end(s, i + 1, kind)
    } else {
        i
    }
}

/// Index just after the string literal whose opening quote stands before
/// `i`: after the first quote at or after `i` that no backslash precedes, a
/// backslash taking the next character with it whatever it is; the length of
/// `s` if the text ends first.
pub open spec fn string_end(s: Seq<char>, i: int) -> int
    decreases s.len() - i,
{
    if i < 0 || i >= s.len() {
        i
    } else if s[i] == '\\' {
        if i + 1 < s.len() {
            string_end(s, i + 2)
        } else {
            i + 1
        }
    } else if s[i] == '"' {
        i + 1
    } else {
        string_end(s, i + 1)
    }
}

/// Index just after the token that starts at `i`.
pub open spec fn token_end(s: Seq<char>, i: int) -> int {
    match kind_of(s[i]) {
        TokenKind::Identifier | TokenKind::Whitespace | TokenKind::Integer | TokenKind::Comment => run_end(
            s,
            i + 1,
            kind_of(s[i]),
        ),
        TokenKind::String => string_end(s, i + 1),
        _ => i + 1,
    }
}

/// The token that starts at character index `i` of `s`.
pub open spec fn token_at(s: Seq<char>, i: int) -> TokenView {
    TokenView {
        kind: kind_of(s[i]),
        span: Span {
            start: byte_offset(s, i) as usize,
            end: byte_offset(s, token_end(s, i)) as usize,
        },
        text: s.subrange(i, token_end(s, i)),
    }
}

/// A run ends at or after its start and inside the text.
pub proof fn lemma_run_end_bounds(s: Seq<char>, i: int, kind: TokenKind)
    requires
        0 <= i <= s.len(),
    ensures
        i <= run_end(s, i, kind) <= s.len(),
    decreases s.len() - i,
{
    if i < s.len() && in_run(kind, s[i]) {
        lemma_run_end_bounds(s, i + 1, kind);
    }
}

/// A string literal ends at or after the index it is scanned from and inside the text.
pub proof fn lemma_string_end_bounds(s: Seq<char>, i: int)
    requires
        0 <= i <= s.len(),
    ensures
        i <= string_end(s, i) <= s.len(),
    decreases s.len() - i,
{
    if i < s.len() {
        if s[i] == '\\' {
            if i + 1 < s.len() {
                lemma_string_end_bounds(s, i + 2);
            }
        } else if s[i] != '"' {
            lemma_string_end_bounds(s, i + 1);
        }
    }
}

/// Every token holds at least one character and ends inside the text.
pub proof fn lemma_token_end_bounds(s: Seq<char>, i: int)
    requires
        0 <= i < s.len(),
    ensures
        i < token_end(s, i) <= s.len(),
{
    lemma_run_end_bounds(s, i + 1, kind_of(s[i]));
    lemma_string_end_bounds(s, i + 1);
}

/// The tokens of `s` from character index `i` on.
pub open spec fn lex_from(s: Seq<char>, i: int) -> Seq<TokenView>
    decreases s.len() - i,
{
    if 0 <= i < s.len() {
        proof {
            lemma_token_end_bounds(s, i);
        }
        seq![token_at(s, i)] + lex_from(s, token_end(s, i))
    } else {
        Seq::empty()
    }
}

/// The tokens of `s`: what the scanner yields for the source `s`.
pub open spec fn lex(s: Seq<char>) -> Seq<TokenView> {
    lex_from(s, 0)
}

impl TokenView {
    /// A token is well formed when it is what scanning its own text yields:
    /// the text is one whole token of this kind, and the span is as long as
    /// the text.
    pub open spec fn wf(self) -> bool {
        &&& self.text.len() > 0
        &&& self.kind == kind_of(self.text[0])
        &&& token_end(self.text, 0) == self.text.len()
        &&& self.span.wf()
        &&& self.span.start + byte_len(self.text) == self.span.end
    }
}

/// The texts of `tokens`, one after the other.
pub open spec fn concat_texts(tokens: Seq<TokenView>) -> Seq<char>
    decreases tokens.len(),
{
    if tokens.len() == 0 {
        Seq::empty()
    } else {
        tokens[0].text + concat_texts(tokens.drop_first())
    }
}

/// Whether the spans of `tokens` lie end to end from byte offset `from` to
/// byte offset `to`, with neither a gap nor an overlap.
pub open spec fn tiles(tokens: Seq<TokenView>, from: int, to: int) -> bool
    decreases tokens.len(),
{
    if tokens.len() == 0 {
        from == to
    } else {
        tokens[0].span.start == from && tiles(tokens.drop_first(), tokens[0].span.end as int, to)
    }
}

/// The texts of the tokens from index `i` on make up the source from `i` on.
pub proof fn lemma_lex_from_covers(s: Seq<char>, i: int)
    requires
        0 <= i <= s.len(),
    ensures
        concat_texts(lex_from(s, i)) == s.skip(i),
    decreases s.len() - i,
{
    if i < s.len() {
        lemma_token_end_bounds(s, i);
        let end = token_end(s, i);
        lemma_lex_from_covers(s, end);
        assert(lex_from(s, i).drop_first() =~= lex_from(s, end));
        assert(s.subrange(i, end) + s.skip(end) =~= s.skip(i));
    } else {
        assert(s.skip(i) =~= Seq::<char>::empty());
    }
}

/// Scanning loses nothing: the texts of the tokens of a source, put
/// together in order, are the source.
pub proof fn lemma_lex_covers(s: Seq<char>)
    ensures
        concat_texts(lex(s)) == s,
{
    lemma_lex_from_covers(s, 0);
    assert(s.skip(0) =~= s);
}

/// The spans of the tokens from index `i` on lie end to end up to the end
/// of the source.
pub proof fn lemma_lex_from_tiles(s: Seq<char>, i: int)
    requires
        0 <= i <= s.len(),
        byte_len(s) <= usize::MAX,
    ensures
        tiles(lex_from(s, i), byte_offset(s, i) as int, byte_len(s) as int),
    decreases s.len() - i,
{
    lemma_byte_offset_monotone(s, i, s.len() as int);
    if i < s.len() {
        lemma_token_end_bounds(s, i);
        let end = token_end(s, i);
        lemma_byte_offset_monotone(s, end, s.len() as int);
        lemma_lex_from_tiles(s, end);
        assert(lex_from(s, i).drop_first() =~= lex_from(s, end));
    } else {
        lemma_byte_offset_split(s, i, i);
    }
}

/// The spans of the tokens of a source cover it from its first byte to its
/// last, each byte once.
pub proof fn lemma_lex_tiles(s: Seq<char>)
    requires
        byte_len(s) <= usize::MAX,
    ensures
        tiles(lex(s), 0, byte_len(s) as int),
{
    lemma_lex_from_tiles(s, 0);
    lemma_byte_offset_split(s, 0, 0);
}

/// A run that is cut out of its text, up to its end, is a run to the end of
/// the cut.
proof fn lemma_run_end_cut(s: Seq<char>, from: int, i: int, kind: TokenKind)
    requires
        0 <= from <= i <= s.len(),
    ensures
        run_end(s.subrange(from, run_end(s, i, kind)), i - from, kind) == run_end(s, i, kind)
            - from,
    decreases s.len() - i,
{
    lemma_run_end_bounds(s, i, kind);
    if i < s.len() && in_run(kind, s[i]) {
        lemma_run_end_bounds(s, i + 1, kind);
        lemma_run_end_cut(s, from, i + 1, kind);
    }
}

/// A string literal that is cut out of its text, up to its end, is a string
/// literal to the end of the cut.
proof fn lemma_string_end_cut(s: Seq<char>, from: int, i: int)
    requires
        0 <= from <= i <= s.len(),
    ensures
        string_end(s.subrange(from, string_end(s, i)), i - from) == string_end(s, i) - from,
    decreases s.len() - i,
{
    lemma_string_end_bounds(s, i);
    if i < s.len() {
        if s[i] == '\\' {
            if i + 1 < s.len() {
                lemma_string_end_bounds(s, i + 2);
                lemma_string_end_cut(s, from, i + 2);
            }
        } else if s[i] != '"' {
            lemma_string_end_bounds(s, i + 1);
            lemma_string_end_cut(s, from, i + 1);
        }
    }
}

/// The token at any index of a source is well formed.
pub proof fn lemma_token_at_wf(s: Seq<char>, i: int)
    requires
        0 <= i < s.len(),
        byte_len(s) <= usize::MAX,
    ensures
        token_at(s, i).wf(),
{
    lemma_token_end_bounds(s, i);
    let end = token_end(s, i);
    let text = s.subrange(i, end);
    let kind = kind_of(s[i]);
    assert(text[0] == s[i]);
    lemma_run_end_cut(s, i, i + 1, kind);
    lemma_string_end_cut(s, i, i + 1);
    lemma_byte_offset_split(s, i, end);
    lemma_byte_offset_monotone(s, end, s.len() as int);
}

/// Every token of a source is the token at some index of it.
pub proof fn lemma_lex_from_index(s: Seq<char>, i: int, k: int) -> (j: int)
    requires
        0 <= i <= s.len(),
        0 <= k < lex_from(s, i).len(),
    ensures
        i <= j < s.len(),
        lex_from(s, i)[k] == token_at(s, j),
    decreases k,
{
    lemma_token_end_bounds(s, i);
    if k == 0 {
        i
    } else {
        assert(lex_from(s, i).drop_first() =~= lex_from(s, token_end(s, i)));
        assert(lex_from(s, i)[k] == lex_from(s, i).drop_first()[k - 1]);
        lemma_lex_from_index(s, token_end(s, i), k - 1)
    }
}

/// Every token of a source is well formed.
pub proof fn lemma_lex_wf(s: Seq<char>, k: int)
    requires
        byte_len(s) <= usize::MAX,
        0 <= k < lex(s).len(),
    ensures
        lex(s)[k].wf(),
{
    let j = lemma_lex_from_index(s, 0, k);
    lemma_token_at_wf(s, j);
}

/// Each token from index `i` on starts where the one before it ends, the
/// first of them at the byte offset of `i`, and none ends behind the source.
pub proof fn lemma_lex_from_adjacent(s: Seq<char>, i: int, k: int)
    requires
        byte_len(s) <= usize::MAX,
        0 <= i <= s.len(),
        0 <= k < lex_from(s, i).len(),
    ensures
        lex_from(s, i)[k].span.start == if k == 0 {
            byte_offset(s, i) as int
        } else {
            lex_from(s, i)[k - 1].span.end as int
        },
        lex_from(s, i)[k].span.end <= byte_len(s),
    decreases k,
{
    lemma_token_end_bounds(s, i);
    let end = token_end(s, i);
    lemma_byte_offset_monotone(s, i, end);
    lemma_byte_offset_monotone(s, end, s.len() as int);
    if k > 0 {
        assert(lex_from(s, i).drop_first() =~= lex_from(s, end));
        assert(lex_from(s, i)[k] == lex_from(s, i).drop_first()[k - 1]);
        if k > 1 {
            assert(lex_from(s, i)[k - 1] == lex_from(s, i).drop_first()[k - 2]);
        }
        lemma_lex_from_adjacent(s, end, k - 1);
    }
}

/// Each token of a source starts where the one before it ends, the first of
/// them at offset 0, and none ends behind the source.
pub proof fn lemma_lex_adjacent(s: Seq<char>, k: int)
    requires
        byte_len(s) <= usize::MAX,
        0 <= k < lex(s).len(),
    ensures
        lex(s)[k].span.start == if k == 0 {
            0
        } else {
            lex(s)[k - 1].span.end as int
        },
        lex(s)[k].span.end <= byte_len(s),
{
    lemma_lex_from_adjacent(s, 0, k);
    lemma_byte_offset_split(s, 0, 0);
}

/// Scanning the text of a well-formed token gives that one token again, with
/// the same kind and text, spanning the text from its first byte to its last.
pub proof fn lemma_rescan(token: TokenView)
    requires
        token.wf(),
    ensures
        lex(token.text) == seq![
            TokenView {
                kind: token.kind,
                span: Span { start: 0, end: byte_len(token.text) as usize },
                text: token.text,
            },
        ],
{
    let t = token.text;
    let n = t.len() as int;
    lemma_byte_offset_split(t, 0, n);
    assert(t.subrange(0, n) =~= t);
    assert(lex_from(t, n) =~= Seq::<TokenView>::empty());
    assert(lex_from(t, 0) =~= seq![token_at(t, 0)]);
}

/// Scanning again the text that any one token of a source covers gives that
/// token again: one token, of the same kind and with the same text.
pub proof fn lemma_rescan_token(s: Seq<char>, k: int)
    requires
        byte_len(s) <= usize::MAX,
        0 <= k < lex(s).len(),
    ensures
        lex(lex(s)[k].text).len() == 1,
        lex(lex(s)[k].text)[0].kind == lex(s)[k].kind,
        lex(lex(s)[k].text)[0].text == lex(s)[k].text,
{
    lemma_lex_wf(s, k);
    lemma_rescan(lex(s)[k]);
}

/// Line and column, both counted from 1, of the position that follows the
/// first `n` characters of `s`: a newline starts a new line, every other
/// character is one column.
pub open spec fn line_col(s: Seq<char>, n: int) -> (int, int)
    decreases n,
{
    if n <= 0 || n > s.len() {
        (1, 1)
    } else if s[n - 1] == '\n' {
        (line_col(s, n - 1).0 + 1, 1)
    } else {
        (line_col(s, n - 1).0, line_col(s, n - 1).1 + 1)
    }
}

/// Index of the first character at or after `i` that starts at or after the
/// byte offset `limit`, or the length of `s` if there is none.
pub open spec fn first_char_from(s: Seq<char>, limit: int, i: int) -> int
    decreases s.len() - i,
{
    if 0 <= i < s.len() && byte_offset(s, i) < limit {
        first_char_from(s, limit, i + 1)
    } else {
        i
    }
}

/// Hands out the tokens of a source text in order, with one token of lookahead.
pub struct Lexer<'a> {
    source: &'a str,
    chars: Vec<char>,
    /// Index in `chars` of the first character that no token covers yet.
    cursor: usize,
    /// Byte offset of `cursor`.
    offset: usize,
    peek: Option<Token<'a>>,
    /// Index in `chars` at which the token in `peek` starts.
    start: Ghost<int>,
}

impl<'a> Lexer<'a> {
    /// The characters of the source text.
    pub closed spec fn input(&self) -> Seq<char> {
        self.source@
    }

    /// The tokens not handed out yet.
    pub closed spec fn remaining(&self) -> Seq<TokenView> {
        lex_from(self.source@, self.start@)
    }

    spec fn ready(&self) -> bool {
        &&& self.chars@ == self.source@
        &&& byte_len(self.source@) <= usize::MAX
        &&& self.cursor <= self.chars@.len()
        &&& self.offset == byte_offset(self.source@, self.cursor as int)
    }

    /// The lookahead token is the first of those that remain.
    pub closed spec fn wf(&self) -> bool {
        &&& self.ready()
        &&& match self.peek {
            Some(token) => {
                &&& 0 <= self.start@ < self.source@.len()
                &&& token.model() == token_at(self.source@, self.start@)
                &&& self.cursor == token_end(self.source@, self.start@)
            },
            None => self.start@ == self.source@.len(),
        }
    }

    /// A lexer at the start of `source`, with all its tokens to hand out.
    pub fn from_source(source: &'a str) -> (lexer: Lexer<'a>)
        ensures
            lexer.wf(),
            lexer.input() == source@,
            lexer.remaining() == lex(source@),
            byte_len(source@) <= usize::MAX,
    {
        let _ = len_of(source);
        let mut lexer = Lexer {
            source,
            chars: chars_of(source),
            cursor: 0,
            offset: 0,
            peek: None,
            start: Ghost(0),
        };
        proof {
            lemma_byte_offset_split(source@, 0, 0);
        }
        lexer.peek = lexer.scan();
        lexer
    }

    /// The next token, which stays in place.
    pub fn peek(&self) -> (token: Option<Token<'a>>)
        requires
            self.wf(),
        ensures
            self.remaining().len() == 0 ==> token is None,
            self.remaining().len() > 0 ==> token is Some && token->0.model() == self.remaining()[0],
    {
        self.peek
    }

    /// The source text.
    pub fn source(&self) -> (source: &'a str)
        ensures
            source@ == self.input(),
    {
        self.source
    }

    /// Takes the next token, or returns `None` once the source is used up.
    pub fn next(&mut self) -> (token: Option<Token<'a>>)
        requires
            old(self).wf(),
        ensures
            final(self).wf(),
            final(self).input() == old(self).input(),
            old(self).remaining().len() == 0 ==> token is None && final(self).remaining()
                == old(self).remaining(),
            old(self).remaining().len() > 0 ==> token is Some && token->0.model() == old(
                self,
            ).remaining()[0] && final(self).remaining() == old(self).remaining().drop_first(),
    {
        let result = self.peek;
        if result.is_some() {
            proof {
                lemma_token_end_bounds(self.source@, self.start@);
                assert(lex_from(self.source@, self.start@).drop_first() =~= lex_from(
                    self.source@,
                    self.cursor as int,
                ));
            }
            self.start = Ghost(self.cursor as int);
            self.peek = self.scan();
        }
        result
    }

    /// Scans the token at the cursor, if the source is not used up.
    fn scan(&mut self) -> (token: Option<Token<'a>>)
        requires
            old(self).ready(),
        ensures
            final(self).ready(),
            final(self).source == old(self).source,
            final(self).start == old(self).start,
            final(self).peek == old(self).peek,
            old(self).cursor == old(self).source@.len() ==> token is None && final(self).cursor
                == old(self).cursor,
            old(self).cursor < old(self).source@.len() ==> token is Some && token->0.model()
                == token_at(old(self).source@, old(self).cursor as int) && final(self).cursor
                == token_end(old(self).source@, old(self).cursor as int),
    {
        if self.cursor >= self.chars.len() {
            return None;
        }
        let c = self.chars[self.cursor];
        let kind = classify(c, c.is_alphabetic(), c.is_whitespace());
        let token = match kind {
            TokenKind::Identifier | TokenKind::Whitespace | TokenKind::Integer | TokenKind::Comment => {
                self.produce_while(kind)
            },
            TokenKind::String => self.produce_string(),
            _ => self.produce_punctuation(),
        };
        Some(token)
    }

    /// Steps over the character at the cursor.
    fn bump(&mut self)
        requires
            old(self).ready(),
            old(self).cursor < old(self).source@.len(),
        ensures
            final(self).ready(),
            final(self).source == old(self).source,
            final(self).start == old(self).start,
            final(self).peek == old(self).peek,
            final(self).cursor == old(self).cursor + 1,
    {
        proof {
            lemma_byte_offset_step(self.source@, self.cursor as int);
            lemma_byte_offset_monotone(
                self.source@,
                self.cursor as int + 1,
                self.source@.len() as int,
            );
        }
        assert(self.cursor < self.chars.len());
        self.offset = self.offset + width_of(self.chars[self.cursor]);
        self.cursor = self.cursor + 1;
    }

    /// Steps over the characters that continue a token of kind `kind` and
    /// moves the end of `span` behind them.
    fn take_while(&mut self, span: &mut Span, kind: TokenKind)
        requires
            old(self).ready(),
        ensures
            final(self).ready(),
            final(self).source == old(self).source,
            final(self).start == old(self).start,
            final(self).peek == old(self).peek,
            final(self).cursor == run_end(old(self).source@, old(self).cursor as int, kind),
            *final(span) == (Span { start: old(span).start, end: final(self).offset }),
    {
        while self.cursor < self.chars.len() && Lexer::continues(kind, self.chars[self.cursor])
            invariant
                self.ready(),
                self.source == old(self).source,
                self.start == old(self).start,
                self.peek == old(self).peek,
                old(self).cursor <= self.cursor,
                run_end(self.source@, self.cursor as int, kind) == run_end(
                    old(self).source@,
                    old(self).cursor as int,
                    kind,
                ),
            decreases self.chars.len() - self.cursor,
        {
            self.bump();
        }
        span.end = self.offset;
    }

    /// The token of kind `kind` that covers `span`, which lies between the
    /// character indices `from` and `to`.
    fn produce_token(&self, kind: TokenKind, span: Span, Ghost(from): Ghost<int>, Ghost(to): Ghost<int>) -> (token: Token<'a>)
        requires
            self.chars@ == self.source@,
            0 <= from <= to <= self.source@.len(),
            span.start == byte_offset(self.source@, from),
            span.end == byte_offset(self.source@, to),
        ensures
            token.model() == (TokenView { kind, span, text: self.source@.subrange(from, to) }),
    {
        Token { kind, span, view: slice(self.source, span.start, span.end, Ghost(from), Ghost(to)) }
    }

    /// Scans a token that is a run of characters: an identifier, whitespace,
    /// an integer or a comment.
    fn produce_while(&mut self, kind: TokenKind) -> (token: Token<'a>)
        requires
            old(self).ready(),
            old(self).cursor < old(self).source@.len(),
            kind == kind_of(old(self).source@[old(self).cursor as int]),
            kind is Identifier || kind is Whitespace || kind is Integer || kind is Comment,
        ensures
            final(self).ready(),
            final(self).source == old(self).source,
            final(self).start == old(self).start,
            final(self).peek == old(self).peek,
            token.model() == token_at(old(self).source@, old(self).cursor as int),
            final(self).cursor == token_end(old(self).source@, old(self).cursor as int),
    {
        let ghost from = self.cursor as int;
        proof {
            lemma_byte_offset_monotone(self.source@, from, from + 1);
            lemma_byte_offset_monotone(self.source@, from + 1, self.source@.len() as int);
            lemma_token_end_bounds(self.source@, from);
        }
        let mut span = Span::starting_at(self.offset);
        self.take_while(&mut span, kind);
        self.produce_token(kind, span, Ghost(from), Ghost(self.cursor as int))
    }

    /// Scans a bracket, a semicolon or an unrecognised character.
    fn produce_punctuation(&mut self) -> (token: Token<'a>)
        requires
            old(self).ready(),
            old(self).cursor < old(self).source@.len(),
            kind_of(old(self).source@[old(self).cursor as int]) == punctuation_kind(
                old(self).source@[old(self).cursor as int],
            ),
        ensures
            final(self).ready(),
            final(self).source == old(self).source,
            final(self).start == old(self).start,
            final(self).peek == old(self).peek,
            token.model() == token_at(old(self).source@, old(self).cursor as int),
            final(self).cursor == token_end(old(self).source@, old(self).cursor as int),
    {
        let ghost from = self.cursor as int;
        let start = self.offset;
        let c = self.chars[self.cursor];
        self.bump();
        proof {
            lemma_byte_offset_monotone(self.source@, from, from + 1);
        }
        let span = Span::new(start, self.offset);
        self.produce_token(punctuation(c), span, Ghost(from), Ghost(from + 1))
    }

    /// Scans a string literal, whose opening quote is at the cursor.
    fn produce_string(&mut self) -> (token: Token<'a>)
        requires
            old(self).ready(),
            old(self).cursor < old(self).source@.len(),
            kind_of(old(self).source@[old(self).cursor as int]) is String,
        ensures
            final(self).ready(),
            final(self).source == old(self).source,
            final(self).start == old(self).start,
            final(self).peek == old(self).peek,
            token.model() == token_at(old(self).source@, old(self).cursor as int),
            final(self).cursor == token_end(old(self).source@, old(self).cursor as int),
    {
        let ghost from = self.cursor as int;
        let ghost end = string_end(self.source@, from + 1);
        let start = self.offset;
        self.bump();
        let mut closed = false;
        while !closed && self.cursor < self.chars.len()
            invariant
                self.ready(),
                self.source == old(self).source,
                self.start == old(self).start,
                self.peek == old(self).peek,
                from < self.cursor,
                start == byte_offset(self.source@, from),
                closed ==> self.cursor == end,
                !closed ==> string_end(self.source@, self.cursor as int) == end,
            decreases self.chars.len() - self.cursor, if closed { 0int } else { 1int },
        {
            let c = self.chars[self.cursor];
            self.bump();
            if c == '\\' {
                if self.cursor < self.chars.len() {
                    self.bump();
                }
            } else if c == '"' {
                closed = true;
            }
        }
        proof {
            lemma_byte_offset_monotone(self.source@, from, self.cursor as int);
        }
        let span = Span::new(start, self.offset);
        self.produce_token(TokenKind::String, span, Ghost(from), Ghost(self.cursor as int))
    }

    /// Line and column of the byte offset at which `span` starts, both
    /// counted from 1 and in characters. The counters need room for one more
    /// than the length of the source.
    pub fn resolve_line_col(&self, span: Span) -> (position: (usize, usize))
        requires
            self.wf(),
            byte_len(self.input()) < usize::MAX,
        ensures
            position.0 == line_col(
                self.input(),
                first_char_from(self.input(), span.start as int, 0),
            ).0,
            position.1 == line_col(
                self.input(),
                first_char_from(self.input(), span.start as int, 0),
            ).1,
    {
        let mut line: usize = 1;
        let mut col: usize = 1;
        let mut index: usize = 0;
        let mut offset: usize = 0;
        proof {
            lemma_byte_offset_split(self.source@, 0, 0);
        }
        while index < self.chars.len() && offset < span.start
            invariant
                self.chars@ == self.source@,
                byte_len(self.source@) < usize::MAX,
                index <= self.chars@.len(),
                offset == byte_offset(self.source@, index as int),
                first_char_from(self.source@, span.start as int, index as int) == first_char_from(
                    self.source@,
                    span.start as int,
                    0,
                ),
                line == line_col(self.source@, index as int).0,
                col == line_col(self.source@, index as int).1,
                1 <= line <= index + 1,
                1 <= col <= index + 1,
            decreases self.chars.len() - index,
        {
            proof {
                lemma_byte_offset_step(self.source@, index as int);
                lemma_byte_offset_monotone(
                    self.source@,
                    index as int + 1,
                    self.source@.len() as int,
                );
                lemma_byte_offset_monotone(self.source@, 0, self.source@.len() as int);
            }
            assert(index < self.chars.len());
            if self.chars[index] == '\n' {
                line = line + 1;
                col = 1;
            } else {
                col = col + 1;
            }
            offset = offset + width_of(self.chars[index]);
            index = index + 1;
        }
        (line, col)
    }

    /// Whether a token of kind `kind` goes on over `c`.
    fn continues(kind: TokenKind, c: char) -> (b: bool)
        ensures
            b == in_run(kind, c),
    {
        extends(kind, c, c.is_alphabetic(), c.is_alphanumeric(), c.is_whitespace())
    }

    /// Whether `c` may begin an identifier, `alphabetic` saying whether it
    /// is a letter.
    pub fn ident_start(c: char, alphabetic: bool) -> (b: bool)
        ensures
            b == (alphabetic || c == '_'),
    {
        alphabetic || c == '_'
    }

    /// Whether `c` may continue an identifier, `alphabetic` and
    /// `alphanumeric` saying whether it is a letter, and a letter or a
    /// number.
    pub fn ident_body(c: char, alphabetic: bool, alphanumeric: bool) -> (b: bool)
        ensures
            b == (alphabetic || c == '_' || alphanumeric),
    {
        Lexer::ident_start(c, alphabetic) || alphanumeric
    }
}

/// Kind of the token that begins with `c`, `alphabetic` and `whitespace`
/// saying whether `c` is a letter and whether it is whitespace. The rules
/// are tried in this order: identifier, whitespace, integer, comment, string,
/// and then brackets, the semicolon and any other character.
pub fn classify(c: char, alphabetic: bool, whitespace: bool) -> (kind: TokenKind)
    ensures
        kind == (if alphabetic || c == '_' {
            TokenKind::Identifier
        } else if whitespace {
            TokenKind::Whitespace
        } else if is_digit(c) {
            TokenKind::Integer
        } else if c == '#' {
            TokenKind::Comment
        } else if c == '"' {
            TokenKind::String
        } else {
            punctuation_kind(c)
        }),
{
    if Lexer::ident_start(c, alphabetic) {
        TokenKind::Identifier
    } else if whitespace {
        TokenKind::Whitespace
    } else if '0' <= c && c <= '9' {
        TokenKind::Integer
    } else if c == '#' {
        TokenKind::Comment
    } else if c == '"' {
        TokenKind::String
    } else {
        punctuation(c)
    }
}

/// Kind of a bracket, semicolon or unrecognised character.
pub fn punctuation(c: char) -> (kind: TokenKind)
    ensures
        kind == punctuation_kind(c),
{
    match c {
        '(' => TokenKind::Open(BracketKind::Paren),
        ')' => TokenKind::Close(BracketKind::Paren),
        '[' => TokenKind::Open(BracketKind::Square),
        ']' => TokenKind::Close(BracketKind::Square),
        '{' => TokenKind::Open(BracketKind::Curly),
        '}' => TokenKind::Close(BracketKind::Curly),
        ';' => TokenKind::Semicolon,
        c => TokenKind::Unknown(c),
    }
}

/// Whether a token of kind `kind`, once begun, goes on over `c`,
/// `alphabetic`, `alphanumeric` and `whitespace` saying whether `c` is a
/// letter, a letter or a number, and whitespace. An identifier goes on over
/// letters, numbers and underscores, whitespace over whitespace, an integer
/// over the digits `0` to `9`, a comment over all but the newline; a token of
/// any other kind does not go on.
pub fn extends(kind: TokenKind, c: char, alphabetic: bool, alphanumeric: bool, whitespace: bool) -> (b: bool)
    ensures
        b == match kind {
            TokenKind::Identifier => alphabetic || c == '_' || alphanumeric,
            TokenKind::Whitespace => whitespace,
            TokenKind::Integer => is_digit(c),
            TokenKind::Comment => c != '\n',
            _ => false,
        },
{
    match kind {
        TokenKind::Identifier => Lexer::ident_body(c, alphabetic, alphanumeric),
        TokenKind::Whitespace => whitespace,
        TokenKind::Integer => '0' <= c && c <= '9',
        TokenKind::Comment => c != '\n',
        _ => false,
    }
}

} // verus!
