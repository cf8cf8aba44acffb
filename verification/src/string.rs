//! Decoding of string literals.

use crate::lexer::{lemma_string_end_bounds, string_end, Span, Token, TokenView};
use crate::parser::{ParserError, ParserErrorKind};
use crate::text::{
    byte_len, byte_offset, chars_of, lemma_byte_offset_monotone, lemma_byte_offset_split,
    lemma_byte_offset_step, width_of,
};
use vstd::prelude::*;

verus! {

/// `String::push` of the standard library: appends one character.
pub assume_specification[ std::string::String::push ](s: &mut std::string::String, c: char)
    ensures
        final(s)@ == old(s)@.push(c),
;

/// The character that a backslash followed by `c` stands for.
pub open spec fn escape_of(c: char) -> Option<char> {
    if c == 'n' {
        Some('\n')
    } else if c == 'r' {
        Some('\r')
    } else if c == 't' {
        Some('\t')
    } else if c == '"' {
        Some('"')
    } else {
        None
    }
}

/// Decoding of the characters of `text` from index `i` up to index `end`:
/// the decoded characters, or else the kind of the first fault and the
/// index of the character at which it was found.
pub open spec fn unescape(text: Seq<char>, i: int, end: int) -> Result<
    Seq<char>,
    (ParserErrorKind, int),
>
    decreases end - i,
{
    if i >= end {
        Ok(Seq::empty())
    } else if text[i] != '\\' {
        match unescape(text, i + 1, end) {
            Ok(rest) => Ok(seq![text[i]] + rest),
            Err(fault) => Err(fault),
        }
    } else if i + 1 >= end {
        Err((ParserErrorKind::UnclosedString, i))
    } else {
        match escape_of(text[i + 1]) {
            None => Err((ParserErrorKind::InvalidEscapeSequence, i + 1)),
            Some(c) => match unescape(text, i + 2, end) {
                Ok(rest) => Ok(seq![c] + rest),
                Err(fault) => Err(fault),
            },
        }
    }
}

/// The bytes of the source that the character with index `i` of the token's text occupies.
pub open spec fn char_span(token: TokenView, i: int) -> Span {
    Span {
        start: (token.span.start + byte_offset(token.text, i)) as usize,
        end: (token.span.start + byte_offset(token.text, i + 1)) as usize,
    }
}

/// The text that a string literal stands for. A literal that is shorter
/// than its two quotes, or whose last character is no quote, is unclosed,
/// and the whole token is at fault. Otherwise the characters between the
/// first and the last are decoded, and a fault lies at one character: a
/// backslash with nothing after it leaves the literal unclosed, and a
/// character that is no escape makes the sequence invalid.
pub open spec fn decode(token: TokenView) -> Result<Seq<char>, ParserError> {
    if token.text.len() < 2 || token.text.last() != '"' {
        Err(ParserError { span: token.span, kind: ParserErrorKind::UnclosedString })
    } else {
        match unescape(token.text, 1, token.text.len() - 1) {
            Ok(decoded) => Ok(decoded),
            Err((kind, i)) => Err(ParserError { span: char_span(token, i), kind }),
        }
    }
}

/// Whether the string literal whose opening quote stands before index `i`
/// of `s` has its closing quote: whether a quote that no backslash precedes
/// stands at or after `i`.
pub open spec fn string_closed(s: Seq<char>, i: int) -> bool
    decreases s.len() - i,
{
    if i < 0 || i >= s.len() {
        false
    } else if s[i] == '\\' {
        i + 1 < s.len() && string_closed(s, i + 2)
    } else if s[i] == '"' {
        true
    } else {
        string_closed(s, i + 1)
    }
}

/// In a literal that ends with its closing quote, decoding from `i` on
/// finds no lone backslash.
proof fn lemma_closed_decodes(text: Seq<char>, i: int)
    requires
        1 <= i <= text.len(),
        string_closed(text, i),
        string_end(text, i) == text.len(),
    ensures
        i < text.len(),
        text.last() == '"',
        match unescape(text, i, text.len() - 1) {
            Ok(_) => true,
            Err((kind, _)) => kind is InvalidEscapeSequence,
        },
    decreases text.len() - i,
{
    if text[i] == '\\' {
        lemma_closed_decodes(text, i + 2);
    } else if text[i] != '"' {
        lemma_closed_decodes(text, i + 1);
    }
}

/// In a literal without its closing quote, decoding from `i` on fails even
/// if the last character is a quote.
proof fn lemma_unclosed_fails(text: Seq<char>, i: int)
    requires
        1 <= i < text.len(),
        !string_closed(text, i),
        text.last() == '"',
    ensures
        unescape(text, i, text.len() - 1) is Err,
    decreases text.len() - i,
{
    if text[i] == '\\' {
        if i + 2 < text.len() {
            lemma_unclosed_fails(text, i + 2);
        }
    } else if text[i] != '"' {
        lemma_unclosed_fails(text, i + 1);
    }
}

/// The decoder and the scanner agree on which literals are closed. A string
/// token that has its closing quote is never reported as unclosed: it
/// decodes, or holds an invalid escape. One that lacks it never decodes.
pub proof fn lemma_decode_detects_unclosed(token: TokenView)
    requires
        token.wf(),
        token.kind is String,
    ensures
        string_closed(token.text, 1) ==> match decode(token) {
            Ok(_) => true,
            Err(error) => error.kind is InvalidEscapeSequence,
        },
        !string_closed(token.text, 1) ==> decode(token) is Err,
{
    let text = token.text;
    lemma_string_end_bounds(text, 1);
    if string_closed(text, 1) {
        lemma_closed_decodes(text, 1);
    } else if text.len() >= 2 && text.last() == '"' {
        lemma_unclosed_fails(text, 1);
    }
}

/// The character that a backslash followed by `c` stands for.
fn escape(c: char) -> (decoded: Option<char>)
    ensures
        decoded == escape_of(c),
{
    match c {
        'n' => Some('\n'),
        'r' => Some('\r'),
        't' => Some('\t'),
        '"' => Some('"'),
        _ => None,
    }
}

/// Decodes the string literal `token`, which must be of kind `String` and
/// have a span as long as its text.
pub fn parse_string(token: Token) -> (result: Result<String, ParserError>)
    requires
        token.kind is String,
        token.span.start + byte_len(token.view@) == token.span.end,
    ensures
        match decode(token.model()) {
            Ok(decoded) => result is Ok && result->Ok_0@ == decoded,
            Err(error) => result == Err::<String, ParserError>(error),
        },
{
    let chars = chars_of(token.view());
    let ghost text = token.view@;
    let n = chars.len();
    if n < 2 || chars[n - 1] != '"' {
        return Err(ParserError { span: token.span(), kind: ParserErrorKind::UnclosedString });
    }
    let end = n - 1;
    let mut string = String::new();
    let mut i: usize = 1;
    proof {
        assert(text.last() == '"');
        lemma_byte_offset_split(text, 0, 0);
        lemma_byte_offset_step(text, 0);
        lemma_byte_offset_monotone(text, 1, n as int);
        lemma_byte_offset_split(text, 0, n as int);
    }
    let mut offset: usize = token.span().start() + width_of(chars[0]);
    while i < end
        invariant
            chars@ == text,
            text == token.view@,
            n == text.len(),
            end == n - 1,
            text.last() == '"',
            1 <= i <= end,
            token.span.start + byte_len(text) == token.span.end,
            offset == token.span.start + byte_offset(text, i as int),
            match unescape(text, i as int, end as int) {
                Ok(rest) => unescape(text, 1, end as int) == Ok::<Seq<char>, (ParserErrorKind, int)>(
                    string@ + rest,
                ),
                Err(fault) => unescape(text, 1, end as int) == Err::<
                    Seq<char>,
                    (ParserErrorKind, int),
                >(fault),
            },
        decreases end - i,
    {
        let c = chars[i];
        proof {
            lemma_byte_offset_step(text, i as int);
            lemma_byte_offset_step(text, i as int + 1);
            lemma_byte_offset_monotone(text, i as int + 1, n as int);
            lemma_byte_offset_monotone(text, i as int + 2, n as int);
            lemma_byte_offset_split(text, 0, n as int);
        }
        if c == '\\' {
            if i + 1 >= end {
                return Err(
                    ParserError {
                        span: Span::new(offset, offset + 1),
                        kind: ParserErrorKind::UnclosedString,
                    },
                );
            }
            let escaped = chars[i + 1];
            let start = offset + 1;
            match escape(escaped) {
                Some(decoded) => {
                    proof {
                        let rest = unescape(text, i as int + 2, end as int);
                        if rest is Ok {
                            assert(string@.push(decoded) + rest->Ok_0 =~= string@ + (seq![decoded]
                                + rest->Ok_0));
                        }
                    }
                    string.push(decoded);
                },
                None => {
                    return Err(
                        ParserError {
                            span: Span::new(start, start + width_of(escaped)),
                            kind: ParserErrorKind::InvalidEscapeSequence,
                        },
                    );
                },
            }
            offset = start + width_of(escaped);
            i = i + 2;
        } else {
            proof {
                let rest = unescape(text, i as int + 1, end as int);
                if rest is Ok {
                    assert(string@.push(c) + rest->Ok_0 =~= string@ + (seq![c] + rest->Ok_0));
                }
            }
            string.push(c);
            offset = offset + width_of(c);
            i = i + 1;
        }
    }
    assert(string@ + Seq::<char>::empty() =~= string@);
    Ok(string)
}

} // verus!
