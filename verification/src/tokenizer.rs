//! The tokenizer: one pass over the characters of a document, left to right,
//! that yields its tokens or the first lexical error.
//!
//! The rules are stated once, as the spec function [`lex_step`], and the
//! executable [`Tokenizer`] is proved to follow them character by character.

use vstd::prelude::*;
use vstd::std_specs::iter::IteratorSpec;
use crate::error::ParseError;
use crate::token::{lexemes, Lexeme, Token};

verus! {

/// Whether a character has the Unicode property `White_Space`. The Unicode
/// Character Database gives it to these 25 code points and to no other: the
/// controls U+0009 to U+000D, the space U+0020, U+0085, U+00A0, U+1680,
/// U+2000 to U+200A, U+2028, U+2029, U+202F, U+205F and U+3000.
pub open spec fn white_space(ch: char) -> bool {
    ||| '\u{9}' <= ch <= '\u{d}'
    ||| ch == ' '
    ||| ch == '\u{85}'
    ||| ch == '\u{a0}'
    ||| ch == '\u{1680}'
    ||| '\u{2000}' <= ch <= '\u{200a}'
    ||| ch == '\u{2028}'
    ||| ch == '\u{2029}'
    ||| ch == '\u{202f}'
    ||| ch == '\u{205f}'
    ||| ch == '\u{3000}'
}

/// `char::is_whitespace` of the standard library tells whether a character
/// has the Unicode property `White_Space`; the contract says so, with the
/// property written out as [`white_space`].
pub assume_specification[ char::is_whitespace ](ch: char) -> (answer: bool)
    ensures
        answer == white_space(ch),
;

/// `String::push` of the standard library appends one character to the end
/// of the string and leaves the characters before it as they were.
pub assume_specification[ String::push ](text: &mut String, ch: char)
    ensures
        final(text)@ == old(text)@.push(ch),
;

/// The state of the scan between two characters.
pub struct LexState {
    /// The tokens completed so far.
    pub tokens: Seq<Lexeme>,
    /// The text of the item that is being read; empty between items.
    pub pending: Seq<char>,
    /// Whether the scan stands inside a quoted region.
    pub quoted: bool,
    /// Whether the previous character was an unescaped backslash.
    pub escaped: bool,
}

/// The state before the first character.
pub open spec fn lex_start() -> LexState {
    LexState { tokens: Seq::empty(), pending: Seq::empty(), quoted: false, escaped: false }
}

/// The tokens once the pending text, if there is any, has become an item.
/// Empty text makes no item, so an empty pair of quotes leaves no token.
pub open spec fn flushed(tokens: Seq<Lexeme>, pending: Seq<char>) -> Seq<Lexeme> {
    if pending.len() > 0 {
        tokens.push(Lexeme::ItemText(pending))
    } else {
        tokens
    }
}

/// What the character after a backslash stands for. A line break cannot be
/// escaped; any other whitespace stands for itself; `n` and `t` stand for a
/// line break and a tab; a quote stands for itself; a bracket stands for
/// itself outside quotes and is an error inside them, where it is literal
/// already; every other character is an error.
pub open spec fn escape_target(ch: char, quoted: bool) -> Result<char, ParseError> {
    if ch == '\n' {
        Err(ParseError::UnexpectedEndOfLine)
    } else if white_space(ch) {
        Ok(ch)
    } else if ch == 'n' {
        Ok('\n')
    } else if ch == 't' {
        Ok('\t')
    } else if ch == '"' {
        Ok(ch)
    } else if ch == '[' || ch == ']' {
        if quoted {
            Err(ParseError::RedundantEscapeInQuotes(ch))
        } else {
            Ok(ch)
        }
    } else {
        Err(ParseError::UnknownEscapeCharacter(ch))
    }
}

/// The effect of one character on the state. The rules apply in this order:
///
/// 1. after a backslash, the character is an escape target;
/// 2. a backslash announces an escape;
/// 3. a quote opens or closes a quoted region;
/// 4. inside quotes every character is text, but a line break, which may
///    not stand there and ends the line unexpectedly;
/// 5. a bracket ends the pending item and is a token of its own;
/// 6. whitespace ends the pending item;
/// 7. any other character is text.
pub open spec fn lex_step(state: LexState, ch: char) -> Result<LexState, ParseError> {
    if state.escaped {
        match escape_target(ch, state.quoted) {
            Ok(target) => Ok(
                LexState { pending: state.pending.push(target), escaped: false, ..state },
            ),
            Err(error) => Err(error),
        }
    } else if ch == '\\' {
        Ok(LexState { escaped: true, ..state })
    } else if ch == '"' {
        Ok(LexState { quoted: !state.quoted, ..state })
    } else if state.quoted {
        if ch == '\n' {
            Err(ParseError::UnexpectedEndOfLine)
        } else {
            Ok(LexState { pending: state.pending.push(ch), ..state })
        }
    } else if ch == '[' {
        Ok(
            LexState {
                tokens: flushed(state.tokens, state.pending).push(Lexeme::BracketOpen),
                pending: Seq::empty(),
                ..state
            },
        )
    } else if ch == ']' {
        Ok(
            LexState {
                tokens: flushed(state.tokens, state.pending).push(Lexeme::BracketClose),
                pending: Seq::empty(),
                ..state
            },
        )
    } else if white_space(ch) {
        Ok(
            LexState {
                tokens: flushed(state.tokens, state.pending),
                pending: Seq::empty(),
                ..state
            },
        )
    } else {
        Ok(LexState { pending: state.pending.push(ch), ..state })
    }
}

/// The state after all of `text` has been read, or the first error met.
pub open spec fn lex_run(text: Seq<char>) -> Result<LexState, ParseError>
    decreases text.len(),
{
    if text.len() == 0 {
        Ok(lex_start())
    } else {
        match lex_run(text.drop_last()) {
            Ok(state) => lex_step(state, text.last()),
            Err(error) => Err(error),
        }
    }
}

/// What the end of the text makes of the state: the pending text becomes the
/// last item. The end closes a quoted region that is still open, and a
/// backslash at the very end escapes nothing and is dropped.
pub open spec fn lex_finish(state: LexState) -> Seq<Lexeme> {
    flushed(state.tokens, state.pending)
}

/// The tokens of a document, or the lexical error that rejects it.
pub open spec fn tokenize(text: Seq<char>) -> Result<Seq<Lexeme>, ParseError> {
    match lex_run(text) {
        Ok(state) => Ok(lex_finish(state)),
        Err(error) => Err(error),
    }
}

/// An error ends the scan: once a prefix of the text is rejected, the whole
/// text is rejected with the same error.
pub proof fn lemma_lex_error_is_final(prefix: Seq<char>, text: Seq<char>)
    requires
        prefix.is_prefix_of(text),
        lex_run(prefix) is Err,
    ensures
        lex_run(text) == lex_run(prefix),
    decreases text.len(),
{
    if prefix.len() < text.len() {
        assert(prefix.is_prefix_of(text.drop_last()));
        lemma_lex_error_is_final(prefix, text.drop_last());
    } else {
        assert(prefix =~= text);
    }
}

/// The scanner itself: the state of [`LexState`] in executable form.
pub struct Tokenizer {
    tokens: Vec<Token>,
    pending: String,
    quoted: bool,
    escaped: bool,
}

impl View for Tokenizer {
    type V = LexState;

    closed spec fn view(&self) -> LexState {
        LexState {
            tokens: lexemes(self.tokens@),
            pending: self.pending@,
            quoted: self.quoted,
            escaped: self.escaped,
        }
    }
}

/// Computes [`escape_target`].
pub fn resolve_escape(ch: char, quoted: bool) -> (target: Result<char, ParseError>)
    ensures
        target == escape_target(ch, quoted),
{
    if ch == '\n' {
        Err(ParseError::UnexpectedEndOfLine)
    } else if ch.is_whitespace() {
        Ok(ch)
    } else if ch == 'n' {
        Ok('\n')
    } else if ch == 't' {
        Ok('\t')
    } else if ch == '"' {
        Ok(ch)
    } else if ch == '[' || ch == ']' {
        if quoted {
            Err(ParseError::RedundantEscapeInQuotes(ch))
        } else {
            Ok(ch)
        }
    } else {
        Err(ParseError::UnknownEscapeCharacter(ch))
    }
}

impl Tokenizer {
    /// A tokenizer that has read nothing yet.
    pub fn new() -> (lexer: Tokenizer)
        ensures
            lexer@ == lex_start(),
    {
        let lexer = Tokenizer {
            tokens: Vec::new(),
            pending: String::new(),
            quoted: false,
            escaped: false,
        };
        assert(lexemes(lexer.tokens@) =~= Seq::empty());
        lexer
    }

    /// Ends the pending item, if one has been begun.
    fn flush(&mut self)
        ensures
            final(self)@ == (LexState {
                tokens: flushed(old(self)@.tokens, old(self)@.pending),
                pending: Seq::empty(),
                ..old(self)@
            }),
    {
        if !self.pending.as_str().is_empty() {
            let mut text = String::new();
            std::mem::swap(&mut self.pending, &mut text);
            self.tokens.push(Token::ItemText(text));
            assert(lexemes(self.tokens@) =~= lexemes(old(self).tokens@).push(
                Lexeme::ItemText(old(self).pending@),
            ));
        } else {
            assert(self.pending@ =~= Seq::empty());
        }
    }

    /// Ends the pending item and appends a token behind it.
    fn emit(&mut self, token: Token)
        ensures
            final(self)@ == (LexState {
                tokens: flushed(old(self)@.tokens, old(self)@.pending).push(token@),
                pending: Seq::empty(),
                ..old(self)@
            }),
    {
        self.flush();
        let ghost before = self.tokens@;
        self.tokens.push(token);
        assert(lexemes(self.tokens@) =~= lexemes(before).push(token@));
    }

    /// Reads one character and returns the tokenizer in its next state, or
    /// the error that the character causes.
    pub fn step(self, ch: char) -> (next: Result<Tokenizer, ParseError>)
        ensures
            match lex_step(self@, ch) {
                Ok(state) => next matches Ok(lexer) && lexer@ == state,
                Err(error) => next matches Err(e) && e == error,
            },
    {
        let mut lexer = self;
        if lexer.escaped {
            match resolve_escape(ch, lexer.quoted) {
                Ok(target) => {
                    lexer.pending.push(target);
                    lexer.escaped = false;
                },
                Err(error) => {
                    return Err(error);
                },
            }
        } else if ch == '\\' {
            lexer.escaped = true;
        } else if ch == '"' {
            lexer.quoted = !lexer.quoted;
        } else if lexer.quoted {
            if ch == '\n' {
                return Err(ParseError::UnexpectedEndOfLine);
            }
            lexer.pending.push(ch);
        } else if ch == '[' {
            lexer.emit(Token::BracketOpen);
        } else if ch == ']' {
            lexer.emit(Token::BracketClose);
        } else if ch.is_whitespace() {
            lexer.flush();
        } else {
            lexer.pending.push(ch);
        }
        Ok(lexer)
    }

    /// Ends the scan and hands out the tokens.
    pub fn finish(self) -> (tokens: Vec<Token>)
        ensures
            lexemes(tokens@) == lex_finish(self@),
    {
        let mut lexer = self;
        lexer.flush();
        lexer.tokens
    }
}

/// Splits a document into its tokens. Bracket balance is not checked here.
pub fn parse_tokens(string: &str) -> (tokens: Result<Vec<Token>, ParseError>)
    ensures
        match tokenize(string@) {
            Ok(expected) => tokens matches Ok(found) && lexemes(found@) == expected,
            Err(error) => tokens matches Err(e) && e == error,
        },
{
    let mut lexer = Tokenizer::new();
    let mut chars = string.chars();
    let ghost mut read: Seq<char> = Seq::empty();
    loop
        invariant
            chars.obeys_prophetic_iter_laws(),
            chars.decrease() is Some,
            read + chars.remaining() == string@,
            lex_run(read) == Ok::<LexState, ParseError>(lexer@),
        decreases chars.decrease()->0,
    {
        let ghost rest = chars.remaining();
        match chars.next() {
            None => {
                assert(read =~= string@);
                return Ok(lexer.finish());
            },
            Some(ch) => {
                proof {
                    let longer = read.push(ch);
                    assert(longer.drop_last() =~= read);
                    assert(longer + chars.remaining() =~= read + rest);
                    read = longer;
                }
                match lexer.step(ch) {
                    Ok(next) => {
                        lexer = next;
                    },
                    Err(error) => {
                        proof {
                            lemma_lex_error_is_final(read, string@);
                        }
                        return Err(error);
                    },
                }
            },
        }
    }
}

} // verus!
