//! Which texts the tokenizer rejects, told from the text alone: whether a
//! character is escaped and whether it stands inside quotes are functions
//! of the characters before it, and the first character that offends
//! against them decides the error.

use vstd::prelude::*;
use crate::error::ParseError;
use crate::token::Lexeme;
use crate::tokenizer::{escape_target, lex_finish, lex_run, tokenize, white_space, LexState};

verus! {

/// Whether the character at `index` is escaped: it stands directly behind a
/// backslash that is not escaped itself.
pub open spec fn escaped_at(text: Seq<char>, index: int) -> bool
    decreases index,
{
    0 < index <= text.len() && text[index - 1] == '\\' && !escaped_at(text, index - 1)
}

/// Whether the character at `index` opens or closes a quoted region: it is
/// a quote that is not escaped.
pub open spec fn toggles_quotes_at(text: Seq<char>, index: int) -> bool {
    0 <= index < text.len() && text[index] == '"' && !escaped_at(text, index)
}

/// Whether `index` lies inside a quoted region: an odd number of quotes
/// that are not escaped stand before it.
pub open spec fn quoted_at(text: Seq<char>, index: int) -> bool
    decreases index,
{
    if index <= 0 || index > text.len() {
        false
    } else {
        quoted_at(text, index - 1) != toggles_quotes_at(text, index - 1)
    }
}

/// Whether the character at `index` is one that the tokenizer rejects: an
/// escaped character without a target, or a line break inside quotes.
pub open spec fn offends_at(text: Seq<char>, index: int) -> bool {
    0 <= index < text.len() && if escaped_at(text, index) {
        escape_target(text[index], quoted_at(text, index)) is Err
    } else {
        quoted_at(text, index) && text[index] == '\n'
    }
}

/// The error that the offending character at `index` causes.
pub open spec fn offence_at(text: Seq<char>, index: int) -> ParseError {
    if escaped_at(text, index) {
        escape_target(text[index], quoted_at(text, index))->Err_0
    } else {
        ParseError::UnexpectedEndOfLine
    }
}

/// Whether the character at `index` offends and none before it does.
pub open spec fn first_offence_at(text: Seq<char>, index: int) -> bool {
    offends_at(text, index) && forall|j: int| 0 <= j < index ==> !#[trigger] offends_at(text, j)
}

/// The tokenizer's flags are the flags of the text, and it fails at the
/// first character that offends.
proof fn lemma_scan_tracks_the_text(text: Seq<char>, count: int)
    requires
        0 <= count <= text.len(),
    ensures
        match lex_run(text.take(count)) {
            Ok(state) => {
                &&& state.escaped == escaped_at(text, count)
                &&& state.quoted == quoted_at(text, count)
                &&& forall|i: int| 0 <= i < count ==> !#[trigger] offends_at(text, i)
            },
            Err(error) => exists|i: int|
                0 <= i < count && #[trigger] first_offence_at(text, i) && error == offence_at(
                    text,
                    i,
                ),
        },
    decreases count,
{
    if count > 0 {
        let prefix = text.take(count);
        lemma_scan_tracks_the_text(text, count - 1);
        assert(prefix.drop_last() =~= text.take(count - 1));
        assert(prefix.last() == text[count - 1]);
        match lex_run(text.take(count - 1)) {
            Ok(state) => {
                if lex_run(prefix) is Err {
                    assert(first_offence_at(text, count - 1));
                }
            },
            Err(error) => {
                let i = choose|i: int|
                    0 <= i < count - 1 && #[trigger] first_offence_at(text, i) && error
                        == offence_at(text, i);
                assert(first_offence_at(text, i));
            },
        }
    }
}

/// The tokenizer rejects a text exactly if some character of it offends,
/// and then with the error of the first that does.
pub proof fn lemma_scan_fails_at_the_first_offence(text: Seq<char>)
    ensures
        tokenize(text) is Err <==> exists|i: int| #[trigger] offends_at(text, i),
        forall|i: int| #[trigger]
            first_offence_at(text, i) ==> tokenize(text) == Err::<Seq<Lexeme>, ParseError>(
                offence_at(text, i),
            ),
{
    lemma_scan_tracks_the_text(text, text.len() as int);
    assert(text.take(text.len() as int) =~= text);
    match lex_run(text) {
        Ok(_) => {},
        Err(error) => {
            let first = choose|i: int|
                0 <= i < text.len() && #[trigger] first_offence_at(text, i) && error == offence_at(
                    text,
                    i,
                );
            assert(offends_at(text, first));
            assert forall|i: int| #[trigger] first_offence_at(text, i) implies i == first by {
                if i < first {
                    assert(!offends_at(text, i));
                }
                if first < i {
                    assert(!offends_at(text, first));
                }
            }
        },
    }
}

/// Whether a character ends the pending item outside quotes: whitespace or
/// a bracket.
pub open spec fn is_separator(ch: char) -> bool {
    white_space(ch) || ch == '[' || ch == ']'
}

/// The token that a separator is by itself: a bracket is one, whitespace
/// is none.
pub open spec fn separator_tokens(ch: char) -> Seq<Lexeme> {
    if ch == '[' {
        seq![Lexeme::BracketOpen]
    } else if ch == ']' {
        seq![Lexeme::BracketClose]
    } else {
        Seq::empty()
    }
}

/// Whether the tokenizer accepts a text and stands outside quotes and
/// escapes at its end.
pub open spec fn is_closed(text: Seq<char>) -> bool {
    lex_run(text) matches Ok(state) && !state.quoted && !state.escaped
}

/// The state with `front` before its tokens.
pub open spec fn behind(front: Seq<Lexeme>, state: LexState) -> LexState {
    LexState { tokens: front + state.tokens, ..state }
}

/// Behind a closed text and a separator, the tokenizer reads on as from the
/// start, with the tokens so far before its own.
proof fn lemma_scan_behind_a_separator(before: Seq<char>, ch: char, after: Seq<char>, count: int)
    requires
        is_closed(before),
        is_separator(ch),
        0 <= count <= after.len(),
    ensures
        lex_run(before + seq![ch] + after.take(count)) == match lex_run(after.take(count)) {
            Ok(state) => Ok(
                behind(lex_finish(lex_run(before)->Ok_0) + separator_tokens(ch), state),
            ),
            Err(error) => Err(error),
        },
    decreases count,
{
    let front = lex_finish(lex_run(before)->Ok_0) + separator_tokens(ch);
    let whole = before + seq![ch] + after.take(count);
    if count == 0 {
        assert(after.take(0) =~= Seq::<char>::empty());
        assert(whole.drop_last() =~= before);
        assert(whole.last() == ch);
        assert(lex_run(whole)->Ok_0.tokens =~= front + Seq::<Lexeme>::empty());
    } else {
        lemma_scan_behind_a_separator(before, ch, after, count - 1);
        assert(whole.drop_last() =~= before + seq![ch] + after.take(count - 1));
        assert(after.take(count).drop_last() =~= after.take(count - 1));
        assert(whole.last() == after.take(count).last());
        if let Ok(state) = lex_run(after.take(count - 1)) {
            if let Ok(next) = lex_run(after.take(count)) {
                assert(lex_run(whole)->Ok_0.tokens =~= front + next.tokens);
            }
        }
    }
}

/// Separators split a text: behind a closed text, whitespace or a bracket
/// ends what came before, and what follows is read as if it stood alone.
/// The tokens of the whole are the tokens of the part before, the bracket
/// if the separator is one, and the tokens of the part behind.
pub proof fn lemma_separator_splits(before: Seq<char>, ch: char, after: Seq<char>)
    requires
        is_closed(before),
        is_separator(ch),
    ensures
        tokenize(before) is Ok,
        tokenize(before + seq![ch] + after) == match tokenize(after) {
            Ok(tokens) => Ok(tokenize(before)->Ok_0 + separator_tokens(ch) + tokens),
            Err(error) => Err(error),
        },
{
    let front = tokenize(before)->Ok_0 + separator_tokens(ch);
    lemma_scan_behind_a_separator(before, ch, after, after.len() as int);
    assert(after.take(after.len() as int) =~= after);
    if let Ok(state) = lex_run(after) {
        assert(lex_finish(behind(front, state)) =~= front + lex_finish(state));
    }
}

} // verus!
