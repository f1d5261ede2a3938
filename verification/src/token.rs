//! The lexical units of a document.

use vstd::prelude::*;

verus! {

/// The mathematical model of a token.
pub enum Lexeme {
    BracketOpen,
    BracketClose,
    ItemText(Seq<char>),
}

/// A lexical unit: an opening bracket, a closing bracket, or the text of one
/// item with quotes and escapes already resolved.
#[derive(Debug, PartialEq, Eq)]
pub enum Token {
    BracketOpen,
    BracketClose,
    ItemText(String),
}

impl View for Token {
    type V = Lexeme;

    open spec fn view(&self) -> Lexeme {
        match self {
            Token::BracketOpen => Lexeme::BracketOpen,
            Token::BracketClose => Lexeme::BracketClose,
            Token::ItemText(text) => Lexeme::ItemText(text@),
        }
    }
}

/// The models of a sequence of tokens, in order.
pub open spec fn lexemes(tokens: Seq<Token>) -> Seq<Lexeme> {
    tokens.map_values(|token: Token| token@)
}

impl Token {
    /// Takes the token apart: the text of an item, or nothing for a bracket.
    pub fn as_item_text(self) -> (text: Option<String>)
        ensures
            text == (match self {
                Token::ItemText(value) => Some(value),
                _ => None,
            }),
            match self@ {
                Lexeme::ItemText(chars) => text matches Some(s) && s@ == chars,
                _ => text is None,
            },
    {
        match self {
            Token::ItemText(text) => Some(text),
            _ => None,
        }
    }
}

} // verus!
