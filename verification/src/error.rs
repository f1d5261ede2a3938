//! The ways in which a document can be rejected.

use vstd::prelude::*;

verus! {

/// Why a document was rejected. The first four kinds are lexical, the
/// others structural.
#[derive(Clone, Copy, Debug, PartialEq, Eq, Structural)]
pub enum ParseError {
    /// A quoted region was never closed. This parser does not report it: a
    /// line break inside quotes is an [`UnexpectedEndOfLine`], and the end
    /// of the text closes a quoted region that is still open.
    ///
    /// [`UnexpectedEndOfLine`]: ParseError::UnexpectedEndOfLine
    UnterminatedQuote,
    /// A line ended inside a quoted region or directly after a backslash.
    UnexpectedEndOfLine,
    /// A backslash was followed by this character, which has no escape
    /// meaning.
    UnknownEscapeCharacter(char),
    /// This bracket was escaped inside a quoted region, where it is literal
    /// anyway.
    RedundantEscapeInQuotes(char),
    /// A closing bracket stood at the top level.
    UnmatchedClosingBracket,
    /// The text ended while a list was still open.
    UnterminatedList,
    /// More than one node stood at the top level.
    MultipleTopLevelNodes,
    /// The text held no node at all.
    EmptyDocument,
    /// Lists were nested deeper than the parser allows.
    MaxRecursionExceeded,
}

impl ParseError {
    /// The text of the message that describes each kind. The two kinds that
    /// hold a character name it between backquotes.
    pub open spec fn message_text(self) -> Seq<char> {
        match self {
            ParseError::UnterminatedQuote => "unexpected end of string. expected closing quote"@,
            ParseError::UnexpectedEndOfLine => "unexpected end of line"@,
            ParseError::UnknownEscapeCharacter(ch) => "unknown character escape `"@.push(ch).push(
                '`',
            ),
            ParseError::RedundantEscapeInQuotes(ch) =>
                "unnecessary character escape in quotes `"@.push(ch).push('`'),
            ParseError::UnmatchedClosingBracket => "unexpected closing bracket."@,
            ParseError::UnterminatedList => "unexpected end of string. expected closing bracket"@,
            ParseError::MultipleTopLevelNodes => "unexpected node. only one top level node allowed."@,
            ParseError::EmptyDocument => "empty document. expected one top level node."@,
            ParseError::MaxRecursionExceeded => "max recursion"@,
        }
    }

    /// True for the lexical kinds.
    pub open spec fn is_lexical(self) -> bool {
        self is UnterminatedQuote || self is UnexpectedEndOfLine || self is UnknownEscapeCharacter
            || self is RedundantEscapeInQuotes
    }

    /// A human-readable description of the error.
    pub fn message(&self) -> (text: String)
        ensures
            text@ == self.message_text(),
    {
        match self {
            ParseError::UnterminatedQuote => "unexpected end of string. expected closing quote".to_owned(),
            ParseError::UnexpectedEndOfLine => "unexpected end of line".to_owned(),
            ParseError::UnknownEscapeCharacter(ch) => {
                let mut text = "unknown character escape `".to_owned();
                text.push(*ch);
                text.push('`');
                text
            },
            ParseError::RedundantEscapeInQuotes(ch) => {
                let mut text = "unnecessary character escape in quotes `".to_owned();
                text.push(*ch);
                text.push('`');
                text
            },
            ParseError::UnmatchedClosingBracket => "unexpected closing bracket.".to_owned(),
            ParseError::UnterminatedList => "unexpected end of string. expected closing bracket".to_owned(),
            ParseError::MultipleTopLevelNodes => "unexpected node. only one top level node allowed.".to_owned(),
            ParseError::EmptyDocument => "empty document. expected one top level node.".to_owned(),
            ParseError::MaxRecursionExceeded => "max recursion".to_owned(),
        }
    }
}

} // verus!
