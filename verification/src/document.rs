//! The top-level interface: from the text of a document to its root node.

use vstd::prelude::*;
use crate::builder::{from_tokens, parse_level, TokenCursor};
use crate::error::ParseError;
use crate::node::{Node, Tree};
use crate::token::Lexeme;
use crate::tokenizer::{parse_tokens, tokenize};

verus! {

/// The one node that a token sequence stands for: the tokens are read as the
/// top level, which must hold exactly one node.
pub open spec fn single_root(tokens: Seq<Lexeme>) -> Result<Tree, ParseError> {
    match parse_level(tokens, 0).outcome {
        Ok(trees) => if trees.len() == 0 {
            Err(ParseError::EmptyDocument)
        } else if trees.len() == 1 {
            Ok(trees[0])
        } else {
            Err(ParseError::MultipleTopLevelNodes)
        },
        Err(error) => Err(error),
    }
}

/// The tree that a document stands for, or the error that rejects it. A
/// lexical error anywhere in the text comes before any structural one.
pub open spec fn parse_document(text: Seq<char>) -> Result<Tree, ParseError> {
    match tokenize(text) {
        Ok(tokens) => single_root(tokens),
        Err(error) => Err(error),
    }
}

/// Whether `found` is `expected` in executable form: the same error, or a
/// node whose model is the expected tree.
pub open spec fn yields(found: Result<Node, ParseError>, expected: Result<Tree, ParseError>) -> bool {
    match expected {
        Ok(tree) => found matches Ok(node) && node@ == tree,
        Err(error) => found matches Err(e) && e == error,
    }
}

/// Parses a document. The result is all or nothing: the root node of the
/// whole text, or the first error.
pub fn from_str(string: &str) -> (root: Result<Node, ParseError>)
    ensures
        yields(root, parse_document(string@)),
{
    let tokens = match parse_tokens(string) {
        Ok(tokens) => tokens,
        Err(error) => {
            return Err(error);
        },
    };
    let mut cursor = TokenCursor::new(tokens);
    let mut nodes = match from_tokens(&mut cursor, 0) {
        Ok(nodes) => nodes,
        Err(error) => {
            return Err(error);
        },
    };
    match nodes.pop() {
        None => Err(ParseError::EmptyDocument),
        Some(root) => {
            if nodes.len() > 0 {
                Err(ParseError::MultipleTopLevelNodes)
            } else {
                Ok(root)
            }
        },
    }
}

} // verus!
