//! The tree builder: from a token sequence to the nodes of one nesting level.

use vstd::prelude::*;
use crate::error::ParseError;
use crate::node::{forest_view, lemma_list_view, Node, Tree};
use crate::token::{lexemes, Lexeme, Token};

verus! {

/// The number of nesting levels that a document may use, the top level
/// included: a level counter must stay below this.
pub const MAX_DEPTH: usize = 200;

/// What reading one nesting level gives: the nodes of the level or the error
/// that ended it, and the number of tokens that were taken either way.
pub struct Level {
    pub outcome: Result<Seq<Tree>, ParseError>,
    pub consumed: nat,
}

/// The level that begins with `front`, read from `used` tokens, and goes on
/// as `rest` does.
pub open spec fn extend(front: Seq<Tree>, used: nat, rest: Level) -> Level {
    Level {
        outcome: match rest.outcome {
            Ok(trees) => Ok(front + trees),
            Err(error) => Err(error),
        },
        consumed: used + rest.consumed,
    }
}

/// Reads the nodes of one nesting level from the front of `tokens`, where
/// `depth` counts the lists that are open around it.
///
/// - A level at or beyond [`MAX_DEPTH`] is refused before any token is read.
/// - When the tokens run out, the top level is complete and any other level
///   is an unterminated list.
/// - An item's text is a leaf of this level.
/// - A closing bracket is taken; it ends a nested level and is an error at
///   the top level.
/// - An opening bracket is taken, the level inside it is read one deeper, and
///   its nodes become a list of this level.
///
/// The test `used <= tokens.len()` holds always
/// ([`lemma_level_stays_in_bounds`]); it is what makes the definition
/// well-founded.
pub open spec fn parse_level(tokens: Seq<Lexeme>, depth: nat) -> Level
    decreases tokens.len(),
{
    if depth >= MAX_DEPTH {
        Level { outcome: Err(ParseError::MaxRecursionExceeded), consumed: 0 }
    } else if tokens.len() == 0 {
        Level {
            outcome: if depth == 0 {
                Ok(Seq::empty())
            } else {
                Err(ParseError::UnterminatedList)
            },
            consumed: 0,
        }
    } else {
        match tokens[0] {
            Lexeme::ItemText(text) => extend(
                seq![Tree::Item(text)],
                1,
                parse_level(tokens.skip(1), depth),
            ),
            Lexeme::BracketClose => Level {
                outcome: if depth == 0 {
                    Err(ParseError::UnmatchedClosingBracket)
                } else {
                    Ok(Seq::empty())
                },
                consumed: 1,
            },
            Lexeme::BracketOpen => {
                let inner = parse_level(tokens.skip(1), depth + 1);
                let used = 1 + inner.consumed;
                match inner.outcome {
                    Ok(children) if used <= tokens.len() => extend(
                        seq![Tree::List(children)],
                        used,
                        parse_level(tokens.skip(used as int), depth),
                    ),
                    Ok(_) => Level { outcome: Err(ParseError::UnterminatedList), consumed: used },
                    Err(error) => Level { outcome: Err(error), consumed: used },
                }
            },
        }
    }
}

/// A level never takes more tokens than there are.
pub proof fn lemma_level_stays_in_bounds(tokens: Seq<Lexeme>, depth: nat)
    ensures
        parse_level(tokens, depth).consumed <= tokens.len(),
    decreases tokens.len(),
{
    if depth < MAX_DEPTH && tokens.len() > 0 {
        match tokens[0] {
            Lexeme::ItemText(_) => {
                lemma_level_stays_in_bounds(tokens.skip(1), depth);
            },
            Lexeme::BracketClose => {},
            Lexeme::BracketOpen => {
                lemma_level_stays_in_bounds(tokens.skip(1), depth + 1);
                let inner = parse_level(tokens.skip(1), depth + 1);
                let used = 1 + inner.consumed;
                if inner.outcome is Ok {
                    lemma_level_stays_in_bounds(tokens.skip(used as int), depth);
                }
            },
        }
    }
}

/// Going on after `front` with `next` is going on after both.
pub proof fn lemma_extend_joins(
    front: Seq<Tree>,
    used: nat,
    next: Seq<Tree>,
    more: nat,
    rest: Level,
)
    ensures
        extend(front, used, extend(next, more, rest)) == extend(front + next, used + more, rest),
{
    if let Ok(trees) = rest.outcome {
        assert(front + (next + trees) =~= (front + next) + trees);
    }
}

/// A position in a token sequence: the tokens before it have been consumed,
/// the one at it can be looked at without consuming it.
pub struct TokenCursor {
    tokens: Vec<Token>,
    position: usize,
}

impl TokenCursor {
    #[verifier::type_invariant]
    spec fn in_bounds(self) -> bool {
        self.position <= self.tokens.len()
    }

    /// The tokens that have not been consumed yet.
    pub closed spec fn remaining(self) -> Seq<Lexeme> {
        lexemes(self.tokens@).skip(self.position as int)
    }

    /// A cursor in front of the first token.
    pub fn new(tokens: Vec<Token>) -> (cursor: TokenCursor)
        ensures
            cursor.remaining() == lexemes(tokens@),
    {
        let cursor = TokenCursor { tokens, position: 0 };
        assert(cursor.remaining() =~= lexemes(tokens@));
        cursor
    }

    /// The next token, left in place, or nothing at the end.
    pub fn peek(&self) -> (next: Option<&Token>)
        ensures
            match next {
                Some(token) => self.remaining().len() > 0 && token@ == self.remaining()[0],
                None => self.remaining().len() == 0,
            },
    {
        proof {
            use_type_invariant(self);
        }
        if self.position < self.tokens.len() {
            Some(&self.tokens[self.position])
        } else {
            None
        }
    }

    /// Consumes the next token; at the end nothing changes.
    pub fn advance(&mut self)
        ensures
            final(self).remaining() == if old(self).remaining().len() > 0 {
                old(self).remaining().skip(1)
            } else {
                old(self).remaining()
            },
    {
        proof {
            use_type_invariant(&*self);
        }
        if self.position < self.tokens.len() {
            self.position = self.position + 1;
            assert(self.remaining() =~= old(self).remaining().skip(1));
        }
    }
}

/// Reads the nodes of the nesting level at which the cursor stands, where
/// `recursion` counts the lists that are open around it, and leaves the
/// cursor behind the last token that the level took.
pub fn from_tokens(tokens: &mut TokenCursor, recursion: usize) -> (siblings: Result<
    Vec<Node>,
    ParseError,
>)
    ensures
        ({
            let level = parse_level(old(tokens).remaining(), recursion as nat);
            &&& level.consumed <= old(tokens).remaining().len()
            &&& final(tokens).remaining() == old(tokens).remaining().skip(level.consumed as int)
            &&& match level.outcome {
                Ok(trees) => siblings matches Ok(nodes) && forest_view(nodes@) == trees,
                Err(error) => siblings matches Err(e) && e == error,
            }
        }),
    decreases old(tokens).remaining().len(),
{
    let ghost start = tokens.remaining();
    if recursion >= MAX_DEPTH {
        assert(start.skip(0) =~= start);
        return Err(ParseError::MaxRecursionExceeded);
    }
    let mut nodes: Vec<Node> = Vec::new();
    let ghost mut used: nat = 0;
    assert(start.skip(0) =~= start);
    assert(forest_view(nodes@) =~= Seq::empty());
    assert(Seq::<Tree>::empty() + Seq::<Tree>::empty() =~= Seq::<Tree>::empty());
    loop
        invariant
            recursion < MAX_DEPTH,
            start == old(tokens).remaining(),
            used <= start.len(),
            tokens.remaining() == start.skip(used as int),
            parse_level(start, recursion as nat) == extend(
                forest_view(nodes@),
                used,
                parse_level(tokens.remaining(), recursion as nat),
            ),
        decreases tokens.remaining().len(),
    {
        let ghost here = tokens.remaining();
        let ghost front = forest_view(nodes@);
        match tokens.peek() {
            None => {
                assert(front + Seq::<Tree>::empty() =~= front);
                if recursion > 0 {
                    return Err(ParseError::UnterminatedList);
                }
                return Ok(nodes);
            },
            Some(Token::BracketOpen) => {
                tokens.advance();
                let inner = from_tokens(tokens, recursion + 1);
                proof {
                    let level = parse_level(here.skip(1), recursion as nat + 1);
                    assert(here.skip(1).skip(level.consumed as int) =~= here.skip(
                        1 + level.consumed as int,
                    ));
                    assert(start.skip(used as int).skip(1 + level.consumed as int) =~= start.skip(
                        used as int + 1 + level.consumed as int,
                    ));
                }
                match inner {
                    Ok(children) => {
                        proof {
                            let level = parse_level(here.skip(1), recursion as nat + 1);
                            lemma_list_view(children);
                            lemma_extend_joins(
                                front,
                                used,
                                seq![Tree::List(forest_view(children@))],
                                1 + level.consumed,
                                parse_level(tokens.remaining(), recursion as nat),
                            );
                            used = used + 1 + level.consumed;
                        }
                        nodes.push(Node::List(children));
                        assert(forest_view(nodes@) =~= front + seq![
                            Tree::List(forest_view(children@)),
                        ]);
                    },
                    Err(error) => {
                        return Err(error);
                    },
                }
            },
            Some(Token::BracketClose) => {
                tokens.advance();
                assert(start.skip(used as int).skip(1) =~= start.skip(used as int + 1));
                assert(front + Seq::<Tree>::empty() =~= front);
                if recursion == 0 {
                    return Err(ParseError::UnmatchedClosingBracket);
                }
                return Ok(nodes);
            },
            Some(Token::ItemText(text)) => {
                let value = text.clone();
                tokens.advance();
                proof {
                    assert(start.skip(used as int).skip(1) =~= start.skip(used as int + 1));
                    lemma_extend_joins(
                        front,
                        used,
                        seq![Tree::Item(value@)],
                        1,
                        parse_level(tokens.remaining(), recursion as nat),
                    );
                    used = used + 1;
                }
                nodes.push(Node::Item(value));
                assert(forest_view(nodes@) =~= front + seq![Tree::Item(value@)]);
            },
        }
    }
}

} // verus!
