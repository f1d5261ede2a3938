//! The outcome of the tree builder, told from the brackets alone: whether a
//! token sequence is accepted, and with which error it is rejected, depends
//! only on how the opening and closing brackets balance in its prefixes.

use vstd::prelude::*;
use crate::builder::{parse_level, MAX_DEPTH};
use crate::error::ParseError;
use crate::node::Tree;
use crate::token::Lexeme;

verus! {

/// What a token adds to the number of open lists.
pub open spec fn weight(token: Lexeme) -> int {
    match token {
        Lexeme::BracketOpen => 1,
        Lexeme::BracketClose => -1,
        Lexeme::ItemText(_) => 0,
    }
}

/// The opening brackets less the closing brackets among the first `count`
/// tokens: the number of lists that are open behind them.
pub open spec fn balance(tokens: Seq<Lexeme>, count: int) -> int
    decreases count,
{
    if count <= 0 || count > tokens.len() {
        0
    } else {
        balance(tokens, count - 1) + weight(tokens[count - 1])
    }
}

/// Whether the balance of every prefix of up to `count` tokens is a level
/// that the builder can stand at: none below the top, none at the limit.
pub open spec fn stays_in_levels(tokens: Seq<Lexeme>, count: int) -> bool {
    forall|j: int| 0 <= j <= count ==> 0 <= #[trigger] balance(tokens, j) < MAX_DEPTH
}

/// The balance of a prefix is the balance of its front and of what follows.
proof fn lemma_balance_splits(tokens: Seq<Lexeme>, front: int, more: int)
    requires
        0 <= front,
        0 <= more,
        front + more <= tokens.len(),
    ensures
        balance(tokens, front + more) == balance(tokens, front) + balance(
            tokens.skip(front),
            more,
        ),
    decreases more,
{
    if more > 0 {
        lemma_balance_splits(tokens, front, more - 1);
        assert(tokens.skip(front)[more - 1] == tokens[front + more - 1]);
    }
}

/// What a level that begins `depth` lists deep took, in terms of the
/// balance: before its last token the balance stays between `depth` and the
/// limit, and the outcome tells where the balance goes with that token.
proof fn lemma_level_follows_balance(tokens: Seq<Lexeme>, depth: nat)
    requires
        depth < MAX_DEPTH,
    ensures
        ({
            let level = parse_level(tokens, depth);
            let taken = level.consumed as int;
            &&& taken <= tokens.len()
            &&& forall|j: int|
                0 <= j < taken ==> depth <= depth + #[trigger] balance(tokens, j) < MAX_DEPTH
            &&& match level.outcome {
                Ok(_) => if depth == 0 {
                    taken == tokens.len() && balance(tokens, taken) == 0
                } else {
                    taken >= 1 && balance(tokens, taken) == -1
                },
                Err(ParseError::UnmatchedClosingBracket) => depth == 0 && taken >= 1 && balance(
                    tokens,
                    taken,
                ) == -1,
                Err(ParseError::MaxRecursionExceeded) => taken >= 1 && depth + balance(
                    tokens,
                    taken,
                ) == MAX_DEPTH,
                Err(ParseError::UnterminatedList) => taken == tokens.len() && balance(
                    tokens,
                    taken,
                ) >= 0 && depth + balance(tokens, taken) > 0 && depth + balance(tokens, taken)
                    < MAX_DEPTH,
                Err(_) => false,
            }
        }),
    decreases tokens.len(),
{
    let level = parse_level(tokens, depth);
    let taken = level.consumed as int;
    if tokens.len() > 0 {
        let rest = tokens.skip(1);
        assert(balance(tokens, 1) == weight(tokens[0])) by {
            assert(balance(tokens, 0) == 0);
        }
        assert forall|j: int| 1 <= j <= tokens.len() implies #[trigger] balance(tokens, j)
            == weight(tokens[0]) + balance(rest, j - 1) by {
            lemma_balance_splits(tokens, 1, j - 1);
        }
        match tokens[0] {
            Lexeme::ItemText(_) => {
                lemma_level_follows_balance(rest, depth);
            },
            Lexeme::BracketClose => {},
            Lexeme::BracketOpen => {
                if depth + 1 < MAX_DEPTH {
                    lemma_level_follows_balance(rest, depth + 1);
                    let inner = parse_level(rest, depth + 1);
                    let used = 1 + inner.consumed as int;
                    if inner.outcome is Ok {
                        let after = tokens.skip(used);
                        lemma_level_follows_balance(after, depth);
                        assert(balance(tokens, used) == 0);
                        assert forall|j: int| 0 <= j <= after.len() implies #[trigger] balance(
                            tokens,
                            used + j,
                        ) == balance(after, j) by {
                            lemma_balance_splits(tokens, used, j);
                        }
                        let last = parse_level(after, depth);
                        assert forall|j: int| 0 <= j < taken implies depth <= depth
                            + #[trigger] balance(tokens, j) < MAX_DEPTH by {
                            if j >= used {
                                assert(balance(tokens, used + (j - used)) == balance(
                                    after,
                                    j - used,
                                ));
                            }
                        }
                        assert(balance(tokens, used + last.consumed as int) == balance(
                            after,
                            last.consumed as int,
                        ));
                    }
                }
            },
        }
    }
}

/// The builder's outcome at the top level, told from the brackets alone.
///
/// - The tokens are accepted exactly if no prefix leaves the levels and all
///   lists are closed at the end.
/// - A closing bracket is unmatched exactly if some prefix closes more than
///   it opened and no shorter prefix leaves the levels.
/// - The limit is exceeded exactly if some prefix opens [`MAX_DEPTH`] lists
///   and no shorter prefix leaves the levels.
/// - A list is unterminated exactly if no prefix leaves the levels and a
///   list is still open at the end.
pub proof fn lemma_outcome_follows_brackets(tokens: Seq<Lexeme>)
    ensures
        parse_level(tokens, 0).outcome is Ok <==> stays_in_levels(tokens, tokens.len() as int)
            && balance(tokens, tokens.len() as int) == 0,
        parse_level(tokens, 0).outcome == Err::<Seq<Tree>, ParseError>(
            ParseError::UnmatchedClosingBracket,
        ) <==> exists|k: int|
            0 <= k < tokens.len() && stays_in_levels(tokens, k) && #[trigger] balance(
                tokens,
                k + 1,
            ) == -1,
        parse_level(tokens, 0).outcome == Err::<Seq<Tree>, ParseError>(
            ParseError::MaxRecursionExceeded,
        ) <==> exists|k: int|
            0 <= k < tokens.len() && stays_in_levels(tokens, k) && #[trigger] balance(
                tokens,
                k + 1,
            ) == MAX_DEPTH,
        parse_level(tokens, 0).outcome == Err::<Seq<Tree>, ParseError>(
            ParseError::UnterminatedList,
        ) <==> stays_in_levels(tokens, tokens.len() as int) && balance(
            tokens,
            tokens.len() as int,
        ) > 0,
{
    let level = parse_level(tokens, 0);
    let taken = level.consumed as int;
    let len = tokens.len() as int;
    lemma_level_follows_balance(tokens, 0);
    assert(balance(tokens, 0) == 0);
    // What the outcome says of the balance.
    match level.outcome {
        Ok(_) => {
            assert(stays_in_levels(tokens, len));
        },
        Err(ParseError::UnterminatedList) => {
            assert(stays_in_levels(tokens, len));
        },
        Err(_) => {
            assert(stays_in_levels(tokens, taken - 1));
            assert(balance(tokens, (taken - 1) + 1) == balance(tokens, taken));
        },
    }
    // What the balance says of the outcome: a prefix that leaves the levels
    // lies at the end of what the level took, and nowhere else.
    assert forall|k: int|
        0 <= k < len && stays_in_levels(tokens, k) && (#[trigger] balance(tokens, k + 1) == -1
            || balance(tokens, k + 1) == MAX_DEPTH) implies k + 1 == taken && !(level.outcome is Ok)
        && level.outcome != Err::<Seq<Tree>, ParseError>(ParseError::UnterminatedList) by {
        if k + 1 < taken {
            assert(0 <= balance(tokens, k + 1) < MAX_DEPTH);
        }
        if taken <= k {
            assert(0 <= balance(tokens, taken) < MAX_DEPTH);
        }
    }
    if stays_in_levels(tokens, len) {
        assert(0 <= balance(tokens, taken) < MAX_DEPTH);
    }
}

} // verus!
