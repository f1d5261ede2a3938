//! The grammar of documents, as the tokens that write a tree, and the proof
//! that the tree builder reads exactly what the grammar writes.
//!
//! ```text
//! document := node
//! node     := item | list
//! list     := '[' node* ']'
//! ```

use vstd::prelude::*;
use crate::builder::{
    extend, lemma_extend_joins, lemma_level_stays_in_bounds, parse_level, Level, MAX_DEPTH,
};
use crate::document::single_root;
use crate::error::ParseError;
use crate::laws::lemma_level_nesting_is_bounded;
use crate::node::Tree;
use crate::token::Lexeme;

verus! {

/// The tokens that write a tree: an item is its text; a list is an opening
/// bracket, the tokens of its children in order, and a closing bracket.
pub open spec fn tokens_of(tree: Tree) -> Seq<Lexeme>
    decreases tree, 0nat,
{
    match tree {
        Tree::Item(text) => seq![Lexeme::ItemText(text)],
        Tree::List(children) => seq![Lexeme::BracketOpen] + tokens_from(children, 0) + seq![
            Lexeme::BracketClose,
        ],
    }
}

/// The tokens that write the trees from index `start` on, one after another.
pub open spec fn tokens_from(trees: Seq<Tree>, start: nat) -> Seq<Lexeme>
    decreases trees, trees.len() - start,
{
    if start >= trees.len() {
        Seq::empty()
    } else {
        tokens_of(trees[start as int]) + tokens_from(trees, start + 1)
    }
}

/// Whether each of the trees nests within `levels` levels.
pub open spec fn all_nest_within(trees: Seq<Tree>, levels: nat) -> bool {
    forall|i: int| 0 <= i < trees.len() ==> (#[trigger] trees[i]).nests_within(levels)
}

/// The builder reads what the grammar writes: in front of any tokens `tail`,
/// the tokens of some trees that fit below `depth` are read back as those
/// trees, and the level goes on with `tail`.
pub proof fn lemma_level_reads_trees(trees: Seq<Tree>, start: nat, tail: Seq<Lexeme>, depth: nat)
    requires
        depth < MAX_DEPTH,
        start <= trees.len(),
        all_nest_within(trees, (MAX_DEPTH - 1 - depth) as nat),
    ensures
        parse_level(tokens_from(trees, start) + tail, depth) == extend(
            trees.skip(start as int),
            tokens_from(trees, start).len(),
            parse_level(tail, depth),
        ),
    decreases trees, trees.len() - start,
{
    let tokens = tokens_from(trees, start) + tail;
    let rest = parse_level(tail, depth);
    if start >= trees.len() {
        assert(tokens =~= tail);
        assert(trees.skip(start as int) =~= Seq::empty());
        if let Ok(found) = rest.outcome {
            assert(Seq::<Tree>::empty() + found =~= found);
        }
    } else {
        let first = trees[start as int];
        let after = tokens_from(trees, start + 1);
        assert(first.nests_within((MAX_DEPTH - 1 - depth) as nat));
        assert(tokens_from(trees, start) == tokens_of(first) + after);
        assert(tokens =~= tokens_of(first) + (after + tail));
        assert(trees.skip(start as int) =~= seq![first] + trees.skip(start as int + 1));
        lemma_level_reads_trees(trees, start + 1, tail, depth);
        match first {
            Tree::Item(text) => {
                assert(tokens_of(first) == seq![Lexeme::ItemText(text)]);
                assert(tokens[0] == Lexeme::ItemText(text));
                assert(tokens.skip(1) =~= after + tail);
                lemma_extend_joins(
                    seq![first],
                    1,
                    trees.skip(start as int + 1),
                    after.len(),
                    rest,
                );
            },
            Tree::List(children) => {
                let inside = tokens_from(children, 0);
                let closing = seq![Lexeme::BracketClose] + (after + tail);
                assert(tokens_of(first) == seq![Lexeme::BracketOpen] + inside + seq![
                    Lexeme::BracketClose,
                ]);
                assert(tokens[0] == Lexeme::BracketOpen);
                assert(tokens.skip(1) =~= inside + closing);
                assert(all_nest_within(children, (MAX_DEPTH - 1 - (depth + 1)) as nat));
                lemma_level_reads_trees(children, 0, closing, depth + 1);
                assert(children.skip(0) =~= children);
                assert(closing[0] == Lexeme::BracketClose);
                assert(parse_level(closing, depth + 1) == Level {
                    outcome: Ok(Seq::empty()),
                    consumed: 1,
                });
                assert(children + Seq::<Tree>::empty() =~= children);
                let inner = parse_level(tokens.skip(1), depth + 1);
                assert(inner == Level { outcome: Ok(children), consumed: inside.len() + 1 });
                let used = 1 + inner.consumed;
                assert(tokens.skip(used as int) =~= after + tail);
                lemma_extend_joins(
                    seq![first],
                    used,
                    trees.skip(start as int + 1),
                    after.len(),
                    rest,
                );
            },
        }
    }
}

/// Writing the trees behind a first one is writing them from one index on.
proof fn lemma_tokens_from_shifts(first: Tree, rest: Seq<Tree>, start: nat)
    ensures
        tokens_from(seq![first] + rest, start + 1) == tokens_from(rest, start),
    decreases rest.len() - start,
{
    let trees = seq![first] + rest;
    if start < rest.len() {
        assert(trees[start as int + 1] == rest[start as int]);
        lemma_tokens_from_shifts(first, rest, start + 1);
    }
}

/// Writing a first tree and then others is writing the first and then the
/// others.
proof fn lemma_tokens_from_first(first: Tree, rest: Seq<Tree>)
    ensures
        tokens_from(seq![first] + rest, 0) == tokens_of(first) + tokens_from(rest, 0),
{
    let trees = seq![first] + rest;
    assert(trees[0] == first);
    lemma_tokens_from_shifts(first, rest, 0);
}

/// The builder reads only what the grammar writes: the tokens that a level
/// took are the tokens of the trees that it gives, followed by the closing
/// bracket that ended it if the level is a nested one. The top level takes
/// every token.
pub proof fn lemma_level_reads_only_trees(tokens: Seq<Lexeme>, depth: nat)
    ensures
        parse_level(tokens, depth).outcome matches Ok(trees) ==> {
            let consumed = parse_level(tokens, depth).consumed as int;
            &&& consumed <= tokens.len()
            &&& tokens.take(consumed) == if depth == 0 {
                tokens_from(trees, 0)
            } else {
                tokens_from(trees, 0).push(Lexeme::BracketClose)
            }
            &&& depth == 0 ==> consumed == tokens.len()
        },
    decreases tokens.len(),
{
    lemma_level_stays_in_bounds(tokens, depth);
    let level = parse_level(tokens, depth);
    if depth < MAX_DEPTH && level.outcome is Ok {
        let trees = level.outcome->Ok_0;
        if tokens.len() == 0 {
            assert(tokens.take(0) =~= tokens_from(trees, 0));
        } else {
            match tokens[0] {
                Lexeme::ItemText(text) => {
                    let rest = parse_level(tokens.skip(1), depth);
                    let others = rest.outcome->Ok_0;
                    lemma_level_reads_only_trees(tokens.skip(1), depth);
                    lemma_tokens_from_first(Tree::Item(text), others);
                    assert(tokens.take(1 + rest.consumed as int) =~= seq![Lexeme::ItemText(text)]
                        + tokens.skip(1).take(rest.consumed as int));
                },
                Lexeme::BracketClose => {
                    assert(tokens.take(1) =~= tokens_from(trees, 0).push(Lexeme::BracketClose));
                },
                Lexeme::BracketOpen => {
                    let inner = parse_level(tokens.skip(1), depth + 1);
                    let children = inner.outcome->Ok_0;
                    let used = 1 + inner.consumed as int;
                    lemma_level_stays_in_bounds(tokens.skip(1), depth + 1);
                    lemma_level_reads_only_trees(tokens.skip(1), depth + 1);
                    let rest = parse_level(tokens.skip(used), depth);
                    let others = rest.outcome->Ok_0;
                    lemma_level_reads_only_trees(tokens.skip(used), depth);
                    lemma_tokens_from_first(Tree::List(children), others);
                    assert(tokens.take(used) =~= seq![Lexeme::BracketOpen] + tokens.skip(1).take(
                        inner.consumed as int,
                    ));
                    assert(tokens.take(used) =~= tokens_of(Tree::List(children)));
                    assert(tokens.take(used + rest.consumed) =~= tokens.take(used)
                        + tokens.skip(used).take(rest.consumed as int));
                },
            }
        }
    }
}

/// A token sequence is a document exactly if it writes one tree that nests
/// within the limit, and that tree is what the builder gives for it.
pub proof fn lemma_root_iff_written(tokens: Seq<Lexeme>, tree: Tree)
    ensures
        single_root(tokens) == Ok::<Tree, ParseError>(tree) <==> tokens == tokens_of(tree)
            && tree.nests_within((MAX_DEPTH - 1) as nat),
{
    let one = seq![tree];
    assert(tokens_from(one, 0) =~= tokens_of(tree)) by {
        assert(one[0] == tree);
        assert(tokens_from(one, 1) =~= Seq::empty());
    }
    if single_root(tokens) == Ok::<Tree, ParseError>(tree) {
        let trees = parse_level(tokens, 0).outcome->Ok_0;
        assert(trees =~= one);
        lemma_level_reads_only_trees(tokens, 0);
        lemma_level_nesting_is_bounded(tokens, 0);
        assert(tokens.take(tokens.len() as int) =~= tokens);
    }
    if tokens == tokens_of(tree) && tree.nests_within((MAX_DEPTH - 1) as nat) {
        assert(all_nest_within(one, (MAX_DEPTH - 1) as nat));
        lemma_level_reads_trees(one, 0, Seq::empty(), 0);
        assert(tokens_from(one, 0) + Seq::<Lexeme>::empty() =~= tokens);
        assert(one.skip(0) + Seq::<Tree>::empty() =~= one);
    }
}

} // verus!
