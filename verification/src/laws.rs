//! What holds of every document, proved from the definitions of the
//! tokenizer and the tree builder.

use vstd::prelude::*;
use crate::builder::{lemma_level_stays_in_bounds, parse_level, MAX_DEPTH};
use crate::document::{parse_document, single_root, yields};
use crate::error::ParseError;
use crate::grammar::lemma_root_iff_written;
use crate::node::{Node, Tree};
use crate::token::Lexeme;
use crate::tokenizer::{lex_run, lex_start, tokenize, white_space, LexState};

verus! {

/// Parsing is deterministic: two results of parsing the same text are the
/// same error, or nodes with the same model.
pub proof fn lemma_parse_is_deterministic(
    text: Seq<char>,
    first: Result<Node, ParseError>,
    second: Result<Node, ParseError>,
)
    requires
        yields(first, parse_document(text)),
        yields(second, parse_document(text)),
    ensures
        match first {
            Ok(node) => second matches Ok(other) && other@ == node@,
            Err(error) => second matches Err(e) && e == error,
        },
{
}

/// The nodes of a level that was read `depth` lists deep nest within the
/// levels that are left below it.
pub proof fn lemma_level_nesting_is_bounded(tokens: Seq<Lexeme>, depth: nat)
    ensures
        parse_level(tokens, depth).outcome matches Ok(trees) ==> depth < MAX_DEPTH && forall|
            i: int,
        |
            0 <= i < trees.len() ==> (#[trigger] trees[i]).nests_within(
                (MAX_DEPTH - 1 - depth) as nat,
            ),
    decreases tokens.len(),
{
    if depth < MAX_DEPTH && tokens.len() > 0 {
        match tokens[0] {
            Lexeme::ItemText(_) => {
                lemma_level_nesting_is_bounded(tokens.skip(1), depth);
            },
            Lexeme::BracketClose => {},
            Lexeme::BracketOpen => {
                let inner = parse_level(tokens.skip(1), depth + 1);
                let used = 1 + inner.consumed;
                lemma_level_nesting_is_bounded(tokens.skip(1), depth + 1);
                lemma_level_stays_in_bounds(tokens.skip(1), depth + 1);
                if inner.outcome is Ok {
                    lemma_level_nesting_is_bounded(tokens.skip(used as int), depth);
                }
            },
        }
    }
}

/// No parsed document nests lists deeper than the limit allows: the root
/// counts as the first level, and level [`MAX_DEPTH`] is never reached.
pub proof fn lemma_nesting_is_bounded(text: Seq<char>)
    ensures
        parse_document(text) matches Ok(tree) ==> tree.nests_within((MAX_DEPTH - 1) as nat),
{
    if let Ok(tokens) = tokenize(text) {
        lemma_level_nesting_is_bounded(tokens, 0);
    }
}

/// Whether the first `count` tokens are all opening brackets.
pub open spec fn opens_with(tokens: Seq<Lexeme>, count: nat) -> bool {
    count <= tokens.len() && forall|i: int| 0 <= i < count ==> (#[trigger] tokens[i]) is BracketOpen
}

/// Opening brackets that lead from `depth` to the limit end the level with
/// the error of the limit.
proof fn lemma_opening_brackets_reach_the_limit(tokens: Seq<Lexeme>, depth: nat)
    requires
        depth <= MAX_DEPTH,
        opens_with(tokens, (MAX_DEPTH - depth) as nat),
    ensures
        parse_level(tokens, depth).outcome == Err::<Seq<Tree>, ParseError>(
            ParseError::MaxRecursionExceeded,
        ),
    decreases MAX_DEPTH - depth,
{
    if depth < MAX_DEPTH {
        let inside = tokens.skip(1);
        assert(tokens[0] is BracketOpen);
        assert(opens_with(inside, (MAX_DEPTH - depth - 1) as nat)) by {
            assert forall|i: int| 0 <= i < MAX_DEPTH - depth - 1 implies (
            #[trigger] inside[i]) is BracketOpen by {
                assert(inside[i] == tokens[i + 1]);
            }
        }
        lemma_opening_brackets_reach_the_limit(inside, depth + 1);
    }
}

/// Nesting at the limit is refused: tokens that begin with [`MAX_DEPTH`]
/// opening brackets are no document, whatever follows them.
pub proof fn lemma_nesting_at_the_limit_is_refused(tokens: Seq<Lexeme>)
    requires
        opens_with(tokens, MAX_DEPTH as nat),
    ensures
        single_root(tokens) == Err::<Tree, ParseError>(ParseError::MaxRecursionExceeded),
{
    lemma_opening_brackets_reach_the_limit(tokens, 0);
}

/// The tokenizer reports lexical errors only.
proof fn lemma_scan_errors_are_lexical(text: Seq<char>)
    ensures
        lex_run(text) matches Err(error) ==> error.is_lexical(),
    decreases text.len(),
{
    if text.len() > 0 {
        lemma_scan_errors_are_lexical(text.drop_last());
    }
}

/// The tree builder reports structural errors only.
proof fn lemma_level_errors_are_structural(tokens: Seq<Lexeme>, depth: nat)
    ensures
        parse_level(tokens, depth).outcome matches Err(error) ==> !error.is_lexical(),
    decreases tokens.len(),
{
    if depth < MAX_DEPTH && tokens.len() > 0 {
        match tokens[0] {
            Lexeme::ItemText(_) => {
                lemma_level_errors_are_structural(tokens.skip(1), depth);
            },
            Lexeme::BracketClose => {},
            Lexeme::BracketOpen => {
                let inner = parse_level(tokens.skip(1), depth + 1);
                let used = 1 + inner.consumed;
                lemma_level_errors_are_structural(tokens.skip(1), depth + 1);
                if inner.outcome is Ok && used <= tokens.len() {
                    lemma_level_errors_are_structural(tokens.skip(used as int), depth);
                }
            },
        }
    }
}

/// Lexical errors come first: a text that the tokenizer rejects is rejected
/// with that lexical error, and a text that it accepts can only be rejected
/// with a structural one.
pub proof fn lemma_lexical_errors_come_first(text: Seq<char>)
    ensures
        match tokenize(text) {
            Err(error) => error.is_lexical() && parse_document(text) == Err::<Tree, ParseError>(
                error,
            ),
            Ok(_) => parse_document(text) matches Err(error) ==> !error.is_lexical(),
        },
{
    lemma_scan_errors_are_lexical(text);
    if let Ok(tokens) = tokenize(text) {
        lemma_level_errors_are_structural(tokens, 0);
    }
}

/// The tokenizer never reports an unterminated quote.
proof fn lemma_scan_closes_no_quote_with_an_error(text: Seq<char>)
    ensures
        lex_run(text) != Err::<LexState, ParseError>(ParseError::UnterminatedQuote),
    decreases text.len(),
{
    if text.len() > 0 {
        lemma_scan_closes_no_quote_with_an_error(text.drop_last());
    }
}

/// No document is rejected for an unterminated quote: a line break inside
/// quotes is an unexpected end of line, and the end of the text closes a
/// quoted region that is still open.
pub proof fn lemma_unterminated_quote_is_never_reported(text: Seq<char>)
    ensures
        parse_document(text) != Err::<Tree, ParseError>(ParseError::UnterminatedQuote),
{
    lemma_scan_closes_no_quote_with_an_error(text);
    if let Ok(tokens) = tokenize(text) {
        lemma_level_errors_are_structural(tokens, 0);
    }
}

/// Whether every character of a text is whitespace.
pub open spec fn all_white_space(text: Seq<char>) -> bool {
    forall|i: int| 0 <= i < text.len() ==> white_space(#[trigger] text[i])
}

/// Whitespace alone leaves the tokenizer as it began.
proof fn lemma_blank_text_changes_nothing(blank: Seq<char>)
    requires
        all_white_space(blank),
    ensures
        lex_run(blank) == Ok::<LexState, ParseError>(lex_start()),
    decreases blank.len(),
{
    if blank.len() > 0 {
        lemma_blank_text_changes_nothing(blank.drop_last());
        assert(white_space(blank.last()));
    }
}

/// Leading whitespace is insignificant: a text behind whitespace has the
/// tokens, and is the document, that it is without it.
pub proof fn lemma_leading_whitespace_is_dropped(blank: Seq<char>, text: Seq<char>)
    requires
        all_white_space(blank),
    ensures
        lex_run(blank + text) == lex_run(text),
        tokenize(blank + text) == tokenize(text),
        parse_document(blank + text) == parse_document(text),
    decreases text.len(),
{
    if text.len() == 0 {
        assert(blank + text =~= blank);
        lemma_blank_text_changes_nothing(blank);
    } else {
        assert((blank + text).drop_last() =~= blank + text.drop_last());
        lemma_leading_whitespace_is_dropped(blank, text.drop_last());
    }
}

/// A text of whitespace alone, the empty text among them, is an empty
/// document.
pub proof fn lemma_blank_text_is_an_empty_document(blank: Seq<char>)
    requires
        all_white_space(blank),
    ensures
        parse_document(blank) == Err::<Tree, ParseError>(ParseError::EmptyDocument),
{
    lemma_blank_text_changes_nothing(blank);
}

/// Whether a character is plain text outside quotes: no whitespace, bracket,
/// quote or backslash.
pub open spec fn is_plain(ch: char) -> bool {
    !white_space(ch) && ch != '[' && ch != ']' && ch != '"' && ch != '\\'
}

/// Whether every character of a text is plain outside quotes.
pub open spec fn all_plain(word: Seq<char>) -> bool {
    forall|i: int| 0 <= i < word.len() ==> is_plain(#[trigger] word[i])
}

/// Plain characters gather as pending text.
proof fn lemma_plain_prefix(word: Seq<char>, count: nat)
    requires
        count <= word.len(),
        all_plain(word),
    ensures
        lex_run(word.take(count as int)) == Ok::<LexState, ParseError>(
            LexState {
                tokens: Seq::empty(),
                pending: word.take(count as int),
                quoted: false,
                escaped: false,
            },
        ),
    decreases count,
{
    let text = word.take(count as int);
    if count == 0 {
        assert(text =~= Seq::empty());
    } else {
        lemma_plain_prefix(word, (count - 1) as nat);
        assert(text.drop_last() =~= word.take(count - 1));
        assert(text.last() == word[count - 1]);
        assert(is_plain(word[count - 1]));
        assert(word.take(count - 1).push(word[count - 1]) =~= text);
    }
}

/// A bare word is an item: a text that is not empty and holds no
/// whitespace, bracket, quote or backslash is one item, and that item is
/// the document.
pub proof fn lemma_plain_text_is_one_item(word: Seq<char>)
    requires
        word.len() > 0,
        all_plain(word),
    ensures
        tokenize(word) == Ok::<Seq<Lexeme>, ParseError>(seq![Lexeme::ItemText(word)]),
        parse_document(word) == Ok::<Tree, ParseError>(Tree::Item(word)),
{
    lemma_plain_prefix(word, word.len());
    assert(word.take(word.len() as int) =~= word);
    assert(Seq::<Lexeme>::empty().push(Lexeme::ItemText(word)) =~= seq![Lexeme::ItemText(word)]);
    lemma_root_iff_written(seq![Lexeme::ItemText(word)], Tree::Item(word));
}

/// Whether a character is plain text inside quotes: anything but a quote, a
/// backslash and a line break.
pub open spec fn is_plain_in_quotes(ch: char) -> bool {
    ch != '"' && ch != '\\' && ch != '\n'
}

/// Whether every character of a text is plain inside quotes.
pub open spec fn all_plain_in_quotes(body: Seq<char>) -> bool {
    forall|i: int| 0 <= i < body.len() ==> is_plain_in_quotes(#[trigger] body[i])
}

/// After an opening quote, plain characters gather as pending text.
proof fn lemma_quoted_prefix(body: Seq<char>, count: nat)
    requires
        count <= body.len(),
        all_plain_in_quotes(body),
    ensures
        lex_run(seq!['"'] + body.take(count as int)) == Ok::<LexState, ParseError>(
            LexState {
                tokens: Seq::empty(),
                pending: body.take(count as int),
                quoted: true,
                escaped: false,
            },
        ),
    decreases count,
{
    let text = seq!['"'] + body.take(count as int);
    if count == 0 {
        assert(text.drop_last() =~= Seq::empty());
        assert(lex_run(text.drop_last()) == Ok::<LexState, ParseError>(lex_start()));
        assert(body.take(0) =~= Seq::empty());
    } else {
        lemma_quoted_prefix(body, (count - 1) as nat);
        assert(text.drop_last() =~= seq!['"'] + body.take(count - 1));
        assert(text.last() == body[count - 1]);
        assert(is_plain_in_quotes(body[count - 1]));
        assert(body.take(count - 1).push(body[count - 1]) =~= body.take(count as int));
    }
}

/// Quoting preserves text: between two quotes, any text that is not empty
/// and holds no quote, backslash or line break is one item, with its
/// whitespace and brackets as they stand, and that item is the document.
pub proof fn lemma_quoted_text_is_one_item(body: Seq<char>)
    requires
        body.len() > 0,
        all_plain_in_quotes(body),
    ensures
        tokenize(seq!['"'] + body + seq!['"']) == Ok::<Seq<Lexeme>, ParseError>(
            seq![Lexeme::ItemText(body)],
        ),
        parse_document(seq!['"'] + body + seq!['"']) == Ok::<Tree, ParseError>(Tree::Item(body)),
{
    let text = seq!['"'] + body + seq!['"'];
    lemma_quoted_prefix(body, body.len());
    assert(body.take(body.len() as int) =~= body);
    assert(text.drop_last() =~= seq!['"'] + body);
    assert(text.last() == '"');
    assert(Seq::<Lexeme>::empty().push(Lexeme::ItemText(body)) =~= seq![Lexeme::ItemText(body)]);
    lemma_root_iff_written(seq![Lexeme::ItemText(body)], Tree::Item(body));
}

/// Whether no item among the tokens has empty text.
pub open spec fn no_empty_items(tokens: Seq<Lexeme>) -> bool {
    forall|i: int|
        0 <= i < tokens.len() ==> ((#[trigger] tokens[i]) matches Lexeme::ItemText(text)
            ==> text.len() > 0)
}

/// While a text is read, no completed item is empty.
proof fn lemma_no_empty_items_so_far(text: Seq<char>)
    ensures
        lex_run(text) matches Ok(state) ==> no_empty_items(state.tokens),
    decreases text.len(),
{
    if text.len() > 0 {
        lemma_no_empty_items_so_far(text.drop_last());
    }
}

/// The tokenizer never yields an item with empty text: text becomes an item
/// only once it holds a character, so a pair of quotes with nothing between
/// them leaves no token.
pub proof fn lemma_items_are_not_empty(text: Seq<char>)
    ensures
        tokenize(text) matches Ok(tokens) ==> no_empty_items(tokens),
{
    lemma_no_empty_items_so_far(text);
}

} // verus!
