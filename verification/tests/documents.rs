use oml::{from_str, Node, ParseError};

fn item(text: &str) -> Node {
    Node::Item(text.to_string())
}

fn nested(levels: usize, closed: bool) -> String {
    let mut text = String::new();
    for _ in 0..levels {
        text.push('[');
    }
    if closed {
        for _ in 0..levels {
            text.push(']');
        }
    }
    text
}

fn depth(node: &Node) -> usize {
    match node {
        Node::Item(_) => 0,
        Node::List(children) => 1 + children.iter().map(depth).max().unwrap_or(0),
    }
}

#[test]
fn empty_brackets_are_an_empty_list() {
    assert_eq!(from_str("[ ]"), Ok(Node::List(vec![])));
    assert_eq!(from_str("[]"), Ok(Node::List(vec![])));
}

#[test]
fn bare_word_is_an_item() {
    assert_eq!(from_str("a"), Ok(item("a")));
}

#[test]
fn list_of_two_items() {
    assert_eq!(from_str("[a b]"), Ok(Node::List(vec![item("a"), item("b")])));
}

#[test]
fn quotes_keep_inner_whitespace() {
    assert_eq!(from_str("[\"a b\"]"), Ok(Node::List(vec![item("a b")])));
    assert_eq!(from_str("\"a\tb  c\""), Ok(item("a\tb  c")));
}

#[test]
fn escaped_bracket_outside_quotes_is_text() {
    assert_eq!(from_str("\\["), Ok(item("[")));
    assert_eq!(from_str("\\]"), Ok(item("]")));
    assert_eq!(from_str("[a\\]b]"), Ok(Node::List(vec![item("a]b")])));
}

#[test]
fn escaped_bracket_inside_quotes_is_rejected() {
    assert_eq!(from_str("\"\\[\""), Err(ParseError::RedundantEscapeInQuotes('[')));
    assert_eq!(from_str("\"\\]\""), Err(ParseError::RedundantEscapeInQuotes(']')));
}

#[test]
fn bare_closing_bracket_is_rejected() {
    assert_eq!(from_str("]"), Err(ParseError::UnmatchedClosingBracket));
    assert_eq!(from_str("[a] ]"), Err(ParseError::UnmatchedClosingBracket));
}

#[test]
fn missing_closing_bracket_is_rejected() {
    assert_eq!(from_str("[a"), Err(ParseError::UnterminatedList));
    assert_eq!(from_str("[[a]"), Err(ParseError::UnterminatedList));
}

#[test]
fn two_top_level_nodes_are_rejected() {
    assert_eq!(from_str("a b"), Err(ParseError::MultipleTopLevelNodes));
    assert_eq!(from_str("[a] [b]"), Err(ParseError::MultipleTopLevelNodes));
    assert_eq!(from_str("[] x"), Err(ParseError::MultipleTopLevelNodes));
}

#[test]
fn two_hundred_open_brackets_exceed_the_depth_limit() {
    assert_eq!(from_str(&nested(200, false)), Err(ParseError::MaxRecursionExceeded));
    assert_eq!(from_str(&nested(200, true)), Err(ParseError::MaxRecursionExceeded));
    assert_eq!(from_str(&nested(1000, true)), Err(ParseError::MaxRecursionExceeded));
}

#[test]
fn one_hundred_ninety_nine_closed_levels_parse() {
    let root = from_str(&nested(199, true)).expect("199 levels are within the limit");
    assert_eq!(depth(&root), 199);
}

#[test]
fn open_brackets_below_the_limit_are_an_unterminated_list() {
    assert_eq!(from_str(&nested(199, false)), Err(ParseError::UnterminatedList));
}

#[test]
fn parsing_twice_gives_equal_trees() {
    let text = "[head [a \"b c\" \\[] [[]] tail\\n]";
    let first = from_str(text);
    let second = from_str(text);
    assert!(first.is_ok());
    assert_eq!(first, second);
    let bad = "[a \"b\nc\"]";
    assert_eq!(from_str(bad), from_str(bad));
}

#[test]
fn empty_input_is_an_empty_document() {
    assert_eq!(from_str(""), Err(ParseError::EmptyDocument));
    assert_eq!(from_str("  \n\t "), Err(ParseError::EmptyDocument));
}

#[test]
fn nested_lists_keep_their_shape() {
    let expected = Node::List(vec![
        item("a"),
        Node::List(vec![item("b"), Node::List(vec![]), item("c")]),
        item("d"),
    ]);
    assert_eq!(from_str("[a [b [] c] d]"), Ok(expected.clone()));
    assert_eq!(from_str("[a[b[]c]d]"), Ok(expected.clone()));
    assert_eq!(from_str("\n[ a\n  [ b [ ] c ]\n  d ]\n"), Ok(expected));
}

#[test]
fn lexical_errors_come_before_structural_ones() {
    assert_eq!(from_str("] \\q"), Err(ParseError::UnknownEscapeCharacter('q')));
    assert_eq!(from_str("a b \"c\n"), Err(ParseError::UnexpectedEndOfLine));
    assert_eq!(from_str("[ x\\\ny"), Err(ParseError::UnexpectedEndOfLine));
}

#[test]
fn first_structural_error_wins() {
    let mut text = String::from("] ");
    text.push_str(&nested(300, false));
    assert_eq!(from_str(&text), Err(ParseError::UnmatchedClosingBracket));
    let mut text = nested(300, false);
    text.push_str(" ]");
    assert_eq!(from_str(&text), Err(ParseError::MaxRecursionExceeded));
}

#[test]
fn line_break_inside_quotes_is_an_unexpected_end_of_line() {
    assert_eq!(from_str("\"a\nb\""), Err(ParseError::UnexpectedEndOfLine));
    assert_eq!(from_str("\"abc\n\""), Err(ParseError::UnexpectedEndOfLine));
    assert_eq!(from_str("[a \"b\n]"), Err(ParseError::UnexpectedEndOfLine));
}

#[test]
fn unterminated_quote_is_never_reported() {
    for text in ["\"", "\"a", "\"a\n", "\"a\nb\"", "[\"", "a \"b c", "\"\\", "\"\\\"", "\"\"\""] {
        assert_ne!(from_str(text), Err(ParseError::UnterminatedQuote));
    }
}

#[test]
fn end_of_text_closes_an_open_quote() {
    assert_eq!(from_str("\"abc"), Ok(item("abc")));
    assert_eq!(from_str("[a \"b]"), Err(ParseError::UnterminatedList));
    assert_eq!(from_str("\""), Err(ParseError::EmptyDocument));
}

#[test]
fn empty_quotes_make_no_item() {
    assert_eq!(from_str("\"\""), Err(ParseError::EmptyDocument));
    assert_eq!(from_str("[\"\"]"), Ok(Node::List(vec![])));
    assert_eq!(from_str("[a \"\" b]"), Ok(Node::List(vec![item("a"), item("b")])));
}

#[test]
fn unicode_whitespace_separates_items() {
    assert_eq!(
        from_str("[a\u{a0}b\u{3000}c\u{2028}d]"),
        Ok(Node::List(vec![item("a"), item("b"), item("c"), item("d")]))
    );
    assert_eq!(from_str("[a\u{200b}b]"), Ok(Node::List(vec![item("a\u{200b}b")])));
}

#[test]
fn non_ascii_text_is_kept() {
    assert_eq!(from_str("[héllo \"wörld ✓\"]"), Ok(Node::List(vec![item("héllo"), item("wörld ✓")])));
}

#[test]
fn blank_text_is_an_empty_document() {
    for blank in ["", " ", "\n", "\t \r\n", "\u{85}\u{a0}\u{1680}\u{2000}\u{200a}\u{2028}\u{2029}\u{202f}\u{205f}\u{3000}"] {
        assert_eq!(from_str(blank), Err(ParseError::EmptyDocument));
    }
}

#[test]
fn bare_word_is_the_document() {
    for word in ["a", "abc", "héllo-wörld", "42"] {
        assert_eq!(from_str(word), Ok(item(word)));
        assert_eq!(from_str(&format!(" \n{}", word)), Ok(item(word)));
    }
}
