use oml::{from_tokens, Node, ParseError, Token, TokenCursor, MAX_DEPTH};

fn word(value: &str) -> Token {
    Token::ItemText(value.to_string())
}

fn leaf(value: &str) -> Node {
    Node::Item(value.to_string())
}

fn remaining(cursor: &mut TokenCursor) -> usize {
    let mut count = 0;
    while cursor.peek().is_some() {
        cursor.advance();
        count += 1;
    }
    count
}

#[test]
fn depth_limit_is_two_hundred() {
    assert_eq!(MAX_DEPTH, 200);
}

#[test]
fn top_level_ends_with_the_tokens() {
    let mut cursor = TokenCursor::new(vec![word("a"), word("b")]);
    assert_eq!(from_tokens(&mut cursor, 0), Ok(vec![leaf("a"), leaf("b")]));
    assert_eq!(remaining(&mut cursor), 0);
}

#[test]
fn top_level_of_no_tokens_is_empty() {
    let mut cursor = TokenCursor::new(vec![]);
    assert_eq!(from_tokens(&mut cursor, 0), Ok(vec![]));
}

#[test]
fn nested_level_ends_at_its_closing_bracket() {
    let mut cursor =
        TokenCursor::new(vec![word("a"), Token::BracketClose, word("b"), Token::BracketClose]);
    assert_eq!(from_tokens(&mut cursor, 1), Ok(vec![leaf("a")]));
    assert_eq!(remaining(&mut cursor), 2);
}

#[test]
fn nested_level_without_closing_bracket_is_unterminated() {
    let mut cursor = TokenCursor::new(vec![word("a")]);
    assert_eq!(from_tokens(&mut cursor, 1), Err(ParseError::UnterminatedList));
    let mut cursor = TokenCursor::new(vec![]);
    assert_eq!(from_tokens(&mut cursor, 199), Err(ParseError::UnterminatedList));
}

#[test]
fn closing_bracket_at_top_level_is_unmatched() {
    let mut cursor = TokenCursor::new(vec![word("a"), Token::BracketClose, word("b")]);
    assert_eq!(from_tokens(&mut cursor, 0), Err(ParseError::UnmatchedClosingBracket));
    assert_eq!(remaining(&mut cursor), 1);
}

#[test]
fn opening_bracket_reads_a_list() {
    let mut cursor = TokenCursor::new(vec![
        Token::BracketOpen,
        word("a"),
        Token::BracketOpen,
        Token::BracketClose,
        Token::BracketClose,
        word("b"),
    ]);
    assert_eq!(
        from_tokens(&mut cursor, 0),
        Ok(vec![Node::List(vec![leaf("a"), Node::List(vec![])]), leaf("b")])
    );
}

#[test]
fn level_at_the_limit_is_refused() {
    let mut cursor = TokenCursor::new(vec![word("a")]);
    assert_eq!(from_tokens(&mut cursor, 200), Err(ParseError::MaxRecursionExceeded));
    assert_eq!(remaining(&mut cursor), 1);
    let mut cursor = TokenCursor::new(vec![]);
    assert_eq!(from_tokens(&mut cursor, usize::MAX), Err(ParseError::MaxRecursionExceeded));
}

#[test]
fn opening_bracket_at_the_last_level_is_refused() {
    let mut cursor = TokenCursor::new(vec![Token::BracketOpen, Token::BracketClose]);
    assert_eq!(from_tokens(&mut cursor, 199), Err(ParseError::MaxRecursionExceeded));
    let mut cursor =
        TokenCursor::new(vec![Token::BracketOpen, Token::BracketClose, Token::BracketClose]);
    assert_eq!(from_tokens(&mut cursor, 198), Ok(vec![Node::List(vec![])]));
}

#[test]
fn builder_accepts_an_item_with_empty_text() {
    let mut cursor = TokenCursor::new(vec![word("")]);
    assert_eq!(from_tokens(&mut cursor, 0), Ok(vec![leaf("")]));
}

#[test]
fn cursor_peeks_without_consuming() {
    let mut cursor = TokenCursor::new(vec![word("a"), Token::BracketOpen]);
    assert_eq!(cursor.peek(), Some(&word("a")));
    assert_eq!(cursor.peek(), Some(&word("a")));
    cursor.advance();
    assert_eq!(cursor.peek(), Some(&Token::BracketOpen));
    cursor.advance();
    assert_eq!(cursor.peek(), None);
    cursor.advance();
    assert_eq!(cursor.peek(), None);
}

#[test]
fn tokens_written_for_a_tree_are_read_back() {
    fn write(node: &Node, out: &mut Vec<Token>) {
        match node {
            Node::Item(value) => out.push(Token::ItemText(value.clone())),
            Node::List(children) => {
                out.push(Token::BracketOpen);
                for child in children {
                    write(child, out);
                }
                out.push(Token::BracketClose);
            }
        }
    }
    let tree = Node::List(vec![
        leaf("a"),
        Node::List(vec![Node::List(vec![]), leaf("b c")]),
        Node::List(vec![]),
    ]);
    let mut tokens = Vec::new();
    write(&tree, &mut tokens);
    let mut cursor = TokenCursor::new(tokens);
    assert_eq!(from_tokens(&mut cursor, 0), Ok(vec![tree]));
}

#[test]
fn outcome_follows_the_brackets() {
    fn by_balance(tokens: &[Token]) -> Option<ParseError> {
        let mut open: usize = 0;
        for token in tokens {
            match token {
                Token::BracketOpen => {
                    open += 1;
                    if open == MAX_DEPTH {
                        return Some(ParseError::MaxRecursionExceeded);
                    }
                }
                Token::BracketClose => {
                    if open == 0 {
                        return Some(ParseError::UnmatchedClosingBracket);
                    }
                    open -= 1;
                }
                Token::ItemText(_) => {}
            }
        }
        if open > 0 {
            Some(ParseError::UnterminatedList)
        } else {
            None
        }
    }
    fn tokens_of(brackets: &str) -> Vec<Token> {
        brackets
            .chars()
            .map(|ch| match ch {
                '[' => Token::BracketOpen,
                ']' => Token::BracketClose,
                _ => word("x"),
            })
            .collect()
    }
    let deep = "[".repeat(199);
    let deeper = "[".repeat(200);
    let closed = format!("{}{}", deep, "]".repeat(199));
    let cases = [
        "", "x", "[]", "[x]x", "]", "[]]", "[[]", "[", "x]x[", "[[x][x]]", "[][]][",
        deep.as_str(), deeper.as_str(), closed.as_str(),
    ];
    for brackets in cases {
        let mut cursor = TokenCursor::new(tokens_of(brackets));
        assert_eq!(from_tokens(&mut cursor, 0).err(), by_balance(&tokens_of(brackets)));
    }
    let mut cursor = TokenCursor::new(tokens_of(&format!("{}]", closed)));
    assert_eq!(from_tokens(&mut cursor, 0).err(), Some(ParseError::UnmatchedClosingBracket));
    let mut cursor = TokenCursor::new(tokens_of(&format!("{}]", deeper)));
    assert_eq!(from_tokens(&mut cursor, 0).err(), Some(ParseError::MaxRecursionExceeded));
}
