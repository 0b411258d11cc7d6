use binsex::lexer::{tokenize, Lexeme, Token};

fn lexeme(token: Result<Token, ()>, start: usize, end: usize) -> Lexeme {
    Lexeme { token, start, end }
}

#[test]
fn tokens_of_a_line() {
    let t = tokenize("push 12;@point lbl \"a\\\"b\" # note\n x");
    assert_eq!(
        t,
        vec![
            lexeme(Ok(Token::Operator("push".to_string())), 0, 4),
            lexeme(Ok(Token::Number("12".to_string())), 5, 7),
            lexeme(Ok(Token::Semicolon), 7, 8),
            lexeme(Ok(Token::MetaOperator("@point".to_string())), 8, 14),
            lexeme(Ok(Token::Operator("lbl".to_string())), 15, 18),
            lexeme(Ok(Token::Text("a\\\"b".to_string())), 19, 25),
            lexeme(Ok(Token::Operator("x".to_string())), 34, 35),
        ]
    );
}

#[test]
fn letters_and_digits_split() {
    let t = tokenize("12ab3");
    assert_eq!(
        t,
        vec![
            lexeme(Ok(Token::Number("12".to_string())), 0, 2),
            lexeme(Ok(Token::Operator("ab".to_string())), 2, 4),
            lexeme(Ok(Token::Number("3".to_string())), 4, 5),
        ]
    );
}

#[test]
fn error_tokens() {
    assert_eq!(tokenize("@ x"), vec![lexeme(Err(()), 0, 1), lexeme(Ok(Token::Operator("x".to_string())), 2, 3)]);
    assert_eq!(tokenize("\"open"), vec![lexeme(Err(()), 0, 5)]);
    assert_eq!(tokenize("# no newline"), vec![lexeme(Err(()), 0, 12)]);
    assert_eq!(tokenize("é!"), vec![lexeme(Err(()), 0, 2), lexeme(Err(()), 2, 3)]);
    assert_eq!(
        tokenize("\"a\\\nb\""),
        vec![
            lexeme(Err(()), 0, 3),
            lexeme(Ok(Token::Operator("b".to_string())), 4, 5),
            lexeme(Err(()), 5, 6),
        ]
    );
}

#[test]
fn strings_may_span_lines_and_hold_any_text() {
    assert_eq!(
        tokenize("\"a\nü\""),
        vec![lexeme(Ok(Token::Text("a\nü".to_string())), 0, 6)]
    );
    assert_eq!(tokenize("\"\""), vec![lexeme(Ok(Token::Text(String::new())), 0, 2)]);
}

#[test]
fn whitespace_and_comments_only() {
    assert!(tokenize(" \t\r\n# c\n").is_empty());
    assert!(tokenize("").is_empty());
}

#[test]
fn tokens_are_ordered_and_only_trivia_is_left_out() {
    let src = "@point top # first\n  push 7 ;\"s\\\"x\" ! jmp top\n";
    let tokens = tokenize(src);
    let bytes = src.as_bytes();
    for pair in tokens.windows(2) {
        assert!(pair[0].start < pair[0].end && pair[0].end <= pair[1].start);
    }
    for x in 0..bytes.len() {
        let in_token = tokens.iter().any(|l| l.start <= x && x < l.end);
        let space = matches!(bytes[x], b' ' | b'\t' | b'\r' | b'\n');
        let in_comment = (0..=x).any(|c| bytes[c] == b'#' && (c + 1..x).all(|y| bytes[y] != b'\n'));
        assert!(in_token || space || in_comment, "byte {x} left out");
    }
}
