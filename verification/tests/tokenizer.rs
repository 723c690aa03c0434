use spore_vm::tokenizer::{Token, TokenType};

#[test]
fn empty_str_produces_empty_stream() {
    let actual = Token::parse_tokens_to_vec("");
    assert_eq!(actual, Vec::new());
}

#[test]
fn whitespace_only_produces_empty_stream() {
    let actual = Token::parse_tokens_to_vec(" \n\t");
    assert_eq!(actual, Vec::new());
}

#[test]
fn whitespace_separated_values_produce_item_for_each() {
    let src = "\t1  two\n3.0\n";
    let actual = Token::parse_tokens_to_vec(src);
    assert_eq!(
        actual,
        vec![
            (TokenType::Other, "1"),
            (TokenType::Other, "two"),
            (TokenType::Other, "3.0"),
        ]
    );
}

#[test]
fn phrase_in_quotes_is_string() {
    let actual = Token::parse_tokens_to_vec("\"hello world!\"not-text");
    assert_eq!(
        actual,
        vec![
            (TokenType::String, "\"hello world!\""),
            (TokenType::Other, "not-text")
        ]
    );
}

#[test]
fn backslash_quote_in_quote_escapes_quote_as_part_of_string() {
    let actual = Token::parse_tokens_to_vec(r#" \" "\"quotes\""   "#);
    assert_eq!(
        actual,
        vec![
            (TokenType::Other, "\\\""),
            (TokenType::String, "\"\\\"quotes\\\"\"")
        ]
    );
}

#[test]
fn unclosed_string_is_unterminated_string() {
    let actual = Token::parse_tokens_to_vec("\"I am not closed");
    assert_eq!(
        actual,
        vec![(TokenType::UnterminatedString, "\"I am not closed")]
    );
}

#[test]
fn parenthesis_are_parsed_into_own_tokens() {
    let actual = Token::parse_tokens_to_vec("(left right)");
    assert_eq!(
        actual,
        vec![
            (TokenType::OpenParen, "("),
            (TokenType::Other, "left"),
            (TokenType::Other, "right"),
            (TokenType::CloseParen, ")")
        ]
    );
}

#[test]
fn tokens_use_byte_offsets_after_multibyte_characters() {
    // "é" takes two bytes, the no-break space (U+00A0) two, and counts as whitespace.
    let src = "é\u{a0}(x)";
    let tokens = Token::parse_tokens(src);
    assert_eq!(
        tokens,
        vec![
            Token { token_type: TokenType::Other, start: 0, end: 2 },
            Token { token_type: TokenType::OpenParen, start: 4, end: 5 },
            Token { token_type: TokenType::Other, start: 5, end: 6 },
            Token { token_type: TokenType::CloseParen, start: 6, end: 7 },
        ]
    );
    assert_eq!(tokens[0].as_str(src), "é");
}

#[test]
fn parse_next_starts_at_the_given_byte_offset() {
    let src = "(a \"b c\")";
    assert_eq!(
        Token::parse_next(src, 2),
        Some(Token { token_type: TokenType::String, start: 3, end: 8 })
    );
    assert_eq!(Token::parse_next(src, 9), None);
    assert_eq!(
        Token::parse_next_string(src, 3),
        Token { token_type: TokenType::String, start: 3, end: 8 }
    );
}

#[test]
fn escaped_backslash_does_not_escape_the_closing_quote() {
    let actual = Token::parse_tokens_to_vec(r#""a\\" b"#);
    assert_eq!(
        actual,
        vec![(TokenType::String, r#""a\\""#), (TokenType::Other, "b")]
    );
}

#[test]
fn brackets_open_and_close_like_parenthesis() {
    let actual = Token::parse_tokens_to_vec("([x 1]a]");
    assert_eq!(
        actual,
        vec![
            (TokenType::OpenParen, "("),
            (TokenType::OpenParen, "["),
            (TokenType::Other, "x"),
            (TokenType::Other, "1"),
            (TokenType::CloseParen, "]"),
            (TokenType::Other, "a"),
            (TokenType::CloseParen, "]"),
        ]
    );
}
