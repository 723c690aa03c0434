use spore_vm::ast::{AstParseError, Node};
use spore_vm::span::Span;

fn float_text(src: &str, node: &Node) -> f64 {
    match node {
        Node::Float(span) => src[span.start as usize..span.end as usize].parse().unwrap(),
        _ => panic!("not a float: {node:?}"),
    }
}

#[test]
fn whitespace_returns_no_nodes() {
    let src = " \t\n ";
    let actual = Node::parse_to_vec(src).unwrap();
    assert_eq!(actual, vec![]);
}

#[test]
fn ast_atoms_are_parsed() {
    let src = "1 2.0 three \"four\" true false";
    let actual = Node::parse_to_vec(src).unwrap();
    assert_eq!(
        actual,
        vec![
            Node::Int(Span::new(0, 1), 1),
            Node::Float(Span::new(2, 5)),
            Node::Identifier(Span::new(6, 11)),
            Node::String(Span::new(12, 18)),
            Node::Bool(Span::new(19, 23), true),
            Node::Bool(Span::new(24, 29), false),
        ]
    );
    assert_eq!(float_text(src, &actual[1]), 2.0);
}

#[test]
fn ast_expression_is_parsed_as_tree() {
    let src = "(+ 1 (- a b) \"number\") (str-len \"str\") \"atom\"";
    let actual = Node::parse_to_vec(src).unwrap();
    assert_eq!(
        actual,
        vec![
            Node::Tree(
                Span::new(0, 22),
                vec![
                    Node::Identifier(Span::new(1, 2)),
                    Node::Int(Span::new(3, 4), 1),
                    Node::Tree(
                        Span::new(5, 12),
                        vec![
                            Node::Identifier(Span::new(6, 7)),
                            Node::Identifier(Span::new(8, 9)),
                            Node::Identifier(Span::new(10, 11))
                        ]
                    ),
                    Node::String(Span::new(13, 21)),
                ]
            ),
            Node::Tree(
                Span::new(23, 38),
                vec![
                    Node::Identifier(Span::new(24, 31)),
                    Node::String(Span::new(32, 37))
                ]
            ),
            Node::String(Span::new(39, 45)),
        ]
    );
}

#[test]
fn ast_quoted_strings_within_strings_are_preserved() {
    let src = "\"this \\\"is\\\" a string\"";
    let actual = Node::parse_to_vec(src).unwrap();
    assert_eq!(actual, vec![Node::String(Span::new(0, 22))]);
    assert_eq!(actual[0].to_string_literal(src).unwrap(), "this \"is\" a string");
}

#[test]
fn backslash_with_n_returns_newline() {
    let src = r#""\nn\n""#;
    let actual = Node::parse_to_vec(src).unwrap();
    assert_eq!(actual, vec![Node::String(Span::new(0, 7))]);
    assert_eq!(actual[0].to_string_literal(src).unwrap(), "\nn\n");
}

#[test]
fn backslash_with_t_returns_tab() {
    let src = "\"\\tt\\t\"";
    let actual = Node::parse_to_vec(src).unwrap();
    assert_eq!(actual, vec![Node::String(Span::new(0, 7))]);
    assert_eq!(actual[0].to_string_literal(src).unwrap(), "\tt\t");
}

#[test]
fn backslash_with_backslash_returns_backslash() {
    let src = r#""\\""#;
    let actual = Node::parse_to_vec(src).unwrap();
    assert_eq!(actual, vec![Node::String(Span::new(0, 4))]);
    assert_eq!(actual[0].to_string_literal(src).unwrap(), "\\");
}

#[test]
fn unclosed_paren_returns_error() {
    let src = "(not closed";
    let actual_err = Node::parse_to_vec(src).unwrap_err();
    assert_eq!(actual_err, AstParseError::UnclosedParen);
}

#[test]
fn unexpected_close_paren_returns_error() {
    let src = "not closed)";
    let actual_err = Node::parse_to_vec(src).unwrap_err();
    assert_eq!(actual_err, AstParseError::UnexpectedCloseParen);
}

#[test]
fn unterminated_string_returns_error() {
    let src = "\"start of string but no end";
    let actual_err = Node::parse_to_vec(src).unwrap_err();
    assert_eq!(actual_err, AstParseError::UnclosedString(Span::new(0, 27)));
}

#[test]
fn ast_error_in_subexpression_is_returned() {
    let src = "(((\"unterminated quote)";
    let actual_err = Node::parse_to_vec(src).unwrap_err();
    assert_eq!(actual_err, AstParseError::UnclosedString(Span::new(3, 23)));
}

#[test]
fn ast_hacks_for_code_coverage() {
    assert_eq!(AstParseError::UnclosedParen.message(), "opening parenthesis was unclosed");
}

#[test]
fn parse_continues_after_an_error() {
    let src = "a) b";
    let actual = Node::parse(src);
    assert_eq!(
        actual,
        vec![
            Ok(Node::Identifier(Span::new(0, 1))),
            Err(AstParseError::UnexpectedCloseParen),
            Ok(Node::Identifier(Span::new(3, 4))),
        ]
    );
}

#[test]
fn number_literals_follow_rust_parsing() {
    let src = "-12 +7 - 9223372036854775808 -9223372036854775808 1e3 .5 -.5 +inf -NaN 1.e 12abc";
    let actual = Node::parse_to_vec(src).unwrap();
    assert_eq!(actual[0], Node::Int(Span::new(0, 3), -12));
    assert_eq!(actual[1], Node::Int(Span::new(4, 6), 7));
    assert_eq!(actual[2], Node::Identifier(Span::new(7, 8)));
    // One more than i64::MAX does not fit: it is a float.
    assert!(matches!(actual[3], Node::Float(_)));
    assert_eq!(actual[4], Node::Int(Span::new(29, 49), i64::MIN));
    assert_eq!(float_text(src, &actual[5]), 1000.0);
    // ".5" does not start with a digit or a sign, so it is an identifier.
    assert_eq!(actual[6], Node::Identifier(Span::new(54, 56)));
    assert_eq!(float_text(src, &actual[7]), -0.5);
    assert_eq!(float_text(src, &actual[8]), f64::INFINITY);
    assert!(float_text(src, &actual[9]).is_nan());
    assert!(matches!(actual[10], Node::Identifier(_)));
    assert!(matches!(actual[11], Node::Identifier(_)));
}

#[test]
fn keywords_are_parsed() {
    let src = "void true false voids";
    let actual = Node::parse_to_vec(src).unwrap();
    assert_eq!(
        actual,
        vec![
            Node::Void(Span::new(0, 4)),
            Node::Bool(Span::new(5, 9), true),
            Node::Bool(Span::new(10, 15), false),
            Node::Identifier(Span::new(16, 21)),
        ]
    );
}

#[test]
fn string_literal_with_inner_quote_is_none() {
    let src = "\"a\"b\"";
    let node = Node::String(Span::new(0, 5));
    assert_eq!(node.to_string_literal(src), None);
    assert_eq!(Node::Identifier(Span::new(0, 1)).to_string_literal(src), None);
}

#[test]
fn node_span_is_returned() {
    let src = "(a b)";
    let actual = Node::parse_to_vec(src).unwrap();
    assert_eq!(actual[0].span(), Span::new(0, 5));
}

