use truth_table::boolean_expression::{BooleanExpression, BooleanExpressionToken};
use truth_table::parser::{ParseErrorKind, Parser};
use truth_table::token::Token;

#[test]
fn test_unary_operator_not() {
    let exp = Parser::new(b"!A".to_vec()).parse();
    assert!(exp.is_some());
    assert_eq!(
        exp.unwrap(),
        BooleanExpression::new(
            vec![
                BooleanExpressionToken::IDENT(0),
                BooleanExpressionToken::OPERATOR(Token::NOT)
            ],
            vec![b"A".to_vec()]
        )
    );
}

#[test]
fn test_binary_operator_and() {
    let exp = Parser::new(b"A && B".to_vec()).parse();
    assert!(exp.is_some());
    assert_eq!(
        exp.unwrap(),
        BooleanExpression::new(
            vec![
                BooleanExpressionToken::IDENT(0),
                BooleanExpressionToken::IDENT(1),
                BooleanExpressionToken::OPERATOR(Token::AND)
            ],
            vec![b"A".to_vec(), b"B".to_vec()]
        )
    );
}

#[test]
fn test_binary_operator_or() {
    let exp = Parser::new(b"A || B".to_vec()).parse();
    assert!(exp.is_some());
    assert_eq!(
        exp.unwrap(),
        BooleanExpression::new(
            vec![
                BooleanExpressionToken::IDENT(0),
                BooleanExpressionToken::IDENT(1),
                BooleanExpressionToken::OPERATOR(Token::OR)
            ],
            vec![b"A".to_vec(), b"B".to_vec()]
        )
    );
}

#[test]
fn test_binary_operator_xor() {
    let exp = Parser::new(b"A ^ B".to_vec()).parse();
    assert!(exp.is_some());
    assert_eq!(
        exp.unwrap(),
        BooleanExpression::new(
            vec![
                BooleanExpressionToken::IDENT(0),
                BooleanExpressionToken::IDENT(1),
                BooleanExpressionToken::OPERATOR(Token::XOR)
            ],
            vec![b"A".to_vec(), b"B".to_vec()]
        )
    );
}

#[test]
fn test_parenthesis_erasure() {
    let exp = Parser::new(b"((A) && (B))".to_vec()).parse();
    assert!(exp.is_some());
    assert_eq!(
        exp.unwrap(),
        BooleanExpression::new(
            vec![
                BooleanExpressionToken::IDENT(0),
                BooleanExpressionToken::IDENT(1),
                BooleanExpressionToken::OPERATOR(Token::AND)
            ],
            vec![b"A".to_vec(), b"B".to_vec()]
        )
    );
}

#[test]
fn test_operator_precedence() {
    let exp = Parser::new(b"A && !B || C".to_vec()).parse();
    assert!(exp.is_some());
    assert_eq!(
        exp.unwrap(),
        BooleanExpression::new(
            vec![
                BooleanExpressionToken::IDENT(0),
                BooleanExpressionToken::IDENT(1),
                BooleanExpressionToken::OPERATOR(Token::NOT),
                BooleanExpressionToken::OPERATOR(Token::AND),
                BooleanExpressionToken::IDENT(2),
                BooleanExpressionToken::OPERATOR(Token::OR)
            ],
            vec![b"A".to_vec(), b"B".to_vec(), b"C".to_vec()]
        )
    );
}

#[test]
fn test_same_identifier() {
    let exp = Parser::new(b"A && B || !A".to_vec()).parse();
    assert!(exp.is_some());
    assert_eq!(
        exp.unwrap(),
        BooleanExpression::new(
            vec![
                BooleanExpressionToken::IDENT(0),
                BooleanExpressionToken::IDENT(1),
                BooleanExpressionToken::OPERATOR(Token::AND),
                BooleanExpressionToken::IDENT(0),
                BooleanExpressionToken::OPERATOR(Token::NOT),
                BooleanExpressionToken::OPERATOR(Token::OR),
            ],
            vec![b"A".to_vec(), b"B".to_vec()]
        )
    );
}

#[test]
fn test_adjacent_identifiers_rejected() {
    let mut parser = Parser::new(b"A B".to_vec());
    let exp = parser.parse();
    assert!(exp.is_none());
    let err = parser.last_error().unwrap();
    assert_eq!(err.kind, ParseErrorKind::ExpectedBinaryOperator);
    assert_eq!(err.span.start, 2);
    assert_eq!(err.span.end, 3);
    assert_eq!(err.message(), "Expected binary operator or right parenthesis.");
}

#[test]
fn test_unclosed_parenthesis_rejected() {
    let mut parser = Parser::new(b"(A && B".to_vec());
    let exp = parser.parse();
    assert!(exp.is_none());
    let err = parser.last_error().unwrap();
    assert_eq!(err.kind, ParseErrorKind::UnmatchedRightParenthesis);
    assert_eq!(err.span.start, 0);
    assert_eq!(err.span.end, 1);
    assert_eq!(err.message(), "Unmatched right parenthesis");
}

#[test]
fn test_unmatched_closing_parenthesis_rejected() {
    let mut parser = Parser::new(b"A && B)".to_vec());
    let exp = parser.parse();
    assert!(exp.is_none());
    let err = parser.last_error().unwrap();
    assert_eq!(err.kind, ParseErrorKind::UnmatchedLeftParenthesis);
    assert_eq!(err.span.start, 6);
    assert_eq!(err.span.end, 7);
    assert_eq!(err.message(), "Unmatched left parenthesis");
}

#[test]
fn test_missing_left_hand_side_rejected() {
    let mut parser = Parser::new(b"&& A".to_vec());
    let exp = parser.parse();
    assert!(exp.is_none());
    let err = parser.last_error().unwrap();
    assert_eq!(err.kind, ParseErrorKind::MissingLeftHandSide);
    assert_eq!(err.span.start, 0);
    assert_eq!(err.span.end, 2);
    assert_eq!(err.message(), "Missing left hand side of binary expression");
}

#[test]
fn test_missing_right_hand_side_rejected() {
    let mut parser = Parser::new(b"A &&".to_vec());
    let exp = parser.parse();
    assert!(exp.is_none());
    let err = parser.last_error().unwrap();
    assert_eq!(err.kind, ParseErrorKind::MissingRightHandSide);
    assert_eq!(err.span.start, 2);
    assert_eq!(err.span.end, 4);
    assert_eq!(err.message(), "Missing right hand side of binary expression");
}

#[test]
fn test_operator_after_operator_rejected() {
    let mut parser = Parser::new(b"A && || B".to_vec());
    let exp = parser.parse();
    assert!(exp.is_none());
    let err = parser.last_error().unwrap();
    assert_eq!(err.kind, ParseErrorKind::ExpectedOperand);
    assert_eq!(err.span.start, 5);
    assert_eq!(err.span.end, 7);
    assert_eq!(err.message(), "Expected variable, left parenthesis or unary operator");
}

#[test]
fn test_binary_operator_after_open_parenthesis_rejected() {
    let mut parser = Parser::new(b"(&& A)".to_vec());
    let exp = parser.parse();
    assert!(exp.is_none());
    let err = parser.last_error().unwrap();
    assert_eq!(err.kind, ParseErrorKind::ExpectedOperandAfterParenthesis);
    assert_eq!(err.span.start, 1);
    assert_eq!(err.span.end, 3);
    assert_eq!(err.message(), "Expected parenthesis, variable or unary operator");
}

#[test]
fn test_identifier_after_group_rejected() {
    let mut parser = Parser::new(b"(A) B".to_vec());
    let exp = parser.parse();
    assert!(exp.is_none());
    let err = parser.last_error().unwrap();
    assert_eq!(err.kind, ParseErrorKind::ExpectedBinaryOperatorAfterGroup);
    assert_eq!(err.span.start, 4);
    assert_eq!(err.span.end, 5);
    assert_eq!(err.message(), "Expected binary operator or right parenthesis");
}

#[test]
fn test_unknown_token_rejected() {
    let mut parser = Parser::new(b"A $ B".to_vec());
    let exp = parser.parse();
    assert!(exp.is_none());
    let err = parser.last_error().unwrap();
    assert_eq!(err.kind, ParseErrorKind::UnknownToken);
    assert_eq!(err.span.start, 2);
    assert_eq!(err.span.end, 3);
    assert_eq!(err.message(), "Unknown token");
}

#[test]
fn test_lone_ampersand_is_unknown_token() {
    let mut parser = Parser::new(b"A & B".to_vec());
    let exp = parser.parse();
    assert!(exp.is_none());
    let err = parser.last_error().unwrap();
    assert_eq!(err.kind, ParseErrorKind::UnknownToken);
    assert_eq!(err.span.start, 2);
    assert_eq!(err.span.end, 3);
}

#[test]
fn test_interned_ids_follow_first_occurrence() {
    let exp = Parser::new(b"X || Y || X || Z".to_vec()).parse().unwrap();
    assert_eq!(
        *exp.variables(),
        vec![b"X".to_vec(), b"Y".to_vec(), b"Z".to_vec()]
    );
}

#[test]
fn test_case_sensitive_identifiers() {
    let exp = Parser::new(b"a && A".to_vec()).parse().unwrap();
    assert_eq!(*exp.variables(), vec![b"a".to_vec(), b"A".to_vec()]);
}

#[test]
fn test_equal_precedence_is_left_associative() {
    let exp = Parser::new(b"A ^ B ^ C".to_vec()).parse().unwrap();
    assert_eq!(
        exp,
        BooleanExpression::new(
            vec![
                BooleanExpressionToken::IDENT(0),
                BooleanExpressionToken::IDENT(1),
                BooleanExpressionToken::OPERATOR(Token::XOR),
                BooleanExpressionToken::IDENT(2),
                BooleanExpressionToken::OPERATOR(Token::XOR),
            ],
            vec![b"A".to_vec(), b"B".to_vec(), b"C".to_vec()]
        )
    );
}

#[test]
fn test_double_negation() {
    let exp = Parser::new(b"!!A".to_vec()).parse().unwrap();
    assert_eq!(
        exp,
        BooleanExpression::new(
            vec![
                BooleanExpressionToken::IDENT(0),
                BooleanExpressionToken::OPERATOR(Token::NOT),
                BooleanExpressionToken::OPERATOR(Token::NOT),
            ],
            vec![b"A".to_vec()]
        )
    );
}

#[test]
fn test_deeply_nested_parentheses() {
    let exp = Parser::new(b"(((A)))".to_vec()).parse().unwrap();
    assert_eq!(
        exp,
        BooleanExpression::new(
            vec![BooleanExpressionToken::IDENT(0)],
            vec![b"A".to_vec()]
        )
    );
}

#[test]
fn test_whitespace_is_optional() {
    let spaced = Parser::new(b" A && B ".to_vec()).parse().unwrap();
    let dense = Parser::new(b"A&&B".to_vec()).parse().unwrap();
    assert_eq!(spaced, dense);
}

#[test]
fn test_parse_is_restartable() {
    let mut parser = Parser::new(b"A || !B".to_vec());
    let first = parser.parse().unwrap();
    let second = parser.parse().unwrap();
    assert_eq!(first, second);
}

#[test]
fn test_not_binds_tighter_than_and() {
    // !A && B must compile as (!A) && B: the NOT is popped by the later AND.
    let exp = Parser::new(b"!A && B".to_vec()).parse().unwrap();
    assert_eq!(
        exp,
        BooleanExpression::new(
            vec![
                BooleanExpressionToken::IDENT(0),
                BooleanExpressionToken::OPERATOR(Token::NOT),
                BooleanExpressionToken::IDENT(1),
                BooleanExpressionToken::OPERATOR(Token::AND),
            ],
            vec![b"A".to_vec(), b"B".to_vec()]
        )
    );
}
