use truth_table::lexer::lex;
use truth_table::parser::Parser;
use truth_table::table_format::TableFormat;
use truth_table::token::Token;

#[test]
fn test_header_and_separator() {
    let source = b"A && B".to_vec();
    let exp = Parser::new(source.clone()).parse().unwrap();
    let table = TableFormat::new(&source, &exp);
    assert_eq!(table.header(), &b"|A|B|A && B|".to_vec());
    assert_eq!(table.row_separator(), &b"------------".to_vec());
    assert_eq!(table.expression_length(), 6);
}

#[test]
fn test_header_with_longer_names() {
    let source = b"foo || bar".to_vec();
    let exp = Parser::new(source.clone()).parse().unwrap();
    let table = TableFormat::new(&source, &exp);
    assert_eq!(table.header(), &b"|foo|bar|foo || bar|".to_vec());
    assert_eq!(table.row_separator().len(), table.header().len());
}

#[test]
fn test_evaluation_row_alignment() {
    let source = b"A && B".to_vec();
    let exp = Parser::new(source.clone()).parse().unwrap();
    let table = TableFormat::new(&source, &exp);
    // counter 0b10: A = 1, B = 0, result 0, right-aligned in width 6.
    let row = table.evaluation_row(&exp, 0b10u128, exp.evaluate(0b10u128));
    assert_eq!(row, b"|1|0|     0|".to_vec());
    let row = table.evaluation_row(&exp, 0b11u128, exp.evaluate(0b11u128));
    assert_eq!(row, b"|1|1|     1|".to_vec());
}

#[test]
fn test_evaluation_row_pads_to_name_width() {
    let source = b"foo && B".to_vec();
    let exp = Parser::new(source.clone()).parse().unwrap();
    let table = TableFormat::new(&source, &exp);
    let row = table.evaluation_row(&exp, 0b11u64, exp.evaluate(0b11u64));
    assert_eq!(row, b"|  1|1|       1|".to_vec());
}

#[test]
fn test_lexer_tokens_and_spans() {
    let toks = lex(&b"A && !B".to_vec());
    assert_eq!(toks.len(), 4);
    assert_eq!(toks[0].token, Token::IDENT);
    assert_eq!((toks[0].span.start, toks[0].span.end), (0, 1));
    assert_eq!(toks[1].token, Token::AND);
    assert_eq!((toks[1].span.start, toks[1].span.end), (2, 4));
    assert_eq!(toks[2].token, Token::NOT);
    assert_eq!((toks[2].span.start, toks[2].span.end), (5, 6));
    assert_eq!(toks[3].token, Token::IDENT);
    assert_eq!((toks[3].span.start, toks[3].span.end), (6, 7));
}

#[test]
fn test_lexer_longest_match_identifier() {
    let toks = lex(&b"foo(bar)".to_vec());
    assert_eq!(toks.len(), 4);
    assert_eq!(toks[0].token, Token::IDENT);
    assert_eq!((toks[0].span.start, toks[0].span.end), (0, 3));
    assert_eq!(toks[1].token, Token::LPAREN);
    assert_eq!(toks[2].token, Token::IDENT);
    assert_eq!((toks[2].span.start, toks[2].span.end), (4, 7));
    assert_eq!(toks[3].token, Token::RPAREN);
}

#[test]
fn test_lexer_flags_unknown_fragment() {
    let toks = lex(&b"A | B".to_vec());
    assert_eq!(toks.len(), 3);
    assert_eq!(toks[1].token, Token::Error);
    assert_eq!((toks[1].span.start, toks[1].span.end), (2, 3));
    let toks = lex(&b"9".to_vec());
    assert_eq!(toks.len(), 1);
    assert_eq!(toks[0].token, Token::Error);
}

#[test]
fn test_lexer_skips_whitespace() {
    let toks = lex(&b" \t\nA\x0c ".to_vec());
    assert_eq!(toks.len(), 1);
    assert_eq!(toks[0].token, Token::IDENT);
    assert_eq!((toks[0].span.start, toks[0].span.end), (3, 4));
}

#[test]
fn test_is_binary_operator() {
    assert!(Token::AND.is_binary_operator());
    assert!(Token::OR.is_binary_operator());
    assert!(Token::XOR.is_binary_operator());
    assert!(!Token::NOT.is_binary_operator());
    assert!(!Token::IDENT.is_binary_operator());
    assert!(!Token::LPAREN.is_binary_operator());
    assert!(!Token::RPAREN.is_binary_operator());
    assert!(!Token::Error.is_binary_operator());
}
