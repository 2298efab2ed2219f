use reef::ast::Stmt;
use reef::lex::Scanner;
use reef::parse::{Parser, ParserError};
use reef::token::Token;

fn parse(src: &str) -> (Vec<Stmt>, Result<(), ParserError>) {
    let mut s = Scanner::new(src, 0);
    s.scan().unwrap();
    Parser::parse(s.into_tokens())
}

fn shown(stmts: &[Stmt]) -> String {
    format!("{:?}", stmts)
}

#[test]
fn passes() {
    let (program, r) = parse("var money = 100;");
    assert!(r.is_ok());
    assert_eq!(program.len(), 1);
}

#[test]
fn should_fail() {
    let (program, r) = parse("var = 10");
    assert!(program.is_empty());
    match r {
        Err(ParserError::SyntaxError { position, .. }) => assert_eq!(position, 1),
        other => panic!("unexpected {:?}", other),
    }
}

#[test]
fn declaration_of_number() {
    let (program, r) = parse("var x = 1_2.5;");
    assert!(r.is_ok());
    assert_eq!(
        shown(&program),
        "[VariableDeclaration { name: \"x\", value: NumberLiteral(\"12.5\") }]"
    );
}

#[test]
fn operators_group_to_the_right() {
    let (program, r) = parse("1 * 2 + 3;");
    assert!(r.is_ok());
    assert_eq!(
        shown(&program),
        "[ExpressionStatement(BinaryExpression { left_side: NumberLiteral(\"1\"), \
         right_side: BinaryExpression { left_side: NumberLiteral(\"2\"), right_side: \
         NumberLiteral(\"3\"), operator: Plus }, operator: Multiply })]"
    );
}

#[test]
fn log_with_arguments() {
    let (program, r) = parse("log 1, \"a\", x;");
    assert!(r.is_ok());
    assert_eq!(
        shown(&program),
        "[LogStatement([NumberLiteral(\"1\"), StringLiteral(\"a\"), Identifier(\"x\")])]"
    );
}

#[test]
fn log_without_arguments() {
    let (program, r) = parse("log;");
    assert!(r.is_ok());
    assert_eq!(shown(&program), "[LogStatement([])]");
}

#[test]
fn if_statement_with_block() {
    let (program, r) = parse("if (true) then { log 1; }");
    assert!(r.is_ok());
    assert_eq!(
        shown(&program),
        "[IfStatement { condition: Boolean(True), body: BlockStatement([LogStatement([NumberLiteral(\"1\")])]) }]"
    );
}

#[test]
fn reassignment_and_empty_statement() {
    let (program, r) = parse("x = -y;;");
    assert!(r.is_ok());
    assert_eq!(
        shown(&program),
        "[VariableReassignment { name: \"x\", value: UnaryExpression(Minus, Identifier(\"y\")) }, EmptyStatement]"
    );
}

#[test]
fn group_then_operator() {
    let (program, r) = parse("(1) < 2;");
    assert!(r.is_ok());
    assert_eq!(
        shown(&program),
        "[ExpressionStatement(ComparisonExpression { lhs: GroupExpression(NumberLiteral(\"1\")), \
         rhs: NumberLiteral(\"2\"), operator: LessThan })]"
    );
}

#[test]
fn unknown_token_at_statement_start() {
    let (program, r) = parse("log 1; } ");
    assert_eq!(program.len(), 1);
    match r {
        Err(ParserError::UnknownToken { position }) => assert_eq!(position, 3),
        other => panic!("unexpected {:?}", other),
    }
}

#[test]
fn missing_semicolon_is_syntax_error() {
    let (_, r) = parse("log 1");
    match r {
        Err(ParserError::SyntaxError { position, message }) => {
            assert_eq!(position, 2);
            assert_eq!(message, "expected ';'");
        }
        other => panic!("unexpected {:?}", other),
    }
}

#[test]
fn malformed_number_is_error() {
    let (_, r) = parse("1.2.3;");
    match r {
        Err(ParserError::MalformedNumber { position }) => assert_eq!(position, 0),
        other => panic!("unexpected {:?}", other),
    }
}

#[test]
fn malformed_number_is_told_apart_from_syntax_errors() {
    let (program, r) = parse("log 1; var x = 1.2.3;");
    assert_eq!(program.len(), 1);
    match r {
        Err(ParserError::MalformedNumber { position }) => assert_eq!(position, 6),
        other => panic!("unexpected {:?}", other),
    }
}

#[test]
fn tokens_run_out() {
    let tokens = vec![Token::Keyword("var".to_string())];
    let (_, r) = Parser::parse(tokens);
    match r {
        Err(ParserError::CurrentIndexOutOfBounds(p)) => assert_eq!(p, 1),
        other => panic!("unexpected {:?}", other),
    }
}

#[test]
fn unclosed_block_is_error() {
    let (_, r) = parse("{ log 1;");
    match r {
        Err(ParserError::SyntaxError { position, message }) => {
            assert_eq!(position, 4);
            assert_eq!(message, "expected '}'");
        }
        other => panic!("unexpected {:?}", other),
    }
}

#[test]
fn parse_all_keeps_statements_before_error() {
    let mut s = Scanner::new("var a = 1; log a; )", 0);
    s.scan().unwrap();
    let mut p = Parser::new(s.into_tokens(), 0);
    let r = p.parse_all();
    assert!(r.is_err());
    assert_eq!(p.get_program_node().len(), 2);
}

#[test]
fn unknown_binary_operator_character() {
    let tokens = vec![
        Token::Number("1".to_string()),
        Token::BinaryOperator('^'),
        Token::Number("2".to_string()),
        Token::Delimiter(';'),
        Token::EndOfFile,
    ];
    let (_, r) = Parser::parse(tokens);
    match r {
        Err(ParserError::UnknownToken { position }) => assert_eq!(position, 1),
        other => panic!("unexpected {:?}", other),
    }
}

#[test]
fn modulus_operator_token() {
    let tokens = vec![
        Token::Number("7".to_string()),
        Token::BinaryOperator('%'),
        Token::Number("3".to_string()),
        Token::Delimiter(';'),
        Token::EndOfFile,
    ];
    let (program, r) = Parser::parse(tokens);
    assert!(r.is_ok());
    assert_eq!(
        shown(&program),
        "[ExpressionStatement(BinaryExpression { left_side: NumberLiteral(\"7\"), \
         right_side: NumberLiteral(\"3\"), operator: Modulus })]"
    );
}
