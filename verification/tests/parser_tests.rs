use ember::ast::{BinaryOp, Expr, Program, Statement};
use ember::lexer::{Lexer, Position, Token};
use ember::parser::{ParseError, Parser};


/// Parses a hand-written token slice for tests that don't care about
/// positions. Every token is given the same placeholder `Position`
/// (its `Default`, i.e. `{ line: 0, col: 0 }`) since these tests
/// construct tokens directly rather than going through the lexer;
/// tests that need to assert on a `ParseError`'s position use this
/// same placeholder value.
fn parse<'a>(tokens: &[Token<'a>]) -> Result<Program<'a>, ParseError> {
    let positions = vec![Position::default(); tokens.len()];

    Parser::new(tokens, &positions).parse()
}

#[test]
fn parser_let_statement() {
    let tokens = [
        Token::Let,
        Token::Identifier(b"x"),
        Token::Equal,
        Token::Number(42),
        Token::Semicolon,
        Token::Eof,
    ];

    let program = parse(&tokens).unwrap();

    assert_eq!(
        program,
        Program {
            statements: vec![Statement::Let {
                name: b"x",
                value: Expr::Number(42),
            }]
        }
    );
}

#[test]
fn expression_statement() {
    let tokens = [Token::Number(5), Token::Semicolon, Token::Eof];

    let program = parse(&tokens).unwrap();

    assert_eq!(
        program,
        Program {
            statements: vec![Statement::Expression(Expr::Number(5))]
        }
    );
}

#[test]
fn parser_addition() {
    let tokens = [
        Token::Number(1),
        Token::Plus,
        Token::Number(2),
        Token::Semicolon,
        Token::Eof,
    ];

    let program = parse(&tokens).unwrap();

    assert_eq!(
        program,
        Program {
            statements: vec![Statement::Expression(Expr::Binary {
                left: Box::new(Expr::Number(1)),
                operator: BinaryOp::Add,
                right: Box::new(Expr::Number(2)),
            })]
        }
    );
}

#[test]
fn precedence() {
    let tokens = [
        Token::Number(1),
        Token::Plus,
        Token::Number(2),
        Token::Star,
        Token::Number(3),
        Token::Semicolon,
        Token::Eof,
    ];

    let program = parse(&tokens).unwrap();

    assert_eq!(
        program,
        Program {
            statements: vec![Statement::Expression(Expr::Binary {
                left: Box::new(Expr::Number(1)),
                operator: BinaryOp::Add,
                right: Box::new(Expr::Binary {
                    left: Box::new(Expr::Number(2)),
                    operator: BinaryOp::Mul,
                    right: Box::new(Expr::Number(3)),
                }),
            })]
        }
    );
}

#[test]
fn missing_semicolon() {
    let tokens = [Token::Number(1), Token::Eof];

    let err = parse(&tokens).unwrap_err();

    assert!(matches!(err, ParseError::UnexpectedToken { .. }));
}

#[test]
fn missing_identifier() {
    let tokens = [
        Token::Let,
        Token::Number(1),
        Token::Equal,
        Token::Number(2),
        Token::Semicolon,
        Token::Eof,
    ];

    let err = parse(&tokens).unwrap_err();

    assert_eq!(
        err,
        ParseError::ExpectedIdentifier { pos: Position::default() }
    );
}

#[test]
fn missing_expression() {
    let tokens = [
        Token::Let,
        Token::Identifier(b"x"),
        Token::Equal,
        Token::Semicolon,
        Token::Eof,
    ];

    let err = parse(&tokens).unwrap_err();

    assert_eq!(
        err,
        ParseError::ExpectedExpression { pos: Position::default() }
    );
}

#[test]
fn missing_right_paren() {
    let err = parse(&[
        Token::LeftParen,
        Token::Number(1),
        Token::Plus,
        Token::Number(2),
        Token::Semicolon,
        Token::Eof,
    ])
    .unwrap_err();

    assert_eq!(
        err,
        ParseError::UnexpectedToken {
            expected: Token::RightParen.to_string(),
            found: Token::Semicolon.to_string(),
            pos: Position::default(),
        }
    );
}

#[test]
fn parser_boolean_literal() {
    let tokens = [Token::True, Token::Semicolon, Token::Eof];

    let program = parse(&tokens).unwrap();

    assert_eq!(
        program,
        Program {
            statements: vec![Statement::Expression(Expr::Boolean(true))]
        }
    );
}

#[test]
fn comparison() {
    let tokens = [
        Token::Number(1),
        Token::Less,
        Token::Number(2),
        Token::Semicolon,
        Token::Eof,
    ];

    let program = parse(&tokens).unwrap();

    assert_eq!(
        program,
        Program {
            statements: vec![Statement::Expression(Expr::Binary {
                left: Box::new(Expr::Number(1)),
                operator: BinaryOp::Less,
                right: Box::new(Expr::Number(2)),
            })]
        }
    );
}

#[test]
fn parser_logical_and() {
    let tokens = [
        Token::True,
        Token::AndAnd,
        Token::False,
        Token::Semicolon,
        Token::Eof,
    ];

    let program = parse(&tokens).unwrap();

    assert_eq!(
        program,
        Program {
            statements: vec![Statement::Expression(Expr::Binary {
                left: Box::new(Expr::Boolean(true)),
                operator: BinaryOp::And,
                right: Box::new(Expr::Boolean(false)),
            })]
        }
    );
}

#[test]
fn parser_logical_or() {
    let tokens = [
        Token::True,
        Token::OrOr,
        Token::False,
        Token::Semicolon,
        Token::Eof,
    ];

    let program = parse(&tokens).unwrap();

    assert_eq!(
        program,
        Program {
            statements: vec![Statement::Expression(Expr::Binary {
                left: Box::new(Expr::Boolean(true)),
                operator: BinaryOp::Or,
                right: Box::new(Expr::Boolean(false)),
            })]
        }
    );
}

#[test]
fn logical_precedence_over_comparison() {
    let tokens = [
        Token::Number(1),
        Token::Less,
        Token::Number(2),
        Token::AndAnd,
        Token::Number(3),
        Token::Less,
        Token::Number(4),
        Token::Semicolon,
        Token::Eof,
    ];

    let program = parse(&tokens).unwrap();

    assert_eq!(
        program,
        Program {
            statements: vec![Statement::Expression(Expr::Binary {
                left: Box::new(Expr::Binary {
                    left: Box::new(Expr::Number(1)),
                    operator: BinaryOp::Less,
                    right: Box::new(Expr::Number(2)),
                }),
                operator: BinaryOp::And,
                right: Box::new(Expr::Binary {
                    left: Box::new(Expr::Number(3)),
                    operator: BinaryOp::Less,
                    right: Box::new(Expr::Number(4)),
                }),
            })]
        }
    );
}

#[test]
fn parser_assignment() {
    let tokens = [
        Token::Identifier(b"x"),
        Token::Equal,
        Token::Number(1),
        Token::Semicolon,
        Token::Eof,
    ];

    let program = parse(&tokens).unwrap();

    assert_eq!(
        program,
        Program {
            statements: vec![Statement::Assign {
                name: b"x",
                value: Expr::Number(1),
            }]
        }
    );
}

#[test]
fn parser_print_statement() {
    let tokens = [
        Token::Print,
        Token::LeftParen,
        Token::Number(1),
        Token::RightParen,
        Token::Semicolon,
        Token::Eof,
    ];

    let program = parse(&tokens).unwrap();

    assert_eq!(
        program,
        Program { statements: vec![Statement::Print(Expr::Number(1))] }
    );
}

#[test]
fn block_statement() {
    let tokens = [
        Token::LeftBrace,
        Token::Number(1),
        Token::Semicolon,
        Token::RightBrace,
        Token::Eof,
    ];

    let program = parse(&tokens).unwrap();

    assert_eq!(
        program,
        Program {
            statements: vec![Statement::Block(vec![
                Statement::Expression(Expr::Number(1))
            ])]
        }
    );
}

#[test]
fn empty_block_statement() {
    let tokens = [Token::LeftBrace, Token::RightBrace, Token::Eof];

    let program = parse(&tokens).unwrap();

    assert_eq!(
        program,
        Program { statements: vec![Statement::Block(vec![])] }
    );
}

#[test]
fn if_statement() {
    let tokens = [
        Token::If,
        Token::True,
        Token::LeftBrace,
        Token::RightBrace,
        Token::Eof,
    ];

    let program = parse(&tokens).unwrap();

    assert_eq!(
        program,
        Program {
            statements: vec![Statement::If {
                condition: Expr::Boolean(true),
                statement: Box::new(Statement::Block(vec![])),
                else_clause: None,
            }]
        }
    );
}

#[test]
fn if_else_statement() {
    let tokens = [
        Token::If,
        Token::True,
        Token::LeftBrace,
        Token::RightBrace,
        Token::Else,
        Token::LeftBrace,
        Token::RightBrace,
        Token::Eof,
    ];

    let program = parse(&tokens).unwrap();

    assert_eq!(
        program,
        Program {
            statements: vec![Statement::If {
                condition: Expr::Boolean(true),
                statement: Box::new(Statement::Block(vec![])),
                else_clause: Some(Box::new(Statement::Block(vec![]))),
            }]
        }
    );
}

#[test]
fn while_statement() {
    let tokens = [
        Token::While,
        Token::True,
        Token::LeftBrace,
        Token::RightBrace,
        Token::Eof,
    ];

    let program = parse(&tokens).unwrap();

    assert_eq!(
        program,
        Program {
            statements: vec![Statement::While {
                condition: Expr::Boolean(true),
                statement: Box::new(Statement::Block(vec![])),
            }]
        }
    );
}

/// End-to-end check (lexer + parser together) that a [`ParseError`]
/// reports the real position of the offending token, rather than the
/// placeholder `Position::default()` used by the hand-written-token
/// tests above.
#[test]
fn error_reports_real_position_from_lexer() {

    let source = b"let x = 1\nlet y = 2;";
    let tokens_with_pos =
        Lexer::new(source).tokenize_with_positions().unwrap();

    let tokens: Vec<Token> =
        tokens_with_pos.iter().map(|(t, _)| *t).collect();
    let positions: Vec<Position> =
        tokens_with_pos.iter().map(|(_, p)| *p).collect();

    let err = Parser::new(&tokens, &positions).parse().unwrap_err();

    // The missing `;` after `let x = 1` is discovered once the parser
    // reaches `let` on the second line, since that's the first token
    // that isn't a valid continuation of the statement.
    assert_eq!(
        err,
        ParseError::UnexpectedToken {
            expected: Token::Semicolon.to_string(),
            found: Token::Let.to_string(),
            pos: Position { line: 2, col: 1 },
        }
    );
}
