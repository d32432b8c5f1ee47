use ember::lexer::{LexError, Lexer, Position, Token};


#[test]
fn empty_input() {
    let mut lexer = Lexer::new(b"");

    assert_eq!(lexer.tokenize().unwrap(), vec![Token::Eof]);
}

#[test]
fn whitespace_only() {
    let mut lexer = Lexer::new(b" \t\n ");

    assert_eq!(lexer.tokenize().unwrap(), vec![Token::Eof])
}

#[test]
fn keyword_let() {
    let mut lexer = Lexer::new(b"let");

    assert_eq!(lexer.tokenize().unwrap(), vec![Token::Let, Token::Eof])
}

#[test]
fn identifiers() {
    let mut lexer = Lexer::new(b"foo bar _baz");

    assert_eq!(
        lexer.tokenize().unwrap(),
        vec![
            Token::Identifier(b"foo"),
            Token::Identifier(b"bar"),
            Token::Identifier(b"_baz"),
            Token::Eof
        ]
    )
}

#[test]
fn numbers() {
    let mut lexer = Lexer::new(b"123 456");

    assert_eq!(
        lexer.tokenize().unwrap(),
        vec![Token::Number(123), Token::Number(456), Token::Eof]
    )
}

#[test]
fn operators() {
    let mut lexer = Lexer::new(b"+-*/=;()");

    assert_eq!(
        lexer.tokenize().unwrap(),
        vec![
            Token::Plus,
            Token::Minus,
            Token::Star,
            Token::Slash,
            Token::Equal,
            Token::Semicolon,
            Token::LeftParen,
            Token::RightParen,
            Token::Eof,
        ]
    );
}

#[test]
fn simple_program() {
    let mut lexer = Lexer::new(b"let x = 42;");

    assert_eq!(
        lexer.tokenize().unwrap(),
        vec![
            Token::Let,
            Token::Identifier(b"x"),
            Token::Equal,
            Token::Number(42),
            Token::Semicolon,
            Token::Eof,
        ]
    );
}

#[test]
fn keyword_prefix() {
    let mut lexer = Lexer::new(b"letter");

    assert_eq!(
        lexer.tokenize().unwrap(),
        vec![Token::Identifier(b"letter"), Token::Eof,]
    );
}

#[test]
fn identifier_with_digits() {
    let mut lexer = Lexer::new(b"_foo123");

    assert_eq!(
        lexer.tokenize().unwrap(),
        vec![Token::Identifier(b"_foo123"), Token::Eof,]
    );
}

#[test]
fn unexpected_character() {
    let mut lexer = Lexer::new(b"@");

    assert_eq!(
        lexer.tokenize(),
        Err(LexError::UnexpectedChar {
            ch: '@',
            pos: Position { line: 1, col: 1 }
        })
    );
}

#[test]
fn unexpected_character_position_on_later_line() {
    let mut lexer = Lexer::new(b"let x = 1;\nlet y = @;");

    assert_eq!(
        lexer.tokenize(),
        Err(LexError::UnexpectedChar {
            ch: '@',
            pos: Position { line: 2, col: 9 }
        })
    );
}

#[test]
fn integer_overflow() {
    let mut lexer = Lexer::new(b"999999999999999999999999999999999");

    assert_eq!(
        lexer.tokenize(),
        Err(LexError::InvalidNumber { pos: Position { line: 1, col: 1 } })
    );
}

#[test]
fn adjacent_tokens() {
    let mut lexer = Lexer::new(b"x=123");

    assert_eq!(
        lexer.tokenize().unwrap(),
        vec![
            Token::Identifier(b"x"),
            Token::Equal,
            Token::Number(123),
            Token::Eof
        ]
    )
}

#[test]
fn comparison_operators() {
    let mut lexer = Lexer::new(b"== != <= >=");

    assert_eq!(
        lexer.tokenize().unwrap(),
        vec![
            Token::EqualEqual,
            Token::BangEqual,
            Token::LessEqual,
            Token::GreaterEqual,
            Token::Eof,
        ]
    );
}

#[test]
fn relational_operators() {
    let mut lexer = Lexer::new(b"< >");

    assert_eq!(
        lexer.tokenize().unwrap(),
        vec![Token::Less, Token::Greater, Token::Eof]
    );
}

#[test]
fn logical_operators() {
    let mut lexer = Lexer::new(b"&& ||");

    assert_eq!(
        lexer.tokenize().unwrap(),
        vec![Token::AndAnd, Token::OrOr, Token::Eof]
    );
}

#[test]
fn braces() {
    let mut lexer = Lexer::new(b"{}");

    assert_eq!(
        lexer.tokenize().unwrap(),
        vec![Token::LeftBrace, Token::RightBrace, Token::Eof]
    );
}

#[test]
fn boolean_literals() {
    let mut lexer = Lexer::new(b"true false");

    assert_eq!(
        lexer.tokenize().unwrap(),
        vec![Token::True, Token::False, Token::Eof]
    );
}

#[test]
fn keyword_print() {
    let mut lexer = Lexer::new(b"print");

    assert_eq!(lexer.tokenize().unwrap(), vec![Token::Print, Token::Eof])
}

#[test]
fn keyword_if_else() {
    let mut lexer = Lexer::new(b"if else");

    assert_eq!(
        lexer.tokenize().unwrap(),
        vec![Token::If, Token::Else, Token::Eof]
    )
}

#[test]
fn keyword_while() {
    let mut lexer = Lexer::new(b"while");

    assert_eq!(lexer.tokenize().unwrap(), vec![Token::While, Token::Eof])
}

#[test]
fn string() {
    let mut lexer = Lexer::new(b"\"hello\"");

    assert_eq!(
        lexer.tokenize().unwrap(),
        vec![Token::String(b"hello"), Token::Eof]
    );
}

#[test]
fn unterminated_string() {
    let mut lexer = Lexer::new(b"\"hello");

    assert_eq!(
        lexer.tokenize(),
        Err(LexError::UnterminatedString {
            string: "\"hello".to_string(),
            pos: Position { line: 1, col: 1 }
        })
    );
}

#[test]
fn tokenize_with_positions_tracks_line_and_col() {
    let mut lexer = Lexer::new(b"let x = 1;\nprint(x);");

    assert_eq!(
        lexer.tokenize_with_positions().unwrap(),
        vec![
            (Token::Let, Position { line: 1, col: 1 }),
            (Token::Identifier(b"x"), Position { line: 1, col: 5 }),
            (Token::Equal, Position { line: 1, col: 7 }),
            (Token::Number(1), Position { line: 1, col: 9 }),
            (Token::Semicolon, Position { line: 1, col: 10 }),
            (Token::Print, Position { line: 2, col: 1 }),
            (Token::LeftParen, Position { line: 2, col: 6 }),
            (Token::Identifier(b"x"), Position { line: 2, col: 7 }),
            (Token::RightParen, Position { line: 2, col: 8 }),
            (Token::Semicolon, Position { line: 2, col: 9 }),
            (Token::Eof, Position { line: 2, col: 10 }),
        ]
    );
}
