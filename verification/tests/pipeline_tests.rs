use ember::ast::{Expr, Program, Statement};
use ember::error::Error;
use ember::interpreter::{Interpreter, RuntimeError, Value};
use ember::lexer::{LexError, Lexer, Position, Token};
use ember::parser::ParseError;
use ember::sema::{Sema, SemaError, Type};

fn run_source(source: &'static [u8]) -> (Vec<Value<'static>>, Result<(), Error>) {
    let mut output = Vec::new();
    let result = ember::run(source, &mut output);
    (output, result)
}

fn pos(line: u32, col: u32) -> Position {
    Position { line, col }
}

#[test]
fn position_is_written_line_colon_col() {
    assert_eq!(pos(2, 9).to_string(), "2:9");
    assert_eq!(pos(1, 10).to_string(), "1:10");
    assert_eq!(pos(u32::MAX, 0).to_string(), "4294967295:0");
}

#[test]
fn types_are_named_as_in_messages() {
    assert_eq!(Type::Number.to_string(), "number");
    assert_eq!(Type::Boolean.to_string(), "boolean");
    assert_eq!(Type::String.to_string(), "string");
}

#[test]
fn values_print_as_print_writes_them() {
    assert_eq!(Value::Number(42).to_string(), "42");
    assert_eq!(Value::Number(0).to_string(), "0");
    assert_eq!(Value::Number(-42).to_string(), "-42");
    assert_eq!(Value::Number(i64::MIN).to_string(), "-9223372036854775808");
    assert_eq!(Value::Number(i64::MAX).to_string(), "9223372036854775807");
    assert_eq!(Value::Boolean(true).to_string(), "true");
    assert_eq!(Value::Boolean(false).to_string(), "false");
    assert_eq!(Value::String(b"three!").to_string(), "three!");
}

#[test]
fn invalid_utf8_string_prints_replacement_character() {
    assert_eq!(Value::String(&[b'a', 0xff]).to_string(), "a\u{FFFD}");
}

#[test]
fn tokens_are_written_as_in_messages() {
    assert_eq!(Token::Identifier(b"x").to_string(), "identifier 'x'");
    assert_eq!(Token::Number(-5).to_string(), "number '-5'");
    assert_eq!(Token::Number(1234).to_string(), "number '1234'");
    assert_eq!(Token::String(b"hi").to_string(), "string 'hi'");
    assert_eq!(Token::True.to_string(), "boolean 'true'");
    assert_eq!(Token::LessEqual.to_string(), "'<='");
    assert_eq!(Token::Eof.to_string(), "end of input");
}

#[test]
fn defaults_start_with_one_empty_scope() {
    let program = Program {
        statements: vec![
            Statement::Let { name: b"x", value: Expr::Number(1) },
            Statement::Print(Expr::Identifier(b"x")),
        ],
    };
    assert_eq!(Sema::default().check(&program), Ok(()));
    let mut interpreter = Interpreter::default();
    assert!(interpreter.output().is_empty());
    assert_eq!(interpreter.run(&program), Ok(()));
    assert_eq!(interpreter.output(), &vec![Value::Number(1)]);
}

#[test]
fn each_stage_error_converts_into_error() {
    assert_eq!(Error::from(RuntimeError::DivideByZero), Error::Runtime(RuntimeError::DivideByZero));
    assert_eq!(
        Error::from(SemaError::UndefinedVariable("y".to_string())),
        Error::Sema(SemaError::UndefinedVariable("y".to_string()))
    );
    assert_eq!(
        Error::from(ParseError::ExpectedExpression { pos: pos(1, 1) }),
        Error::Parse(ParseError::ExpectedExpression { pos: pos(1, 1) })
    );
    assert_eq!(
        Error::from(LexError::InvalidNumber { pos: pos(1, 1) }),
        Error::Lex(LexError::InvalidNumber { pos: pos(1, 1) })
    );
}

#[test]
fn run_readme_example() {
    let source = b"let x = 1;
let message = \"hello\";

while x < 5 {
    if x == 3 {
        print(\"three!\");
    } else {
        print(x);
    }

    x = x + 1;
}
";
    let (output, result) = run_source(source);
    assert_eq!(result, Ok(()));
    assert_eq!(
        output,
        vec![Value::Number(1), Value::Number(2), Value::String(b"three!"), Value::Number(4)]
    );
}

#[test]
fn run_reports_lex_error_position() {
    let (output, result) = run_source(b"let x = 1;\nlet y = @;");
    assert!(output.is_empty());
    assert_eq!(result, Err(Error::Lex(LexError::UnexpectedChar { ch: '@', pos: pos(2, 9) })));
}

#[test]
fn run_reports_parse_error_at_end_of_input() {
    let (output, result) = run_source(b"let x = 1");
    assert!(output.is_empty());
    assert_eq!(
        result,
        Err(Error::Parse(ParseError::UnexpectedToken {
            expected: "';'".to_string(),
            found: "end of input".to_string(),
            pos: pos(1, 10),
        }))
    );
}

#[test]
fn run_checks_before_running_anything() {
    let (output, result) = run_source(b"print(1);\nprint(y);");
    assert!(output.is_empty());
    assert_eq!(result, Err(Error::Sema(SemaError::UndefinedVariable("y".to_string()))));
}

#[test]
fn run_keeps_output_printed_before_runtime_error() {
    let (output, result) = run_source(b"print(1);\nprint(1 / 0);\nprint(2);");
    assert_eq!(output, vec![Value::Number(1)]);
    assert_eq!(result, Err(Error::Runtime(RuntimeError::DivideByZero)));
}

#[test]
fn logical_operators_evaluate_both_operands() {
    let (output, result) = run_source(b"print(false && (1 / 0 == 1));");
    assert!(output.is_empty());
    assert_eq!(result, Err(Error::Runtime(RuntimeError::DivideByZero)));
}

#[test]
fn run_reports_overflow() {
    let (output, result) = run_source(b"print(9223372036854775807 + 1);");
    assert!(output.is_empty());
    assert_eq!(result, Err(Error::Runtime(RuntimeError::ArithmeticOverflow)));
}

#[test]
fn run_reports_number_literal_out_of_range() {
    let (_, result) = run_source(b"print(9223372036854775808);");
    assert_eq!(result, Err(Error::Lex(LexError::InvalidNumber { pos: pos(1, 7) })));
}

#[test]
fn run_reports_unterminated_string() {
    let (_, result) = run_source(b"print(\"abc");
    assert_eq!(
        result,
        Err(Error::Lex(LexError::UnterminatedString { string: "\"abc".to_string(), pos: pos(1, 7) }))
    );
}

#[test]
fn block_scope_shadows_and_then_restores() {
    let (output, result) = run_source(b"let x = 1; { let x = true; print(x); } print(x);");
    assert_eq!(result, Ok(()));
    assert_eq!(output, vec![Value::Boolean(true), Value::Number(1)]);
}

#[test]
fn assignment_gives_the_variable_the_value_type() {
    let (output, result) = run_source(b"let x = 1; x = true; print(x);");
    assert_eq!(result, Ok(()));
    assert_eq!(output, vec![Value::Boolean(true)]);
    let (output, in_block) = run_source(b"let x = 1; { x = \"s\"; } print(x);");
    assert_eq!(in_block, Ok(()));
    assert_eq!(output, vec![Value::String(b"s")]);
    let (output, misused) = run_source(b"let x = 1; x = true; print(x + 1);");
    assert!(output.is_empty());
    assert_eq!(
        misused,
        Err(Error::Sema(SemaError::UnexpectedType { expected: Type::Number, found: Type::Boolean }))
    );
}

#[test]
fn under_if_or_while_a_variable_from_outside_keeps_its_type() {
    let (_, result) = run_source(b"let x = 1; if true { x = true; }");
    assert_eq!(
        result,
        Err(Error::Sema(SemaError::UnexpectedType { expected: Type::Number, found: Type::Boolean }))
    );
    let (output, inner) = run_source(b"if true { let y = 1; y = false; print(y); }");
    assert_eq!(inner, Ok(()));
    assert_eq!(output, vec![Value::Boolean(false)]);
}

#[test]
fn strings_compare_by_content() {
    let (output, result) = run_source(b"print(\"a\" == \"a\"); print(\"a\" != \"b\"); print(\"a\" == \"b\");");
    assert_eq!(result, Ok(()));
    assert_eq!(output, vec![Value::Boolean(true), Value::Boolean(true), Value::Boolean(false)]);
}

#[test]
fn tokens_carry_one_based_positions() {
    let tokens = Lexer::new(b"let x\n  = 10;").tokenize_with_positions().unwrap();
    assert_eq!(
        tokens,
        vec![
            (Token::Let, pos(1, 1)),
            (Token::Identifier(b"x"), pos(1, 5)),
            (Token::Equal, pos(2, 3)),
            (Token::Number(10), pos(2, 5)),
            (Token::Semicolon, pos(2, 7)),
            (Token::Eof, pos(2, 8)),
        ]
    );
    let bare = Lexer::new(b"let x\n  = 10;").tokenize().unwrap();
    assert_eq!(bare, tokens.iter().map(|(t, _)| *t).collect::<Vec<_>>());
}

#[test]
fn empty_source_runs_and_prints_nothing() {
    let (output, result) = run_source(b"  \n\t ");
    assert_eq!(result, Ok(()));
    assert!(output.is_empty());
}

#[test]
fn names_declared_in_a_block_are_gone_after_it() {
    let (output, result) = run_source(b"let x = 1; { let y = 2; x = x + y; } let y = true; print(x); print(y);");
    assert_eq!(result, Ok(()));
    assert_eq!(output, vec![Value::Number(3), Value::Boolean(true)]);
}

#[test]
fn let_refuses_a_duplicate_only_in_the_same_scope() {
    let (_, shadowed) = run_source(b"let x = 1; { let x = true; }");
    assert_eq!(shadowed, Ok(()));
    let (output, duplicate) = run_source(b"let x = 1; print(x); let x = 2;");
    assert!(output.is_empty());
    assert_eq!(duplicate, Err(Error::Sema(SemaError::DuplicateVariable("x".to_string()))));
}

#[test]
fn non_ascii_byte_is_an_unexpected_character() {
    let (_, result) = run_source(b"let \xc3\xa9 = 1;");
    assert_eq!(result, Err(Error::Lex(LexError::UnexpectedChar { ch: '\u{c3}', pos: pos(1, 5) })));
}

#[test]
fn while_loop_runs_until_its_condition_fails() {
    let (output, result) = run_source(b"let i = 0; let sum = 0; while i < 4 { i = i + 1; sum = sum + i; } print(sum); print(i);");
    assert_eq!(result, Ok(()));
    assert_eq!(output, vec![Value::Number(10), Value::Number(4)]);
}

#[test]
fn check_looks_inside_if_and_while_bodies() {
    let (output, result) = run_source(b"print(0); if true { 1 + true; }");
    assert!(output.is_empty());
    assert_eq!(
        result,
        Err(Error::Sema(SemaError::UnexpectedType { expected: Type::Number, found: Type::Boolean }))
    );
    let (_, in_else) = run_source(b"if false { } else { print(y); }");
    assert_eq!(in_else, Err(Error::Sema(SemaError::UndefinedVariable("y".to_string()))));
    let (_, in_while) = run_source(b"let z = 1; while false { z = false; }");
    assert_eq!(
        in_while,
        Err(Error::Sema(SemaError::UnexpectedType { expected: Type::Number, found: Type::Boolean }))
    );
}

#[test]
fn bare_let_under_if_or_while_declares_only_on_its_branch() {
    let (_, result) = run_source(b"if true let y = 1;");
    assert_eq!(result, Ok(()));
    let (_, in_loop) = run_source(b"while false let y = 1; let y = true; print(y);");
    assert_eq!(in_loop, Ok(()));
    let (_, read_after) = run_source(b"if false let y = 1; print(y);");
    assert_eq!(read_after, Err(Error::Sema(SemaError::UndefinedVariable("y".to_string()))));
    let (_, hiding) = run_source(b"let x = 1; { if true let x = true; print(x + 1); }");
    assert_eq!(hiding, Err(Error::Sema(SemaError::DuplicateVariable("x".to_string()))));
    let (output, in_block) = run_source(b"if true { let y = 1; print(y); }");
    assert_eq!(in_block, Ok(()));
    assert_eq!(output, vec![Value::Number(1)]);
}

#[test]
fn type_errors_report_the_operand_that_breaks_the_rule() {
    let (_, add) = run_source(b"true + 1;");
    assert_eq!(add, Err(Error::Sema(SemaError::UnexpectedType { expected: Type::Number, found: Type::Boolean })));
    let (_, and) = run_source(b"true && 1;");
    assert_eq!(and, Err(Error::Sema(SemaError::UnexpectedType { expected: Type::Boolean, found: Type::Number })));
    let (_, or) = run_source(b"1 || true;");
    assert_eq!(or, Err(Error::Sema(SemaError::UnexpectedType { expected: Type::Boolean, found: Type::Number })));
}

#[test]
fn unary_minus_negates() {
    let (output, result) = run_source(b"let x = 3; print(-5); print(- x * 2); print(1 - -2); print(--7);");
    assert_eq!(result, Ok(()));
    assert_eq!(output, vec![Value::Number(-5), Value::Number(-6), Value::Number(3), Value::Number(7)]);
    let (_, negated_bool) = run_source(b"print(-true);");
    assert_eq!(
        negated_bool,
        Err(Error::Sema(SemaError::UnexpectedType { expected: Type::Number, found: Type::Boolean }))
    );
}

#[test]
fn unary_minus_parses_from_tokens() {
    let tokens = vec![Token::Minus, Token::Number(5), Token::Semicolon, Token::Eof];
    let positions = vec![Position::default(); tokens.len()];
    let program = ember::parser::Parser::new(&tokens, &positions).parse().unwrap();
    assert_eq!(program.statements.len(), 1);
    match &program.statements[0] {
        Statement::Expression(e) => assert_eq!(Interpreter::new().eval(e), Ok(Value::Number(-5))),
        other => panic!("unexpected statement {other:?}"),
    }
}

#[test]
fn error_messages() {
    let (_, lex) = run_source(b"let x = 1;\nlet y = @;");
    assert_eq!(lex.unwrap_err().to_string(), "2:9: unexpected character '@'");
    let (_, number) = run_source(b"print(9223372036854775808);");
    assert_eq!(number.unwrap_err().to_string(), "1:7: invalid number literal");
    let (_, string) = run_source(b"print(\"abc");
    assert_eq!(string.unwrap_err().to_string(), "1:7: unterminated string literal '\"abc'");
    let (_, parse) = run_source(b"let x = 1");
    assert_eq!(parse.unwrap_err().to_string(), "1:10: expected ';', found end of input");
    let (_, ident) = run_source(b"let = 1;");
    assert_eq!(ident.unwrap_err().to_string(), "1:5: expected an identifier");
    let (_, expr) = run_source(b"print();");
    assert_eq!(expr.unwrap_err().to_string(), "1:7: expected an expression");
    let (_, undefined) = run_source(b"print(y);");
    assert_eq!(undefined.unwrap_err().to_string(), "undefined variable 'y'");
    let (_, duplicate) = run_source(b"let x = 1; let x = 2;");
    assert_eq!(duplicate.unwrap_err().to_string(), "variable 'x' is already defined");
    let (_, types) = run_source(b"1 + true;");
    assert_eq!(types.unwrap_err().to_string(), "expected number, found boolean");
    let (_, mismatch) = run_source(b"1 == \"a\";");
    assert_eq!(mismatch.unwrap_err().to_string(), "mismatched types: 'number' and 'string'");
    let (_, divide) = run_source(b"print(1 / 0);");
    assert_eq!(divide.unwrap_err().to_string(), "attempt to divide by zero");
    let (_, overflow) = run_source(b"print(9223372036854775807 * 2);");
    assert_eq!(overflow.unwrap_err().to_string(), "arithmetic overflow");
}

#[test]
fn syntax_trees_can_be_cloned() {
    let program = Program {
        statements: vec![Statement::If {
            condition: Expr::Boolean(true),
            statement: Box::new(Statement::Block(vec![Statement::Print(Expr::Number(1))])),
            else_clause: Some(Box::new(Statement::Expression(Expr::Identifier(b"x")))),
        }],
    };
    assert_eq!(program.clone(), program);
    assert_eq!(program.statements[0].clone(), program.statements[0]);
}
