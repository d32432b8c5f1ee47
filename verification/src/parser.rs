//! Turns a token stream into a program by recursive descent.
//!
//! Expressions are parsed by precedence climbing; from loosest to
//! tightest binding the levels are `||`, `&&`, the comparisons
//! (`< <= > >= == !=`), `+ -`, `* /`, and the primary expressions
//! (literals, identifiers, parenthesized expressions and the negation
//! `- primary`). Every binary
//! level is left-associative.
use vstd::prelude::*;
use crate::ast::{BinaryOp, Expr, Program, Statement, SExpr, SStmt, stmt_view, stmts_view, lemma_stmts_view_push};
use crate::lexer::{Position, Token, SToken, position_text, token_text, tokens_view};

verus! {

/// Errors that can occur while parsing.
#[derive(Debug, Clone, PartialEq, Eq)]
pub enum ParseError {
    /// A given token was expected but another was found, e.g. a missing
    /// `)` or `;`; both are written as in diagnostic messages.
    UnexpectedToken { expected: String, found: String, pos: Position },
    /// An identifier was expected, e.g. after `let`.
    ExpectedIdentifier { pos: Position },
    /// The start of an expression was expected.
    ExpectedExpression { pos: Position },
}

/// The view of a [`ParseError`].
pub enum SParseError {
    UnexpectedToken { expected: Seq<char>, found: Seq<char>, pos: Position },
    ExpectedIdentifier { pos: Position },
    ExpectedExpression { pos: Position },
}

impl View for ParseError {
    type V = SParseError;

    open spec fn view(&self) -> SParseError {
        match self {
            ParseError::UnexpectedToken { expected, found, pos } => SParseError::UnexpectedToken {
                expected: expected@,
                found: found@,
                pos: *pos,
            },
            ParseError::ExpectedIdentifier { pos } => SParseError::ExpectedIdentifier { pos: *pos },
            ParseError::ExpectedExpression { pos } => SParseError::ExpectedExpression { pos: *pos },
        }
    }
}

/// The message of a parse error, e.g. `1:10: expected ';', found end of
/// input`.
pub open spec fn parse_error_text(e: SParseError) -> Seq<char> {
    match e {
        SParseError::UnexpectedToken { expected, found, pos } => position_text(pos) + ": expected "@ + expected
            + ", found "@ + found,
        SParseError::ExpectedIdentifier { pos } => position_text(pos) + ": expected an identifier"@,
        SParseError::ExpectedExpression { pos } => position_text(pos) + ": expected an expression"@,
    }
}

impl ParseError {
    /// The error's message.
    pub fn to_string(&self) -> (s: String)
        ensures
            s@ == parse_error_text(self@),
    {
        match self {
            ParseError::UnexpectedToken { expected, found, pos } => {
                let mut s = pos.to_string();
                s.append(": expected ");
                s.append(expected.as_str());
                s.append(", found ");
                s.append(found.as_str());
                s
            },
            ParseError::ExpectedIdentifier { pos } => {
                let mut s = pos.to_string();
                s.append(": expected an identifier");
                s
            },
            ParseError::ExpectedExpression { pos } => {
                let mut s = pos.to_string();
                s.append(": expected an expression");
                s
            },
        }
    }
}

// ---------------------------------------------------------------------------
// The grammar, as a function of the tokens, their positions and an offset.
// Each rule gives what it parsed and the offset just past it, or an error.
// ---------------------------------------------------------------------------

/// The error for token `t` expected at offset `i` where another stands.
pub open spec fn unexpected(ts: Seq<SToken>, ps: Seq<Position>, i: int, t: SToken) -> SParseError {
    SParseError::UnexpectedToken { expected: token_text(t), found: token_text(ts[i]), pos: ps[i] }
}

/// Consumes token `t` at offset `i`.
pub open spec fn expect_at(ts: Seq<SToken>, ps: Seq<Position>, i: int, t: SToken) -> Result<int, SParseError> {
    if ts[i] == t {
        Ok(i + 1)
    } else {
        Err(unexpected(ts, ps, i, t))
    }
}

/// The error a rule gives back where a sub-rule did not move forward; the
/// parsing facts show that this never happens.
pub open spec fn stalled(ps: Seq<Position>, i: int) -> SParseError {
    SParseError::ExpectedExpression { pos: ps[i] }
}

/// The operator of the comparison level for token `t`.
pub open spec fn comparison_op(t: SToken) -> Option<BinaryOp> {
    match t {
        SToken::Less => Some(BinaryOp::Less),
        SToken::LessEqual => Some(BinaryOp::LessEqual),
        SToken::Greater => Some(BinaryOp::Greater),
        SToken::GreaterEqual => Some(BinaryOp::GreaterEqual),
        SToken::EqualEqual => Some(BinaryOp::Equal),
        SToken::BangEqual => Some(BinaryOp::NotEqual),
        _ => None,
    }
}

/// The operator of the `+ -` level for token `t`.
pub open spec fn addition_op(t: SToken) -> Option<BinaryOp> {
    match t {
        SToken::Plus => Some(BinaryOp::Add),
        SToken::Minus => Some(BinaryOp::Sub),
        _ => None,
    }
}

/// The operator of the `* /` level for token `t`.
pub open spec fn multiplication_op(t: SToken) -> Option<BinaryOp> {
    match t {
        SToken::Star => Some(BinaryOp::Mul),
        SToken::Slash => Some(BinaryOp::Div),
        _ => None,
    }
}

/// The operator of the `&&` level for token `t`.
pub open spec fn and_op(t: SToken) -> Option<BinaryOp> {
    match t {
        SToken::AndAnd => Some(BinaryOp::And),
        _ => None,
    }
}

/// The operator of the `||` level for token `t`.
pub open spec fn or_op(t: SToken) -> Option<BinaryOp> {
    match t {
        SToken::OrOr => Some(BinaryOp::Or),
        _ => None,
    }
}

/// The binary levels, loosest first; `Primary` is the tightest.
pub enum Level {
    Or,
    And,
    Comparison,
    Addition,
    Multiplication,
}

pub open spec fn level_op(l: Level, t: SToken) -> Option<BinaryOp> {
    match l {
        Level::Or => or_op(t),
        Level::And => and_op(t),
        Level::Comparison => comparison_op(t),
        Level::Addition => addition_op(t),
        Level::Multiplication => multiplication_op(t),
    }
}

/// The rank of a level in the recursion order: tighter levels rank lower.
pub open spec fn level_rank(l: Level) -> nat {
    match l {
        Level::Or => 16,
        Level::And => 15,
        Level::Comparison => 14,
        Level::Addition => 13,
        Level::Multiplication => 12,
    }
}

/// An operand of level `l`: an expression of the next tighter level.
pub open spec fn p_operand(ts: Seq<SToken>, ps: Seq<Position>, l: Level, i: int) -> Result<(SExpr, int), SParseError>
    decreases ts.len() - i, level_rank(l), 0nat,
{
    match l {
        Level::Or => p_level(ts, ps, Level::And, i),
        Level::And => p_level(ts, ps, Level::Comparison, i),
        Level::Comparison => p_level(ts, ps, Level::Addition, i),
        Level::Addition => p_level(ts, ps, Level::Multiplication, i),
        Level::Multiplication => p_primary(ts, ps, i),
    }
}

/// An expression of level `l`: operands joined by the level's operators,
/// grouped to the left.
pub open spec fn p_level(ts: Seq<SToken>, ps: Seq<Position>, l: Level, i: int) -> Result<(SExpr, int), SParseError>
    decreases ts.len() - i, level_rank(l), 1nat,
{
    match p_operand(ts, ps, l, i) {
        Err(e) => Err(e),
        Ok((lhs, j)) => if i < j <= ts.len() {
            p_level_rest(ts, ps, l, lhs, j)
        } else {
            Err(stalled(ps, i))
        },
    }
}

/// The rest of an expression of level `l` whose first operands make `lhs`.
pub open spec fn p_level_rest(ts: Seq<SToken>, ps: Seq<Position>, l: Level, lhs: SExpr, j: int) -> Result<(SExpr, int), SParseError>
    decreases ts.len() - j, 0nat, 0nat,
{
    match level_op(l, ts[j]) {
        None => Ok((lhs, j)),
        Some(op) => if j + 1 <= ts.len() {
            match p_operand(ts, ps, l, j + 1) {
                Err(e) => Err(e),
                Ok((rhs, k)) => if j + 1 < k <= ts.len() {
                    p_level_rest(
                        ts,
                        ps,
                        l,
                        SExpr::Binary { left: Box::new(lhs), operator: op, right: Box::new(rhs) },
                        k,
                    )
                } else {
                    Err(stalled(ps, j))
                },
            }
        } else {
            Err(stalled(ps, j))
        },
    }
}

/// An expression: the loosest level, `||`.
pub open spec fn p_expression(ts: Seq<SToken>, ps: Seq<Position>, i: int) -> Result<(SExpr, int), SParseError>
    decreases ts.len() - i, 17nat, 0nat,
{
    p_level(ts, ps, Level::Or, i)
}

/// A primary expression: a literal, an identifier, `( expression )`, or
/// `- primary`, the negation, which is `0 - primary`.
pub open spec fn p_primary(ts: Seq<SToken>, ps: Seq<Position>, i: int) -> Result<(SExpr, int), SParseError>
    decreases ts.len() - i, 11nat, 0nat,
{
    match ts[i] {
        SToken::Number(n) => Ok((SExpr::Number(n), i + 1)),
        SToken::Str(s) => Ok((SExpr::Str(s), i + 1)),
        SToken::True => Ok((SExpr::Boolean(true), i + 1)),
        SToken::False => Ok((SExpr::Boolean(false), i + 1)),
        SToken::Identifier(name) => Ok((SExpr::Identifier(name), i + 1)),
        SToken::Minus => if i + 1 <= ts.len() {
            match p_primary(ts, ps, i + 1) {
                Err(e) => Err(e),
                Ok((operand, j)) => Ok((negation(operand), j)),
            }
        } else {
            Err(stalled(ps, i))
        },
        SToken::LeftParen => if i + 1 <= ts.len() {
            match p_expression(ts, ps, i + 1) {
                Err(e) => Err(e),
                Ok((e, j)) => if i + 1 < j <= ts.len() {
                    match expect_at(ts, ps, j, SToken::RightParen) {
                        Err(err) => Err(err),
                        Ok(k) => Ok((e, k)),
                    }
                } else {
                    Err(stalled(ps, i))
                },
            }
        } else {
            Err(stalled(ps, i))
        },
        _ => Err(SParseError::ExpectedExpression { pos: ps[i] }),
    }
}

/// The negation of `operand`: `0 - operand`.
pub open spec fn negation(operand: SExpr) -> SExpr {
    SExpr::Binary { left: Box::new(SExpr::Number(0)), operator: BinaryOp::Sub, right: Box::new(operand) }
}

/// `expression ;` following a statement head that ends at `i`, which
/// then makes statement `mk(expression)`.
pub open spec fn p_tail_expression_semicolon(ts: Seq<SToken>, ps: Seq<Position>, i: int) -> Result<(SExpr, int), SParseError>
    decreases ts.len() - i, 18nat, 0nat,
{
    match p_expression(ts, ps, i) {
        Err(e) => Err(e),
        Ok((e, j)) => if i < j <= ts.len() {
            match expect_at(ts, ps, j, SToken::Semicolon) {
                Err(err) => Err(err),
                Ok(k) => Ok((e, k)),
            }
        } else {
            Err(stalled(ps, i))
        },
    }
}

/// `let name = expression ;`
pub open spec fn p_let(ts: Seq<SToken>, ps: Seq<Position>, i: int) -> Result<(SStmt, int), SParseError>
    decreases ts.len() - i, 19nat, 0nat,
{
    match expect_at(ts, ps, i, SToken::Let) {
        Err(e) => Err(e),
        Ok(j) => match ts[j] {
            SToken::Identifier(name) => match expect_at(ts, ps, j + 1, SToken::Equal) {
                Err(e) => Err(e),
                Ok(k) => if k <= ts.len() {
                    match p_tail_expression_semicolon(ts, ps, k) {
                        Err(e) => Err(e),
                        Ok((value, m)) => Ok((SStmt::Let { name, value }, m)),
                    }
                } else {
                    Err(stalled(ps, i))
                },
            },
            _ => Err(SParseError::ExpectedIdentifier { pos: ps[j] }),
        },
    }
}

/// `name = expression ;`
pub open spec fn p_assignment(ts: Seq<SToken>, ps: Seq<Position>, i: int) -> Result<(SStmt, int), SParseError>
    decreases ts.len() - i, 19nat, 0nat,
{
    match ts[i] {
        SToken::Identifier(name) => match expect_at(ts, ps, i + 1, SToken::Equal) {
            Err(e) => Err(e),
            Ok(k) => if k <= ts.len() {
                match p_tail_expression_semicolon(ts, ps, k) {
                    Err(e) => Err(e),
                    Ok((value, m)) => Ok((SStmt::Assign { name, value }, m)),
                }
            } else {
                Err(stalled(ps, i))
            },
        },
        _ => Err(SParseError::ExpectedIdentifier { pos: ps[i] }),
    }
}

/// `print ( expression ) ;`
pub open spec fn p_print(ts: Seq<SToken>, ps: Seq<Position>, i: int) -> Result<(SStmt, int), SParseError>
    decreases ts.len() - i, 19nat, 0nat,
{
    match expect_at(ts, ps, i, SToken::Print) {
        Err(e) => Err(e),
        Ok(j) => match expect_at(ts, ps, j, SToken::LeftParen) {
            Err(e) => Err(e),
            Ok(k) => if k <= ts.len() {
                match p_expression(ts, ps, k) {
                    Err(e) => Err(e),
                    Ok((e, m)) => match expect_at(ts, ps, m, SToken::RightParen) {
                        Err(err) => Err(err),
                        Ok(n) => match expect_at(ts, ps, n, SToken::Semicolon) {
                            Err(err) => Err(err),
                            Ok(o) => Ok((SStmt::Print(e), o)),
                        },
                    },
                }
            } else {
                Err(stalled(ps, i))
            },
        },
    }
}

/// The statements of a block from offset `i` up to its `}` (or `Eof`).
pub open spec fn p_block_items(ts: Seq<SToken>, ps: Seq<Position>, i: int) -> Result<(Seq<SStmt>, int), SParseError>
    decreases ts.len() - i, 21nat, 0nat,
{
    if ts[i] == SToken::RightBrace || ts[i] == SToken::Eof {
        Ok((seq![], i))
    } else {
        match p_statement(ts, ps, i) {
            Err(e) => Err(e),
            Ok((s, j)) => if i < j <= ts.len() {
                match p_block_items(ts, ps, j) {
                    Err(e) => Err(e),
                    Ok((rest, k)) => Ok((seq![s] + rest, k)),
                }
            } else {
                Err(stalled(ps, i))
            },
        }
    }
}

/// `{ statements }`
pub open spec fn p_block(ts: Seq<SToken>, ps: Seq<Position>, i: int) -> Result<(SStmt, int), SParseError>
    decreases ts.len() - i, 19nat, 0nat,
{
    match expect_at(ts, ps, i, SToken::LeftBrace) {
        Err(e) => Err(e),
        Ok(j) => if j <= ts.len() {
            match p_block_items(ts, ps, j) {
                Err(e) => Err(e),
                Ok((items, k)) => match expect_at(ts, ps, k, SToken::RightBrace) {
                    Err(e) => Err(e),
                    Ok(m) => Ok((SStmt::Block(items), m)),
                },
            }
        } else {
            Err(stalled(ps, i))
        },
    }
}

/// `if expression statement [else statement]`
pub open spec fn p_if(ts: Seq<SToken>, ps: Seq<Position>, i: int) -> Result<(SStmt, int), SParseError>
    decreases ts.len() - i, 19nat, 0nat,
{
    match expect_at(ts, ps, i, SToken::If) {
        Err(e) => Err(e),
        Ok(j) => if j <= ts.len() {
            match p_expression(ts, ps, j) {
                Err(e) => Err(e),
                Ok((condition, k)) => if j < k <= ts.len() {
                    match p_statement(ts, ps, k) {
                        Err(e) => Err(e),
                        Ok((statement, m)) => if k < m <= ts.len() {
                            if ts[m] == SToken::Else && m + 1 <= ts.len() {
                                match p_statement(ts, ps, m + 1) {
                                    Err(e) => Err(e),
                                    Ok((other, n)) => Ok((
                                        SStmt::If {
                                            condition,
                                            statement: Box::new(statement),
                                            else_clause: Some(Box::new(other)),
                                        },
                                        n,
                                    )),
                                }
                            } else {
                                Ok((
                                    SStmt::If { condition, statement: Box::new(statement), else_clause: None },
                                    m,
                                ))
                            }
                        } else {
                            Err(stalled(ps, i))
                        },
                    }
                } else {
                    Err(stalled(ps, i))
                },
            }
        } else {
            Err(stalled(ps, i))
        },
    }
}

/// `while expression statement`
pub open spec fn p_while(ts: Seq<SToken>, ps: Seq<Position>, i: int) -> Result<(SStmt, int), SParseError>
    decreases ts.len() - i, 19nat, 0nat,
{
    match expect_at(ts, ps, i, SToken::While) {
        Err(e) => Err(e),
        Ok(j) => if j <= ts.len() {
            match p_expression(ts, ps, j) {
                Err(e) => Err(e),
                Ok((condition, k)) => if j < k <= ts.len() {
                    match p_statement(ts, ps, k) {
                        Err(e) => Err(e),
                        Ok((statement, m)) => Ok((SStmt::While { condition, statement: Box::new(statement) }, m)),
                    }
                } else {
                    Err(stalled(ps, i))
                },
            }
        } else {
            Err(stalled(ps, i))
        },
    }
}

/// A statement, chosen by its first token (and, for an identifier, by
/// whether `=` follows it); any other statement is `expression ;`.
pub open spec fn p_statement(ts: Seq<SToken>, ps: Seq<Position>, i: int) -> Result<(SStmt, int), SParseError>
    decreases ts.len() - i, 20nat, 0nat,
{
    match ts[i] {
        SToken::Let => p_let(ts, ps, i),
        SToken::Identifier(_) => if ts[i + 1] == SToken::Equal {
            p_assignment(ts, ps, i)
        } else {
            p_expression_statement(ts, ps, i)
        },
        SToken::LeftBrace => p_block(ts, ps, i),
        SToken::Print => p_print(ts, ps, i),
        SToken::If => p_if(ts, ps, i),
        SToken::While => p_while(ts, ps, i),
        _ => p_expression_statement(ts, ps, i),
    }
}

/// `expression ;`
pub open spec fn p_expression_statement(ts: Seq<SToken>, ps: Seq<Position>, i: int) -> Result<(SStmt, int), SParseError>
    decreases ts.len() - i, 19nat, 0nat,
{
    match p_tail_expression_semicolon(ts, ps, i) {
        Err(e) => Err(e),
        Ok((e, j)) => Ok((SStmt::Expression(e), j)),
    }
}

/// The top-level statements from offset `i` up to `Eof`.
pub open spec fn p_program_items(ts: Seq<SToken>, ps: Seq<Position>, i: int) -> Result<Seq<SStmt>, SParseError>
    decreases ts.len() - i, 22nat, 0nat,
{
    if ts[i] == SToken::Eof {
        Ok(seq![])
    } else {
        match p_statement(ts, ps, i) {
            Err(e) => Err(e),
            Ok((s, j)) => if i < j <= ts.len() {
                match p_program_items(ts, ps, j) {
                    Err(e) => Err(e),
                    Ok(rest) => Ok(seq![s] + rest),
                }
            } else {
                Err(stalled(ps, i))
            },
        }
    }
}

/// The program that the tokens (with their positions) make.
pub open spec fn parse_tokens(ts: Seq<SToken>, ps: Seq<Position>) -> Result<Seq<SStmt>, SParseError> {
    p_program_items(ts, ps, 0)
}

/// An `Eof` token stands at offset `i` or later.
pub open spec fn eof_ahead(ts: Seq<SToken>, i: int) -> bool {
    exists|e: int| i <= e < ts.len() && #[trigger] ts[e] == SToken::Eof
}

} // verus!

verus! {

/// The exec result `r`, with the parser's offset `cur` after it, is what
/// the grammar gives in `spec`.
pub open spec fn outcome<T: View>(spec: Result<(T::V, int), SParseError>, r: Result<T, ParseError>, cur: int) -> bool {
    match spec {
        Ok((v, j)) => r matches Ok(rv) && rv@ == v && cur == j,
        Err(e) => r matches Err(re) && re@ == e,
    }
}

/// `prefix` followed by the statements of `r`, or the error of `r`.
pub open spec fn prepend_items(prefix: Seq<SStmt>, r: Result<(Seq<SStmt>, int), SParseError>) -> Result<(Seq<SStmt>, int), SParseError> {
    match r {
        Ok((rest, k)) => Ok((prefix + rest, k)),
        Err(e) => Err(e),
    }
}

/// `prefix` followed by the statements of `r`, or the error of `r`.
pub open spec fn prepend_program(prefix: Seq<SStmt>, r: Result<Seq<SStmt>, SParseError>) -> Result<Seq<SStmt>, SParseError> {
    match r {
        Ok(rest) => Ok(prefix + rest),
        Err(e) => Err(e),
    }
}

/// A number for each kind of token, regardless of its contents.
pub open spec fn kind_of(t: SToken) -> u8 {
    match t {
        SToken::Number(_) => 0,
        SToken::Str(_) => 1,
        SToken::True => 2,
        SToken::False => 3,
        SToken::Identifier(_) => 4,
        SToken::Let => 5,
        SToken::Print => 6,
        SToken::If => 7,
        SToken::Else => 8,
        SToken::While => 9,
        SToken::Plus => 10,
        SToken::Minus => 11,
        SToken::Star => 12,
        SToken::Slash => 13,
        SToken::EqualEqual => 14,
        SToken::BangEqual => 15,
        SToken::Less => 16,
        SToken::LessEqual => 17,
        SToken::Greater => 18,
        SToken::GreaterEqual => 19,
        SToken::AndAnd => 20,
        SToken::OrOr => 21,
        SToken::Equal => 22,
        SToken::Semicolon => 23,
        SToken::LeftParen => 24,
        SToken::RightParen => 25,
        SToken::LeftBrace => 26,
        SToken::RightBrace => 27,
        SToken::Eof => 28,
    }
}

/// A token that carries nothing but its kind.
pub open spec fn is_bare(t: SToken) -> bool {
    !(t is Number || t is Str || t is Identifier)
}

fn token_kind(t: &Token) -> (k: u8)
    ensures
        k == kind_of(t@),
{
    match t {
        Token::Number(_) => 0,
        Token::String(_) => 1,
        Token::True => 2,
        Token::False => 3,
        Token::Identifier(_) => 4,
        Token::Let => 5,
        Token::Print => 6,
        Token::If => 7,
        Token::Else => 8,
        Token::While => 9,
        Token::Plus => 10,
        Token::Minus => 11,
        Token::Star => 12,
        Token::Slash => 13,
        Token::EqualEqual => 14,
        Token::BangEqual => 15,
        Token::Less => 16,
        Token::LessEqual => 17,
        Token::Greater => 18,
        Token::GreaterEqual => 19,
        Token::AndAnd => 20,
        Token::OrOr => 21,
        Token::Equal => 22,
        Token::Semicolon => 23,
        Token::LeftParen => 24,
        Token::RightParen => 25,
        Token::LeftBrace => 26,
        Token::RightBrace => 27,
        Token::Eof => 28,
    }
}

/// Whether `a` is the bare token `b`.
fn is_token(a: &Token, b: &Token) -> (r: bool)
    requires
        is_bare(b@),
    ensures
        r == (a@ == b@),
{
    token_kind(a) == token_kind(b)
}

/// Consumes a slice of tokens, with the position of each, and produces a
/// program.
pub struct Parser<'a, 'b> {
    tokens: &'b [Token<'a>],
    positions: &'b [Position],
    current: usize,
}

impl<'a, 'b> Parser<'a, 'b> {
    /// The tokens being parsed.
    pub closed spec fn toks(&self) -> Seq<SToken> {
        tokens_view(self.tokens@)
    }

    /// The position of each token.
    pub closed spec fn poss(&self) -> Seq<Position> {
        self.positions@
    }

    /// The offset of the next token to read.
    pub closed spec fn offset(&self) -> int {
        self.current as int
    }

    /// There is a position for each token, and an `Eof` token stands at or
    /// after the offset.
    pub closed spec fn wf(&self) -> bool {
        &&& self.positions@.len() == self.tokens@.len()
        &&& eof_ahead(self.toks(), self.current as int)
    }

    /// The parser state is well formed, over the same tokens as `other`.
    pub closed spec fn same_input(&self, other: &Self) -> bool {
        &&& self.wf()
        &&& self.tokens == other.tokens
        &&& self.positions == other.positions
    }

    /// A parser at the start of `tokens`, where `positions[i]` is the
    /// position of `tokens[i]`.
    pub fn new(tokens: &'b [Token<'a>], positions: &'b [Position]) -> (p: Self)
        requires
            tokens@.len() == positions@.len(),
        ensures
            p.toks() == tokens_view(tokens@),
            p.poss() == positions@,
            p.offset() == 0,
            eof_ahead(tokens_view(tokens@), 0) ==> p.wf(),
    {
        Parser { tokens, positions, current: 0 }
    }

    /// Parses the tokens up to `Token::Eof` into a program.
    pub fn parse(&mut self) -> (r: Result<Program<'a>, ParseError>)
        requires
            old(self).wf(),
        ensures
            final(self).toks() == old(self).toks(),
            final(self).poss() == old(self).poss(),
            match p_program_items(old(self).toks(), old(self).poss(), old(self).offset()) {
                Ok(ss) => r matches Ok(p) && p@ == ss,
                Err(e) => r matches Err(re) && re@ == e,
            },
    {
        let ghost ts = self.toks();
        let ghost ps = self.poss();
        let ghost start = self.current as int;
        let mut statements: Vec<Statement<'a>> = Vec::new();
        loop
            invariant
                self.same_input(old(self)),
                ts == old(self).toks(),
                ps == old(self).poss(),
                start == old(self).offset(),
                ts == self.toks(),
                ps == self.poss(),
                p_program_items(ts, ps, start) == prepend_program(
                    stmts_view(statements@),
                    p_program_items(ts, ps, self.current as int),
                ),
            decreases self.tokens@.len() - self.current,
        {
            let t = self.peek();
            if is_token(&t, &Token::Eof) {
                assert(stmts_view(statements@) + seq![] =~= stmts_view(statements@));
                return Ok(Program { statements });
            }
            let ghost before = self.current as int;
            let ghost old_statements = statements@;
            match self.parse_statement() {
                Ok(s) => {
                    statements.push(s);
                    proof {
                        lemma_stmts_view_push(old_statements, s);
                        match p_program_items(ts, ps, self.current as int) {
                            Ok(rest) => {
                                assert(stmts_view(old_statements) + (seq![s@] + rest)
                                    =~= stmts_view(statements@) + rest);
                            },
                            Err(e) => {},
                        }
                    }
                },
                Err(e) => {
                    return Err(e);
                },
            }
        }
    }

    /// The token at the offset.
    fn peek(&self) -> (t: Token<'a>)
        requires
            self.wf(),
        ensures
            t@ == self.toks()[self.current as int],
            self.current < self.tokens@.len(),
    {
        self.tokens[self.current]
    }

    /// The token just after the offset, where the token at the offset is
    /// not `Eof`.
    fn peek_next(&self) -> (t: Token<'a>)
        requires
            self.wf(),
            self.toks()[self.current as int] != SToken::Eof,
        ensures
            t@ == self.toks()[self.current + 1],
    {
        proof {
            assert(eof_ahead(self.toks(), self.current as int));
            let e = choose|e: int| self.current <= e < self.toks().len() && #[trigger] self.toks()[e] == SToken::Eof;
            assert(self.toks()[e] == SToken::Eof);
            assert(e != self.current);
        }
        let n = self.tokens.len();
        assert(self.current + 1 < n);
        self.tokens[self.current + 1]
    }

    /// The position of the token at the offset.
    fn current_pos(&self) -> (p: Position)
        requires
            self.wf(),
        ensures
            p == self.poss()[self.current as int],
    {
        self.positions[self.current]
    }

    /// Moves past the token at the offset, which is not `Eof`.
    fn advance(&mut self)
        requires
            old(self).wf(),
            old(self).toks()[old(self).current as int] != SToken::Eof,
        ensures
            final(self).same_input(old(self)),
            final(self).current == old(self).current + 1,
    {
        proof {
            assert(eof_ahead(self.toks(), self.current as int));
            let e = choose|e: int| self.current <= e < self.toks().len() && #[trigger] self.toks()[e] == SToken::Eof;
            assert(self.toks()[e] == SToken::Eof);
            assert(e != self.current);
            assert(eof_ahead(self.toks(), self.current + 1));
        }
        let n = self.tokens.len();
        assert(self.current < n);
        self.current = self.current + 1;
    }

    /// Consumes the bare token `expected` at the offset.
    fn expect(&mut self, expected: Token<'a>) -> (r: Result<(), ParseError>)
        requires
            old(self).wf(),
            is_bare(expected@),
            expected@ != SToken::Eof,
        ensures
            final(self).same_input(old(self)),
            match expect_at(old(self).toks(), old(self).poss(), old(self).current as int, expected@) {
                Ok(j) => r is Ok && final(self).current == j,
                Err(e) => r matches Err(re) && re@ == e,
            },
    {
        let t = self.peek();
        if is_token(&t, &expected) {
            self.advance();
            Ok(())
        } else {
            Err(ParseError::UnexpectedToken {
                expected: expected.to_string(),
                found: t.to_string(),
                pos: self.current_pos(),
            })
        }
    }

    /// Consumes an identifier at the offset and gives its name.
    fn expect_identifier(&mut self) -> (r: Result<&'a [u8], ParseError>)
        requires
            old(self).wf(),
        ensures
            final(self).same_input(old(self)),
            match old(self).toks()[old(self).current as int] {
                SToken::Identifier(name) => r matches Ok(n) && n@ == name
                    && final(self).current == old(self).current + 1,
                _ => r matches Err(re) && re@ == SParseError::ExpectedIdentifier {
                    pos: old(self).poss()[old(self).current as int],
                },
            },
    {
        match self.peek() {
            Token::Identifier(name) => {
                self.advance();
                Ok(name)
            },
            _ => Err(ParseError::ExpectedIdentifier { pos: self.current_pos() }),
        }
    }
}

} // verus!

verus! {

impl<'a, 'b> Parser<'a, 'b> {
    /// Parses a statement, chosen by the token at the offset; telling an
    /// assignment `x = 1;` from an expression statement `x;` takes one
    /// token of lookahead.
    fn parse_statement(&mut self) -> (r: Result<Statement<'a>, ParseError>)
        requires
            old(self).wf(),
        ensures
            final(self).same_input(old(self)),
            outcome(p_statement(old(self).toks(), old(self).poss(), old(self).current as int), r, final(self).current as int),
            r is Ok ==> final(self).current > old(self).current,
        decreases old(self).tokens@.len() - old(self).current, 20nat, 0nat,
    {
        let t = self.peek();
        match t {
            Token::Let => self.parse_let(),
            Token::Identifier(_) => {
                let next = self.peek_next();
                if is_token(&next, &Token::Equal) {
                    self.parse_assignment()
                } else {
                    self.parse_expression_statement()
                }
            },
            Token::LeftBrace => self.parse_block(),
            Token::Print => self.parse_print(),
            Token::If => self.parse_if(),
            Token::While => self.parse_while(),
            _ => self.parse_expression_statement(),
        }
    }

    /// Parses `let name = expression ;`.
    fn parse_let(&mut self) -> (r: Result<Statement<'a>, ParseError>)
        requires
            old(self).wf(),
        ensures
            final(self).same_input(old(self)),
            outcome(p_let(old(self).toks(), old(self).poss(), old(self).current as int), r, final(self).current as int),
            r is Ok ==> final(self).current > old(self).current,
        decreases old(self).tokens@.len() - old(self).current, 19nat, 0nat,
    {
        self.expect(Token::Let)?;
        let name = self.expect_identifier()?;
        self.expect(Token::Equal)?;
        let value = self.parse_expression()?;
        self.expect(Token::Semicolon)?;
        Ok(Statement::Let { name, value })
    }

    /// Parses `name = expression ;`, where the offset holds an identifier.
    fn parse_assignment(&mut self) -> (r: Result<Statement<'a>, ParseError>)
        requires
            old(self).wf(),
        ensures
            final(self).same_input(old(self)),
            outcome(p_assignment(old(self).toks(), old(self).poss(), old(self).current as int), r, final(self).current as int),
            r is Ok ==> final(self).current > old(self).current,
        decreases old(self).tokens@.len() - old(self).current, 19nat, 0nat,
    {
        let name = self.expect_identifier()?;
        self.expect(Token::Equal)?;
        let value = self.parse_expression()?;
        self.expect(Token::Semicolon)?;
        Ok(Statement::Assign { name, value })
    }

    /// Parses `print ( expression ) ;`.
    fn parse_print(&mut self) -> (r: Result<Statement<'a>, ParseError>)
        requires
            old(self).wf(),
        ensures
            final(self).same_input(old(self)),
            outcome(p_print(old(self).toks(), old(self).poss(), old(self).current as int), r, final(self).current as int),
            r is Ok ==> final(self).current > old(self).current,
        decreases old(self).tokens@.len() - old(self).current, 19nat, 0nat,
    {
        self.expect(Token::Print)?;
        self.expect(Token::LeftParen)?;
        let expr = self.parse_expression()?;
        self.expect(Token::RightParen)?;
        self.expect(Token::Semicolon)?;
        Ok(Statement::Print(expr))
    }

    /// Parses `{ statements }`; the statements run up to `}`, or to `Eof`,
    /// where the closing brace is then reported missing.
    fn parse_block(&mut self) -> (r: Result<Statement<'a>, ParseError>)
        requires
            old(self).wf(),
        ensures
            final(self).same_input(old(self)),
            outcome(p_block(old(self).toks(), old(self).poss(), old(self).current as int), r, final(self).current as int),
            r is Ok ==> final(self).current > old(self).current,
        decreases old(self).tokens@.len() - old(self).current, 19nat, 0nat,
    {
        let ghost ts = self.toks();
        let ghost ps = self.poss();
        self.expect(Token::LeftBrace)?;
        let ghost first = self.current as int;
        let mut statements: Vec<Statement<'a>> = Vec::new();
        loop
            invariant
                self.same_input(old(self)),
                ts == old(self).toks(),
                ps == old(self).poss(),
                ts == self.toks(),
                ps == self.poss(),
                first == old(self).current + 1,
                first <= self.current,
                expect_at(ts, ps, old(self).current as int, SToken::LeftBrace) == Ok::<int, SParseError>(first),
                p_block_items(ts, ps, first) == prepend_items(
                    stmts_view(statements@),
                    p_block_items(ts, ps, self.current as int),
                ),
            ensures
                self.same_input(old(self)),
                ts == self.toks(),
                ps == self.poss(),
                first <= self.current,
                p_block_items(ts, ps, first) == Ok::<(Seq<SStmt>, int), SParseError>(
                    (stmts_view(statements@), self.current as int),
                ),
            decreases self.tokens@.len() - self.current,
        {
            let t = self.peek();
            if is_token(&t, &Token::RightBrace) || is_token(&t, &Token::Eof) {
                assert(stmts_view(statements@) + seq![] =~= stmts_view(statements@));
                assert(p_block_items(ts, ps, self.current as int)
                    == Ok::<(Seq<SStmt>, int), SParseError>((seq![], self.current as int)));
                break;
            }
            let ghost old_statements = statements@;
            let ghost before = self.current as int;
            let s = match self.parse_statement() {
                Ok(s) => s,
                Err(e) => {
                    assert(p_block_items(ts, ps, before) == Err::<(Seq<SStmt>, int), SParseError>(e@));
                    return Err(e);
                },
            };
            statements.push(s);
            proof {
                lemma_stmts_view_push(old_statements, s);
                match p_block_items(ts, ps, self.current as int) {
                    Ok((rest, k)) => {
                        assert(stmts_view(old_statements) + (seq![s@] + rest) =~= stmts_view(statements@) + rest);
                    },
                    Err(e) => {},
                }
            }
        }
        assert(p_block_items(ts, ps, first)
            == Ok::<(Seq<SStmt>, int), SParseError>((stmts_view(statements@), self.current as int)));
        self.expect(Token::RightBrace)?;
        Ok(Statement::Block(statements))
    }

    /// Parses `if expression statement [else statement]`.
    fn parse_if(&mut self) -> (r: Result<Statement<'a>, ParseError>)
        requires
            old(self).wf(),
        ensures
            final(self).same_input(old(self)),
            outcome(p_if(old(self).toks(), old(self).poss(), old(self).current as int), r, final(self).current as int),
            r is Ok ==> final(self).current > old(self).current,
        decreases old(self).tokens@.len() - old(self).current, 19nat, 0nat,
    {
        self.expect(Token::If)?;
        let condition = self.parse_expression()?;
        let statement = Box::new(self.parse_statement()?);
        let mut else_clause = None;
        let t = self.peek();
        if is_token(&t, &Token::Else) {
            self.advance();
            else_clause = Some(Box::new(self.parse_statement()?));
        }
        Ok(Statement::If { condition, statement, else_clause })
    }

    /// Parses `while expression statement`.
    fn parse_while(&mut self) -> (r: Result<Statement<'a>, ParseError>)
        requires
            old(self).wf(),
        ensures
            final(self).same_input(old(self)),
            outcome(p_while(old(self).toks(), old(self).poss(), old(self).current as int), r, final(self).current as int),
            r is Ok ==> final(self).current > old(self).current,
        decreases old(self).tokens@.len() - old(self).current, 19nat, 0nat,
    {
        self.expect(Token::While)?;
        let condition = self.parse_expression()?;
        let statement = Box::new(self.parse_statement()?);
        Ok(Statement::While { condition, statement })
    }

    /// Parses `expression ;`.
    fn parse_expression_statement(&mut self) -> (r: Result<Statement<'a>, ParseError>)
        requires
            old(self).wf(),
        ensures
            final(self).same_input(old(self)),
            outcome(p_expression_statement(old(self).toks(), old(self).poss(), old(self).current as int), r, final(self).current as int),
            r is Ok ==> final(self).current > old(self).current,
        decreases old(self).tokens@.len() - old(self).current, 19nat, 0nat,
    {
        let expr = self.parse_expression()?;
        self.expect(Token::Semicolon)?;
        Ok(Statement::Expression(expr))
    }

    /// Parses an expression, starting at the loosest level.
    fn parse_expression(&mut self) -> (r: Result<Expr<'a>, ParseError>)
        requires
            old(self).wf(),
        ensures
            final(self).same_input(old(self)),
            outcome(p_expression(old(self).toks(), old(self).poss(), old(self).current as int), r, final(self).current as int),
            r is Ok ==> final(self).current > old(self).current,
        decreases old(self).tokens@.len() - old(self).current, 17nat, 0nat,
    {
        self.parse_or()
    }

    /// Parses `||` expressions.
    fn parse_or(&mut self) -> (r: Result<Expr<'a>, ParseError>)
        requires
            old(self).wf(),
        ensures
            final(self).same_input(old(self)),
            outcome(p_level(old(self).toks(), old(self).poss(), Level::Or, old(self).current as int), r, final(self).current as int),
            r is Ok ==> final(self).current > old(self).current,
        decreases old(self).tokens@.len() - old(self).current, 16nat, 1nat,
    {
        let ghost ts = self.toks();
        let ghost ps = self.poss();
        let ghost start = self.current as int;
        proof {
            assert(p_operand(ts, ps, Level::Or, start) == p_level(ts, ps, Level::And, start));
        }
        let mut expr = self.parse_and()?;
        loop
            invariant
                self.same_input(old(self)),
                ts == old(self).toks(),
                ps == old(self).poss(),
                ts == self.toks(),
                ps == self.poss(),
                start == old(self).current,
                start < self.current,
                p_level(ts, ps, Level::Or, start) == p_level_rest(ts, ps, Level::Or, expr@, self.current as int),
            ensures
                self.same_input(old(self)),
                start < self.current,
                p_level(ts, ps, Level::Or, start) == Ok::<(SExpr, int), SParseError>((expr@, self.current as int)),
            decreases self.tokens@.len() - self.current,
        {
            let t = self.peek();
            if !is_token(&t, &Token::OrOr) {
                break;
            }
            let ghost j = self.current as int;
            self.advance();
            proof {
                assert(p_operand(ts, ps, Level::Or, j + 1) == p_level(ts, ps, Level::And, j + 1));
            }
            let rhs = self.parse_and()?;
            expr = Expr::Binary { left: Box::new(expr), operator: BinaryOp::Or, right: Box::new(rhs) };
        }
        Ok(expr)
    }

    /// Parses `&&` expressions.
    fn parse_and(&mut self) -> (r: Result<Expr<'a>, ParseError>)
        requires
            old(self).wf(),
        ensures
            final(self).same_input(old(self)),
            outcome(p_level(old(self).toks(), old(self).poss(), Level::And, old(self).current as int), r, final(self).current as int),
            r is Ok ==> final(self).current > old(self).current,
        decreases old(self).tokens@.len() - old(self).current, 15nat, 1nat,
    {
        let ghost ts = self.toks();
        let ghost ps = self.poss();
        let ghost start = self.current as int;
        proof {
            assert(p_operand(ts, ps, Level::And, start) == p_level(ts, ps, Level::Comparison, start));
        }
        let mut expr = self.parse_comparison()?;
        loop
            invariant
                self.same_input(old(self)),
                ts == old(self).toks(),
                ps == old(self).poss(),
                ts == self.toks(),
                ps == self.poss(),
                start == old(self).current,
                start < self.current,
                p_level(ts, ps, Level::And, start) == p_level_rest(ts, ps, Level::And, expr@, self.current as int),
            ensures
                self.same_input(old(self)),
                start < self.current,
                p_level(ts, ps, Level::And, start) == Ok::<(SExpr, int), SParseError>((expr@, self.current as int)),
            decreases self.tokens@.len() - self.current,
        {
            let t = self.peek();
            if !is_token(&t, &Token::AndAnd) {
                break;
            }
            let ghost j = self.current as int;
            self.advance();
            proof {
                assert(p_operand(ts, ps, Level::And, j + 1) == p_level(ts, ps, Level::Comparison, j + 1));
            }
            let rhs = self.parse_comparison()?;
            expr = Expr::Binary { left: Box::new(expr), operator: BinaryOp::And, right: Box::new(rhs) };
        }
        Ok(expr)
    }

    /// Parses comparisons (`< <= > >= == !=`), all of one precedence, so
    /// that `a < b < c` is `(a < b) < c`.
    fn parse_comparison(&mut self) -> (r: Result<Expr<'a>, ParseError>)
        requires
            old(self).wf(),
        ensures
            final(self).same_input(old(self)),
            outcome(p_level(old(self).toks(), old(self).poss(), Level::Comparison, old(self).current as int), r, final(self).current as int),
            r is Ok ==> final(self).current > old(self).current,
        decreases old(self).tokens@.len() - old(self).current, 14nat, 1nat,
    {
        let ghost ts = self.toks();
        let ghost ps = self.poss();
        let ghost start = self.current as int;
        proof {
            assert(p_operand(ts, ps, Level::Comparison, start) == p_level(ts, ps, Level::Addition, start));
        }
        let mut expr = self.parse_addition()?;
        loop
            invariant
                self.same_input(old(self)),
                ts == old(self).toks(),
                ps == old(self).poss(),
                ts == self.toks(),
                ps == self.poss(),
                start == old(self).current,
                start < self.current,
                p_level(ts, ps, Level::Comparison, start) == p_level_rest(ts, ps, Level::Comparison, expr@, self.current as int),
            ensures
                self.same_input(old(self)),
                start < self.current,
                p_level(ts, ps, Level::Comparison, start) == Ok::<(SExpr, int), SParseError>((expr@, self.current as int)),
            decreases self.tokens@.len() - self.current,
        {
            let op = match self.peek() {
                Token::Less => BinaryOp::Less,
                Token::LessEqual => BinaryOp::LessEqual,
                Token::Greater => BinaryOp::Greater,
                Token::GreaterEqual => BinaryOp::GreaterEqual,
                Token::EqualEqual => BinaryOp::Equal,
                Token::BangEqual => BinaryOp::NotEqual,
                _ => break,
            };
            let ghost j = self.current as int;
            self.advance();
            proof {
                assert(p_operand(ts, ps, Level::Comparison, j + 1) == p_level(ts, ps, Level::Addition, j + 1));
            }
            let rhs = self.parse_addition()?;
            expr = Expr::Binary { left: Box::new(expr), operator: op, right: Box::new(rhs) };
        }
        Ok(expr)
    }

    /// Parses `+` and `-` expressions.
    fn parse_addition(&mut self) -> (r: Result<Expr<'a>, ParseError>)
        requires
            old(self).wf(),
        ensures
            final(self).same_input(old(self)),
            outcome(p_level(old(self).toks(), old(self).poss(), Level::Addition, old(self).current as int), r, final(self).current as int),
            r is Ok ==> final(self).current > old(self).current,
        decreases old(self).tokens@.len() - old(self).current, 13nat, 1nat,
    {
        let ghost ts = self.toks();
        let ghost ps = self.poss();
        let ghost start = self.current as int;
        proof {
            assert(p_operand(ts, ps, Level::Addition, start) == p_level(ts, ps, Level::Multiplication, start));
        }
        let mut expr = self.parse_multiplication()?;
        loop
            invariant
                self.same_input(old(self)),
                ts == old(self).toks(),
                ps == old(self).poss(),
                ts == self.toks(),
                ps == self.poss(),
                start == old(self).current,
                start < self.current,
                p_level(ts, ps, Level::Addition, start) == p_level_rest(ts, ps, Level::Addition, expr@, self.current as int),
            ensures
                self.same_input(old(self)),
                start < self.current,
                p_level(ts, ps, Level::Addition, start) == Ok::<(SExpr, int), SParseError>((expr@, self.current as int)),
            decreases self.tokens@.len() - self.current,
        {
            let op = match self.peek() {
                Token::Plus => BinaryOp::Add,
                Token::Minus => BinaryOp::Sub,
                _ => break,
            };
            let ghost j = self.current as int;
            self.advance();
            proof {
                assert(p_operand(ts, ps, Level::Addition, j + 1) == p_level(ts, ps, Level::Multiplication, j + 1));
            }
            let rhs = self.parse_multiplication()?;
            expr = Expr::Binary { left: Box::new(expr), operator: op, right: Box::new(rhs) };
        }
        Ok(expr)
    }

    /// Parses `*` and `/` expressions.
    fn parse_multiplication(&mut self) -> (r: Result<Expr<'a>, ParseError>)
        requires
            old(self).wf(),
        ensures
            final(self).same_input(old(self)),
            outcome(p_level(old(self).toks(), old(self).poss(), Level::Multiplication, old(self).current as int), r, final(self).current as int),
            r is Ok ==> final(self).current > old(self).current,
        decreases old(self).tokens@.len() - old(self).current, 12nat, 1nat,
    {
        let ghost ts = self.toks();
        let ghost ps = self.poss();
        let ghost start = self.current as int;
        proof {
            assert(p_operand(ts, ps, Level::Multiplication, start) == p_primary(ts, ps, start));
        }
        let mut expr = self.parse_primary()?;
        loop
            invariant
                self.same_input(old(self)),
                ts == old(self).toks(),
                ps == old(self).poss(),
                ts == self.toks(),
                ps == self.poss(),
                start == old(self).current,
                start < self.current,
                p_level(ts, ps, Level::Multiplication, start) == p_level_rest(ts, ps, Level::Multiplication, expr@, self.current as int),
            ensures
                self.same_input(old(self)),
                start < self.current,
                p_level(ts, ps, Level::Multiplication, start) == Ok::<(SExpr, int), SParseError>((expr@, self.current as int)),
            decreases self.tokens@.len() - self.current,
        {
            let op = match self.peek() {
                Token::Star => BinaryOp::Mul,
                Token::Slash => BinaryOp::Div,
                _ => break,
            };
            let ghost j = self.current as int;
            self.advance();
            proof {
                assert(p_operand(ts, ps, Level::Multiplication, j + 1) == p_primary(ts, ps, j + 1));
            }
            let rhs = self.parse_primary()?;
            expr = Expr::Binary { left: Box::new(expr), operator: op, right: Box::new(rhs) };
        }
        Ok(expr)
    }

    /// Parses a literal, an identifier or a parenthesized expression.
    fn parse_primary(&mut self) -> (r: Result<Expr<'a>, ParseError>)
        requires
            old(self).wf(),
        ensures
            final(self).same_input(old(self)),
            outcome(p_primary(old(self).toks(), old(self).poss(), old(self).current as int), r, final(self).current as int),
            r is Ok ==> final(self).current > old(self).current,
        decreases old(self).tokens@.len() - old(self).current, 11nat, 0nat,
    {
        match self.peek() {
            Token::Number(n) => {
                self.advance();
                Ok(Expr::Number(n))
            },
            Token::String(s) => {
                self.advance();
                Ok(Expr::String(s))
            },
            Token::True => {
                self.advance();
                Ok(Expr::Boolean(true))
            },
            Token::False => {
                self.advance();
                Ok(Expr::Boolean(false))
            },
            Token::Identifier(name) => {
                self.advance();
                Ok(Expr::Identifier(name))
            },
            Token::Minus => {
                // Negation binds tighter than any binary operator.
                self.advance();
                let operand = self.parse_primary()?;
                let zero = Expr::Number(0);
                assert(zero.view_expr() == SExpr::Number(0));
                let negated = Expr::Binary { left: Box::new(zero), operator: BinaryOp::Sub, right: Box::new(operand) };
                assert(negated.view_expr() == SExpr::Binary {
                    left: Box::new(zero.view_expr()),
                    operator: BinaryOp::Sub,
                    right: Box::new(operand.view_expr()),
                });
                Ok(negated)
            },
            Token::LeftParen => {
                self.advance();
                // Anything can stand inside `( ... )`: back to the loosest level.
                let expr = self.parse_expression()?;
                self.expect(Token::RightParen)?;
                Ok(expr)
            },
            _ => Err(ParseError::ExpectedExpression { pos: self.current_pos() }),
        }
    }
}

} // verus!
