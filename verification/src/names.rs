//! Variable names that come from source text are ASCII: the lexer makes
//! identifiers of letters, digits and `_` only, the parser takes every name
//! from an identifier token, and the analysis reports only names of the
//! program. So the names in checking errors are valid UTF-8.
use vstd::prelude::*;
use vstd::utf8::{valid_utf8, partial_valid_utf8, partial_valid_utf8_extend_ascii_block, is_leading_byte_width_1};
use crate::ast::{SExpr, SStmt};
use crate::lexer::{
    ByteClass, Position, SToken, in_class, lex_from, lemma_scan_end, scan_end, token_at, word_token,
};
use crate::parser::{
    Level, level_op, level_rank, expect_at, p_operand, p_level, p_level_rest, p_expression, p_primary,
    p_tail_expression_semicolon, p_let, p_assignment, p_print, p_block_items, p_block, p_if, p_while,
    p_statement, p_expression_statement, p_program_items, parse_tokens,
};
use crate::sema::{TypeEnv, check_branch, check_expr, check_stmt, check_stmts, printable};

verus! {

/// Every byte of `n` is ASCII.
pub open spec fn ascii(n: Seq<u8>) -> bool {
    forall|k: int| 0 <= k < n.len() ==> #[trigger] n[k] < 128
}

/// ASCII bytes are valid UTF-8.
pub proof fn lemma_ascii_valid_utf8(n: Seq<u8>)
    requires
        ascii(n),
    ensures
        valid_utf8(n),
{
    assert(n.subrange(0, 0) =~= Seq::<u8>::empty());
    assert(partial_valid_utf8(n, 0));
    assert forall|i: int| 0 <= 0 <= i < n.len() <= n.len() implies #[trigger] is_leading_byte_width_1(n[i]) by {
        assert(n[i] < 128);
    }
    partial_valid_utf8_extend_ascii_block(n, 0, n.len() as int);
    assert(n.subrange(0, n.len() as int) =~= n);
}

/// The names in an expression are ASCII.
pub open spec fn expr_ascii(e: SExpr) -> bool
    decreases e,
{
    match e {
        SExpr::Identifier(n) => ascii(n),
        SExpr::Binary { left, right, .. } => expr_ascii(*left) && expr_ascii(*right),
        _ => true,
    }
}

/// The names in a statement, and in the statements it holds, are ASCII.
pub open spec fn stmt_ascii(s: SStmt) -> bool
    decreases s, 1nat,
{
    match s {
        SStmt::Let { name, value } => ascii(name) && expr_ascii(value),
        SStmt::Assign { name, value } => ascii(name) && expr_ascii(value),
        SStmt::Print(e) => expr_ascii(e),
        SStmt::Expression(e) => expr_ascii(e),
        SStmt::Block(ss) => stmts_ascii(ss),
        SStmt::If { condition, statement, else_clause } => {
            &&& expr_ascii(condition)
            &&& stmt_ascii(*statement)
            &&& match else_clause {
                Some(other) => stmt_ascii(*other),
                None => true,
            }
        },
        SStmt::While { condition, statement } => expr_ascii(condition) && stmt_ascii(*statement),
    }
}

/// The names in each of the statements are ASCII.
pub open spec fn stmts_ascii(ss: Seq<SStmt>) -> bool
    decreases ss, 0nat,
{
    forall|k: int| 0 <= k < ss.len() ==> stmt_ascii(#[trigger] ss[k])
}

/// An identifier token has an ASCII name.
pub open spec fn token_ascii(t: SToken) -> bool {
    match t {
        SToken::Identifier(n) => ascii(n),
        _ => true,
    }
}

/// Every identifier token has an ASCII name.
pub open spec fn tokens_ascii(ts: Seq<SToken>) -> bool {
    forall|k: int| 0 <= k < ts.len() ==> token_ascii(#[trigger] ts[k])
}

// ---------------------------------------------------------------------------
// The lexer makes ASCII identifiers.
// ---------------------------------------------------------------------------

proof fn lemma_token_at_ascii(s: Seq<u8>, j: int)
    requires
        0 <= j <= s.len(),
    ensures
        token_at(s, j) matches Ok((t, _)) ==> token_ascii(t),
{
    if j < s.len() && !(48 <= s[j] <= 57) && ((65 <= s[j] <= 90) || (97 <= s[j] <= 122) || s[j] == 95) {
        let k = scan_end(s, j, ByteClass::IdentChar);
        lemma_scan_end(s, j, ByteClass::IdentChar);
        let w = s.subrange(j, k);
        assert forall|m: int| 0 <= m < w.len() implies #[trigger] w[m] < 128 by {
            assert(in_class(ByteClass::IdentChar, s[j + m]));
        }
        assert(token_ascii(word_token(w)));
    }
}

/// Every identifier that lexing from offset `i` makes has an ASCII name.
pub proof fn lemma_lex_from_ascii(s: Seq<u8>, i: int)
    requires
        0 <= i <= s.len(),
    ensures
        lex_from(s, i) matches Ok(toks) ==> forall|k: int| 0 <= k < toks.len() ==> token_ascii(#[trigger] toks[k].0),
    decreases s.len() - i,
{
    let j = scan_end(s, i, ByteClass::Space);
    lemma_scan_end(s, i, ByteClass::Space);
    lemma_token_at_ascii(s, j);
    if let Ok((t, k)) = token_at(s, j) {
        if !(t is Eof) && i < k <= s.len() {
            lemma_lex_from_ascii(s, k);
            if let Ok(rest) = lex_from(s, k) {
                let all = seq![(t, crate::lexer::position_at(s, j))] + rest;
                assert forall|m: int| 0 <= m < all.len() implies token_ascii(#[trigger] all[m].0) by {
                    if m > 0 {
                        assert(all[m] == rest[m - 1]);
                    }
                }
            }
        }
    }
}

// ---------------------------------------------------------------------------
// The analysis reports only names of the program.
// ---------------------------------------------------------------------------

proof fn lemma_check_expr_printable(env: TypeEnv, e: SExpr)
    requires
        expr_ascii(e),
    ensures
        check_expr(env, e) matches Err(err) ==> printable(err),
    decreases e,
{
    match e {
        SExpr::Identifier(n) => {
            lemma_ascii_valid_utf8(n);
        },
        SExpr::Binary { left, right, .. } => {
            lemma_check_expr_printable(env, *left);
            lemma_check_expr_printable(env, *right);
        },
        _ => {},
    }
}

proof fn lemma_check_stmt_printable(env: TypeEnv, s: SStmt, base: int)
    requires
        stmt_ascii(s),
    ensures
        check_stmt(env, s, base).1 matches Err(err) ==> printable(err),
    decreases s, 0nat,
{
    match s {
        SStmt::Let { name, value } => {
            lemma_check_expr_printable(env, value);
            lemma_ascii_valid_utf8(name);
        },
        SStmt::Assign { name, value } => {
            lemma_check_expr_printable(env, value);
            lemma_ascii_valid_utf8(name);
        },
        SStmt::Print(e) => {
            lemma_check_expr_printable(env, e);
        },
        SStmt::Expression(e) => {
            lemma_check_expr_printable(env, e);
        },
        SStmt::Block(ss) => {
            lemma_check_stmts_printable(env.push(Map::empty()), ss, base);
        },
        SStmt::If { condition, statement, else_clause } => {
            lemma_check_expr_printable(env, condition);
            lemma_check_branch_printable(env, *statement);
            if let Some(other) = else_clause {
                lemma_check_branch_printable(env, *other);
            }
        },
        SStmt::While { condition, statement } => {
            lemma_check_expr_printable(env, condition);
            lemma_check_branch_printable(env, *statement);
        },
    }
}

proof fn lemma_check_branch_printable(env: TypeEnv, s: SStmt)
    requires
        stmt_ascii(s),
    ensures
        check_branch(env, s).1 matches Err(err) ==> printable(err),
    decreases s, 1nat,
{
    if let SStmt::Let { name, value } = s {
        lemma_check_expr_printable(env, value);
        lemma_ascii_valid_utf8(name);
    } else {
        lemma_check_stmt_printable(env, s, env.len() as int);
    }
}

/// Checking statements whose names are ASCII fails, if it does, with a
/// printable error.
pub proof fn lemma_check_stmts_printable(env: TypeEnv, ss: Seq<SStmt>, base: int)
    requires
        stmts_ascii(ss),
    ensures
        check_stmts(env, ss, base).1 matches Err(err) ==> printable(err),
    decreases ss, 0nat,
{
    if ss.len() > 0 {
        assert(stmts_ascii(ss.drop_last())) by {
            assert forall|k: int| 0 <= k < ss.drop_last().len() implies stmt_ascii(#[trigger] ss.drop_last()[k]) by {
                assert(ss.drop_last()[k] == ss[k]);
            }
        }
        lemma_check_stmts_printable(env, ss.drop_last(), base);
        let (mid, r) = check_stmts(env, ss.drop_last(), base);
        assert(stmt_ascii(ss[ss.len() - 1]));
        lemma_check_stmt_printable(mid, ss.last(), base);
    }
}

// ---------------------------------------------------------------------------
// The parser takes every name from an identifier token.
// ---------------------------------------------------------------------------

/// What the parsing lemmas assume: identifier tokens are ASCII, and an
/// `Eof` token stands at `e`, at or after the offset `i` they start from.
pub open spec fn scan_ok(ts: Seq<SToken>, i: int, e: int) -> bool {
    &&& tokens_ascii(ts)
    &&& 0 <= i <= e < ts.len()
    &&& ts[e] == SToken::Eof
}

/// Both lists of statements have ASCII names, so their concatenation has.
proof fn lemma_stmts_ascii_prepend(s: SStmt, rest: Seq<SStmt>)
    requires
        stmt_ascii(s),
        stmts_ascii(rest),
    ensures
        stmts_ascii(seq![s] + rest),
{
    let all = seq![s] + rest;
    assert forall|k: int| 0 <= k < all.len() implies stmt_ascii(#[trigger] all[k]) by {
        if k > 0 {
            assert(all[k] == rest[k - 1]);
        }
    }
}

proof fn lemma_p_operand(ts: Seq<SToken>, ps: Seq<Position>, l: Level, i: int, e: int)
    requires
        scan_ok(ts, i, e),
    ensures
        p_operand(ts, ps, l, i) matches Ok((x, j)) ==> j <= e && expr_ascii(x),
    decreases ts.len() - i, level_rank(l), 0nat,
{
    match l {
        Level::Or => lemma_p_level(ts, ps, Level::And, i, e),
        Level::And => lemma_p_level(ts, ps, Level::Comparison, i, e),
        Level::Comparison => lemma_p_level(ts, ps, Level::Addition, i, e),
        Level::Addition => lemma_p_level(ts, ps, Level::Multiplication, i, e),
        Level::Multiplication => lemma_p_primary(ts, ps, i, e),
    }
}

proof fn lemma_p_level(ts: Seq<SToken>, ps: Seq<Position>, l: Level, i: int, e: int)
    requires
        scan_ok(ts, i, e),
    ensures
        p_level(ts, ps, l, i) matches Ok((x, j)) ==> j <= e && expr_ascii(x),
    decreases ts.len() - i, level_rank(l), 1nat,
{
    lemma_p_operand(ts, ps, l, i, e);
    if let Ok((lhs, j)) = p_operand(ts, ps, l, i) {
        if i < j <= ts.len() {
            lemma_p_level_rest(ts, ps, l, lhs, j, e);
        }
    }
}

proof fn lemma_p_level_rest(ts: Seq<SToken>, ps: Seq<Position>, l: Level, lhs: SExpr, j: int, e: int)
    requires
        scan_ok(ts, j, e),
        expr_ascii(lhs),
    ensures
        p_level_rest(ts, ps, l, lhs, j) matches Ok((x, k)) ==> k <= e && expr_ascii(x),
    decreases ts.len() - j, 0nat, 0nat,
{
    if let Some(op) = level_op(l, ts[j]) {
        if j + 1 <= ts.len() {
            lemma_p_operand(ts, ps, l, j + 1, e);
            if let Ok((rhs, k)) = p_operand(ts, ps, l, j + 1) {
                if j + 1 < k <= ts.len() {
                    lemma_p_level_rest(
                        ts,
                        ps,
                        l,
                        SExpr::Binary { left: Box::new(lhs), operator: op, right: Box::new(rhs) },
                        k,
                        e,
                    );
                }
            }
        }
    }
}

proof fn lemma_p_expression(ts: Seq<SToken>, ps: Seq<Position>, i: int, e: int)
    requires
        scan_ok(ts, i, e),
    ensures
        p_expression(ts, ps, i) matches Ok((x, j)) ==> j <= e && expr_ascii(x),
    decreases ts.len() - i, 17nat, 0nat,
{
    lemma_p_level(ts, ps, Level::Or, i, e);
}

proof fn lemma_p_primary(ts: Seq<SToken>, ps: Seq<Position>, i: int, e: int)
    requires
        scan_ok(ts, i, e),
    ensures
        p_primary(ts, ps, i) matches Ok((x, j)) ==> j <= e && expr_ascii(x),
    decreases ts.len() - i, 11nat, 0nat,
{
    assert(token_ascii(ts[i]));
    if ts[i] == SToken::LeftParen && i + 1 <= ts.len() {
        lemma_p_expression(ts, ps, i + 1, e);
    }
    if ts[i] == SToken::Minus && i + 1 <= ts.len() {
        lemma_p_primary(ts, ps, i + 1, e);
        assert(expr_ascii(SExpr::Number(0)));
    }
}

proof fn lemma_p_tail(ts: Seq<SToken>, ps: Seq<Position>, i: int, e: int)
    requires
        scan_ok(ts, i, e),
    ensures
        p_tail_expression_semicolon(ts, ps, i) matches Ok((x, j)) ==> j <= e && expr_ascii(x),
    decreases ts.len() - i, 18nat, 0nat,
{
    lemma_p_expression(ts, ps, i, e);
}

proof fn lemma_p_let(ts: Seq<SToken>, ps: Seq<Position>, i: int, e: int)
    requires
        scan_ok(ts, i, e),
    ensures
        p_let(ts, ps, i) matches Ok((x, j)) ==> j <= e && stmt_ascii(x),
    decreases ts.len() - i, 19nat, 0nat,
{
    if let Ok(j) = expect_at(ts, ps, i, SToken::Let) {
        assert(token_ascii(ts[j]));
        if ts[j] is Identifier {
            if let Ok(k) = expect_at(ts, ps, j + 1, SToken::Equal) {
                if k <= ts.len() {
                    lemma_p_tail(ts, ps, k, e);
                }
            }
        }
    }
}

proof fn lemma_p_assignment(ts: Seq<SToken>, ps: Seq<Position>, i: int, e: int)
    requires
        scan_ok(ts, i, e),
    ensures
        p_assignment(ts, ps, i) matches Ok((x, j)) ==> j <= e && stmt_ascii(x),
    decreases ts.len() - i, 19nat, 0nat,
{
    assert(token_ascii(ts[i]));
    if ts[i] is Identifier {
        if let Ok(k) = expect_at(ts, ps, i + 1, SToken::Equal) {
            if k <= ts.len() {
                lemma_p_tail(ts, ps, k, e);
            }
        }
    }
}

proof fn lemma_p_print(ts: Seq<SToken>, ps: Seq<Position>, i: int, e: int)
    requires
        scan_ok(ts, i, e),
    ensures
        p_print(ts, ps, i) matches Ok((x, j)) ==> j <= e && stmt_ascii(x),
    decreases ts.len() - i, 19nat, 0nat,
{
    if let Ok(j) = expect_at(ts, ps, i, SToken::Print) {
        if let Ok(k) = expect_at(ts, ps, j, SToken::LeftParen) {
            if k <= ts.len() {
                lemma_p_expression(ts, ps, k, e);
            }
        }
    }
}

proof fn lemma_p_block_items(ts: Seq<SToken>, ps: Seq<Position>, i: int, e: int)
    requires
        scan_ok(ts, i, e),
    ensures
        p_block_items(ts, ps, i) matches Ok((x, j)) ==> j <= e && stmts_ascii(x),
    decreases ts.len() - i, 21nat, 0nat,
{
    if !(ts[i] == SToken::RightBrace || ts[i] == SToken::Eof) {
        lemma_p_statement(ts, ps, i, e);
        if let Ok((s, j)) = p_statement(ts, ps, i) {
            if i < j <= ts.len() {
                lemma_p_block_items(ts, ps, j, e);
                if let Ok((rest, k)) = p_block_items(ts, ps, j) {
                    lemma_stmts_ascii_prepend(s, rest);
                }
            }
        }
    }
}

proof fn lemma_p_block(ts: Seq<SToken>, ps: Seq<Position>, i: int, e: int)
    requires
        scan_ok(ts, i, e),
    ensures
        p_block(ts, ps, i) matches Ok((x, j)) ==> j <= e && stmt_ascii(x),
    decreases ts.len() - i, 19nat, 0nat,
{
    if let Ok(j) = expect_at(ts, ps, i, SToken::LeftBrace) {
        if j <= ts.len() {
            lemma_p_block_items(ts, ps, j, e);
        }
    }
}

proof fn lemma_p_if(ts: Seq<SToken>, ps: Seq<Position>, i: int, e: int)
    requires
        scan_ok(ts, i, e),
    ensures
        p_if(ts, ps, i) matches Ok((x, j)) ==> j <= e && stmt_ascii(x),
    decreases ts.len() - i, 19nat, 0nat,
{
    if let Ok(j) = expect_at(ts, ps, i, SToken::If) {
        if j <= ts.len() {
            lemma_p_expression(ts, ps, j, e);
            if let Ok((condition, k)) = p_expression(ts, ps, j) {
                if j < k <= ts.len() {
                    lemma_p_statement(ts, ps, k, e);
                    if let Ok((statement, m)) = p_statement(ts, ps, k) {
                        if k < m <= ts.len() && ts[m] == SToken::Else && m + 1 <= ts.len() {
                            lemma_p_statement(ts, ps, m + 1, e);
                        }
                    }
                }
            }
        }
    }
}

proof fn lemma_p_while(ts: Seq<SToken>, ps: Seq<Position>, i: int, e: int)
    requires
        scan_ok(ts, i, e),
    ensures
        p_while(ts, ps, i) matches Ok((x, j)) ==> j <= e && stmt_ascii(x),
    decreases ts.len() - i, 19nat, 0nat,
{
    if let Ok(j) = expect_at(ts, ps, i, SToken::While) {
        if j <= ts.len() {
            lemma_p_expression(ts, ps, j, e);
            if let Ok((condition, k)) = p_expression(ts, ps, j) {
                if j < k <= ts.len() {
                    lemma_p_statement(ts, ps, k, e);
                }
            }
        }
    }
}

proof fn lemma_p_statement(ts: Seq<SToken>, ps: Seq<Position>, i: int, e: int)
    requires
        scan_ok(ts, i, e),
    ensures
        p_statement(ts, ps, i) matches Ok((x, j)) ==> j <= e && stmt_ascii(x),
    decreases ts.len() - i, 20nat, 0nat,
{
    match ts[i] {
        SToken::Let => lemma_p_let(ts, ps, i, e),
        SToken::Identifier(_) => {
            if ts[i + 1] == SToken::Equal {
                lemma_p_assignment(ts, ps, i, e);
            } else {
                lemma_p_expression_statement(ts, ps, i, e);
            }
        },
        SToken::LeftBrace => lemma_p_block(ts, ps, i, e),
        SToken::Print => lemma_p_print(ts, ps, i, e),
        SToken::If => lemma_p_if(ts, ps, i, e),
        SToken::While => lemma_p_while(ts, ps, i, e),
        _ => lemma_p_expression_statement(ts, ps, i, e),
    }
}

proof fn lemma_p_expression_statement(ts: Seq<SToken>, ps: Seq<Position>, i: int, e: int)
    requires
        scan_ok(ts, i, e),
    ensures
        p_expression_statement(ts, ps, i) matches Ok((x, j)) ==> j <= e && stmt_ascii(x),
    decreases ts.len() - i, 19nat, 0nat,
{
    lemma_p_tail(ts, ps, i, e);
}

proof fn lemma_p_program_items(ts: Seq<SToken>, ps: Seq<Position>, i: int, e: int)
    requires
        scan_ok(ts, i, e),
    ensures
        p_program_items(ts, ps, i) matches Ok(x) ==> stmts_ascii(x),
    decreases ts.len() - i, 22nat, 0nat,
{
    if ts[i] != SToken::Eof {
        lemma_p_statement(ts, ps, i, e);
        if let Ok((s, j)) = p_statement(ts, ps, i) {
            if i < j <= ts.len() {
                lemma_p_program_items(ts, ps, j, e);
                if let Ok(rest) = p_program_items(ts, ps, j) {
                    lemma_stmts_ascii_prepend(s, rest);
                }
            }
        }
    }
}

/// Parsing tokens whose identifiers are ASCII, and that end with `Eof`,
/// makes a program whose names are ASCII.
pub proof fn lemma_parse_ascii(ts: Seq<SToken>, ps: Seq<Position>)
    requires
        tokens_ascii(ts),
        ts.len() > 0,
        ts.last() == SToken::Eof,
    ensures
        parse_tokens(ts, ps) matches Ok(p) ==> stmts_ascii(p),
{
    lemma_p_program_items(ts, ps, 0, ts.len() - 1);
}

} // verus!
