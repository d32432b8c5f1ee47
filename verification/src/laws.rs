//! What the language means, stated over its inputs and results: the value
//! of each operator on plain integers and booleans, what `if`, `while`,
//! `print`, `let` and assignment do to the state, which bytes start an
//! identifier, and how operators group when an expression is parsed.
use vstd::prelude::*;
use crate::ast::{BinaryOp, SExpr, SStmt};
use crate::interpreter::{Fault, IState, RuntimeError, SValue, eval, eval_op, exec_stmt};
use crate::scope::lookup;
use crate::lexer::{ByteClass, Position, SToken, lemma_scan_end, scan_end, token_at};
use crate::parser::{Level, level_op, level_rank, p_expression, p_level, p_level_rest, p_operand, p_primary, p_statement};

verus! {

// ---------------------------------------------------------------------------
// Operators on values.
// ---------------------------------------------------------------------------

/// The comparisons of two numbers are those of the integers: `a < b`,
/// `a <= b`, `a > b` and `a >= b` hold as they do for integers, so `>` is
/// the opposite of `<=`, `<` the opposite of `>=`, `a > b` is `b < a`, and
/// no number is greater or less than itself.
pub proof fn law_comparisons(a: i64, b: i64)
    ensures
        eval_op(BinaryOp::Less, SValue::Number(a), SValue::Number(b)) == Ok::<SValue, Fault>(SValue::Boolean(a < b)),
        eval_op(BinaryOp::LessEqual, SValue::Number(a), SValue::Number(b)) == Ok::<SValue, Fault>(
            SValue::Boolean(a <= b),
        ),
        eval_op(BinaryOp::Greater, SValue::Number(a), SValue::Number(b)) == Ok::<SValue, Fault>(
            SValue::Boolean(a > b),
        ),
        eval_op(BinaryOp::GreaterEqual, SValue::Number(a), SValue::Number(b)) == Ok::<SValue, Fault>(
            SValue::Boolean(a >= b),
        ),
        eval_op(BinaryOp::Greater, SValue::Number(a), SValue::Number(b)) != eval_op(
            BinaryOp::LessEqual,
            SValue::Number(a),
            SValue::Number(b),
        ),
        eval_op(BinaryOp::Less, SValue::Number(a), SValue::Number(b)) != eval_op(
            BinaryOp::GreaterEqual,
            SValue::Number(a),
            SValue::Number(b),
        ),
        eval_op(BinaryOp::Greater, SValue::Number(a), SValue::Number(b)) == eval_op(
            BinaryOp::Less,
            SValue::Number(b),
            SValue::Number(a),
        ),
        eval_op(BinaryOp::Greater, SValue::Number(a), SValue::Number(a)) == Ok::<SValue, Fault>(
            SValue::Boolean(false),
        ),
        eval_op(BinaryOp::Less, SValue::Number(a), SValue::Number(a)) == Ok::<SValue, Fault>(SValue::Boolean(false)),
        eval_op(BinaryOp::LessEqual, SValue::Number(a), SValue::Number(a)) == Ok::<SValue, Fault>(
            SValue::Boolean(true),
        ),
        eval_op(BinaryOp::GreaterEqual, SValue::Number(a), SValue::Number(a)) == Ok::<SValue, Fault>(
            SValue::Boolean(true),
        ),
{
}

/// Arithmetic on numbers is that of the integers while the result fits in
/// an `i64`, and an overflow error when it does not; division by zero is
/// its own error, and otherwise division rounds toward zero.
pub proof fn law_arithmetic(a: i64, b: i64)
    ensures
        i64::MIN <= a + b <= i64::MAX ==> eval_op(BinaryOp::Add, SValue::Number(a), SValue::Number(b))
            == Ok::<SValue, Fault>(SValue::Number((a + b) as i64)),
        !(i64::MIN <= a + b <= i64::MAX) ==> eval_op(BinaryOp::Add, SValue::Number(a), SValue::Number(b))
            == Err::<SValue, Fault>(Fault::Runtime(RuntimeError::ArithmeticOverflow)),
        i64::MIN <= a - b <= i64::MAX ==> eval_op(BinaryOp::Sub, SValue::Number(a), SValue::Number(b))
            == Ok::<SValue, Fault>(SValue::Number((a - b) as i64)),
        !(i64::MIN <= a - b <= i64::MAX) ==> eval_op(BinaryOp::Sub, SValue::Number(a), SValue::Number(b))
            == Err::<SValue, Fault>(Fault::Runtime(RuntimeError::ArithmeticOverflow)),
        i64::MIN <= a * b <= i64::MAX ==> eval_op(BinaryOp::Mul, SValue::Number(a), SValue::Number(b))
            == Ok::<SValue, Fault>(SValue::Number((a * b) as i64)),
        !(i64::MIN <= a * b <= i64::MAX) ==> eval_op(BinaryOp::Mul, SValue::Number(a), SValue::Number(b))
            == Err::<SValue, Fault>(Fault::Runtime(RuntimeError::ArithmeticOverflow)),
        b == 0 ==> eval_op(BinaryOp::Div, SValue::Number(a), SValue::Number(b)) == Err::<SValue, Fault>(
            Fault::Runtime(RuntimeError::DivideByZero),
        ),
        b != 0 && !(a == i64::MIN && b == -1) ==> (eval_op(BinaryOp::Div, SValue::Number(a), SValue::Number(b))
            matches Ok(SValue::Number(q)) && rounds_toward_zero(a as int, b as int, q as int)),
        a == i64::MIN && b == -1 ==> eval_op(BinaryOp::Div, SValue::Number(a), SValue::Number(b))
            == Err::<SValue, Fault>(Fault::Runtime(RuntimeError::ArithmeticOverflow)),
{
    if b != 0 && !(a == i64::MIN && b == -1) {
        lemma_checked_div_rounds(a, b);
    }
    if a == i64::MIN && b == -1 {
        let x = (a as int) * -1;
        let d = (b as int) * -1;
        assert(x == 9223372036854775808int && d == 1);
        assert(x / d == x) by (nonlinear_arith)
            requires
                d == 1,
        {
        }
    }
}

/// The absolute value of an integer.
pub open spec fn abs(x: int) -> int {
    if x < 0 {
        -x
    } else {
        x
    }
}

/// `q` is the quotient of `a` by `b` rounded toward zero: what is left over,
/// `a - b * q`, has the sign of `a` (or is zero) and is smaller than `b` in
/// size.
pub open spec fn rounds_toward_zero(a: int, b: int, q: int) -> bool {
    let r = a - b * q;
    &&& r * a >= 0
    &&& abs(r) < abs(b)
}

proof fn lemma_checked_div_rounds(a: i64, b: i64)
    requires
        b != 0,
        !(a == i64::MIN && b == -1),
    ensures
        a.checked_div(b) matches Some(q) && rounds_toward_zero(a as int, b as int, q as int),
{
    let x = a as int;
    let d = b as int;
    if x > 0 && d > 0 {
        let q = x / d;
        vstd::arithmetic::div_mod::lemma_fundamental_div_mod(x, d);
        vstd::arithmetic::div_mod::lemma_mod_bound(x, d);
        assert(rounds_toward_zero(x, d, q) && 0 <= q <= x) by (nonlinear_arith)
            requires
                x == d * q + x % d,
                0 <= x % d < d,
                x > 0,
                d > 0,
        {
        }
    } else if x < 0 && d < 0 {
        let q = (x * -1) / (d * -1);
        vstd::arithmetic::div_mod::lemma_fundamental_div_mod(-x, -d);
        vstd::arithmetic::div_mod::lemma_mod_bound(-x, -d);
        assert(rounds_toward_zero(x, d, q) && 0 <= q <= -x) by (nonlinear_arith)
            requires
                -x == (-d) * q + (-x) % (-d),
                0 <= (-x) % (-d) < -d,
                x < 0,
                d < 0,
        {
        }
        assert(q <= i64::MAX) by {
            assert(d != -1 || x != i64::MIN);
            if d <= -2 {
                assert(q * 2 <= q * (-d)) by (nonlinear_arith)
                    requires
                        d <= -2,
                        q >= 0,
                {
                }
                assert(q * (-d) <= -x) by (nonlinear_arith)
                    requires
                        -x == (-d) * q + (-x) % (-d),
                        0 <= (-x) % (-d),
                {
                }
            }
        }
    } else if x < 0 && d > 0 {
        let q0 = (x * -1) / d;
        vstd::arithmetic::div_mod::lemma_fundamental_div_mod(-x, d);
        vstd::arithmetic::div_mod::lemma_mod_bound(-x, d);
        assert(rounds_toward_zero(x, d, q0 * -1) && 0 <= q0 <= -x) by (nonlinear_arith)
            requires
                -x == d * q0 + (-x) % d,
                0 <= (-x) % d < d,
                x < 0,
                d > 0,
        {
        }
    } else if x > 0 && d < 0 {
        let q0 = x / (d * -1);
        vstd::arithmetic::div_mod::lemma_fundamental_div_mod(x, -d);
        vstd::arithmetic::div_mod::lemma_mod_bound(x, -d);
        assert(rounds_toward_zero(x, d, q0 * -1) && 0 <= q0 <= x) by (nonlinear_arith)
            requires
                x == (-d) * q0 + x % (-d),
                0 <= x % (-d) < -d,
                x > 0,
                d < 0,
        {
        }
    } else {
        assert(rounds_toward_zero(x, d, 0)) by (nonlinear_arith)
            requires
                x == 0,
                d != 0,
        {
        }
    }
}

/// Equality compares the values themselves: a value is equal to itself,
/// `!=` is the opposite of `==`, and values of different kinds differ.
pub proof fn law_equality(x: SValue, y: SValue)
    ensures
        eval_op(BinaryOp::Equal, x, x) == Ok::<SValue, Fault>(SValue::Boolean(true)),
        eval_op(BinaryOp::NotEqual, x, x) == Ok::<SValue, Fault>(SValue::Boolean(false)),
        eval_op(BinaryOp::Equal, x, y) == Ok::<SValue, Fault>(SValue::Boolean(x == y)),
        eval_op(BinaryOp::NotEqual, x, y) == Ok::<SValue, Fault>(SValue::Boolean(x != y)),
        eval_op(BinaryOp::Equal, SValue::Number(0), SValue::Boolean(false)) == Ok::<SValue, Fault>(
            SValue::Boolean(false),
        ),
{
}

/// `&&` and `||` on booleans are logical and and or.
pub proof fn law_logic(p: bool, q: bool)
    ensures
        eval_op(BinaryOp::And, SValue::Boolean(p), SValue::Boolean(q)) == Ok::<SValue, Fault>(
            SValue::Boolean(p && q),
        ),
        eval_op(BinaryOp::Or, SValue::Boolean(p), SValue::Boolean(q)) == Ok::<SValue, Fault>(
            SValue::Boolean(p || q),
        ),
{
}

/// An operator applied to two literals has the value of the operator on
/// the literals' values: evaluating an expression evaluates its operands.
pub proof fn law_eval_literals(env: crate::interpreter::ValueEnv, op: BinaryOp, a: i64, b: i64)
    ensures
        eval(env, SExpr::Binary { left: Box::new(SExpr::Number(a)), operator: op, right: Box::new(SExpr::Number(b)) })
            == eval_op(op, SValue::Number(a), SValue::Number(b)),
        eval(env, SExpr::Number(a)) == Ok::<SValue, Fault>(SValue::Number(a)),
{
    assert(eval(env, SExpr::Number(a)) == Ok::<SValue, Fault>(SValue::Number(a)));
    assert(eval(env, SExpr::Number(b)) == Ok::<SValue, Fault>(SValue::Number(b)));
}

// ---------------------------------------------------------------------------
// Statements.
// ---------------------------------------------------------------------------

/// A `while` loop whose condition is not `true` in the state it starts
/// from finishes at once, leaving the state unchanged: its body does not
/// run. One whose condition is `true` runs its body first, and then
/// behaves as the same loop from the state the body leaves.
pub proof fn law_while(fuel: nat, st: IState, c: SExpr, body: SStmt)
    requires
        fuel > 0,
    ensures
        eval(st.env, c) matches Ok(v) && v != SValue::Boolean(true) ==> exec_stmt(
            fuel,
            st,
            SStmt::While { condition: c, statement: Box::new(body) },
        ) == Some::<(IState, Result<(), Fault>)>((st, Ok(()))),
        eval(st.env, c) == Ok::<SValue, Fault>(SValue::Boolean(true)) ==> (exec_stmt(
            (fuel - 1) as nat,
            st,
            body,
        ) matches Some((next, r)) ==> (r is Ok ==> exec_stmt(
            fuel,
            st,
            SStmt::While { condition: c, statement: Box::new(body) },
        ) == exec_stmt((fuel - 1) as nat, next, SStmt::While { condition: c, statement: Box::new(body) }))),
        eval(st.env, c) matches Err(f) ==> exec_stmt(fuel, st, SStmt::While { condition: c, statement: Box::new(body) })
            == Some::<(IState, Result<(), Fault>)>((st, Err(f))),
{
    let w = SStmt::While { condition: c, statement: Box::new(body) };
    assert(exec_stmt(fuel, st, w) == crate::interpreter::exec_loop(fuel, st, c, body));
    if let Some((next, r)) = exec_stmt((fuel - 1) as nat, st, body) {
        assert(exec_stmt((fuel - 1) as nat, next, w) == crate::interpreter::exec_loop((fuel - 1) as nat, next, c, body));
    }
}

/// `if` runs its statement when the condition is `true`, the `else`
/// statement when it is anything else, and nothing when there is none.
pub proof fn law_if(fuel: nat, st: IState, c: SExpr, then_s: SStmt, else_s: SStmt)
    ensures
        eval(st.env, c) == Ok::<SValue, Fault>(SValue::Boolean(true)) ==> exec_stmt(
            fuel,
            st,
            SStmt::If { condition: c, statement: Box::new(then_s), else_clause: Some(Box::new(else_s)) },
        ) == exec_stmt(fuel, st, then_s),
        eval(st.env, c) matches Ok(v) && v != SValue::Boolean(true) ==> exec_stmt(
            fuel,
            st,
            SStmt::If { condition: c, statement: Box::new(then_s), else_clause: Some(Box::new(else_s)) },
        ) == exec_stmt(fuel, st, else_s),
        eval(st.env, c) matches Ok(v) && v != SValue::Boolean(true) ==> exec_stmt(
            fuel,
            st,
            SStmt::If { condition: c, statement: Box::new(then_s), else_clause: None },
        ) == Some::<(IState, Result<(), Fault>)>((st, Ok(()))),
{
}

/// `print` adds the value of its expression at the end of the output and
/// changes nothing else; `let` makes the name stand for the value in the
/// innermost scope; an assignment to a declared name makes it stand for
/// the value; a failing expression leaves the state as it was.
pub proof fn law_simple_statements(fuel: nat, st: IState, name: Seq<u8>, e: SExpr)
    requires
        st.env.len() > 0,
    ensures
        eval(st.env, e) matches Ok(v) ==> exec_stmt(fuel, st, SStmt::Print(e)) == Some::<
            (IState, Result<(), Fault>),
        >((IState { env: st.env, out: st.out.push(v) }, Ok(()))),
        eval(st.env, e) matches Ok(v) ==> (exec_stmt(fuel, st, SStmt::Let { name, value: e }) matches Some(
            (next, r),
        ) && r is Ok && lookup(next.env, name) == Some(v) && next.out == st.out && next.env.len() == st.env.len()),
        eval(st.env, e) matches Ok(v) ==> (lookup(st.env, name) is Some ==> (exec_stmt(
            fuel,
            st,
            SStmt::Assign { name, value: e },
        ) matches Some((next, r)) && r is Ok && lookup(next.env, name) == Some(v) && next.out == st.out)),
        eval(st.env, e) matches Err(f) ==> exec_stmt(fuel, st, SStmt::Print(e)) == Some::<
            (IState, Result<(), Fault>),
        >((st, Err(f))),
{
    if let Ok(v) = eval(st.env, e) {
        if lookup(st.env, name) is Some {
            lemma_lookup_after_assign(st.env, name, v);
        }
    }
}

proof fn lemma_lookup_after_assign(env: crate::interpreter::ValueEnv, name: Seq<u8>, v: SValue)
    requires
        lookup(env, name) is Some,
    ensures
        lookup(crate::scope::assign(env, name, v), name) == Some(v),
    decreases env.len(),
{
    if env.len() > 0 && !env.last().contains_key(name) {
        lemma_lookup_after_assign(env.drop_last(), name, v);
        assert(crate::scope::assign(env, name, v).drop_last() =~= crate::scope::assign(env.drop_last(), name, v));
    }
}

// ---------------------------------------------------------------------------
// Words.
// ---------------------------------------------------------------------------

/// A byte that may stand in a word: an ASCII letter, upper or lower case,
/// a digit, or `_`.
pub open spec fn word_byte(b: u8) -> bool {
    (65 <= b <= 90) || (97 <= b <= 122) || (48 <= b <= 57) || b == 95
}

/// A byte that may begin a word: an ASCII letter, upper or lower case, or
/// `_`.
pub open spec fn word_start(b: u8) -> bool {
    (65 <= b <= 90) || (97 <= b <= 122) || b == 95
}

/// A keyword token.
pub open spec fn is_keyword(t: SToken) -> bool {
    t is Let || t is Print || t is If || t is Else || t is While || t is True || t is False
}

/// A word, the longest run of word bytes that begins with a letter or `_`,
/// makes one token that ends where the word ends: a keyword, or else an
/// identifier of the word's bytes; a word with a byte other than a lower
/// case letter (so with an upper case letter, a digit or `_`) is always an
/// identifier; and the keywords are `let`, `print`, `if`, `else`, `while`,
/// `true` and `false`.
pub proof fn law_words(s: Seq<u8>, j: int, k: int)
    requires
        0 <= j < k <= s.len(),
        word_start(s[j]),
        forall|m: int| j <= m < k ==> word_byte(#[trigger] s[m]),
        k == s.len() || !word_byte(s[k]),
    ensures
        token_at(s, j) matches Ok((t, end)) && end == k && (t == SToken::Identifier(s.subrange(j, k)) || is_keyword(t)),
        (exists|m: int| j <= m < k && !(97 <= #[trigger] s[m] <= 122)) ==> token_at(s, j) == Ok::<
            (SToken, int),
            crate::lexer::SLexError,
        >((SToken::Identifier(s.subrange(j, k)), k)),
        s.subrange(j, k) == seq![108u8, 101, 116] ==> token_at(s, j) matches Ok((SToken::Let, _)),
        s.subrange(j, k) == seq![112u8, 114, 105, 110, 116] ==> token_at(s, j) matches Ok((SToken::Print, _)),
        s.subrange(j, k) == seq![105u8, 102] ==> token_at(s, j) matches Ok((SToken::If, _)),
        s.subrange(j, k) == seq![101u8, 108, 115, 101] ==> token_at(s, j) matches Ok((SToken::Else, _)),
        s.subrange(j, k) == seq![119u8, 104, 105, 108, 101] ==> token_at(s, j) matches Ok((SToken::While, _)),
        s.subrange(j, k) == seq![116u8, 114, 117, 101] ==> token_at(s, j) matches Ok((SToken::True, _)),
        s.subrange(j, k) == seq![102u8, 97, 108, 115, 101] ==> token_at(s, j) matches Ok((SToken::False, _)),
{
    let e = scan_end(s, j, ByteClass::IdentChar);
    lemma_scan_end(s, j, ByteClass::IdentChar);
    if e < k {
        assert(word_byte(s[e]));
    }
    if e > k {
        assert(crate::lexer::in_class(ByteClass::IdentChar, s[k]));
    }
    assert(e == k);
    let w = s.subrange(j, k);
    if exists|m: int| j <= m < k && !(97 <= #[trigger] s[m] <= 122) {
        let m = choose|m: int| j <= m < k && !(97 <= #[trigger] s[m] <= 122);
        assert(w[m - j] == s[m]);
        assert(!(97 <= w[m - j] <= 122));
        if w == seq![108u8, 101, 116] {
            let kw = seq![108u8, 101, 116];
            let i = m - j;
            assert(w[i] == kw[i]);
            assert(0 <= i < kw.len());
            if i == 0 {
                assert(kw[0] == 108);
            } else if i == 1 {
                assert(kw[1] == 101);
            } else if i == 2 {
                assert(kw[2] == 116);
            }
        }
        if w == seq![112u8, 114, 105, 110, 116] {
            let kw = seq![112u8, 114, 105, 110, 116];
            let i = m - j;
            assert(w[i] == kw[i]);
            assert(0 <= i < kw.len());
            if i == 0 {
                assert(kw[0] == 112);
            } else if i == 1 {
                assert(kw[1] == 114);
            } else if i == 2 {
                assert(kw[2] == 105);
            } else if i == 3 {
                assert(kw[3] == 110);
            } else if i == 4 {
                assert(kw[4] == 116);
            }
        }
        if w == seq![105u8, 102] {
            let kw = seq![105u8, 102];
            let i = m - j;
            assert(w[i] == kw[i]);
            assert(0 <= i < kw.len());
            if i == 0 {
                assert(kw[0] == 105);
            } else if i == 1 {
                assert(kw[1] == 102);
            }
        }
        if w == seq![101u8, 108, 115, 101] {
            let kw = seq![101u8, 108, 115, 101];
            let i = m - j;
            assert(w[i] == kw[i]);
            assert(0 <= i < kw.len());
            if i == 0 {
                assert(kw[0] == 101);
            } else if i == 1 {
                assert(kw[1] == 108);
            } else if i == 2 {
                assert(kw[2] == 115);
            } else if i == 3 {
                assert(kw[3] == 101);
            }
        }
        if w == seq![119u8, 104, 105, 108, 101] {
            let kw = seq![119u8, 104, 105, 108, 101];
            let i = m - j;
            assert(w[i] == kw[i]);
            assert(0 <= i < kw.len());
            if i == 0 {
                assert(kw[0] == 119);
            } else if i == 1 {
                assert(kw[1] == 104);
            } else if i == 2 {
                assert(kw[2] == 105);
            } else if i == 3 {
                assert(kw[3] == 108);
            } else if i == 4 {
                assert(kw[4] == 101);
            }
        }
        if w == seq![116u8, 114, 117, 101] {
            let kw = seq![116u8, 114, 117, 101];
            let i = m - j;
            assert(w[i] == kw[i]);
            assert(0 <= i < kw.len());
            if i == 0 {
                assert(kw[0] == 116);
            } else if i == 1 {
                assert(kw[1] == 114);
            } else if i == 2 {
                assert(kw[2] == 117);
            } else if i == 3 {
                assert(kw[3] == 101);
            }
        }
        if w == seq![102u8, 97, 108, 115, 101] {
            let kw = seq![102u8, 97, 108, 115, 101];
            let i = m - j;
            assert(w[i] == kw[i]);
            assert(0 <= i < kw.len());
            if i == 0 {
                assert(kw[0] == 102);
            } else if i == 1 {
                assert(kw[1] == 97);
            } else if i == 2 {
                assert(kw[2] == 108);
            } else if i == 3 {
                assert(kw[3] == 115);
            } else if i == 4 {
                assert(kw[4] == 101);
            }
        }
    }
}

// ---------------------------------------------------------------------------
// How expressions group.
// ---------------------------------------------------------------------------

/// The token that writes a binary operator.
pub open spec fn operator_token(op: BinaryOp) -> SToken {
    match op {
        BinaryOp::Add => SToken::Plus,
        BinaryOp::Sub => SToken::Minus,
        BinaryOp::Mul => SToken::Star,
        BinaryOp::Div => SToken::Slash,
        BinaryOp::Equal => SToken::EqualEqual,
        BinaryOp::NotEqual => SToken::BangEqual,
        BinaryOp::Less => SToken::Less,
        BinaryOp::LessEqual => SToken::LessEqual,
        BinaryOp::Greater => SToken::Greater,
        BinaryOp::GreaterEqual => SToken::GreaterEqual,
        BinaryOp::And => SToken::AndAnd,
        BinaryOp::Or => SToken::OrOr,
    }
}

/// How tightly an operator binds: `||` loosest, then `&&`, the
/// comparisons, `+` and `-`, and `*` and `/` tightest.
pub open spec fn precedence(op: BinaryOp) -> nat {
    match op {
        BinaryOp::Or => 1,
        BinaryOp::And => 2,
        BinaryOp::Equal | BinaryOp::NotEqual | BinaryOp::Less | BinaryOp::LessEqual | BinaryOp::Greater
        | BinaryOp::GreaterEqual => 3,
        BinaryOp::Add | BinaryOp::Sub => 4,
        BinaryOp::Mul | BinaryOp::Div => 5,
    }
}

/// The expression that a literal or identifier token makes by itself.
pub open spec fn atom(t: SToken) -> Option<SExpr> {
    match t {
        SToken::Number(n) => Some(SExpr::Number(n)),
        SToken::Str(b) => Some(SExpr::Str(b)),
        SToken::True => Some(SExpr::Boolean(true)),
        SToken::False => Some(SExpr::Boolean(false)),
        SToken::Identifier(n) => Some(SExpr::Identifier(n)),
        _ => None,
    }
}

/// A token that writes no binary operator.
pub open spec fn not_operator(t: SToken) -> bool {
    forall|op: BinaryOp| t != #[trigger] operator_token(op)
}

/// The binary operator `op` between `a` and `b`.
pub open spec fn bin(a: SExpr, op: BinaryOp, b: SExpr) -> SExpr {
    SExpr::Binary { left: Box::new(a), operator: op, right: Box::new(b) }
}

/// Parsing an operand, an operator and an operand, followed by a token
/// that writes no operator, gives the operator applied to the two operands:
/// each operator token stands for its own operator.
pub proof fn law_parse_binary(ts: Seq<SToken>, ps: Seq<Position>, i: int, op: BinaryOp)
    requires
        0 <= i,
        i + 3 < ts.len(),
        atom(ts[i]) is Some,
        atom(ts[i + 2]) is Some,
        ts[i + 1] == operator_token(op),
        not_operator(ts[i + 3]),
    ensures
        p_expression(ts, ps, i) == Ok::<(SExpr, int), crate::parser::SParseError>(
            (bin(atom(ts[i]).unwrap(), op, atom(ts[i + 2]).unwrap()), i + 3),
        ),
{
    lemma_stops_all(ts[i + 3], Level::Or);
    lemma_binary(ts, ps, Level::Or, i, op);
}

/// Parsing three operands joined by two operators groups by precedence:
/// where the first operator binds more loosely than the second, the second
/// is applied first (`a || b && c` is `a || (b && c)`); otherwise, the
/// first is (`a && b || c` is `(a && b) || c`, `a - b - c` is
/// `(a - b) - c`).
pub proof fn law_parse_precedence(ts: Seq<SToken>, ps: Seq<Position>, i: int, op1: BinaryOp, op2: BinaryOp)
    requires
        0 <= i,
        i + 5 < ts.len(),
        atom(ts[i]) is Some,
        atom(ts[i + 2]) is Some,
        atom(ts[i + 4]) is Some,
        ts[i + 1] == operator_token(op1),
        ts[i + 3] == operator_token(op2),
        not_operator(ts[i + 5]),
    ensures
        precedence(op1) < precedence(op2) ==> p_expression(ts, ps, i) == Ok::<
            (SExpr, int),
            crate::parser::SParseError,
        >(
            (
                bin(atom(ts[i]).unwrap(), op1, bin(atom(ts[i + 2]).unwrap(), op2, atom(ts[i + 4]).unwrap())),
                i + 5,
            ),
        ),
        precedence(op1) >= precedence(op2) ==> p_expression(ts, ps, i) == Ok::<
            (SExpr, int),
            crate::parser::SParseError,
        >(
            (
                bin(bin(atom(ts[i]).unwrap(), op1, atom(ts[i + 2]).unwrap()), op2, atom(ts[i + 4]).unwrap()),
                i + 5,
            ),
        ),
{
    lemma_stops_all(ts[i + 5], Level::Or);
    lemma_rank_precedence(op1);
    lemma_rank_precedence(op2);
    if precedence(op1) < precedence(op2) {
        lemma_right_group(ts, ps, Level::Or, i, op1, op2);
    } else {
        lemma_left_group(ts, ps, Level::Or, i, op1, op2);
    }
}

/// The level of the grammar that parses an operator.
pub open spec fn level_of(op: BinaryOp) -> Level {
    match op {
        BinaryOp::Or => Level::Or,
        BinaryOp::And => Level::And,
        BinaryOp::Equal | BinaryOp::NotEqual | BinaryOp::Less | BinaryOp::LessEqual | BinaryOp::Greater
        | BinaryOp::GreaterEqual => Level::Comparison,
        BinaryOp::Add | BinaryOp::Sub => Level::Addition,
        BinaryOp::Mul | BinaryOp::Div => Level::Multiplication,
    }
}

pub open spec fn rank(op: BinaryOp) -> nat {
    level_rank(level_of(op))
}

/// The next tighter level.
pub open spec fn tighter(l: Level) -> Level {
    match l {
        Level::Or => Level::And,
        Level::And => Level::Comparison,
        Level::Comparison => Level::Addition,
        _ => Level::Multiplication,
    }
}

/// Token `t` ends an expression of level `l`: it writes no operator of
/// that level or a tighter one.
pub open spec fn stops(t: SToken, l: Level) -> bool {
    forall|op: BinaryOp| t == #[trigger] operator_token(op) ==> rank(op) > level_rank(l)
}

proof fn lemma_stops_all(t: SToken, l: Level)
    requires
        not_operator(t),
    ensures
        stops(t, l),
{
}

proof fn lemma_rank_precedence(op: BinaryOp)
    ensures
        precedence(op) + rank(op) == 17,
        12 <= rank(op) <= 16,
{
}

/// The levels' operators are the operators whose tokens they read.
proof fn lemma_level_op(l: Level, t: SToken)
    ensures
        level_op(l, t) matches Some(op) ==> t == operator_token(op) && level_of(op) == l,
        forall|op: BinaryOp| t == #[trigger] operator_token(op) && level_of(op) == l ==> level_op(l, t) == Some(op),
{
}

proof fn lemma_token_unique(a: BinaryOp, b: BinaryOp)
    ensures
        operator_token(a) == operator_token(b) ==> a == b,
{
}

proof fn lemma_level_unique(a: Level, b: Level)
    ensures
        level_rank(a) == level_rank(b) ==> a == b,
        a != Level::Multiplication ==> level_rank(tighter(a)) + 1 == level_rank(a),
        level_rank(a) >= 12,
        level_rank(a) == 12 <==> a == Level::Multiplication,
{
}

proof fn lemma_operand_next(ts: Seq<SToken>, ps: Seq<Position>, l: Level, j: int)
    ensures
        l != Level::Multiplication ==> p_operand(ts, ps, l, j) == p_level(ts, ps, tighter(l), j),
        l == Level::Multiplication ==> p_operand(ts, ps, l, j) == p_primary(ts, ps, j),
{
}

/// An operand that is a single literal or identifier.
proof fn lemma_operand_atom(ts: Seq<SToken>, ps: Seq<Position>, l: Level, j: int)
    requires
        0 <= j,
        j + 1 < ts.len(),
        atom(ts[j]) is Some,
        forall|op: BinaryOp| ts[j + 1] == #[trigger] operator_token(op) ==> rank(op) >= level_rank(l),
    ensures
        p_operand(ts, ps, l, j) == Ok::<(SExpr, int), crate::parser::SParseError>((atom(ts[j]).unwrap(), j + 1)),
    decreases level_rank(l), 0nat,
{
    lemma_operand_next(ts, ps, l, j);
    lemma_level_unique(l, l);
    if l != Level::Multiplication {
        lemma_level_atom(ts, ps, tighter(l), j);
    }
}

/// An expression of level `l` that is a single literal or identifier.
proof fn lemma_level_atom(ts: Seq<SToken>, ps: Seq<Position>, l: Level, j: int)
    requires
        0 <= j,
        j + 1 < ts.len(),
        atom(ts[j]) is Some,
        stops(ts[j + 1], l),
    ensures
        p_level(ts, ps, l, j) == Ok::<(SExpr, int), crate::parser::SParseError>((atom(ts[j]).unwrap(), j + 1)),
    decreases level_rank(l), 1nat,
{
    lemma_operand_atom(ts, ps, l, j);
    lemma_level_op(l, ts[j + 1]);
}

/// `a op b` at level `l` or a looser one.
proof fn lemma_binary(ts: Seq<SToken>, ps: Seq<Position>, l: Level, j: int, op: BinaryOp)
    requires
        0 <= j,
        j + 3 < ts.len(),
        atom(ts[j]) is Some,
        atom(ts[j + 2]) is Some,
        ts[j + 1] == operator_token(op),
        stops(ts[j + 3], l),
        level_rank(l) >= rank(op),
    ensures
        p_level(ts, ps, l, j) == Ok::<(SExpr, int), crate::parser::SParseError>(
            (bin(atom(ts[j]).unwrap(), op, atom(ts[j + 2]).unwrap()), j + 3),
        ),
    decreases level_rank(l),
{
    lemma_level_unique(l, level_of(op));
    lemma_operand_next(ts, ps, l, j);
    lemma_level_op(l, ts[j + 3]);
    if level_of(op) == l {
        assert forall|o: BinaryOp| ts[j + 1] == #[trigger] operator_token(o) implies rank(o) >= level_rank(l) by {
            lemma_token_unique(o, op);
        }
        lemma_operand_atom(ts, ps, l, j);
        lemma_level_op(l, ts[j + 1]);
        lemma_operand_atom(ts, ps, l, j + 2);
        assert(p_level_rest(ts, ps, l, atom(ts[j]).unwrap(), j + 1) == p_level_rest(
            ts,
            ps,
            l,
            bin(atom(ts[j]).unwrap(), op, atom(ts[j + 2]).unwrap()),
            j + 3,
        ));
    } else {
        lemma_binary(ts, ps, tighter(l), j, op);
    }
}

/// `a op1 b op2 c` at level `l` or a looser one, where `op1` binds at
/// least as tightly as `op2`: `(a op1 b) op2 c`.
proof fn lemma_left_group(ts: Seq<SToken>, ps: Seq<Position>, l: Level, j: int, op1: BinaryOp, op2: BinaryOp)
    requires
        0 <= j,
        j + 5 < ts.len(),
        atom(ts[j]) is Some,
        atom(ts[j + 2]) is Some,
        atom(ts[j + 4]) is Some,
        ts[j + 1] == operator_token(op1),
        ts[j + 3] == operator_token(op2),
        stops(ts[j + 5], l),
        rank(op1) <= rank(op2),
        level_rank(l) >= rank(op2),
    ensures
        p_level(ts, ps, l, j) == Ok::<(SExpr, int), crate::parser::SParseError>(
            (bin(bin(atom(ts[j]).unwrap(), op1, atom(ts[j + 2]).unwrap()), op2, atom(ts[j + 4]).unwrap()), j + 5),
        ),
    decreases level_rank(l),
{
    let a = atom(ts[j]).unwrap();
    let b = atom(ts[j + 2]).unwrap();
    let c = atom(ts[j + 4]).unwrap();
    lemma_level_unique(l, level_of(op2));
    lemma_level_unique(level_of(op1), level_of(op2));
    lemma_operand_next(ts, ps, l, j);
    lemma_level_op(l, ts[j + 5]);
    if level_of(op2) == l {
        lemma_level_op(l, ts[j + 3]);
        assert forall|o: BinaryOp| ts[j + 5] == #[trigger] operator_token(o) implies rank(o) >= level_rank(l) by {
        }
        lemma_operand_atom(ts, ps, l, j + 4);
        if rank(op1) < rank(op2) {
            lemma_level_unique(tighter(l), tighter(l));
            assert(stops(ts[j + 3], tighter(l))) by {
                assert forall|o: BinaryOp| ts[j + 3] == #[trigger] operator_token(o) implies rank(o) > level_rank(
                    tighter(l),
                ) by {
                    lemma_token_unique(o, op2);
                }
            }
            lemma_binary(ts, ps, tighter(l), j, op1);
        } else {
            assert forall|o: BinaryOp| ts[j + 1] == #[trigger] operator_token(o) implies rank(o) >= level_rank(l) by {
                lemma_token_unique(o, op1);
            }
            assert forall|o: BinaryOp| ts[j + 3] == #[trigger] operator_token(o) implies rank(o) >= level_rank(l) by {
                lemma_token_unique(o, op2);
            }
            lemma_operand_atom(ts, ps, l, j);
            lemma_operand_atom(ts, ps, l, j + 2);
            lemma_level_op(l, ts[j + 1]);
            assert(p_level_rest(ts, ps, l, a, j + 1) == p_level_rest(ts, ps, l, bin(a, op1, b), j + 3));
        }
        assert(p_level_rest(ts, ps, l, bin(a, op1, b), j + 3) == p_level_rest(
            ts,
            ps,
            l,
            bin(bin(a, op1, b), op2, c),
            j + 5,
        ));
    } else {
        lemma_left_group(ts, ps, tighter(l), j, op1, op2);
    }
}

/// `a op1 b op2 c` at level `l` or a looser one, where `op1` binds more
/// loosely than `op2`: `a op1 (b op2 c)`.
proof fn lemma_right_group(ts: Seq<SToken>, ps: Seq<Position>, l: Level, j: int, op1: BinaryOp, op2: BinaryOp)
    requires
        0 <= j,
        j + 5 < ts.len(),
        atom(ts[j]) is Some,
        atom(ts[j + 2]) is Some,
        atom(ts[j + 4]) is Some,
        ts[j + 1] == operator_token(op1),
        ts[j + 3] == operator_token(op2),
        stops(ts[j + 5], l),
        rank(op1) > rank(op2),
        level_rank(l) >= rank(op1),
    ensures
        p_level(ts, ps, l, j) == Ok::<(SExpr, int), crate::parser::SParseError>(
            (bin(atom(ts[j]).unwrap(), op1, bin(atom(ts[j + 2]).unwrap(), op2, atom(ts[j + 4]).unwrap())), j + 5),
        ),
    decreases level_rank(l),
{
    let a = atom(ts[j]).unwrap();
    let b = atom(ts[j + 2]).unwrap();
    let c = atom(ts[j + 4]).unwrap();
    lemma_level_unique(l, level_of(op1));
    lemma_level_unique(level_of(op1), level_of(op2));
    lemma_operand_next(ts, ps, l, j);
    lemma_level_op(l, ts[j + 5]);
    if level_of(op1) == l {
        assert forall|o: BinaryOp| ts[j + 1] == #[trigger] operator_token(o) implies rank(o) >= level_rank(l) by {
            lemma_token_unique(o, op1);
        }
        lemma_operand_atom(ts, ps, l, j);
        lemma_level_op(l, ts[j + 1]);
        lemma_operand_next(ts, ps, l, j + 2);
        lemma_level_unique(tighter(l), tighter(l));
        lemma_binary(ts, ps, tighter(l), j + 2, op2);
        assert(p_level_rest(ts, ps, l, a, j + 1) == p_level_rest(ts, ps, l, bin(a, op1, bin(b, op2, c)), j + 5));
    } else {
        lemma_right_group(ts, ps, tighter(l), j, op1, op2);
    }
}

// ---------------------------------------------------------------------------
// Negation, string literals, operator symbols, statement forms.
// ---------------------------------------------------------------------------

/// `- x` before a literal or identifier negates it: its value is the
/// negated number, and negating the smallest `i64` overflows.
pub proof fn law_negation(ts: Seq<SToken>, ps: Seq<Position>, i: int, env: crate::interpreter::ValueEnv, n: i64)
    requires
        0 <= i,
        i + 1 < ts.len(),
        ts[i] == SToken::Minus,
        atom(ts[i + 1]) is Some,
    ensures
        p_primary(ts, ps, i) == Ok::<(SExpr, int), crate::parser::SParseError>(
            (bin(SExpr::Number(0), BinaryOp::Sub, atom(ts[i + 1]).unwrap()), i + 2),
        ),
        n != i64::MIN ==> eval(env, bin(SExpr::Number(0), BinaryOp::Sub, SExpr::Number(n))) == Ok::<SValue, Fault>(
            SValue::Number((-n) as i64),
        ),
        eval(env, bin(SExpr::Number(0), BinaryOp::Sub, SExpr::Number(i64::MIN))) == Err::<SValue, Fault>(
            Fault::Runtime(RuntimeError::ArithmeticOverflow),
        ),
{
    assert(p_primary(ts, ps, i + 1) == Ok::<(SExpr, int), crate::parser::SParseError>(
        (atom(ts[i + 1]).unwrap(), i + 2),
    ));
    law_eval_literals(env, BinaryOp::Sub, 0, n);
    law_eval_literals(env, BinaryOp::Sub, 0, i64::MIN);
    law_arithmetic(0, n);
    law_arithmetic(0, i64::MIN);
}

/// A string literal is the bytes between a `"` and the next `"`, and the
/// token ends after the closing quote; with no closing quote, lexing fails
/// with an unterminated string that starts at the opening quote.
pub proof fn law_string_literal(s: Seq<u8>, j: int, k: int)
    requires
        0 <= j < k <= s.len(),
        s[j] == 34u8,
        forall|m: int| j < m < k ==> #[trigger] s[m] != 34u8,
    ensures
        k < s.len() && s[k] == 34u8 ==> token_at(s, j) == Ok::<(SToken, int), crate::lexer::SLexError>(
            (SToken::Str(s.subrange(j + 1, k)), k + 1),
        ),
        k == s.len() ==> (token_at(s, j) matches Err(crate::lexer::SLexError::UnterminatedString { pos, .. })
            && pos == crate::lexer::position_at(s, j)),
{
    let e = scan_end(s, j + 1, ByteClass::NotQuote);
    lemma_scan_end(s, j + 1, ByteClass::NotQuote);
    if e < k {
        assert(s[e] != 34u8);
    }
    if k < s.len() && s[k] == 34u8 && e > k {
        assert(crate::lexer::in_class(ByteClass::NotQuote, s[k]));
    }
}

/// Each operator and punctuation symbol lexes to its own token, a symbol
/// of two bytes taking precedence over its first byte alone.
pub proof fn law_symbols(s: Seq<u8>, j: int)
    requires
        0 <= j,
        j + 1 < s.len(),
    ensures
        s[j] == 43u8 ==> token_at(s, j) == Ok::<(SToken, int), crate::lexer::SLexError>((SToken::Plus, j + 1)),
        s[j] == 45u8 ==> token_at(s, j) == Ok::<(SToken, int), crate::lexer::SLexError>((SToken::Minus, j + 1)),
        s[j] == 42u8 ==> token_at(s, j) == Ok::<(SToken, int), crate::lexer::SLexError>((SToken::Star, j + 1)),
        s[j] == 47u8 ==> token_at(s, j) == Ok::<(SToken, int), crate::lexer::SLexError>((SToken::Slash, j + 1)),
        s[j] == 61u8 && s[j + 1] == 61u8 ==> token_at(s, j) == Ok::<(SToken, int), crate::lexer::SLexError>(
            (SToken::EqualEqual, j + 2),
        ),
        s[j] == 33u8 && s[j + 1] == 61u8 ==> token_at(s, j) == Ok::<(SToken, int), crate::lexer::SLexError>(
            (SToken::BangEqual, j + 2),
        ),
        s[j] == 60u8 && s[j + 1] == 61u8 ==> token_at(s, j) == Ok::<(SToken, int), crate::lexer::SLexError>(
            (SToken::LessEqual, j + 2),
        ),
        s[j] == 62u8 && s[j + 1] == 61u8 ==> token_at(s, j) == Ok::<(SToken, int), crate::lexer::SLexError>(
            (SToken::GreaterEqual, j + 2),
        ),
        s[j] == 38u8 && s[j + 1] == 38u8 ==> token_at(s, j) == Ok::<(SToken, int), crate::lexer::SLexError>(
            (SToken::AndAnd, j + 2),
        ),
        s[j] == 124u8 && s[j + 1] == 124u8 ==> token_at(s, j) == Ok::<(SToken, int), crate::lexer::SLexError>(
            (SToken::OrOr, j + 2),
        ),
        s[j] == 60u8 && s[j + 1] != 61u8 ==> token_at(s, j) == Ok::<(SToken, int), crate::lexer::SLexError>(
            (SToken::Less, j + 1),
        ),
        s[j] == 62u8 && s[j + 1] != 61u8 ==> token_at(s, j) == Ok::<(SToken, int), crate::lexer::SLexError>(
            (SToken::Greater, j + 1),
        ),
        s[j] == 61u8 && s[j + 1] != 61u8 ==> token_at(s, j) == Ok::<(SToken, int), crate::lexer::SLexError>(
            (SToken::Equal, j + 1),
        ),
        s[j] == 59u8 ==> token_at(s, j) == Ok::<(SToken, int), crate::lexer::SLexError>((SToken::Semicolon, j + 1)),
        s[j] == 40u8 ==> token_at(s, j) == Ok::<(SToken, int), crate::lexer::SLexError>((SToken::LeftParen, j + 1)),
        s[j] == 41u8 ==> token_at(s, j) == Ok::<(SToken, int), crate::lexer::SLexError>((SToken::RightParen, j + 1)),
        s[j] == 123u8 ==> token_at(s, j) == Ok::<(SToken, int), crate::lexer::SLexError>((SToken::LeftBrace, j + 1)),
        s[j] == 125u8 ==> token_at(s, j) == Ok::<(SToken, int), crate::lexer::SLexError>((SToken::RightBrace, j + 1)),
        s[j] == 64u8 ==> (token_at(s, j) matches Err(crate::lexer::SLexError::UnexpectedChar { ch, pos }) && ch
            == '@' && pos == crate::lexer::position_at(s, j)),
{
}

/// The forms of statements: `let name = e ;`, `name = e ;`,
/// `print ( e ) ;`, `e ;`, `if e { } else { }` and `while e { }`, each
/// with a literal or identifier `e`.
pub proof fn law_statement_forms(ts: Seq<SToken>, ps: Seq<Position>, i: int, name: Seq<u8>)
    requires
        0 <= i,
        i + 7 < ts.len(),
    ensures
        ts[i] == SToken::Let && ts[i + 1] == SToken::Identifier(name) && ts[i + 2] == SToken::Equal && atom(
            ts[i + 3],
        ) is Some && ts[i + 4] == SToken::Semicolon ==> p_statement(ts, ps, i) == Ok::<
            (SStmt, int),
            crate::parser::SParseError,
        >((SStmt::Let { name, value: atom(ts[i + 3]).unwrap() }, i + 5)),
        ts[i] == SToken::Identifier(name) && ts[i + 1] == SToken::Equal && atom(ts[i + 2]) is Some && ts[i + 3]
            == SToken::Semicolon ==> p_statement(ts, ps, i) == Ok::<(SStmt, int), crate::parser::SParseError>(
            (SStmt::Assign { name, value: atom(ts[i + 2]).unwrap() }, i + 4),
        ),
        ts[i] == SToken::Print && ts[i + 1] == SToken::LeftParen && atom(ts[i + 2]) is Some && ts[i + 3]
            == SToken::RightParen && ts[i + 4] == SToken::Semicolon ==> p_statement(ts, ps, i) == Ok::<
            (SStmt, int),
            crate::parser::SParseError,
        >((SStmt::Print(atom(ts[i + 2]).unwrap()), i + 5)),
        atom(ts[i]) is Some && !(ts[i] is Identifier) && ts[i + 1] == SToken::Semicolon ==> p_statement(ts, ps, i)
            == Ok::<(SStmt, int), crate::parser::SParseError>((SStmt::Expression(atom(ts[i]).unwrap()), i + 2)),
        ts[i] == SToken::If && atom(ts[i + 1]) is Some && ts[i + 2] == SToken::LeftBrace && ts[i + 3]
            == SToken::RightBrace && ts[i + 4] == SToken::Else && ts[i + 5] == SToken::LeftBrace && ts[i + 6]
            == SToken::RightBrace ==> p_statement(ts, ps, i) == Ok::<(SStmt, int), crate::parser::SParseError>(
            (
                SStmt::If {
                    condition: atom(ts[i + 1]).unwrap(),
                    statement: Box::new(SStmt::Block(seq![])),
                    else_clause: Some(Box::new(SStmt::Block(seq![]))),
                },
                i + 7,
            ),
        ),
        ts[i] == SToken::While && atom(ts[i + 1]) is Some && ts[i + 2] == SToken::LeftBrace && ts[i + 3]
            == SToken::RightBrace && ts[i + 4] == SToken::Semicolon ==> p_statement(ts, ps, i) == Ok::<
            (SStmt, int),
            crate::parser::SParseError,
        >((SStmt::While { condition: atom(ts[i + 1]).unwrap(), statement: Box::new(SStmt::Block(seq![])) }, i + 4)),
{
    if atom(ts[i + 3]) is Some && ts[i + 4] == SToken::Semicolon {
        lemma_atom_expression(ts, ps, i + 3);
    }
    if atom(ts[i + 2]) is Some && (ts[i + 3] == SToken::Semicolon || ts[i + 3] == SToken::RightParen) {
        lemma_atom_expression(ts, ps, i + 2);
    }
    if atom(ts[i]) is Some && ts[i + 1] == SToken::Semicolon {
        lemma_atom_expression(ts, ps, i);
    }
    if atom(ts[i + 1]) is Some && ts[i + 2] == SToken::LeftBrace {
        lemma_atom_expression(ts, ps, i + 1);
        if ts[i + 3] == SToken::RightBrace {
            assert(crate::parser::p_block_items(ts, ps, i + 3) == Ok::<
                (Seq<SStmt>, int),
                crate::parser::SParseError,
            >((seq![], i + 3)));
            assert(crate::parser::p_block(ts, ps, i + 2) == Ok::<(SStmt, int), crate::parser::SParseError>(
                (SStmt::Block(seq![]), i + 4),
            ));
            assert(p_statement(ts, ps, i + 2) == crate::parser::p_block(ts, ps, i + 2));
            if ts[i + 4] == SToken::Else && ts[i + 5] == SToken::LeftBrace && ts[i + 6] == SToken::RightBrace {
                assert(crate::parser::p_block_items(ts, ps, i + 6) == Ok::<
                    (Seq<SStmt>, int),
                    crate::parser::SParseError,
                >((seq![], i + 6)));
                assert(crate::parser::p_block(ts, ps, i + 5) == Ok::<(SStmt, int), crate::parser::SParseError>(
                    (SStmt::Block(seq![]), i + 7),
                ));
                assert(p_statement(ts, ps, i + 5) == crate::parser::p_block(ts, ps, i + 5));
            }
        }
    }
}

/// A literal or identifier followed by `;`, `)` or `{` is a whole
/// expression.
proof fn lemma_atom_expression(ts: Seq<SToken>, ps: Seq<Position>, j: int)
    requires
        0 <= j,
        j + 1 < ts.len(),
        atom(ts[j]) is Some,
        ts[j + 1] == SToken::Semicolon || ts[j + 1] == SToken::RightParen || ts[j + 1] == SToken::LeftBrace,
    ensures
        p_expression(ts, ps, j) == Ok::<(SExpr, int), crate::parser::SParseError>((atom(ts[j]).unwrap(), j + 1)),
{
    lemma_level_unique(Level::Or, Level::Or);
    assert(stops(ts[j + 1], Level::Or));
    lemma_level_atom(ts, ps, Level::Or, j);
}

/// Number literals are decimal: one digit is its own value, two digits
/// make ten times the first plus the second, and a run of digits that
/// goes on to the end of its word gives one token that ends with it.
pub proof fn law_numbers(s: Seq<u8>, j: int)
    requires
        0 <= j,
        j + 2 < s.len(),
        48 <= s[j] <= 57,
    ensures
        !(48 <= s[j + 1] <= 57) ==> token_at(s, j) == Ok::<(SToken, int), crate::lexer::SLexError>(
            (SToken::Number((s[j] - 48) as i64), j + 1),
        ),
        48 <= s[j + 1] <= 57 && !(48 <= s[j + 2] <= 57) ==> token_at(s, j) == Ok::<
            (SToken, int),
            crate::lexer::SLexError,
        >((SToken::Number((10 * (s[j] - 48) + (s[j + 1] - 48)) as i64), j + 2)),
{
    let e = scan_end(s, j, ByteClass::Digit);
    lemma_scan_end(s, j, ByteClass::Digit);
    if !(48 <= s[j + 1] <= 57) {
        assert(e == j + 1);
        let d = s.subrange(j, j + 1);
        assert(d.drop_last() =~= Seq::<u8>::empty());
        assert(crate::lexer::digits_value(Seq::<u8>::empty()) == 0);
        assert(d.last() == s[j]);
        assert(crate::lexer::digits_value(d) == (s[j] - 48) as nat);
    } else if !(48 <= s[j + 2] <= 57) {
        assert(e == j + 2);
        let d = s.subrange(j, j + 2);
        assert(d.drop_last() =~= s.subrange(j, j + 1));
        assert(s.subrange(j, j + 1).drop_last() =~= Seq::<u8>::empty());
        assert(crate::lexer::digits_value(Seq::<u8>::empty()) == 0);
        assert(s.subrange(j, j + 1).last() == s[j]);
        assert(d.last() == s[j + 1]);
        assert(crate::lexer::digits_value(s.subrange(j, j + 1)) == (s[j] - 48) as nat);
        assert(crate::lexer::digits_value(d) == (10 * (s[j] - 48) + (s[j + 1] - 48)) as nat);
    }
}

} // verus!
