//! Static checking before execution, through every statement, including
//! those that `if` and `while` control: every variable must be declared
//! before use, and the operand types of each operator must be the ones it
//! takes. A variable has the type of the value last assigned to it; under
//! an `if` or `while`, one declared outside must keep its type, and a bare
//! `let` declares only on its own branch.
use vstd::prelude::*;
use vstd::utf8::{valid_utf8, decode_utf8};
use crate::ast::{BinaryOp, Expr, Program, Statement, SExpr, SStmt};
use crate::scope::{Scopes, assign, declared_from, lookup, declare};
use crate::text::lossy_string;

verus! {

/// The static type of a value.
#[derive(Debug, Clone, Copy, PartialEq, Eq, Structural)]
pub enum Type {
    Number,
    Boolean,
    String,
}

impl View for Type {
    type V = Type;

    open spec fn view(&self) -> Type {
        *self
    }
}

/// Errors that can occur during checking.
#[derive(Debug, Clone, PartialEq, Eq)]
pub enum SemaError {
    /// A variable was used or assigned that no enclosing scope declares.
    UndefinedVariable(String),
    /// A `let` declared a variable that the same scope already declares (or,
    /// as the whole statement under an `if` or `while`, one that any scope
    /// declares).
    DuplicateVariable(String),
    /// An operand or a condition had another type than the one required,
    /// or an assignment under an `if` or `while` would change the type of a
    /// variable declared outside it.
    UnexpectedType { expected: Type, found: Type },
    /// The operands of `==` or `!=` had different types.
    MismatchedTypes { left: Type, right: Type },
}

/// A checking error as the analysis finds it, with variable names as bytes.
pub enum CheckError {
    UndefinedVariable(Seq<u8>),
    DuplicateVariable(Seq<u8>),
    UnexpectedType { expected: Type, found: Type },
    MismatchedTypes { left: Type, right: Type },
}

/// The view of a [`SemaError`], with names as characters.
pub enum SemaErrorView {
    UndefinedVariable(Seq<char>),
    DuplicateVariable(Seq<char>),
    UnexpectedType { expected: Type, found: Type },
    MismatchedTypes { left: Type, right: Type },
}

impl View for SemaError {
    type V = SemaErrorView;

    open spec fn view(&self) -> SemaErrorView {
        match self {
            SemaError::UndefinedVariable(n) => SemaErrorView::UndefinedVariable(n@),
            SemaError::DuplicateVariable(n) => SemaErrorView::DuplicateVariable(n@),
            SemaError::UnexpectedType { expected, found } => SemaErrorView::UnexpectedType {
                expected: *expected,
                found: *found,
            },
            SemaError::MismatchedTypes { left, right } => SemaErrorView::MismatchedTypes {
                left: *left,
                right: *right,
            },
        }
    }
}

/// The error as reported: names decoded from UTF-8.
pub open spec fn render(e: CheckError) -> SemaErrorView {
    match e {
        CheckError::UndefinedVariable(n) => SemaErrorView::UndefinedVariable(decode_utf8(n)),
        CheckError::DuplicateVariable(n) => SemaErrorView::DuplicateVariable(decode_utf8(n)),
        CheckError::UnexpectedType { expected, found } => SemaErrorView::UnexpectedType { expected, found },
        CheckError::MismatchedTypes { left, right } => SemaErrorView::MismatchedTypes { left, right },
    }
}

/// The error names a variable whose bytes are valid UTF-8 (or no variable).
pub open spec fn printable(e: CheckError) -> bool {
    match e {
        CheckError::UndefinedVariable(n) => valid_utf8(n),
        CheckError::DuplicateVariable(n) => valid_utf8(n),
        _ => true,
    }
}

pub type TypeEnv = Seq<Map<Seq<u8>, Type>>;

// ---------------------------------------------------------------------------
// The typing rules.
// ---------------------------------------------------------------------------

/// The result type of `op` on operands of types `left` and `right`:
/// arithmetic takes numbers and gives a number; ordering comparisons take
/// numbers and give a boolean; `==` and `!=` take two operands of one type
/// and give a boolean; `&&` and `||` take booleans and give a boolean.
/// The type an error reports as found is that of the first operand that
/// breaks the operator's rule.
pub open spec fn check_op(op: BinaryOp, left: Type, right: Type) -> Result<Type, CheckError> {
    match op {
        BinaryOp::Add | BinaryOp::Sub | BinaryOp::Mul | BinaryOp::Div => {
            if left != Type::Number || right != Type::Number {
                Err(CheckError::UnexpectedType {
                    expected: Type::Number,
                    found: if left != Type::Number { left } else { right },
                })
            } else {
                Ok(Type::Number)
            }
        },
        BinaryOp::Less | BinaryOp::LessEqual | BinaryOp::Greater | BinaryOp::GreaterEqual => {
            if left != Type::Number || right != Type::Number {
                Err(CheckError::UnexpectedType {
                    expected: Type::Number,
                    found: if left != Type::Number { left } else { right },
                })
            } else {
                Ok(Type::Boolean)
            }
        },
        BinaryOp::Equal | BinaryOp::NotEqual => {
            if left != right {
                Err(CheckError::MismatchedTypes { left, right })
            } else {
                Ok(Type::Boolean)
            }
        },
        BinaryOp::And | BinaryOp::Or => {
            if left != Type::Boolean || right != Type::Boolean {
                Err(CheckError::UnexpectedType {
                    expected: Type::Boolean,
                    found: if left != Type::Boolean { left } else { right },
                })
            } else {
                Ok(Type::Boolean)
            }
        },
    }
}

/// Whether an operator accepts its operands, and the type it gives, do not
/// depend on their order.
pub proof fn law_check_op_symmetric(op: BinaryOp, left: Type, right: Type)
    ensures
        check_op(op, left, right) is Ok <==> check_op(op, right, left) is Ok,
        check_op(op, left, right) is Ok ==> check_op(op, left, right) == check_op(op, right, left),
{
}

/// The rules of the operators: arithmetic takes two numbers and gives a
/// number, ordering takes two numbers and gives a boolean, `==` and `!=`
/// take two operands of one type and give a boolean, `&&` and `||` take two
/// booleans and give a boolean; a refused pair of operands of `==` or `!=`
/// is reported as it stands, and otherwise the type reported as found is
/// that of an operand, one that is not the type expected.
pub proof fn law_check_op_rules(op: BinaryOp, left: Type, right: Type)
    ensures
        (op is Add || op is Sub || op is Mul || op is Div) ==> (check_op(op, left, right) is Ok <==> (left
            == Type::Number && right == Type::Number)),
        (op is Less || op is LessEqual || op is Greater || op is GreaterEqual) ==> (check_op(op, left, right)
            is Ok <==> (left == Type::Number && right == Type::Number)),
        (op is Equal || op is NotEqual) ==> (check_op(op, left, right) is Ok <==> left == right),
        (op is And || op is Or) ==> (check_op(op, left, right) is Ok <==> (left == Type::Boolean && right
            == Type::Boolean)),
        check_op(op, left, right) matches Ok(t) ==> t == (if op is Add || op is Sub || op is Mul || op is Div {
            Type::Number
        } else {
            Type::Boolean
        }),
        (op is Equal || op is NotEqual) && left != right ==> check_op(op, left, right) == Err::<Type, CheckError>(
            CheckError::MismatchedTypes { left, right },
        ),
        check_op(op, left, right) matches Err(CheckError::UnexpectedType { expected, found }) ==> {
            &&& found != expected
            &&& (found == left || found == right)
            &&& expected == (if op is And || op is Or { Type::Boolean } else { Type::Number })
        },
{
}

/// The type of an expression in scopes `env`, or the first error, operands
/// left to right.
pub open spec fn check_expr(env: TypeEnv, e: SExpr) -> Result<Type, CheckError>
    decreases e,
{
    match e {
        SExpr::Number(_) => Ok(Type::Number),
        SExpr::Boolean(_) => Ok(Type::Boolean),
        SExpr::Str(_) => Ok(Type::String),
        SExpr::Identifier(name) => match lookup(env, name) {
            Some(t) => Ok(t),
            None => Err(CheckError::UndefinedVariable(name)),
        },
        SExpr::Binary { left, operator, right } => match check_expr(env, *left) {
            Err(err) => Err(err),
            Ok(l) => match check_expr(env, *right) {
                Err(err) => Err(err),
                Ok(r) => check_op(operator, l, r),
            },
        },
    }
}

/// Checking a condition: it must be a boolean.
pub open spec fn check_condition(env: TypeEnv, c: SExpr) -> Result<(), CheckError> {
    match check_expr(env, c) {
        Err(err) => Err(err),
        Ok(t) => if t != Type::Boolean {
            Err(CheckError::UnexpectedType { expected: Type::Boolean, found: t })
        } else {
            Ok(())
        },
    }
}

/// The scopes after checking a statement, and its result; `base` is the
/// number of scopes that were open where the innermost `if` or `while`
/// around the statement stands (0 outside any).
///
/// `let` declares in the innermost scope, where the name must be new. An
/// assignment needs the name declared in some scope; the variable then has
/// the type of the value, except that one declared outside the innermost
/// `if` or `while` around it (in a scope below `base`) must keep its type,
/// since after the `if` or `while` it may hold either. A block checks its
/// statements in a new scope, dropped at its end. `if` and `while` check
/// their condition, which must be a boolean, then the statements they
/// control (see [`check_branch`]), and leave the scopes as they were.
pub open spec fn check_stmt(env: TypeEnv, s: SStmt, base: int) -> (TypeEnv, Result<(), CheckError>)
    decreases s, 1nat,
{
    match s {
        SStmt::Let { name, value } => match check_expr(env, value) {
            Err(err) => (env, Err(err)),
            Ok(t) => if env.last().contains_key(name) {
                (env, Err(CheckError::DuplicateVariable(name)))
            } else {
                (declare(env, name, t), Ok(()))
            },
        },
        SStmt::Assign { name, value } => match check_expr(env, value) {
            Err(err) => (env, Err(err)),
            Ok(t) => match lookup(env, name) {
                None => (env, Err(CheckError::UndefinedVariable(name))),
                Some(declared) => if declared != t && !declared_from(env, name, base) {
                    (env, Err(CheckError::UnexpectedType { expected: declared, found: t }))
                } else {
                    (assign(env, name, t), Ok(()))
                },
            },
        },
        SStmt::Print(e) => match check_expr(env, e) {
            Err(err) => (env, Err(err)),
            Ok(_) => (env, Ok(())),
        },
        SStmt::Expression(e) => match check_expr(env, e) {
            Err(err) => (env, Err(err)),
            Ok(_) => (env, Ok(())),
        },
        SStmt::Block(ss) => {
            let (inner, r) = check_stmts(env.push(Map::empty()), ss, base);
            match r {
                Err(err) => (inner, Err(err)),
                Ok(()) => (inner.drop_last(), Ok(())),
            }
        },
        SStmt::If { condition, statement, else_clause } => match check_condition(env, condition) {
            Err(err) => (env, Err(err)),
            Ok(()) => {
                let (then_env, then_r) = check_branch(env, *statement);
                match then_r {
                    Err(err) => (then_env, Err(err)),
                    Ok(()) => match else_clause {
                        None => (env, Ok(())),
                        Some(other) => {
                            let (else_env, else_r) = check_branch(env, *other);
                            match else_r {
                                Err(err) => (else_env, Err(err)),
                                Ok(()) => (env, Ok(())),
                            }
                        },
                    },
                }
            },
        },
        SStmt::While { condition, statement } => match check_condition(env, condition) {
            Err(err) => (env, Err(err)),
            Ok(()) => {
                let (body_env, body_r) = check_branch(env, *statement);
                match body_r {
                    Err(err) => (body_env, Err(err)),
                    Ok(()) => (env, Ok(())),
                }
            },
        },
    }
}

/// Checking a statement that an `if`, `else` or `while` controls, in the
/// current scopes, with those scopes as the new `base`. A bare `let` there
/// declares only when its branch runs, so after it the name is not known
/// to be declared: its value is checked, and the name may not be declared
/// in any scope yet (it would hide that declaration only on some runs).
pub open spec fn check_branch(env: TypeEnv, s: SStmt) -> (TypeEnv, Result<(), CheckError>)
    decreases s, 2nat,
{
    match s {
        SStmt::Let { name, value } => match check_expr(env, value) {
            Err(err) => (env, Err(err)),
            Ok(_) => if lookup(env, name) is Some {
                (env, Err(CheckError::DuplicateVariable(name)))
            } else {
                (env, Ok(()))
            },
        },
        _ => check_stmt(env, s, env.len() as int),
    }
}

/// Checking statements in order, stopping at the first error.
pub open spec fn check_stmts(env: TypeEnv, ss: Seq<SStmt>, base: int) -> (TypeEnv, Result<(), CheckError>)
    decreases ss, 0nat,
{
    if ss.len() == 0 {
        (env, Ok(()))
    } else {
        let (mid, r) = check_stmts(env, ss.drop_last(), base);
        match r {
            Err(err) => (mid, Err(err)),
            Ok(()) => check_stmt(mid, ss.last(), base),
        }
    }
}

/// Once a prefix of the statements fails, so do all of them, alike.
pub proof fn lemma_check_stmts_prefix_error(env: TypeEnv, ss: Seq<SStmt>, m: int, base: int)
    requires
        0 <= m <= ss.len(),
        check_stmts(env, ss.take(m), base).1 is Err,
    ensures
        check_stmts(env, ss, base) == check_stmts(env, ss.take(m), base),
    decreases ss.len() - m,
{
    if m < ss.len() {
        assert(ss.take(m + 1).drop_last() =~= ss.take(m));
        lemma_check_stmts_prefix_error(env, ss, m + 1, base);
    } else {
        assert(ss.take(m) =~= ss);
    }
}

/// What a statement that passes the check changes in the scopes: their
/// number stays; no scope but the innermost gains or loses a name (and a
/// statement other than `let` changes no scope's names); and below `base`
/// every variable keeps its type.
pub open spec fn keeps_frame(env: TypeEnv, after: TypeEnv, base: int) -> bool {
    &&& after.len() == env.len()
    &&& forall|k: int| 0 <= k < env.len() - 1 ==> (#[trigger] after[k]).dom() == env[k].dom()
    &&& forall|k: int, n: Seq<u8>|
        0 <= k < base && k < env.len() && #[trigger] env[k].contains_key(n) ==> after[k].contains_key(n)
            && after[k][n] == env[k][n]
}

/// Checking a statement that succeeds keeps the frame of the scopes; a
/// statement other than `let` keeps the names of the innermost scope too.
pub proof fn lemma_check_keeps_depth(env: TypeEnv, s: SStmt, base: int)
    requires
        env.len() > 0,
        0 <= base <= env.len(),
    ensures
        check_stmt(env, s, base).1 is Ok ==> keeps_frame(env, check_stmt(env, s, base).0, base),
        check_stmt(env, s, base).1 is Ok && !(s is Let) ==> check_stmt(env, s, base).0.last().dom()
            == env.last().dom(),
    decreases s,
{
    let (after, r) = check_stmt(env, s, base);
    if r is Ok {
        match s {
            SStmt::Block(ss) => {
                let pushed = env.push(Map::empty());
                lemma_check_stmts_keeps_depth(pushed, ss, base);
                let inner = check_stmts(pushed, ss, base).0;
                assert forall|k: int| 0 <= k < env.len() implies (#[trigger] after[k]).dom() == env[k].dom() by {
                    assert(after[k] == inner[k]);
                    assert(pushed[k] == env[k]);
                }
                assert forall|k: int, n: Seq<u8>|
                    0 <= k < base && k < env.len() && #[trigger] env[k].contains_key(n) implies after[k].contains_key(n)
                        && after[k][n] == env[k][n] by {
                    assert(after[k] == inner[k]);
                    assert(pushed[k] == env[k]);
                }
            },
            SStmt::Let { name, value } => {
                assert forall|k: int| 0 <= k < env.len() - 1 implies (#[trigger] after[k]).dom() == env[k].dom() by {
                    assert(after[k] == env[k]);
                }
            },
            SStmt::Assign { name, value } => {
                if let Ok(t) = check_expr(env, value) {
                    crate::scope::lemma_assign_domains(env, name, t);
                    if lookup(env, name) == Some(t) {
                        crate::scope::lemma_assign_same(env, name, t);
                    } else {
                        crate::scope::lemma_assign_above(env, name, t, base);
                    }
                }
            },
            _ => {},
        }
    }
}

/// The same, for statements in order.
pub proof fn lemma_check_stmts_keeps_depth(env: TypeEnv, ss: Seq<SStmt>, base: int)
    requires
        env.len() > 0,
        0 <= base <= env.len(),
    ensures
        check_stmts(env, ss, base).1 is Ok ==> keeps_frame(env, check_stmts(env, ss, base).0, base),
    decreases ss,
{
    if ss.len() > 0 {
        lemma_check_stmts_keeps_depth(env, ss.drop_last(), base);
        let (mid, r) = check_stmts(env, ss.drop_last(), base);
        if r is Ok {
            lemma_check_keeps_depth(mid, ss.last(), base);
            let after = check_stmts(env, ss, base).0;
            if check_stmts(env, ss, base).1 is Ok {
                assert forall|k: int, n: Seq<u8>|
                    0 <= k < base && k < env.len() && #[trigger] env[k].contains_key(n) implies after[k].contains_key(n)
                        && after[k][n] == env[k][n] by {
                    assert(mid[k].contains_key(n));
                }
                assert forall|k: int| 0 <= k < env.len() - 1 implies (#[trigger] after[k]).dom() == env[k].dom() by {
                    assert(mid[k].dom() == env[k].dom());
                }
            }
        }
    }
}

/// Variables declared in a block are gone once it ends: a block that
/// passes the check leaves the scopes with the names they had before it;
/// and below `base`, exactly as they were.
pub proof fn law_checked_block_restores_scopes(env: TypeEnv, ss: Seq<SStmt>, base: int)
    requires
        env.len() > 0,
        0 <= base <= env.len(),
        check_stmt(env, SStmt::Block(ss), base).1 is Ok,
    ensures
        check_stmt(env, SStmt::Block(ss), base).0.len() == env.len(),
        forall|k: int| 0 <= k < env.len() ==> (#[trigger] check_stmt(env, SStmt::Block(ss), base).0[k]).dom()
            == env[k].dom(),
        base == env.len() ==> check_stmt(env, SStmt::Block(ss), base).0 == env,
{
    lemma_check_keeps_depth(env, SStmt::Block(ss), base);
    if base == env.len() {
        lemma_frame_kept(env, check_stmt(env, SStmt::Block(ss), base).0);
    }
}

/// Scopes with the same names in each, all of whose variables keep their
/// types, are the same scopes.
proof fn lemma_frame_kept(env: TypeEnv, after: TypeEnv)
    requires
        keeps_frame(env, after, env.len() as int),
        env.len() > 0 ==> after.last().dom() == env.last().dom(),
    ensures
        after == env,
{
    assert forall|k: int| 0 <= k < env.len() implies #[trigger] after[k] == env[k] by {
        assert(after[k].dom() == env[k].dom());
        assert(after[k] =~= env[k]);
    }
    assert(after =~= env);
}

/// A statement that an `if`, `else` or `while` controls leaves the scopes
/// as they were, when it passes the check.
pub proof fn lemma_check_branch_keeps_scopes(env: TypeEnv, s: SStmt)
    requires
        env.len() > 0,
    ensures
        check_branch(env, s).1 is Ok ==> check_branch(env, s).0 == env,
{
    if !(s is Let) {
        lemma_check_keeps_depth(env, s, env.len() as int);
        if check_branch(env, s).1 is Ok {
            lemma_frame_kept(env, check_branch(env, s).0);
        }
    }
}

/// A `let` whose value checks is refused exactly when the innermost scope
/// already declares the name: shadowing a name of an enclosing scope is
/// allowed.
pub proof fn law_let_refuses_only_same_scope_duplicates(env: TypeEnv, name: Seq<u8>, value: SExpr, base: int)
    requires
        env.len() > 0,
        check_expr(env, value) is Ok,
    ensures
        check_stmt(env, SStmt::Let { name, value }, base).1 is Err <==> env.last().contains_key(name),
        check_expr(env, value) matches Ok(t) ==> (!env.last().contains_key(name) ==> lookup(
            check_stmt(env, SStmt::Let { name, value }, base).0,
            name,
        ) == Some(t)),
{
}

} // verus!

verus! {

/// The exec result `r` of checking an expression is what `spec` gives.
pub open spec fn type_outcome(spec: Result<Type, CheckError>, r: Result<Type, SemaError>) -> bool {
    match spec {
        Ok(t) => r == Ok::<Type, SemaError>(t),
        Err(e) => r matches Err(re) && re@ == render(e),
    }
}

/// The exec result `r` of checking statements is what `spec` gives.
pub open spec fn unit_outcome(spec: Result<(), CheckError>, r: Result<(), SemaError>) -> bool {
    match spec {
        Ok(()) => r is Ok,
        Err(e) => r matches Err(re) && re@ == render(e),
    }
}

/// The failure of `r`, if any, is printable.
pub open spec fn printable_failure<T>(r: Result<T, CheckError>) -> bool {
    r matches Err(e) ==> printable(e)
}

/// Converts a variable name to a `String` for an error message; the name
/// must be valid UTF-8 (the lexer only makes ASCII names).
fn name_as_string(name: &[u8]) -> (s: String)
    requires
        valid_utf8(name@),
    ensures
        s@ == decode_utf8(name@),
{
    lossy_string(name)
}

impl BinaryOp {
    /// Checks that `left` and `right` are operand types of this operator
    /// and gives the result type.
    fn check(self, left: Type, right: Type) -> (r: Result<Type, SemaError>)
        ensures
            type_outcome(check_op(self, left, right), r),
    {
        match self {
            BinaryOp::Add | BinaryOp::Sub | BinaryOp::Mul | BinaryOp::Div => {
                if left != Type::Number || right != Type::Number {
                    return Err(SemaError::UnexpectedType {
                        expected: Type::Number,
                        found: if left != Type::Number { left } else { right },
                    });
                }
                Ok(Type::Number)
            },
            BinaryOp::Less | BinaryOp::LessEqual | BinaryOp::Greater | BinaryOp::GreaterEqual => {
                if left != Type::Number || right != Type::Number {
                    return Err(SemaError::UnexpectedType {
                        expected: Type::Number,
                        found: if left != Type::Number { left } else { right },
                    });
                }
                Ok(Type::Boolean)
            },
            BinaryOp::Equal | BinaryOp::NotEqual => {
                if left != right {
                    return Err(SemaError::MismatchedTypes { left, right });
                }
                Ok(Type::Boolean)
            },
            BinaryOp::And | BinaryOp::Or => {
                if left != Type::Boolean || right != Type::Boolean {
                    return Err(SemaError::UnexpectedType {
                        expected: Type::Boolean,
                        found: if left != Type::Boolean { left } else { right },
                    });
                }
                Ok(Type::Boolean)
            },
        }
    }
}

/// How a type is named in diagnostic messages, e.g. in
/// `expected number, found boolean`.
pub open spec fn type_text(t: Type) -> Seq<char> {
    match t {
        Type::Number => "number"@,
        Type::Boolean => "boolean"@,
        Type::String => "string"@,
    }
}

impl Type {
    /// The type's name as diagnostic messages write it.
    pub fn to_string(&self) -> (s: String)
        ensures
            s@ == type_text(*self),
    {
        match self {
            Type::Number => String::from_str("number"),
            Type::Boolean => String::from_str("boolean"),
            Type::String => String::from_str("string"),
        }
    }
}

/// The message of a checking error, e.g. `expected number, found boolean`.
pub open spec fn sema_error_text(e: SemaErrorView) -> Seq<char> {
    match e {
        SemaErrorView::UndefinedVariable(n) => "undefined variable '"@ + n + "'"@,
        SemaErrorView::DuplicateVariable(n) => "variable '"@ + n + "' is already defined"@,
        SemaErrorView::UnexpectedType { expected, found } => "expected "@ + type_text(expected) + ", found "@
            + type_text(found),
        SemaErrorView::MismatchedTypes { left, right } => "mismatched types: '"@ + type_text(left) + "' and '"@
            + type_text(right) + "'"@,
    }
}

impl SemaError {
    /// The error's message.
    pub fn to_string(&self) -> (s: String)
        ensures
            s@ == sema_error_text(self@),
    {
        match self {
            SemaError::UndefinedVariable(n) => {
                let mut s = String::from_str("undefined variable '");
                s.append(n.as_str());
                s.append("'");
                s
            },
            SemaError::DuplicateVariable(n) => {
                let mut s = String::from_str("variable '");
                s.append(n.as_str());
                s.append("' is already defined");
                s
            },
            SemaError::UnexpectedType { expected, found } => {
                let mut s = String::from_str("expected ");
                s.append(expected.to_string().as_str());
                s.append(", found ");
                s.append(found.to_string().as_str());
                s
            },
            SemaError::MismatchedTypes { left, right } => {
                let mut s = String::from_str("mismatched types: '");
                s.append(left.to_string().as_str());
                s.append("' and '");
                s.append(right.to_string().as_str());
                s.append("'");
                s
            },
        }
    }
}

/// Performs one static-checking pass over programs, keeping a stack of
/// scopes from variable names to types.
pub struct Sema<'a> {
    scopes: Scopes<'a, Type>,
}

impl<'a> Sema<'a> {
    /// The scopes: variable names and their types, innermost last.
    pub closed spec fn env(&self) -> TypeEnv {
        self.scopes@
    }

    /// An analysis with one empty, top-level scope.
    pub fn new() -> (s: Self)
        ensures
            s.env() == seq![Map::<Seq<u8>, Type>::empty()],
    {
        Sema { scopes: Scopes::new() }
    }

    /// Checks a whole program, statement by statement, in the current
    /// scopes, stopping at the first error; a name in an error must be
    /// valid UTF-8.
    pub fn check(&mut self, program: &Program<'a>) -> (r: Result<(), SemaError>)
        requires
            old(self).env().len() > 0,
            printable_failure(check_stmts(old(self).env(), program@, 0).1),
        ensures
            final(self).env() == check_stmts(old(self).env(), program@, 0).0,
            unit_outcome(check_stmts(old(self).env(), program@, 0).1, r),
    {
        self.check_statements(&program.statements, 0)
    }

    /// Checks statements in order, stopping at the first error.
    fn check_statements(&mut self, statements: &Vec<Statement<'a>>, base: usize) -> (r: Result<(), SemaError>)
        requires
            old(self).env().len() > 0,
            base <= old(self).env().len(),
            printable_failure(check_stmts(old(self).env(), crate::ast::stmts_view(statements@), base as int).1),
        ensures
            final(self).env() == check_stmts(old(self).env(), crate::ast::stmts_view(statements@), base as int).0,
            unit_outcome(check_stmts(old(self).env(), crate::ast::stmts_view(statements@), base as int).1, r),
            r is Ok ==> final(self).env().len() == old(self).env().len(),
        decreases statements@, 0nat,
    {
        let ghost ss = crate::ast::stmts_view(statements@);
        let ghost env0 = self.env();
        let ghost b = base as int;
        let mut i: usize = 0;
        assert(ss.take(0) =~= Seq::<SStmt>::empty());
        while i < statements.len()
            invariant
                i <= statements@.len(),
                ss == crate::ast::stmts_view(statements@),
                env0 == old(self).env(),
                env0.len() > 0,
                b == base,
                base <= env0.len(),
                printable_failure(check_stmts(env0, ss, b).1),
                check_stmts(env0, ss.take(i as int), b) == (self.env(), Ok::<(), CheckError>(())),
                self.env().len() == env0.len(),
            decreases statements@.len() - i,
        {
            assert(ss.take(i + 1).drop_last() =~= ss.take(i as int));
            assert(ss.take(i + 1).last() == statements@[i as int]@);
            let ghost before = self.env();
            proof {
                if check_stmt(before, statements@[i as int]@, b).1 is Err {
                    lemma_check_stmts_prefix_error(env0, ss, i + 1, b);
                }
                lemma_check_keeps_depth(before, statements@[i as int]@, b);
            }
            match self.check_statement(&statements[i], base) {
                Ok(()) => {},
                Err(e) => {
                    proof {
                        lemma_check_stmts_prefix_error(env0, ss, i + 1, b);
                    }
                    return Err(e);
                },
            }
            i = i + 1;
        }
        assert(ss.take(i as int) =~= ss);
        Ok(())
    }

    /// Checks one statement, updating the scopes: `let` declares in the
    /// innermost scope, an assignment gives the variable the value's type,
    /// a block opens and closes a scope, `if` and `while` check what they
    /// control in the current scopes.
    fn check_statement(&mut self, stmt: &Statement<'a>, base: usize) -> (r: Result<(), SemaError>)
        requires
            old(self).env().len() > 0,
            base <= old(self).env().len(),
            printable_failure(check_stmt(old(self).env(), stmt@, base as int).1),
        ensures
            final(self).env() == check_stmt(old(self).env(), stmt@, base as int).0,
            unit_outcome(check_stmt(old(self).env(), stmt@, base as int).1, r),
        decreases stmt, 0nat,
    {
        match stmt {
            Statement::Let { name, value } => {
                let value_type = self.check_expr(value)?;
                // Declaring a name twice in one scope is an error; shadowing
                // a name of an enclosing scope is not.
                if self.scopes.innermost_declares(name) {
                    return Err(SemaError::DuplicateVariable(name_as_string(name)));
                }
                self.scopes.declare(name, value_type);
                Ok(())
            },
            Statement::Assign { name, value } => {
                let value_type = self.check_expr(value)?;
                match self.scopes.get(name) {
                    None => Err(SemaError::UndefinedVariable(name_as_string(name))),
                    Some(declared) => {
                        // Outside the innermost `if` or `while`, a variable
                        // keeps its type there.
                        if declared != value_type && !self.scopes.declares_from(name, base) {
                            return Err(SemaError::UnexpectedType { expected: declared, found: value_type });
                        }
                        let _ = self.scopes.assign(name, value_type);
                        Ok(())
                    },
                }
            },
            Statement::Print(expr) => {
                self.check_expr(expr)?;
                Ok(())
            },
            Statement::Block(statements) => {
                self.scopes.push_scope();
                proof {
                    crate::ast::lemma_stmt_view_block(*stmt);
                }
                self.check_statements(statements, base)?;
                self.scopes.pop_scope();
                Ok(())
            },
            Statement::If { condition, statement, else_clause } => {
                let condition = self.check_expr(condition)?;
                if condition != Type::Boolean {
                    return Err(SemaError::UnexpectedType { expected: Type::Boolean, found: condition });
                }
                let ghost env0 = self.env();
                proof {
                    lemma_check_branch_keeps_scopes(env0, (**statement)@);
                }
                self.check_branch(statement)?;
                match else_clause {
                    Some(other) => {
                        proof {
                            lemma_check_branch_keeps_scopes(env0, (**other)@);
                        }
                        self.check_branch(other)?;
                    },
                    None => {},
                }
                Ok(())
            },
            Statement::While { condition, statement } => {
                let condition = self.check_expr(condition)?;
                if condition != Type::Boolean {
                    return Err(SemaError::UnexpectedType { expected: Type::Boolean, found: condition });
                }
                proof {
                    lemma_check_branch_keeps_scopes(self.env(), (**statement)@);
                }
                self.check_branch(statement)?;
                Ok(())
            },
            Statement::Expression(expr) => {
                self.check_expr(expr)?;
                Ok(())
            },
        }
    }

    /// Checks a statement that an `if`, `else` or `while` controls, in the
    /// current scopes.
    fn check_branch(&mut self, stmt: &Statement<'a>) -> (r: Result<(), SemaError>)
        requires
            old(self).env().len() > 0,
            printable_failure(check_branch(old(self).env(), stmt@).1),
        ensures
            final(self).env() == check_branch(old(self).env(), stmt@).0,
            unit_outcome(check_branch(old(self).env(), stmt@).1, r),
        decreases stmt, 1nat,
    {
        match stmt {
            Statement::Let { name, value } => {
                // Declared on some runs only: checked, but not declared, and
                // it may not hide a name that a scope declares.
                self.check_expr(value)?;
                if self.scopes.get(name).is_some() {
                    return Err(SemaError::DuplicateVariable(name_as_string(name)));
                }
                Ok(())
            },
            _ => {
                let depth = self.scopes.depth();
                self.check_statement(stmt, depth)
            },
        }
    }

    /// Type-checks an expression and gives its type.
    fn check_expr(&self, expr: &Expr<'a>) -> (r: Result<Type, SemaError>)
        requires
            printable_failure(check_expr(self.env(), expr@)),
        ensures
            type_outcome(check_expr(self.env(), expr@), r),
        decreases expr,
    {
        match expr {
            Expr::Number(_) => Ok(Type::Number),
            Expr::Boolean(_) => Ok(Type::Boolean),
            Expr::String(_) => Ok(Type::String),
            Expr::Identifier(name) => match self.scopes.get(name) {
                Some(t) => Ok(t),
                None => Err(SemaError::UndefinedVariable(name_as_string(name))),
            },
            Expr::Binary { left, right, operator } => {
                let left = self.check_expr(left)?;
                let right = self.check_expr(right)?;
                let result = operator.check(left, right)?;
                Ok(result)
            },
        }
    }
}

impl<'a> Default for Sema<'a> {
    /// The same as [`Sema::new`].
    fn default() -> (s: Self)
        ensures
            s.env() == seq![Map::<Seq<u8>, Type>::empty()],
    {
        Sema::new()
    }
}

} // verus!
