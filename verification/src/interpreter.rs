//! The tree-walking interpreter: runs a program directly on its syntax
//! tree, keeping a stack of scopes from variable names to values.
//!
//! What `print` prints is kept, in order, as the interpreter's output.
use vstd::prelude::*;
use vstd::utf8::{valid_utf8, decode_utf8};
use crate::ast::{BinaryOp, Expr, Program, Statement, SExpr, SStmt, stmts_view, lemma_stmt_view_block};
use crate::scope::{Scopes, lookup, assign, declare, bytes_equal};
use crate::text::{decimal, i64_to_string, lossy_string, utf8_lossy};

verus! {

/// A runtime value.
#[derive(Debug, Clone, Copy, PartialEq, Eq)]
pub enum Value<'a> {
    Number(i64),
    Boolean(bool),
    /// A string, borrowing its bytes from the source.
    String(&'a [u8]),
}

/// The view of a [`Value`].
pub enum SValue {
    Number(i64),
    Boolean(bool),
    Str(Seq<u8>),
}

impl<'a> View for Value<'a> {
    type V = SValue;

    open spec fn view(&self) -> SValue {
        match self {
            Value::Number(n) => SValue::Number(*n),
            Value::Boolean(b) => SValue::Boolean(*b),
            Value::String(s) => SValue::Str(s@),
        }
    }
}

/// Errors that can occur while executing a program: they depend on the
/// values computed, not only on their types.
#[derive(Debug, Clone, Copy, PartialEq, Eq, Structural)]
pub enum RuntimeError {
    /// The right operand of `/` was zero.
    DivideByZero,
    /// An arithmetic operation (`+ - * /`) overflowed `i64`.
    ArithmeticOverflow,
}

/// How an execution step can fail: with a runtime error, or stuck on a
/// program that a type check should have rejected (a variable that is not
/// declared, or an operand of the wrong type); execution stops there.
pub enum Fault {
    Runtime(RuntimeError),
    Stuck,
}

pub type ValueEnv = Seq<Map<Seq<u8>, SValue>>;

/// The state of the interpreter: its scopes and what it has printed.
pub struct IState {
    pub env: ValueEnv,
    pub out: Seq<SValue>,
}

// ---------------------------------------------------------------------------
// The semantics.
// ---------------------------------------------------------------------------

/// The checked result of an arithmetic operation.
pub open spec fn arith_result(r: Option<i64>) -> Result<SValue, Fault> {
    match r {
        Some(n) => Ok(SValue::Number(n)),
        None => Err(Fault::Runtime(RuntimeError::ArithmeticOverflow)),
    }
}

/// The value of `left op right`. Arithmetic on `i64` fails on overflow, and
/// `/` on a zero divisor first; `==` and `!=` compare any two values; the
/// ordering comparisons compare numbers; `&&` and `||` evaluate both
/// operands and count anything but `true` as false.
pub open spec fn eval_op(op: BinaryOp, left: SValue, right: SValue) -> Result<SValue, Fault> {
    match op {
        BinaryOp::Add | BinaryOp::Sub | BinaryOp::Mul | BinaryOp::Div => match (left, right) {
            (SValue::Number(a), SValue::Number(b)) => match op {
                BinaryOp::Add => arith_result(a.checked_add(b)),
                BinaryOp::Sub => arith_result(a.checked_sub(b)),
                BinaryOp::Mul => arith_result(a.checked_mul(b)),
                _ => if b == 0 {
                    Err(Fault::Runtime(RuntimeError::DivideByZero))
                } else {
                    arith_result(a.checked_div(b))
                },
            },
            _ => Err(Fault::Stuck),
        },
        BinaryOp::Equal => Ok(SValue::Boolean(left == right)),
        BinaryOp::NotEqual => Ok(SValue::Boolean(left != right)),
        BinaryOp::Less | BinaryOp::LessEqual | BinaryOp::Greater | BinaryOp::GreaterEqual => match (left, right) {
            (SValue::Number(a), SValue::Number(b)) => Ok(SValue::Boolean(
                match op {
                    BinaryOp::Less => a < b,
                    BinaryOp::LessEqual => a <= b,
                    BinaryOp::Greater => a > b,
                    _ => a >= b,
                },
            )),
            _ => Err(Fault::Stuck),
        },
        BinaryOp::And => Ok(SValue::Boolean(left == SValue::Boolean(true) && right == SValue::Boolean(true))),
        BinaryOp::Or => Ok(SValue::Boolean(left == SValue::Boolean(true) || right == SValue::Boolean(true))),
    }
}

/// The value of an expression in scopes `env`, operands left to right.
pub open spec fn eval(env: ValueEnv, e: SExpr) -> Result<SValue, Fault>
    decreases e,
{
    match e {
        SExpr::Number(n) => Ok(SValue::Number(n)),
        SExpr::Boolean(b) => Ok(SValue::Boolean(b)),
        SExpr::Str(s) => Ok(SValue::Str(s)),
        SExpr::Identifier(name) => match lookup(env, name) {
            Some(v) => Ok(v),
            None => Err(Fault::Stuck),
        },
        SExpr::Binary { left, operator, right } => match eval(env, *left) {
            Err(f) => Err(f),
            Ok(l) => match eval(env, *right) {
                Err(f) => Err(f),
                Ok(r) => eval_op(operator, l, r),
            },
        },
    }
}

/// The outcome of a step: the state after it, and whether it succeeded.
pub type Outcome = (IState, Result<(), Fault>);

/// Running statement `s` from state `st`, where no `while` loop may run
/// its body more than `fuel` times (loops nested in it, one time fewer);
/// `None` when that does not suffice.
pub open spec fn exec_stmt(fuel: nat, st: IState, s: SStmt) -> Option<Outcome>
    decreases fuel, s,
{
    match s {
        SStmt::Let { name, value } => match eval(st.env, value) {
            Err(f) => Some((st, Err(f))),
            Ok(v) => Some((IState { env: declare(st.env, name, v), out: st.out }, Ok(()))),
        },
        SStmt::Assign { name, value } => match eval(st.env, value) {
            Err(f) => Some((st, Err(f))),
            Ok(v) => if lookup(st.env, name) is Some {
                Some((IState { env: assign(st.env, name, v), out: st.out }, Ok(())))
            } else {
                Some((st, Err(Fault::Stuck)))
            },
        },
        SStmt::Print(e) => match eval(st.env, e) {
            Err(f) => Some((st, Err(f))),
            Ok(v) => Some((IState { env: st.env, out: st.out.push(v) }, Ok(()))),
        },
        SStmt::Expression(e) => match eval(st.env, e) {
            Err(f) => Some((st, Err(f))),
            Ok(_) => Some((st, Ok(()))),
        },
        SStmt::Block(ss) => match exec_stmts(fuel, IState { env: st.env.push(Map::empty()), out: st.out }, ss) {
            None => None,
            Some((inner, r)) => match r {
                Err(f) => Some((inner, Err(f))),
                Ok(()) => Some((IState { env: inner.env.drop_last(), out: inner.out }, Ok(()))),
            },
        },
        SStmt::If { condition, statement, else_clause } => match eval(st.env, condition) {
            Err(f) => Some((st, Err(f))),
            Ok(v) => if v == SValue::Boolean(true) {
                exec_stmt(fuel, st, *statement)
            } else {
                match else_clause {
                    Some(other) => exec_stmt(fuel, st, *other),
                    None => Some((st, Ok(()))),
                }
            },
        },
        SStmt::While { condition, statement } => exec_loop(fuel, st, condition, *statement),
    }
}

/// Running `while condition body` from state `st`, with at most `fuel`
/// runs of the body.
pub open spec fn exec_loop(fuel: nat, st: IState, condition: SExpr, body: SStmt) -> Option<Outcome>
    decreases fuel, body,
{
    if fuel == 0 {
        None
    } else {
        match eval(st.env, condition) {
            Err(f) => Some((st, Err(f))),
            Ok(v) => if v == SValue::Boolean(true) {
                match exec_stmt((fuel - 1) as nat, st, body) {
                    None => None,
                    Some((next, r)) => match r {
                        Err(f) => Some((next, Err(f))),
                        Ok(()) => exec_loop((fuel - 1) as nat, next, condition, body),
                    },
                }
            } else {
                Some((st, Ok(())))
            },
        }
    }
}

/// Running statements in order, stopping at the first failure.
pub open spec fn exec_stmts(fuel: nat, st: IState, ss: Seq<SStmt>) -> Option<Outcome>
    decreases fuel, ss,
{
    if ss.len() == 0 {
        Some((st, Ok(())))
    } else {
        match exec_stmts(fuel, st, ss.drop_last()) {
            None => None,
            Some((mid, r)) => match r {
                Err(f) => Some((mid, Err(f))),
                Ok(()) => exec_stmt(fuel, mid, ss.last()),
            },
        }
    }
}

/// The run finished and did not get stuck.
pub open spec fn clean(o: Option<Outcome>) -> bool {
    o matches Some((_, r)) && r != Err::<(), Fault>(Fault::Stuck)
}

/// Running the statements from `st` terminates without getting stuck.
pub open spec fn runs_cleanly(st: IState, ss: Seq<SStmt>) -> bool {
    exists|fuel: nat| clean(#[trigger] exec_stmts(fuel, st, ss))
}

/// Running the statements from `st` comes to an end: some bound on loop
/// runs suffices.
pub open spec fn terminates(st: IState, ss: Seq<SStmt>) -> bool {
    exists|fuel: nat| #[trigger] exec_stmts(fuel, st, ss) is Some
}

/// A bound on loop runs under which the statements run cleanly.
pub open spec fn clean_fuel(st: IState, ss: Seq<SStmt>) -> nat {
    choose|fuel: nat| clean(#[trigger] exec_stmts(fuel, st, ss))
}

/// The outcome of running the statements from `st`.
pub open spec fn run_outcome(st: IState, ss: Seq<SStmt>) -> Outcome {
    exec_stmts(clean_fuel(st, ss), st, ss).unwrap()
}

/// Once a prefix of the statements fails or runs out of fuel, so does
/// the whole sequence, alike.
pub proof fn lemma_exec_stmts_prefix(fuel: nat, st: IState, ss: Seq<SStmt>, m: int)
    requires
        0 <= m <= ss.len(),
        !(exec_stmts(fuel, st, ss.take(m)) matches Some((_, r)) && r is Ok),
    ensures
        exec_stmts(fuel, st, ss) == exec_stmts(fuel, st, ss.take(m)),
    decreases ss.len() - m,
{
    if m < ss.len() {
        assert(ss.take(m + 1).drop_last() =~= ss.take(m));
        lemma_exec_stmts_prefix(fuel, st, ss, m + 1);
    } else {
        assert(ss.take(m) =~= ss);
    }
}

} // verus!

verus! {

/// The exec result `r` of a step that did not get stuck is the failure
/// or success `spec` says.
pub open spec fn step_outcome(spec: Result<(), Fault>, r: Result<(), RuntimeError>) -> bool {
    match spec {
        Ok(()) => r is Ok,
        Err(Fault::Runtime(e)) => r == Err::<(), RuntimeError>(e),
        Err(Fault::Stuck) => false,
    }
}

/// The view of a list of values.
pub open spec fn values_view<'a>(v: Seq<Value<'a>>) -> Seq<SValue> {
    v.map_values(|x: Value<'a>| x@)
}

proof fn lemma_unit_ok(x: Result<(), Fault>)
    requires
        x is Ok,
    ensures
        x == Ok::<(), Fault>(()),
{
    match x {
        Ok(u) => {
            let () = u;
        },
        Err(_) => {},
    }
}

/// Whether two values are equal: same kind and same contents.
fn values_equal(a: Value, b: Value) -> (r: bool)
    ensures
        r == (a@ == b@),
{
    match (a, b) {
        (Value::Number(x), Value::Number(y)) => x == y,
        (Value::Boolean(x), Value::Boolean(y)) => x == y,
        (Value::String(x), Value::String(y)) => bytes_equal(x, y),
        _ => false,
    }
}

fn is_true(v: Value) -> (r: bool)
    ensures
        r == (v@ == SValue::Boolean(true)),
{
    match v {
        Value::Boolean(b) => b,
        _ => false,
    }
}

/// Runs programs statement by statement.
pub struct Interpreter<'a> {
    scopes: Scopes<'a, Value<'a>>,
    output: Vec<Value<'a>>,
}

impl<'a> Interpreter<'a> {
    /// The scopes and the values printed so far.
    pub closed spec fn state(&self) -> IState {
        IState { env: self.scopes@, out: values_view(self.output@) }
    }

    /// An interpreter with one empty, top-level scope and no output.
    pub fn new() -> (i: Self)
        ensures
            i.state() == (IState { env: seq![Map::<Seq<u8>, SValue>::empty()], out: Seq::<SValue>::empty() }),
    {
        let i = Interpreter { scopes: Scopes::new(), output: Vec::new() };
        assert(values_view(i.output@) =~= Seq::<SValue>::empty());
        i
    }

    /// The values printed so far, in order.
    pub fn output(&self) -> (o: &Vec<Value<'a>>)
        ensures
            values_view(o@) == self.state().out,
    {
        &self.output
    }

    /// Runs a whole program, statement by statement, from the current
    /// state; stops at the first runtime error. The program must run to its
    /// end without getting stuck (a program that passes the static analysis
    /// does not get stuck, see `soundness`).
    pub fn run(&mut self, program: &Program<'a>) -> (r: Result<(), RuntimeError>)
        requires
            old(self).state().env.len() > 0,
            runs_cleanly(old(self).state(), program@),
        ensures
            final(self).state() == run_outcome(old(self).state(), program@).0,
            step_outcome(run_outcome(old(self).state(), program@).1, r),
    {
        let ghost fuel = clean_fuel(self.state(), program@);
        self.execute_statements(&program.statements, Ghost(fuel))
    }

    /// Runs statements in order, stopping at the first failure.
    fn execute_statements(&mut self, statements: &Vec<Statement<'a>>, Ghost(fuel): Ghost<nat>) -> (r: Result<(), RuntimeError>)
        requires
            old(self).state().env.len() > 0,
            clean(exec_stmts(fuel, old(self).state(), stmts_view(statements@))),
        ensures
            final(self).state() == exec_stmts(fuel, old(self).state(), stmts_view(statements@)).unwrap().0,
            step_outcome(exec_stmts(fuel, old(self).state(), stmts_view(statements@)).unwrap().1, r),
            r is Ok ==> final(self).state().env.len() == old(self).state().env.len(),
        decreases statements@, 0nat,
    {
        let ghost ss = stmts_view(statements@);
        let ghost st0 = self.state();
        let mut i: usize = 0;
        assert(ss.take(0) =~= Seq::<SStmt>::empty());
        while i < statements.len()
            invariant
                i <= statements@.len(),
                ss == stmts_view(statements@),
                st0 == old(self).state(),
                st0.env.len() > 0,
                clean(exec_stmts(fuel, st0, ss)),
                exec_stmts(fuel, st0, ss.take(i as int)) == Some::<Outcome>((self.state(), Ok::<(), Fault>(()))),
                self.state().env.len() == st0.env.len(),
            decreases statements@.len() - i,
        {
            assert(ss.take(i + 1).drop_last() =~= ss.take(i as int));
            assert(ss.take(i + 1).last() == statements@[i as int]@);
            let ghost before = self.state();
            proof {
                if !(exec_stmt(fuel, before, statements@[i as int]@) matches Some((_, r)) && r is Ok) {
                    lemma_exec_stmts_prefix(fuel, st0, ss, i + 1);
                }
            }
            match self.execute_statement(&statements[i], Ghost(fuel)) {
                Ok(()) => {
                    proof {
                        lemma_unit_ok(exec_stmt(fuel, before, statements@[i as int]@).unwrap().1);
                    }
                    assert(exec_stmts(fuel, st0, ss.take(i + 1)) == Some::<Outcome>((self.state(), Ok::<(), Fault>(()))));
                },
                Err(e) => {
                    proof {
                        lemma_exec_stmts_prefix(fuel, st0, ss, i + 1);
                    }
                    return Err(e);
                },
            }
            i = i + 1;
        }
        assert(ss.take(i as int) =~= ss);
        Ok(())
    }

    /// Runs one statement.
    fn execute_statement(&mut self, stmt: &Statement<'a>, Ghost(fuel): Ghost<nat>) -> (r: Result<(), RuntimeError>)
        requires
            old(self).state().env.len() > 0,
            clean(exec_stmt(fuel, old(self).state(), stmt@)),
        ensures
            final(self).state() == exec_stmt(fuel, old(self).state(), stmt@).unwrap().0,
            step_outcome(exec_stmt(fuel, old(self).state(), stmt@).unwrap().1, r),
            r is Ok ==> final(self).state().env.len() == old(self).state().env.len(),
        decreases stmt, 0nat,
    {
        match stmt {
            Statement::Let { name, value } => {
                let value = self.eval(value)?;
                self.scopes.declare(name, value);
                Ok(())
            },
            Statement::Assign { name, value } => {
                let value = self.eval(value)?;
                // The innermost scope that declares `name` gets the value; the
                // requirement that the program runs cleanly says there is one.
                let found = self.scopes.assign(name, value);
                assert(found);
                proof {
                    crate::scope::lemma_assign_len(old(self).state().env, name@, value@);
                }
                Ok(())
            },
            Statement::Print(expr) => {
                let value = self.eval(expr)?;
                let ghost before = self.output@;
                self.output.push(value);
                assert(values_view(self.output@) =~= values_view(before).push(value@));
                Ok(())
            },
            Statement::Block(statements) => {
                proof {
                    lemma_stmt_view_block(*stmt);
                }
                self.scopes.push_scope();
                self.execute_statements(statements, Ghost(fuel))?;
                self.scopes.pop_scope();
                Ok(())
            },
            Statement::If { condition, statement, else_clause } => {
                let v = self.eval(condition)?;
                if is_true(v) {
                    self.execute_statement(statement, Ghost(fuel))?;
                } else {
                    match else_clause {
                        Some(other) => {
                            self.execute_statement(other, Ghost(fuel))?;
                        },
                        None => {},
                    }
                }
                Ok(())
            },
            Statement::While { condition, statement } => {
                let ghost c = condition@;
                let ghost b = (**statement)@;
                let ghost target = exec_loop(fuel, self.state(), c, b);
                let ghost mut f = fuel;
                #[verifier::loop_isolation(false)]
                loop
                    invariant
                        exec_loop(f, self.state(), c, b) == target,
                        target == exec_stmt(fuel, old(self).state(), stmt@),
                        clean(target),
                        c == condition@,
                        b == (**statement)@,
                        self.state().env.len() == old(self).state().env.len(),
                        old(self).state().env.len() > 0,
                    decreases f,
                {
                    assert(f > 0);
                    let v = self.eval(condition)?;
                    if !is_true(v) {
                        break;
                    }
                    proof {
                        if !(exec_stmt((f - 1) as nat, self.state(), b) matches Some((_, r)) && r is Ok) {
                            assert(exec_loop(f, self.state(), c, b) == exec_stmt((f - 1) as nat, self.state(), b));
                        }
                    }
                    self.execute_statement(statement, Ghost((f - 1) as nat))?;
                    proof {
                        f = (f - 1) as nat;
                    }
                }
                Ok(())
            },
            Statement::Expression(expr) => {
                self.eval(expr)?;
                Ok(())
            },
        }
    }

    /// Evaluates an expression in the current scopes. It must not get
    /// stuck (a type check rules that out).
    pub fn eval(&self, expr: &Expr<'a>) -> (r: Result<Value<'a>, RuntimeError>)
        requires
            eval(self.state().env, expr@) != Err::<SValue, Fault>(Fault::Stuck),
        ensures
            match eval(self.state().env, expr@) {
                Ok(v) => r matches Ok(rv) && rv@ == v,
                Err(Fault::Runtime(e)) => r == Err::<Value<'a>, RuntimeError>(e),
                Err(Fault::Stuck) => false,
            },
        decreases expr,
    {
        match expr {
            Expr::Number(n) => Ok(Value::Number(*n)),
            Expr::Boolean(b) => Ok(Value::Boolean(*b)),
            Expr::String(s) => Ok(Value::String(s)),
            Expr::Identifier(name) => match self.scopes.get(name) {
                Some(v) => Ok(v),
                None => {
                    assert(false);
                    Err(RuntimeError::ArithmeticOverflow)
                },
            },
            Expr::Binary { left, operator, right } => {
                let ghost env = self.state().env;
                proof {
                    if eval(env, (**left)@) is Err {
                        assert(eval(env, expr@) == eval(env, (**left)@));
                    }
                }
                let left = self.eval(left)?;
                proof {
                    if eval(env, (**right)@) is Err {
                        assert(eval(env, expr@) == eval(env, (**right)@));
                    }
                }
                let right = self.eval(right)?;
                match operator {
                    BinaryOp::Add | BinaryOp::Sub | BinaryOp::Mul | BinaryOp::Div => match (left, right) {
                        (Value::Number(left), Value::Number(right)) => {
                            let result = match operator {
                                BinaryOp::Add => left.checked_add(right),
                                BinaryOp::Sub => left.checked_sub(right),
                                BinaryOp::Mul => left.checked_mul(right),
                                _ => {
                                    if right == 0 {
                                        return Err(RuntimeError::DivideByZero);
                                    }
                                    left.checked_div(right)
                                },
                            };
                            match result {
                                Some(n) => Ok(Value::Number(n)),
                                None => Err(RuntimeError::ArithmeticOverflow),
                            }
                        },
                        _ => {
                            assert(false);
                            Err(RuntimeError::ArithmeticOverflow)
                        },
                    },
                    BinaryOp::Equal => Ok(Value::Boolean(values_equal(left, right))),
                    BinaryOp::NotEqual => Ok(Value::Boolean(!values_equal(left, right))),
                    BinaryOp::Less | BinaryOp::LessEqual | BinaryOp::Greater | BinaryOp::GreaterEqual => match (left, right) {
                        (Value::Number(left), Value::Number(right)) => Ok(Value::Boolean(
                            match operator {
                                BinaryOp::Less => left < right,
                                BinaryOp::LessEqual => left <= right,
                                BinaryOp::Greater => left > right,
                                _ => left >= right,
                            },
                        )),
                        _ => {
                            assert(false);
                            Err(RuntimeError::ArithmeticOverflow)
                        },
                    },
                    // Both operands were evaluated above: `&&` and `||` do not
                    // short-circuit.
                    BinaryOp::And => Ok(Value::Boolean(is_true(left) && is_true(right))),
                    BinaryOp::Or => Ok(Value::Boolean(is_true(left) || is_true(right))),
                }
            },
        }
    }
}

} // verus!

verus! {

/// More loop runs allowed change nothing once a statement finishes: the
/// outcome of running a statement does not depend on the bound.
pub proof fn lemma_exec_fuel_monotonic(fuel: nat, more: nat, st: IState, s: SStmt)
    requires
        fuel <= more,
        exec_stmt(fuel, st, s) is Some,
    ensures
        exec_stmt(more, st, s) == exec_stmt(fuel, st, s),
    decreases fuel, s,
{
    match s {
        SStmt::Block(ss) => {
            lemma_exec_stmts_fuel_monotonic(fuel, more, IState { env: st.env.push(Map::empty()), out: st.out }, ss);
        },
        SStmt::If { condition, statement, else_clause } => {
            if let Ok(v) = eval(st.env, condition) {
                if v == SValue::Boolean(true) {
                    lemma_exec_fuel_monotonic(fuel, more, st, *statement);
                } else if let Some(other) = else_clause {
                    lemma_exec_fuel_monotonic(fuel, more, st, *other);
                }
            }
        },
        SStmt::While { condition, statement } => {
            lemma_loop_fuel_monotonic(fuel, more, st, condition, *statement);
        },
        _ => {},
    }
}

pub proof fn lemma_exec_stmts_fuel_monotonic(fuel: nat, more: nat, st: IState, ss: Seq<SStmt>)
    requires
        fuel <= more,
        exec_stmts(fuel, st, ss) is Some,
    ensures
        exec_stmts(more, st, ss) == exec_stmts(fuel, st, ss),
    decreases fuel, ss,
{
    if ss.len() > 0 {
        lemma_exec_stmts_fuel_monotonic(fuel, more, st, ss.drop_last());
        if let Some((mid, r)) = exec_stmts(fuel, st, ss.drop_last()) {
            if r is Ok {
                lemma_exec_fuel_monotonic(fuel, more, mid, ss.last());
            }
        }
    }
}

pub proof fn lemma_loop_fuel_monotonic(fuel: nat, more: nat, st: IState, c: SExpr, b: SStmt)
    requires
        fuel <= more,
        exec_loop(fuel, st, c, b) is Some,
    ensures
        exec_loop(more, st, c, b) == exec_loop(fuel, st, c, b),
    decreases fuel, b,
{
    if fuel > 0 {
        if let Ok(v) = eval(st.env, c) {
            if v == SValue::Boolean(true) {
                lemma_exec_fuel_monotonic((fuel - 1) as nat, (more - 1) as nat, st, b);
                if let Some((next, r)) = exec_stmt((fuel - 1) as nat, st, b) {
                    if r is Ok {
                        lemma_loop_fuel_monotonic((fuel - 1) as nat, (more - 1) as nat, next, c, b);
                    }
                }
            }
        }
    }
}

/// The outcome of running statements is the one they have under any bound
/// on loop runs under which they finish: it does not depend on the bound
/// that [`run_outcome`] picks.
pub proof fn theorem_run_outcome_unique(fuel: nat, st: IState, ss: Seq<SStmt>)
    requires
        clean(exec_stmts(fuel, st, ss)),
    ensures
        runs_cleanly(st, ss),
        run_outcome(st, ss) == exec_stmts(fuel, st, ss).unwrap(),
{
    let f = clean_fuel(st, ss);
    assert(clean(exec_stmts(f, st, ss)));
    if f <= fuel {
        lemma_exec_stmts_fuel_monotonic(f, fuel, st, ss);
    } else {
        lemma_exec_stmts_fuel_monotonic(fuel, f, st, ss);
    }
}

/// `after` has as many scopes as `before`, each declaring the same names,
/// but the innermost, which may declare more.
pub open spec fn keeps_names(before: ValueEnv, after: ValueEnv) -> bool {
    &&& after.len() == before.len()
    &&& forall|i: int| 0 <= i < before.len() - 1 ==> (#[trigger] after[i]).dom() == before[i].dom()
    &&& before.len() > 0 ==> before.last().dom().subset_of(after.last().dom())
}

proof fn lemma_keeps_names_trans(a: ValueEnv, b: ValueEnv, c: ValueEnv)
    requires
        keeps_names(a, b),
        keeps_names(b, c),
    ensures
        keeps_names(a, c),
{
    assert forall|i: int| 0 <= i < a.len() - 1 implies (#[trigger] c[i]).dom() == a[i].dom() by {
        assert(b[i].dom() == a[i].dom());
    }
}

/// A statement that succeeds changes no scope's names but the innermost's,
/// which it may extend.
pub proof fn lemma_exec_keeps_names(fuel: nat, st: IState, s: SStmt)
    requires
        st.env.len() > 0,
    ensures
        exec_stmt(fuel, st, s) matches Some((next, r)) ==> (r is Ok ==> keeps_names(st.env, next.env)),
    decreases fuel, s,
{
    match s {
        SStmt::Let { name, value } => {
            if let Ok(v) = eval(st.env, value) {
                let e = declare(st.env, name, v);
                assert forall|i: int| 0 <= i < st.env.len() - 1 implies (#[trigger] e[i]).dom() == st.env[i].dom() by {
                    assert(e[i] == st.env[i]);
                }
            }
        },
        SStmt::Assign { name, value } => {
            crate::scope::lemma_assign_domains(st.env, name, eval(st.env, value)->Ok_0);
        },
        SStmt::Block(ss) => {
            let inner_st = IState { env: st.env.push(Map::empty()), out: st.out };
            lemma_exec_stmts_keeps_names(fuel, inner_st, ss);
            if let Some((inner, r)) = exec_stmts(fuel, inner_st, ss) {
                if r is Ok {
                    let e = inner.env.drop_last();
                    assert forall|i: int| 0 <= i < st.env.len() - 1 implies (#[trigger] e[i]).dom() == st.env[i].dom() by {
                        assert(inner.env[i].dom() == inner_st.env[i].dom());
                    }
                    assert(inner.env[st.env.len() - 1].dom() == inner_st.env[st.env.len() - 1].dom());
                }
            }
        },
        SStmt::If { condition, statement, else_clause } => {
            lemma_exec_keeps_names(fuel, st, *statement);
            if let Some(other) = else_clause {
                lemma_exec_keeps_names(fuel, st, *other);
            }
        },
        SStmt::While { condition, statement } => {
            lemma_loop_keeps_names(fuel, st, condition, *statement);
        },
        _ => {},
    }
}

/// The same, for statements in order.
pub proof fn lemma_exec_stmts_keeps_names(fuel: nat, st: IState, ss: Seq<SStmt>)
    requires
        st.env.len() > 0,
    ensures
        exec_stmts(fuel, st, ss) matches Some((next, r)) ==> (r is Ok ==> keeps_names(st.env, next.env)),
    decreases fuel, ss,
{
    if ss.len() > 0 {
        lemma_exec_stmts_keeps_names(fuel, st, ss.drop_last());
        if let Some((mid, r)) = exec_stmts(fuel, st, ss.drop_last()) {
            if r is Ok {
                lemma_exec_keeps_names(fuel, mid, ss.last());
                if let Some((next, r2)) = exec_stmt(fuel, mid, ss.last()) {
                    if r2 is Ok {
                        lemma_keeps_names_trans(st.env, mid.env, next.env);
                    }
                }
            }
        }
    }
}

/// The same, for a `while` loop.
pub proof fn lemma_loop_keeps_names(fuel: nat, st: IState, c: SExpr, b: SStmt)
    requires
        st.env.len() > 0,
    ensures
        exec_loop(fuel, st, c, b) matches Some((next, r)) ==> (r is Ok ==> keeps_names(st.env, next.env)),
    decreases fuel, b,
{
    if fuel > 0 {
        lemma_exec_keeps_names((fuel - 1) as nat, st, b);
        if let Some((next, r)) = exec_stmt((fuel - 1) as nat, st, b) {
            if r is Ok {
                lemma_loop_keeps_names((fuel - 1) as nat, next, c, b);
                if let Some((last, r2)) = exec_loop((fuel - 1) as nat, next, c, b) {
                    if r2 is Ok {
                        lemma_keeps_names_trans(st.env, next.env, last.env);
                    }
                }
            }
        }
    }
}

/// Entering a block opens a scope and leaving it closes it: a block that
/// runs to its end leaves as many scopes as before, each declaring the
/// names it declared before, whatever the block declared.
pub proof fn law_block_restores_scope_names(fuel: nat, st: IState, ss: Seq<SStmt>)
    requires
        st.env.len() > 0,
    ensures
        exec_stmt(fuel, st, SStmt::Block(ss)) matches Some((next, r)) ==> (r is Ok ==> {
            &&& next.env.len() == st.env.len()
            &&& forall|i: int| 0 <= i < st.env.len() ==> (#[trigger] next.env[i]).dom() == st.env[i].dom()
        }),
{
    let inner_st = IState { env: st.env.push(Map::empty()), out: st.out };
    lemma_exec_stmts_keeps_names(fuel, inner_st, ss);
    if let Some((inner, r)) = exec_stmts(fuel, inner_st, ss) {
        if r is Ok {
            let e = inner.env.drop_last();
            assert forall|i: int| 0 <= i < st.env.len() implies (#[trigger] e[i]).dom() == st.env[i].dom() by {
                assert(inner.env[i].dom() == inner_st.env[i].dom());
            }
        }
    }
}

/// The message of a runtime error.
pub open spec fn runtime_error_text(e: RuntimeError) -> Seq<char> {
    match e {
        RuntimeError::DivideByZero => "attempt to divide by zero"@,
        RuntimeError::ArithmeticOverflow => "arithmetic overflow"@,
    }
}

impl RuntimeError {
    /// The error's message.
    pub fn to_string(&self) -> (s: String)
        ensures
            s@ == runtime_error_text(*self),
    {
        match self {
            RuntimeError::DivideByZero => String::from_str("attempt to divide by zero"),
            RuntimeError::ArithmeticOverflow => String::from_str("arithmetic overflow"),
        }
    }
}

/// How `print` writes a value: a number in decimal, a boolean as `true`
/// or `false`, a string as its characters.
pub open spec fn value_text(v: SValue) -> Seq<char> {
    match v {
        SValue::Number(n) => decimal(n as int),
        SValue::Boolean(b) => if b { "true"@ } else { "false"@ },
        SValue::Str(s) => utf8_lossy(s),
    }
}

impl<'a> Value<'a> {
    /// The value as `print` writes it, e.g. `42` or `true`.
    pub fn to_string(&self) -> (s: String)
        ensures
            s@ == value_text(self@),
            self@ matches SValue::Str(b) ==> (valid_utf8(b) ==> s@ == decode_utf8(b)),
    {
        match self {
            Value::Number(n) => i64_to_string(*n),
            Value::Boolean(b) => if *b { String::from_str("true") } else { String::from_str("false") },
            Value::String(s) => lossy_string(s),
        }
    }
}

impl<'a> Default for Interpreter<'a> {
    /// The same as [`Interpreter::new`].
    fn default() -> (i: Self)
        ensures
            i.state() == (IState { env: seq![Map::<Seq<u8>, SValue>::empty()], out: Seq::<SValue>::empty() }),
    {
        Interpreter::new()
    }
}

} // verus!
