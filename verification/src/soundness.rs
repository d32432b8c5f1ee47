//! What the static check guarantees about execution: a program that the
//! analysis accepts never gets stuck: every variable it reads or assigns is
//! declared, and every operand has the type its operator takes.
use vstd::prelude::*;
use crate::ast::{BinaryOp, SExpr, SStmt};
use crate::interpreter::{IState, SValue, ValueEnv, Fault, eval, eval_op, exec_stmt, exec_stmts, exec_loop, runs_cleanly, clean};
use crate::scope::{lookup, assign, declare, declared_from, lemma_assign_domains, lemma_lookup_declared};
use crate::sema::{
    CheckError, Type, TypeEnv, check_branch, check_expr, check_op, check_stmts, check_stmt,
    lemma_check_branch_keeps_scopes, lemma_check_stmts_keeps_depth,
};

verus! {

/// The type of a value.
pub open spec fn type_of(v: SValue) -> Type {
    match v {
        SValue::Number(_) => Type::Number,
        SValue::Boolean(_) => Type::Boolean,
        SValue::Str(_) => Type::String,
    }
}

/// A scope of values declares each name that a scope of types declares,
/// with a value of its type.
pub open spec fn scope_typed(r: Map<Seq<u8>, SValue>, t: Map<Seq<u8>, Type>) -> bool {
    forall|n: Seq<u8>| #[trigger] t.contains_key(n) ==> r.contains_key(n) && type_of(r[n]) == t[n]
}

/// The scopes of values match the scopes of types, one for one; a scope of
/// values may also hold a name that a `let` under an `if` or `while`
/// declared, which no scope of types up to it declares.
pub open spec fn env_typed(renv: ValueEnv, tenv: TypeEnv) -> bool {
    &&& renv.len() == tenv.len()
    &&& forall|k: int| 0 <= k < renv.len() ==> scope_typed(#[trigger] renv[k], tenv[k])
    &&& forall|k: int, j: int, n: Seq<u8>|
        0 <= j <= k < renv.len() && #[trigger] renv[k].contains_key(n) && !tenv[k].contains_key(n)
            ==> !(#[trigger] tenv[j]).contains_key(n)
}

/// The scopes below the innermost, of values and of types, still match.
proof fn lemma_drop_typed(renv: ValueEnv, tenv: TypeEnv)
    requires
        env_typed(renv, tenv),
        renv.len() > 0,
    ensures
        env_typed(renv.drop_last(), tenv.drop_last()),
{
    let r = renv.drop_last();
    let t = tenv.drop_last();
    assert forall|k: int| 0 <= k < r.len() implies scope_typed(#[trigger] r[k], t[k]) by {
        assert(scope_typed(renv[k], tenv[k]));
    }
    assert forall|k: int, j: int, n: Seq<u8>|
        0 <= j <= k < r.len() && #[trigger] r[k].contains_key(n) && !t[k].contains_key(n) implies !(#[trigger] t[j]).contains_key(
        n) by {
        assert(r[k] == renv[k] && t[k] == tenv[k] && t[j] == tenv[j]);
    }
}

/// A variable that the scopes of types declare has, in the scopes of
/// values, a value of its type.
proof fn lemma_lookup_typed(renv: ValueEnv, tenv: TypeEnv, name: Seq<u8>)
    requires
        env_typed(renv, tenv),
    ensures
        lookup(tenv, name) matches Some(t) ==> lookup(renv, name) matches Some(v) && type_of(v) == t,
    decreases renv.len(),
{
    if renv.len() > 0 {
        let k = renv.len() - 1;
        assert(scope_typed(renv[k], tenv[k]));
        if !tenv.last().contains_key(name) {
            lemma_drop_typed(renv, tenv);
            lemma_lookup_typed(renv.drop_last(), tenv.drop_last(), name);
            if renv.last().contains_key(name) && lookup(tenv, name) is Some {
                lemma_lookup_declared(tenv, name);
                let j = choose|j: int| 0 <= j < tenv.len() && #[trigger] tenv[j].contains_key(name);
                assert(renv[k].contains_key(name));
                assert(!tenv[j].contains_key(name));
            }
        }
    }
}

proof fn lemma_eval_op_typed(op: BinaryOp, l: SValue, r: SValue)
    requires
        check_op(op, type_of(l), type_of(r)) is Ok,
    ensures
        eval_op(op, l, r) != Err::<SValue, Fault>(Fault::Stuck),
        eval_op(op, l, r) matches Ok(v) ==> check_op(op, type_of(l), type_of(r)) == Ok::<Type, CheckError>(type_of(v)),
{
}

/// An expression of a type evaluates to a value of that type, or to a
/// runtime error; it does not get stuck.
pub proof fn lemma_eval_typed(renv: ValueEnv, tenv: TypeEnv, e: SExpr)
    requires
        env_typed(renv, tenv),
        check_expr(tenv, e) is Ok,
    ensures
        eval(renv, e) != Err::<SValue, Fault>(Fault::Stuck),
        eval(renv, e) matches Ok(v) ==> check_expr(tenv, e) == Ok::<Type, CheckError>(type_of(v)),
    decreases e,
{
    match e {
        SExpr::Identifier(name) => {
            lemma_lookup_typed(renv, tenv, name);
        },
        SExpr::Binary { left, operator, right } => {
            lemma_eval_typed(renv, tenv, *left);
            lemma_eval_typed(renv, tenv, *right);
            if let Ok(l) = eval(renv, *left) {
                if let Ok(r) = eval(renv, *right) {
                    lemma_eval_op_typed(operator, l, r);
                }
            }
        },
        _ => {},
    }
}

proof fn lemma_declare_typed(renv: ValueEnv, tenv: TypeEnv, name: Seq<u8>, v: SValue)
    requires
        env_typed(renv, tenv),
        renv.len() > 0,
    ensures
        env_typed(declare(renv, name, v), declare(tenv, name, type_of(v))),
{
    let r2 = declare(renv, name, v);
    let t2 = declare(tenv, name, type_of(v));
    let l = renv.len() - 1;
    assert forall|k: int| 0 <= k < r2.len() implies scope_typed(#[trigger] r2[k], t2[k]) by {
        assert(scope_typed(renv[k], tenv[k]));
    }
    assert forall|k: int, j: int, n: Seq<u8>|
        0 <= j <= k < r2.len() && #[trigger] r2[k].contains_key(n) && !t2[k].contains_key(n) implies !(#[trigger] t2[j]).contains_key(
        n) by {
        assert(renv[k].contains_key(n) && !tenv[k].contains_key(n));
        assert(!tenv[j].contains_key(n));
    }
}

/// A `let` that no scope of types knows of keeps the scopes typed.
proof fn lemma_hidden_declare_typed(renv: ValueEnv, tenv: TypeEnv, name: Seq<u8>, v: SValue)
    requires
        env_typed(renv, tenv),
        renv.len() > 0,
        lookup(tenv, name) is None,
    ensures
        env_typed(declare(renv, name, v), tenv),
{
    lemma_lookup_declared(tenv, name);
    let r2 = declare(renv, name, v);
    let l = renv.len() - 1;
    assert forall|k: int| 0 <= k < r2.len() implies scope_typed(#[trigger] r2[k], tenv[k]) by {
        assert(scope_typed(renv[k], tenv[k]));
        if k == l {
            assert(!tenv[k].contains_key(name));
        }
    }
    assert forall|k: int, j: int, n: Seq<u8>|
        0 <= j <= k < r2.len() && #[trigger] r2[k].contains_key(n) && !tenv[k].contains_key(n) implies !(#[trigger] tenv[j]).contains_key(
        n) by {
        if n == name && k == l {
            assert(!declared_from(tenv, name, 0));
        } else {
            assert(renv[k].contains_key(n));
        }
    }
}

proof fn lemma_assign_typed(renv: ValueEnv, tenv: TypeEnv, name: Seq<u8>, v: SValue)
    requires
        env_typed(renv, tenv),
        lookup(tenv, name) is Some,
    ensures
        env_typed(assign(renv, name, v), assign(tenv, name, type_of(v))),
    decreases renv.len(),
{
    let r2 = assign(renv, name, v);
    let t2 = assign(tenv, name, type_of(v));
    lemma_assign_domains(renv, name, v);
    lemma_assign_domains(tenv, name, type_of(v));
    let k = renv.len() - 1;
    assert(scope_typed(renv[k], tenv[k]));
    if tenv.last().contains_key(name) {
        assert forall|m: int| 0 <= m < r2.len() implies scope_typed(#[trigger] r2[m], t2[m]) by {
            assert(scope_typed(renv[m], tenv[m]));
        }
        assert forall|m: int, j: int, n: Seq<u8>|
            0 <= j <= m < r2.len() && #[trigger] r2[m].contains_key(n) && !t2[m].contains_key(n) implies !(#[trigger] t2[j]).contains_key(
            n) by {
            assert(renv[m].contains_key(n) && !tenv[m].contains_key(n));
            assert(!tenv[j].contains_key(n));
        }
    } else {
        if renv.last().contains_key(name) {
            lemma_lookup_declared(tenv, name);
            let j = choose|j: int| 0 <= j < tenv.len() && #[trigger] tenv[j].contains_key(name);
            assert(!tenv[j].contains_key(name));
        }
        lemma_drop_typed(renv, tenv);
        lemma_assign_typed(renv.drop_last(), tenv.drop_last(), name, v);
        let ri = assign(renv.drop_last(), name, v);
        let ti = assign(tenv.drop_last(), name, type_of(v));
        assert(r2 == ri.push(renv.last()));
        assert(t2 == ti.push(tenv.last()));
        assert forall|m: int| 0 <= m < r2.len() implies scope_typed(#[trigger] r2[m], t2[m]) by {
            if m < k {
                assert(r2[m] == ri[m] && t2[m] == ti[m]);
            }
        }
        assert forall|m: int, j: int, n: Seq<u8>|
            0 <= j <= m < r2.len() && #[trigger] r2[m].contains_key(n) && !t2[m].contains_key(n) implies !(#[trigger] t2[j]).contains_key(
            n) by {
            if m < k {
                assert(r2[m] == ri[m] && t2[m] == ti[m] && t2[j] == ti[j]);
            } else {
                assert(renv[m].contains_key(n) && !tenv[m].contains_key(n));
                assert(!tenv[j].contains_key(n));
                assert(t2[j].dom() == tenv[j].dom());
            }
        }
    }
}

proof fn lemma_push_typed(renv: ValueEnv, tenv: TypeEnv)
    requires
        env_typed(renv, tenv),
    ensures
        env_typed(renv.push(Map::empty()), tenv.push(Map::empty())),
{
    let r2 = renv.push(Map::empty());
    let t2 = tenv.push(Map::empty());
    assert forall|k: int| 0 <= k < r2.len() implies scope_typed(#[trigger] r2[k], t2[k]) by {
        if k < renv.len() {
            assert(scope_typed(renv[k], tenv[k]));
        }
    }
    assert forall|k: int, j: int, n: Seq<u8>|
        0 <= j <= k < r2.len() && #[trigger] r2[k].contains_key(n) && !t2[k].contains_key(n) implies !(#[trigger] t2[j]).contains_key(
        n) by {
        assert(k < renv.len());
        assert(r2[k] == renv[k] && t2[k] == tenv[k] && t2[j] == tenv[j]);
    }
}

/// Running a statement that passes the check from well-typed scopes does
/// not get stuck, and on success leaves scopes typed as the check says.
pub proof fn lemma_exec_typed(fuel: nat, st: IState, tenv: TypeEnv, s: SStmt, base: int)
    requires
        env_typed(st.env, tenv),
        tenv.len() > 0,
        0 <= base <= tenv.len(),
        check_stmt(tenv, s, base).1 is Ok,
    ensures
        exec_stmt(fuel, st, s) matches Some((next, r)) ==> {
            &&& r != Err::<(), Fault>(Fault::Stuck)
            &&& r is Ok ==> env_typed(next.env, check_stmt(tenv, s, base).0)
        },
    decreases fuel, s, 0nat,
{
    match s {
        SStmt::Let { name, value } => {
            lemma_eval_typed(st.env, tenv, value);
            if let Ok(v) = eval(st.env, value) {
                lemma_declare_typed(st.env, tenv, name, v);
            }
        },
        SStmt::Assign { name, value } => {
            lemma_eval_typed(st.env, tenv, value);
            lemma_lookup_typed(st.env, tenv, name);
            if let Ok(v) = eval(st.env, value) {
                lemma_assign_typed(st.env, tenv, name, v);
            }
        },
        SStmt::Print(e) => {
            lemma_eval_typed(st.env, tenv, e);
        },
        SStmt::Expression(e) => {
            lemma_eval_typed(st.env, tenv, e);
        },
        SStmt::Block(ss) => {
            lemma_push_typed(st.env, tenv);
            let inner_st = IState { env: st.env.push(Map::empty()), out: st.out };
            lemma_exec_stmts_typed(fuel, inner_st, tenv.push(Map::empty()), ss, base);
            lemma_check_stmts_keeps_depth(tenv.push(Map::empty()), ss, base);
            if let Some((inner, r)) = exec_stmts(fuel, inner_st, ss) {
                if r is Ok {
                    lemma_drop_typed(inner.env, check_stmts(tenv.push(Map::empty()), ss, base).0);
                }
            }
        },
        SStmt::If { condition, statement, else_clause } => {
            lemma_eval_typed(st.env, tenv, condition);
            lemma_exec_branch_typed(fuel, st, tenv, *statement);
            if let Some(other) = else_clause {
                lemma_exec_branch_typed(fuel, st, tenv, *other);
            }
        },
        SStmt::While { condition, statement } => {
            lemma_loop_typed(fuel, st, tenv, condition, *statement);
        },
    }
}

/// Running a statement that an `if`, `else` or `while` controls, which
/// passes the check, from well-typed scopes does not get stuck, and on
/// success leaves the scopes typed by the same scopes of types.
pub proof fn lemma_exec_branch_typed(fuel: nat, st: IState, tenv: TypeEnv, s: SStmt)
    requires
        env_typed(st.env, tenv),
        tenv.len() > 0,
        check_branch(tenv, s).1 is Ok,
    ensures
        exec_stmt(fuel, st, s) matches Some((next, r)) ==> {
            &&& r != Err::<(), Fault>(Fault::Stuck)
            &&& r is Ok ==> env_typed(next.env, tenv)
        },
    decreases fuel, s, 1nat,
{
    match s {
        SStmt::Let { name, value } => {
            lemma_eval_typed(st.env, tenv, value);
            if let Ok(v) = eval(st.env, value) {
                lemma_hidden_declare_typed(st.env, tenv, name, v);
            }
        },
        _ => {
            lemma_check_branch_keeps_scopes(tenv, s);
            lemma_exec_typed(fuel, st, tenv, s, tenv.len() as int);
        },
    }
}

/// The same, for statements in order.
pub proof fn lemma_exec_stmts_typed(fuel: nat, st: IState, tenv: TypeEnv, ss: Seq<SStmt>, base: int)
    requires
        env_typed(st.env, tenv),
        tenv.len() > 0,
        0 <= base <= tenv.len(),
        check_stmts(tenv, ss, base).1 is Ok,
    ensures
        exec_stmts(fuel, st, ss) matches Some((next, r)) ==> {
            &&& r != Err::<(), Fault>(Fault::Stuck)
            &&& r is Ok ==> env_typed(next.env, check_stmts(tenv, ss, base).0)
        },
    decreases fuel, ss, 0nat,
{
    if ss.len() > 0 {
        let (mid_t, r0) = check_stmts(tenv, ss.drop_last(), base);
        assert(r0 is Ok);
        lemma_exec_stmts_typed(fuel, st, tenv, ss.drop_last(), base);
        lemma_check_stmts_keeps_depth(tenv, ss.drop_last(), base);
        if let Some((mid, r)) = exec_stmts(fuel, st, ss.drop_last()) {
            if r is Ok {
                lemma_exec_typed(fuel, mid, mid_t, ss.last(), base);
            }
        }
    }
}

/// The same, for a `while` loop whose condition is a boolean and whose body
/// passes the check as a statement the loop controls.
pub proof fn lemma_loop_typed(fuel: nat, st: IState, tenv: TypeEnv, c: SExpr, b: SStmt)
    requires
        env_typed(st.env, tenv),
        tenv.len() > 0,
        check_expr(tenv, c) == Ok::<Type, CheckError>(Type::Boolean),
        check_branch(tenv, b).1 is Ok,
    ensures
        exec_loop(fuel, st, c, b) matches Some((next, r)) ==> {
            &&& r != Err::<(), Fault>(Fault::Stuck)
            &&& r is Ok ==> env_typed(next.env, tenv)
        },
    decreases fuel, b, 2nat,
{
    if fuel > 0 {
        lemma_eval_typed(st.env, tenv, c);
        lemma_exec_branch_typed((fuel - 1) as nat, st, tenv, b);
        if let Some((next, r)) = exec_stmt((fuel - 1) as nat, st, b) {
            if r is Ok {
                lemma_loop_typed((fuel - 1) as nat, next, tenv, c, b);
            }
        }
    }
}

} // verus!

verus! {

/// Type soundness: a program that passes the check, run from scopes that
/// hold values of the types the check starts from, never gets stuck,
/// whatever the bound on loop runs; so, where it terminates, it runs
/// cleanly, as `Interpreter::run` requires.
pub proof fn theorem_checked_programs_do_not_get_stuck(fuel: nat, st: IState, tenv: TypeEnv, ss: Seq<SStmt>)
    requires
        tenv.len() > 0,
        env_typed(st.env, tenv),
        check_stmts(tenv, ss, 0).1 is Ok,
    ensures
        exec_stmts(fuel, st, ss) matches Some((_, r)) ==> r != Err::<(), Fault>(Fault::Stuck),
        exec_stmts(fuel, st, ss) is Some ==> runs_cleanly(st, ss),
{
    lemma_exec_stmts_typed(fuel, st, tenv, ss, 0);
    if exec_stmts(fuel, st, ss) is Some {
        assert(clean(exec_stmts(fuel, st, ss)));
    }
}

/// The initial scopes of the interpreter hold values of the types of the
/// analysis's initial scopes (there are none in either).
pub proof fn lemma_initial_env_typed()
    ensures
        env_typed(crate::initial_state().env, crate::initial_env()),
{
    assert(scope_typed(Map::<Seq<u8>, SValue>::empty(), Map::<Seq<u8>, Type>::empty())) by {
        assert(Map::<Seq<u8>, SValue>::empty().dom() =~= Map::<Seq<u8>, Type>::empty().dom());
    }
}

/// A program that `Sema::new().check` accepts, run by `Interpreter::new()`,
/// never gets stuck whatever the bound on loop runs; where it terminates it
/// meets what `Interpreter::run` requires.
pub proof fn theorem_checked_programs_run_from_the_start(prog: Seq<SStmt>, fuel: nat)
    requires
        check_stmts(crate::initial_env(), prog, 0).1 is Ok,
    ensures
        exec_stmts(fuel, crate::initial_state(), prog) matches Some((_, r)) ==> r != Err::<(), Fault>(Fault::Stuck),
        exec_stmts(fuel, crate::initial_state(), prog) is Some ==> runs_cleanly(crate::initial_state(), prog),
{
    lemma_initial_env_typed();
    theorem_checked_programs_do_not_get_stuck(fuel, crate::initial_state(), crate::initial_env(), prog);
}

/// The same for a whole source text: where its program passes the check,
/// running it from the interpreter's initial state never gets stuck,
/// whatever the bound on loop runs.
pub proof fn theorem_checked_sources_do_not_get_stuck(src: Seq<u8>, fuel: nat)
    requires
        crate::front_end(src) is Ok,
        check_stmts(crate::initial_env(), crate::front_end(src)->Ok_0, 0).1 is Ok,
    ensures
        exec_stmts(fuel, crate::initial_state(), crate::front_end(src)->Ok_0) matches Some((_, r))
            ==> r != Err::<(), Fault>(Fault::Stuck),
{
    lemma_initial_env_typed();
    theorem_checked_programs_do_not_get_stuck(fuel, crate::initial_state(), crate::initial_env(), crate::front_end(src)->Ok_0);
}

} // verus!
