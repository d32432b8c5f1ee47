//! Ember: a small tree-walking interpreter for a toy scripting language.
//!
//! Running a program goes through four stages, in order:
//!
//! 1. [`lexer::Lexer`] turns the source bytes into tokens;
//! 2. [`parser::Parser`] turns the tokens into a program (a syntax tree);
//! 3. [`sema::Sema`] checks the program statically: variables declared
//!    before use, operand types matching their operators;
//! 4. [`interpreter::Interpreter`] runs the program.
//!
//! Each stage has its own error type; [`error::Error`] holds any of them.
use vstd::prelude::*;

pub mod ast;
pub mod text;
pub mod lexer;
pub mod parser;
pub mod scope;
pub mod sema;
pub mod interpreter;
pub mod error;
pub mod soundness;
pub mod names;
pub mod laws;

pub use error::Error;
pub use interpreter::{Interpreter, Value};
pub use lexer::Lexer;
pub use parser::Parser;
pub use sema::Sema;

use ast::SStmt;
use error::ErrorView;
use interpreter::{Fault, IState, SValue, run_outcome, terminates, values_view};
use lexer::{Position, SToken, Token, lex, positions_of, strip_positions, tokens_view, tokens_with_positions_view};
use parser::{eof_ahead, parse_tokens};
use sema::{check_stmts, render};

verus! {

/// The single, empty scope that checking and running start in.
pub open spec fn initial_env<V>() -> Seq<Map<Seq<u8>, V>> {
    seq![Map::<Seq<u8>, V>::empty()]
}

/// The interpreter's state before running: one empty scope, no output.
pub open spec fn initial_state() -> IState {
    IState { env: initial_env(), out: Seq::empty() }
}

/// The program that the source makes, or the error of lexing or parsing.
pub open spec fn front_end(src: Seq<u8>) -> Result<Seq<SStmt>, ErrorView> {
    match lex(src) {
        Err(e) => Err(ErrorView::Lex(e)),
        Ok(toks) => match parse_tokens(strip_positions(toks), positions_of(toks)) {
            Err(e) => Err(ErrorView::Parse(e)),
            Ok(prog) => Ok(prog),
        },
    }
}

/// What running the source needs: a program that passes the check comes
/// to an end (a loop that never ends would run forever).
pub open spec fn runnable(src: Seq<u8>) -> bool {
    front_end(src) matches Ok(prog) ==> (check_stmts(initial_env(), prog, 0).1 is Ok ==> terminates(
        initial_state(),
        prog,
    ))
}

/// What running the source prints, and its result: the error of the first
/// stage that fails, or success.
pub open spec fn run_spec(src: Seq<u8>) -> (Seq<SValue>, Result<(), ErrorView>) {
    match front_end(src) {
        Err(e) => (Seq::empty(), Err(e)),
        Ok(prog) => match check_stmts(initial_env(), prog, 0).1 {
            Err(e) => (Seq::empty(), Err(ErrorView::Sema(render(e)))),
            Ok(()) => {
                let (st, r) = run_outcome(initial_state(), prog);
                (
                    st.out,
                    match r {
                        Err(Fault::Runtime(e)) => Err(ErrorView::Runtime(e)),
                        _ => Ok(()),
                    },
                )
            },
        },
    }
}

/// The whole program is checked before any of it runs: a source whose
/// program fails the check prints nothing and reports the check's error;
/// one that fails to lex or parse prints nothing either.
pub proof fn law_nothing_runs_before_the_check(src: Seq<u8>)
    ensures
        front_end(src) matches Err(e) ==> run_spec(src) == (Seq::<SValue>::empty(), Err::<(), ErrorView>(e)),
        front_end(src) matches Ok(prog) ==> (check_stmts(initial_env(), prog, 0).1 matches Err(e) ==> run_spec(src) == (
            Seq::<SValue>::empty(),
            Err::<(), ErrorView>(ErrorView::Sema(render(e))),
        )),
{
}

/// Runs source code end to end: lex, parse, check, then execute. The first
/// error of any stage stops the run and is returned; the values that the
/// program prints are appended to `output`, in order, also where it then
/// fails at runtime.
pub fn run<'a>(source: &'a [u8], output: &mut Vec<Value<'a>>) -> (r: Result<(), Error>)
    requires
        source@.len() < u32::MAX,
        runnable(source@),
    ensures
        values_view(final(output)@) == values_view(old(output)@) + run_spec(source@).0,
        match run_spec(source@).1 {
            Ok(()) => r is Ok,
            Err(e) => r matches Err(re) && re@ == e,
        },
{
    let mut lexer = Lexer::new(source);
    let tokens_with_positions = match lexer.tokenize_with_positions() {
        Ok(t) => t,
        Err(e) => {
            assert(values_view(old(output)@) + Seq::<SValue>::empty() =~= values_view(output@));
            return Err(Error::Lex(e));
        },
    };
    let ghost twp = tokens_with_positions_view(tokens_with_positions@);
    proof {
        lexer::lemma_lex_ends_with_eof(source@, 0);
        names::lemma_lex_from_ascii(source@, 0);
    }
    // The parser takes the tokens and their positions as two lists.
    let mut tokens: Vec<Token<'a>> = Vec::new();
    let mut positions: Vec<Position> = Vec::new();
    let mut i: usize = 0;
    while i < tokens_with_positions.len()
        invariant
            i <= tokens_with_positions@.len(),
            twp == tokens_with_positions_view(tokens_with_positions@),
            tokens@.len() == i,
            positions@.len() == i,
            forall|m: int| 0 <= m < i ==> (#[trigger] tokens@[m])@ == twp[m].0,
            forall|m: int| 0 <= m < i ==> #[trigger] positions@[m] == twp[m].1,
        decreases tokens_with_positions@.len() - i,
    {
        let (t, p) = tokens_with_positions[i];
        tokens.push(t);
        positions.push(p);
        i = i + 1;
    }
    proof {
        assert(tokens_view(tokens@) =~= strip_positions(twp));
        assert(positions@ =~= positions_of(twp));
        let ts = strip_positions(twp);
        assert(ts[ts.len() - 1] == SToken::Eof);
        assert(eof_ahead(ts, 0));
        assert(names::tokens_ascii(ts)) by {
            assert forall|m: int| 0 <= m < ts.len() implies names::token_ascii(#[trigger] ts[m]) by {
                assert(ts[m] == twp[m].0);
            }
        }
        names::lemma_parse_ascii(ts, positions_of(twp));
    }
    let mut parser = Parser::new(tokens.as_slice(), positions.as_slice());
    let program = match parser.parse() {
        Ok(p) => p,
        Err(e) => {
            assert(values_view(old(output)@) + Seq::<SValue>::empty() =~= values_view(output@));
            return Err(Error::Parse(e));
        },
    };
    // Checking the whole program before running any of it.
    proof {
        names::lemma_check_stmts_printable(initial_env(), program@, 0);
    }
    let mut sema = Sema::new();
    match sema.check(&program) {
        Ok(()) => {},
        Err(e) => {
            assert(values_view(old(output)@) + Seq::<SValue>::empty() =~= values_view(output@));
            return Err(Error::Sema(e));
        },
    }
    proof {
        let fuel = choose|fuel: nat| #[trigger] interpreter::exec_stmts(fuel, initial_state(), program@) is Some;
        soundness::lemma_initial_env_typed();
        soundness::theorem_checked_programs_do_not_get_stuck(fuel, initial_state(), initial_env(), program@);
    }
    let mut interpreter = Interpreter::new();
    let result = interpreter.run(&program);
    let printed = interpreter.output();
    let ghost before = values_view(output@);
    let mut k: usize = 0;
    while k < printed.len()
        invariant
            k <= printed@.len(),
            values_view(output@) == before + values_view(printed@).take(k as int),
        decreases printed@.len() - k,
    {
        let ghost prev = output@;
        output.push(printed[k]);
        assert(values_view(output@) =~= values_view(prev).push(printed@[k as int]@));
        assert(values_view(printed@).take(k + 1) =~= values_view(printed@).take(k as int).push(printed@[k as int]@));
        assert(values_view(output@) =~= before + values_view(printed@).take(k + 1));
        k = k + 1;
    }
    assert(values_view(printed@).take(k as int) =~= values_view(printed@));
    match result {
        Ok(()) => Ok(()),
        Err(e) => Err(Error::Runtime(e)),
    }
}

} // verus!
