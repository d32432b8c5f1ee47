//! The abstract syntax tree produced by the parser and consumed by the
//! analysis and the interpreter. Identifiers and string literals borrow
//! their bytes from the source buffer; each type has a view in which those
//! byte slices are plain byte sequences.
use vstd::prelude::*;

verus! {

/// An expression: something that evaluates to a value.
#[derive(Debug, PartialEq, Eq)]
pub enum Expr<'a> {
    /// A reference to a variable by name, e.g. `x`.
    Identifier(&'a [u8]),
    /// An integer literal, e.g. `42`.
    Number(i64),
    /// A string literal, e.g. `"hello"`.
    String(&'a [u8]),
    /// A boolean literal, `true` or `false`.
    Boolean(bool),
    /// A binary operation, e.g. `left + right`.
    Binary { left: Box<Expr<'a>>, operator: BinaryOp, right: Box<Expr<'a>> },
}

/// The operator of a binary expression: arithmetic (`Add`..`Div`),
/// comparison (`Equal`..`GreaterEqual`) and logical (`And`, `Or`).
#[derive(Debug, Clone, Copy, PartialEq, Eq, Structural)]
pub enum BinaryOp {
    Add,
    Sub,
    Mul,
    Div,
    Equal,
    NotEqual,
    Less,
    LessEqual,
    Greater,
    GreaterEqual,
    And,
    Or,
}

/// A statement: a unit of execution that produces no value.
#[derive(Debug, PartialEq, Eq)]
pub enum Statement<'a> {
    /// `let name = value;` declares a variable in the current scope.
    Let { name: &'a [u8], value: Expr<'a> },
    /// `name = value;` reassigns a variable of the current or an enclosing scope.
    Assign { name: &'a [u8], value: Expr<'a> },
    /// `print(expr);`
    Print(Expr<'a>),
    /// `{ ... }`: a block, which opens a new lexical scope.
    Block(Vec<Statement<'a>>),
    /// `if condition statement [else statement]`.
    If {
        condition: Expr<'a>,
        statement: Box<Statement<'a>>,
        else_clause: Option<Box<Statement<'a>>>,
    },
    /// `while condition statement`.
    While { condition: Expr<'a>, statement: Box<Statement<'a>> },
    /// An expression evaluated for its effects, e.g. `1 + 2;`.
    Expression(Expr<'a>),
}

/// A complete program: the ordered top-level statements.
#[derive(Debug, PartialEq, Eq)]
pub struct Program<'a> {
    pub statements: Vec<Statement<'a>>,
}

/// The view of an [`Expr`]: the same tree with byte sequences for names.
pub enum SExpr {
    Identifier(Seq<u8>),
    Number(i64),
    Str(Seq<u8>),
    Boolean(bool),
    Binary { left: Box<SExpr>, operator: BinaryOp, right: Box<SExpr> },
}

/// The view of a [`Statement`].
pub enum SStmt {
    Let { name: Seq<u8>, value: SExpr },
    Assign { name: Seq<u8>, value: SExpr },
    Print(SExpr),
    Block(Seq<SStmt>),
    If { condition: SExpr, statement: Box<SStmt>, else_clause: Option<Box<SStmt>> },
    While { condition: SExpr, statement: Box<SStmt> },
    Expression(SExpr),
}

impl<'a> Expr<'a> {
    pub open spec fn view_expr(&self) -> SExpr
        decreases self,
    {
        match self {
            Expr::Identifier(n) => SExpr::Identifier(n@),
            Expr::Number(n) => SExpr::Number(*n),
            Expr::String(s) => SExpr::Str(s@),
            Expr::Boolean(b) => SExpr::Boolean(*b),
            Expr::Binary { left, operator, right } => SExpr::Binary {
                left: Box::new(left.view_expr()),
                operator: *operator,
                right: Box::new(right.view_expr()),
            },
        }
    }
}

impl<'a> View for Expr<'a> {
    type V = SExpr;

    open spec fn view(&self) -> SExpr {
        self.view_expr()
    }
}

pub open spec fn stmts_view<'a>(s: Seq<Statement<'a>>) -> Seq<SStmt>
    decreases s, 0nat,
{
    Seq::new(s.len(), |i: int| if 0 <= i < s.len() { stmt_view(s[i]) } else { SStmt::Block(seq![]) })
}

pub open spec fn stmt_view<'a>(s: Statement<'a>) -> SStmt
    decreases s, 1nat,
{
    match s {
        Statement::Let { name, value } => SStmt::Let { name: name@, value: value@ },
        Statement::Assign { name, value } => SStmt::Assign { name: name@, value: value@ },
        Statement::Print(e) => SStmt::Print(e@),
        Statement::Block(v) => SStmt::Block(stmts_view(v@)),
        Statement::If { condition, statement, else_clause } => SStmt::If {
            condition: condition@,
            statement: Box::new(stmt_view(*statement)),
            else_clause: match else_clause {
                Some(e) => Some(Box::new(stmt_view(*e))),
                None => None,
            },
        },
        Statement::While { condition, statement } => SStmt::While {
            condition: condition@,
            statement: Box::new(stmt_view(*statement)),
        },
        Statement::Expression(e) => SStmt::Expression(e@),
    }
}

} // verus!

verus! {

impl<'a> View for Statement<'a> {
    type V = SStmt;

    open spec fn view(&self) -> SStmt {
        stmt_view(*self)
    }
}

impl<'a> View for Program<'a> {
    type V = Seq<SStmt>;

    open spec fn view(&self) -> Seq<SStmt> {
        stmts_view(self.statements@)
    }
}

/// Appending a statement appends its view.
pub proof fn lemma_stmts_view_push<'a>(v: Seq<Statement<'a>>, s: Statement<'a>)
    ensures
        stmts_view(v.push(s)) == stmts_view(v).push(stmt_view(s)),
{
    assert(stmts_view(v.push(s)) =~= stmts_view(v).push(stmt_view(s)));
}

} // verus!

verus! {

/// The view of a block is the block of the views of its statements.
pub proof fn lemma_stmt_view_block<'a>(s: Statement<'a>)
    ensures
        s matches Statement::Block(v) ==> stmt_view(s) == SStmt::Block(stmts_view(v@)),
{
}

impl<'a> Expr<'a> {
    /// A copy of the expression.
    fn copy(&self) -> (c: Expr<'a>)
        ensures
            c@ == self@,
        decreases self,
    {
        match self {
            Expr::Identifier(n) => Expr::Identifier(n),
            Expr::Number(n) => Expr::Number(*n),
            Expr::String(s) => Expr::String(s),
            Expr::Boolean(b) => Expr::Boolean(*b),
            Expr::Binary { left, operator, right } => {
                let l = (**left).copy();
                let r = (**right).copy();
                Expr::Binary { left: Box::new(l), operator: *operator, right: Box::new(r) }
            },
        }
    }
}

impl<'a> Statement<'a> {
    /// A copy of the statement.
    fn copy(&self) -> (c: Statement<'a>)
        ensures
            c@ == self@,
        decreases self, 1nat,
    {
        match self {
            Statement::Let { name, value } => Statement::Let { name, value: value.copy() },
            Statement::Assign { name, value } => Statement::Assign { name, value: value.copy() },
            Statement::Print(e) => Statement::Print(e.copy()),
            Statement::Block(v) => {
                let c = copy_statements(v);
                proof {
                    lemma_stmt_view_block(*self);
                    lemma_stmt_view_block(Statement::Block(c));
                }
                Statement::Block(c)
            },
            Statement::If { condition, statement, else_clause } => {
                let else_copy = match else_clause {
                    Some(other) => Some(Box::new((**other).copy())),
                    None => None,
                };
                Statement::If { condition: condition.copy(), statement: Box::new((**statement).copy()), else_clause: else_copy }
            },
            Statement::While { condition, statement } => {
                Statement::While { condition: condition.copy(), statement: Box::new((**statement).copy()) }
            },
            Statement::Expression(e) => Statement::Expression(e.copy()),
        }
    }
}

/// A copy of each statement, in order.
fn copy_statements<'a>(v: &Vec<Statement<'a>>) -> (c: Vec<Statement<'a>>)
    ensures
        stmts_view(c@) == stmts_view(v@),
    decreases v@, 0nat,
{
    let mut out: Vec<Statement<'a>> = Vec::new();
    let mut i: usize = 0;
    while i < v.len()
        invariant
            i <= v@.len(),
            out@.len() == i,
            forall|k: int| 0 <= k < i ==> (#[trigger] out@[k])@ == v@[k]@,
        decreases v@.len() - i,
    {
        let s = v[i].copy();
        out.push(s);
        i = i + 1;
    }
    assert(stmts_view(out@) =~= stmts_view(v@));
    out
}

impl<'a> Clone for Expr<'a> {
    fn clone(&self) -> (c: Self)
        ensures
            c@ == self@,
    {
        self.copy()
    }
}

impl<'a> Clone for Statement<'a> {
    fn clone(&self) -> (c: Self)
        ensures
            c@ == self@,
    {
        self.copy()
    }
}

impl<'a> Clone for Program<'a> {
    fn clone(&self) -> (c: Self)
        ensures
            c@ == self@,
    {
        Program { statements: copy_statements(&self.statements) }
    }
}

} // verus!
