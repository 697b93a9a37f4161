//! The abstract syntax of the language, and the errors that the parser and
//! the compiler report.

use vstd::prelude::*;

verus! {

/// A unary operator.
#[derive(Debug, Clone, Copy, PartialEq, Eq, Structural)]
pub enum Op1 {
    Add1,
    Sub1,
    IsNum,
    IsBool,
    Print,
}

/// A binary operator.
#[derive(Debug, Clone, Copy, PartialEq, Eq, Structural)]
pub enum Op2 {
    Plus,
    Minus,
    Times,
    Equal,
    Greater,
    GreaterOrEqual,
    Less,
    LessOrEqual,
    Index,
}

/// An expression.
#[derive(Debug)]
pub enum Expr {
    Number(i64),
    Boolean(bool),
    Id(String),
    Let(Vec<(String, Expr)>, Box<Expr>),
    UnOp(Op1, Box<Expr>),
    BinOp(Op2, Box<Expr>, Box<Expr>),
    If(Box<Expr>, Box<Expr>, Box<Expr>),
    Loop(Box<Expr>),
    Break(Box<Expr>),
    SetVar(String, Box<Expr>),
    Block(Vec<Expr>),
    Tuple(Vec<Expr>),
    Call(String, Vec<Expr>),
}

/// What an expression is: `Expr` with names as sequences of characters and
/// lists as sequences.
pub enum ExprView {
    Number(i64),
    Boolean(bool),
    Id(Seq<char>),
    Let(Seq<(Seq<char>, ExprView)>, Box<ExprView>),
    UnOp(Op1, Box<ExprView>),
    BinOp(Op2, Box<ExprView>, Box<ExprView>),
    If(Box<ExprView>, Box<ExprView>, Box<ExprView>),
    Loop(Box<ExprView>),
    Break(Box<ExprView>),
    SetVar(Seq<char>, Box<ExprView>),
    Block(Seq<ExprView>),
    Tuple(Seq<ExprView>),
    Call(Seq<char>, Seq<ExprView>),
}

/// The view of an expression, by recursion on its structure.
pub open spec fn expr_view(e: Expr) -> ExprView
    decreases e,
{
    match e {
        Expr::Number(n) => ExprView::Number(n),
        Expr::Boolean(b) => ExprView::Boolean(b),
        Expr::Id(x) => ExprView::Id(x@),
        Expr::Let(binds, body) => ExprView::Let(
            Seq::new(
                binds.len() as nat,
                |i: int|
                    if 0 <= i < binds.len() {
                        (binds[i].0@, expr_view(binds[i].1))
                    } else {
                        (Seq::empty(), ExprView::Boolean(false))
                    },
            ),
            Box::new(expr_view(*body)),
        ),
        Expr::UnOp(op, a) => ExprView::UnOp(op, Box::new(expr_view(*a))),
        Expr::BinOp(op, a, b) => ExprView::BinOp(
            op,
            Box::new(expr_view(*a)),
            Box::new(expr_view(*b)),
        ),
        Expr::If(c, t, a) => ExprView::If(
            Box::new(expr_view(*c)),
            Box::new(expr_view(*t)),
            Box::new(expr_view(*a)),
        ),
        Expr::Loop(a) => ExprView::Loop(Box::new(expr_view(*a))),
        Expr::Break(a) => ExprView::Break(Box::new(expr_view(*a))),
        Expr::SetVar(x, a) => ExprView::SetVar(x@, Box::new(expr_view(*a))),
        Expr::Block(es) => ExprView::Block(exprs_view(es)),
        Expr::Tuple(es) => ExprView::Tuple(exprs_view(es)),
        Expr::Call(f, es) => ExprView::Call(f@, exprs_view(es)),
    }
}

/// The views of a list of expressions, in order.
pub open spec fn exprs_view(es: Vec<Expr>) -> Seq<ExprView>
    decreases es,
{
    Seq::new(
        es.len() as nat,
        |i: int|
            if 0 <= i < es.len() {
                expr_view(es[i])
            } else {
                ExprView::Boolean(false)
            },
    )
}

impl View for Expr {
    type V = ExprView;

    open spec fn view(&self) -> ExprView {
        expr_view(*self)
    }
}

/// A copy of a list of expressions.
pub fn clone_exprs(es: &Vec<Expr>) -> (r: Vec<Expr>)
    ensures
        exprs_view(r) == exprs_view(*es),
    decreases es,
{
    let mut out: Vec<Expr> = Vec::new();
    let mut i: usize = 0;
    while i < es.len()
        invariant
            i <= es.len(),
            out.len() == i,
            forall|j: int| 0 <= j < i ==> expr_view(#[trigger] out[j]) == expr_view(es[j]),
        decreases es.len() - i,
    {
        out.push(clone_expr(&es[i]));
        i += 1;
    }
    assert(exprs_view(out) =~= exprs_view(*es));
    out
}

/// A copy of a list of bindings.
pub fn clone_bindings(binds: &Vec<(String, Expr)>) -> (r: Vec<(String, Expr)>)
    ensures
        r.len() == binds.len(),
        forall|j: int|
            0 <= j < binds.len() ==> (#[trigger] r[j]).0@ == binds[j].0@ && expr_view(r[j].1)
                == expr_view(binds[j].1),
    decreases binds,
{
    let mut out: Vec<(String, Expr)> = Vec::new();
    let mut i: usize = 0;
    while i < binds.len()
        invariant
            i <= binds.len(),
            out.len() == i,
            forall|j: int|
                0 <= j < i ==> (#[trigger] out[j]).0@ == binds[j].0@ && expr_view(out[j].1)
                    == expr_view(binds[j].1),
        decreases binds.len() - i,
    {
        let copy = clone_expr(&binds[i].1);
        out.push((binds[i].0.clone(), copy));
        i += 1;
    }
    out
}

/// A copy of an expression.
pub fn clone_expr(e: &Expr) -> (r: Expr)
    ensures
        r@ == e@,
    decreases e,
{
    match e {
        Expr::Number(n) => Expr::Number(*n),
        Expr::Boolean(b) => Expr::Boolean(*b),
        Expr::Id(x) => Expr::Id(x.clone()),
        Expr::Let(binds, body) => {
            let copies = clone_bindings(binds);
            let r = Expr::Let(copies, Box::new(clone_expr(body)));
            assert(r@->Let_0 =~= e@->Let_0);
            r
        },
        Expr::UnOp(op, a) => Expr::UnOp(*op, Box::new(clone_expr(a))),
        Expr::BinOp(op, a, b) => Expr::BinOp(*op, Box::new(clone_expr(a)), Box::new(clone_expr(b))),
        Expr::If(c, t, a) => Expr::If(
            Box::new(clone_expr(c)),
            Box::new(clone_expr(t)),
            Box::new(clone_expr(a)),
        ),
        Expr::Loop(a) => Expr::Loop(Box::new(clone_expr(a))),
        Expr::Break(a) => Expr::Break(Box::new(clone_expr(a))),
        Expr::SetVar(x, a) => Expr::SetVar(x.clone(), Box::new(clone_expr(a))),
        Expr::Block(es) => Expr::Block(clone_exprs(es)),
        Expr::Tuple(es) => Expr::Tuple(clone_exprs(es)),
        Expr::Call(f, es) => Expr::Call(f.clone(), clone_exprs(es)),
    }
}

impl Clone for Expr {
    fn clone(&self) -> (r: Self)
        ensures
            r@ == self@,
    {
        clone_expr(self)
    }
}

/// The views of a list of names, in order.
pub open spec fn names_view(names: Seq<String>) -> Seq<Seq<char>> {
    Seq::new(names.len(), |i: int| names[i]@)
}

/// A function definition.
#[derive(Debug, Clone)]
pub struct Definition {
    pub name: String,
    pub params: Vec<String>,
    pub body: Box<Expr>,
}

/// What a definition is.
pub struct DefinitionView {
    pub name: Seq<char>,
    pub params: Seq<Seq<char>>,
    pub body: ExprView,
}

impl View for Definition {
    type V = DefinitionView;

    open spec fn view(&self) -> DefinitionView {
        DefinitionView { name: self.name@, params: names_view(self.params@), body: (*self.body)@ }
    }
}

/// A program: its function definitions by name, and the expression that it
/// evaluates.
#[derive(Debug, Clone)]
pub struct Program {
    pub definitions: im::HashMap<String, Definition>,
    pub main: Box<Expr>,
}

/// Why a source text is not a program.
#[derive(Debug, Clone)]
pub enum StaticError {
    /// A malformed form, a misused keyword, a literal out of range, a call
    /// of an unknown function or with the wrong number of arguments, a
    /// function or a parameter defined twice.
    Invalid,
    /// A variable that no enclosing binding defines.
    UnboundVariable(String),
    /// A name bound twice in one `let`.
    DuplicateBinding,
    /// A `break` that no `loop` encloses.
    BreakOutsideLoop,
    /// An expression with more stack slots, parameters or labels than the
    /// compiler can number.
    TooLarge,
}

/// What a static error is.
pub enum StaticErrorView {
    Invalid,
    UnboundVariable(Seq<char>),
    DuplicateBinding,
    BreakOutsideLoop,
    TooLarge,
}

impl View for StaticError {
    type V = StaticErrorView;

    open spec fn view(&self) -> StaticErrorView {
        match self {
            StaticError::Invalid => StaticErrorView::Invalid,
            StaticError::UnboundVariable(x) => StaticErrorView::UnboundVariable(x@),
            StaticError::DuplicateBinding => StaticErrorView::DuplicateBinding,
            StaticError::BreakOutsideLoop => StaticErrorView::BreakOutsideLoop,
            StaticError::TooLarge => StaticErrorView::TooLarge,
        }
    }
}

/// The diagnostic of a static error.
pub open spec fn static_error_text(e: StaticErrorView) -> Seq<char> {
    match e {
        StaticErrorView::Invalid => "Invalid expression provided"@,
        StaticErrorView::UnboundVariable(x) => "Unbound variable identifier "@ + x,
        StaticErrorView::DuplicateBinding => "Duplicate binding"@,
        StaticErrorView::BreakOutsideLoop => "Invalid: break outside of loop"@,
        StaticErrorView::TooLarge => "Invalid: expression too large"@,
    }
}

impl StaticError {
    /// The diagnostic that is shown for this error.
    pub fn message(&self) -> (s: String)
        ensures
            s@ == static_error_text(self@),
    {
        match self {
            StaticError::Invalid => "Invalid expression provided".to_owned(),
            StaticError::UnboundVariable(x) => {
                let mut s = "Unbound variable identifier ".to_owned();
                s.append(x.as_str());
                s
            },
            StaticError::DuplicateBinding => "Duplicate binding".to_owned(),
            StaticError::BreakOutsideLoop => "Invalid: break outside of loop".to_owned(),
            StaticError::TooLarge => "Invalid: expression too large".to_owned(),
        }
    }
}

} // verus!
