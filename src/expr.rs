//! The expression tree produced by the reader, its mathematical model, and
//! the outcome of a single recognizer.

use vstd::prelude::*;

use crate::decimal::{Decimal, DecimalModel};

verus! {

/// Mathematical model of an expression tree.
pub enum Form {
    Symbol(Seq<char>),
    Number(DecimalModel),
    Text(Seq<char>),
    Bool(bool),
    List(Seq<Form>),
    Quote(Seq<Form>),
    Function { name: Seq<char>, min_arity: nat, variadic: bool, method: Seq<char> },
}

/// A callable value built by the reader for a dot-prefixed symbol: when
/// invoked, it calls the method named `method` on the record passed as its
/// first argument, with the remaining arguments.
#[derive(Debug, Clone, PartialEq)]
pub struct Function {
    pub name: String,
    pub min_arity: usize,
    pub variadic: bool,
    pub method: String,
}

/// A node of the expression tree.
#[derive(Debug, PartialEq)]
pub enum Expr {
    Symbol(String),
    Num(Decimal),
    String(String),
    Bool(bool),
    List(Vec<Expr>),
    Quote(Vec<Expr>),
    Function(Function),
}

impl Expr {
    pub open spec fn view(self) -> Form
        decreases self,
    {
        match self {
            Expr::Symbol(s) => Form::Symbol(s@),
            Expr::Num(d) => Form::Number(d@),
            Expr::String(s) => Form::Text(s@),
            Expr::Bool(b) => Form::Bool(b),
            Expr::List(v) => Form::List(forms_of(v@)),
            Expr::Quote(v) => Form::Quote(forms_of(v@)),
            Expr::Function(f) => Form::Function {
                name: f.name@,
                min_arity: f.min_arity as nat,
                variadic: f.variadic,
                method: f.method@,
            },
        }
    }
}

/// The models of a sequence of expressions, in order.
pub open spec fn forms_of(es: Seq<Expr>) -> Seq<Form>
    decreases es,
{
    if es.len() == 0 {
        Seq::empty()
    } else {
        forms_of(es.drop_last()).push(es.last().view())
    }
}

pub proof fn lemma_forms_of_push(es: Seq<Expr>, e: Expr)
    ensures
        forms_of(es.push(e)) == forms_of(es).push(e.view()),
{
    assert(es.push(e).drop_last() =~= es);
}

pub proof fn lemma_forms_of_empty()
    ensures
        forms_of(Seq::<Expr>::empty()) == Seq::<Form>::empty(),
        forall|fs: Seq<Form>| Seq::<Form>::empty() + fs == fs,
{
    assert forall|fs: Seq<Form>| Seq::<Form>::empty() + fs == fs by {
        assert(Seq::<Form>::empty() + fs =~= fs);
    }
}

/// Where in the grammar a parse failed.
#[derive(Debug, Clone, Copy, PartialEq, Eq, Structural)]
pub enum ParseErrorKind {
    /// No alternative of the expression grammar matched.
    NoExpression,
    /// A form was opened and not closed.
    ClosingParen,
    /// A quote or tuple marker was not followed by an opening parenthesis.
    OpeningParen,
    /// An exponent marker was not followed by digits.
    ExponentDigits,
}

/// A parse failure: what was expected, and at which character position.
#[derive(Debug, Clone, Copy, PartialEq, Eq, Structural)]
pub struct ParseError {
    pub position: usize,
    pub kind: ParseErrorKind,
}

impl ParseError {
    /// A short human-readable description of what was expected.
    pub fn message(&self) -> (r: &'static str) {
        match self.kind {
            ParseErrorKind::NoExpression => "expected an expression",
            ParseErrorKind::ClosingParen => "expected a closing paren",
            ParseErrorKind::OpeningParen => "expected an opening paren",
            ParseErrorKind::ExponentDigits => "expected exponent digits",
        }
    }
}

/// Model of one recognizer's outcome on a buffer at a position.
pub enum Step {
    /// The form was recognized; parsing continues at the position given.
    Matched(Form, int),
    /// Nothing matched at the position given; another alternative may be tried.
    Unmatched(int),
    /// A committed prefix was followed by something else: the parse is over.
    Failed(int, ParseErrorKind),
}

/// The outcome of one recognizer.
#[derive(Debug, PartialEq)]
pub enum ParseOutcome {
    Matched(Expr, usize),
    Unmatched(usize),
    Failed(ParseError),
}

impl ParseOutcome {
    pub open spec fn view(self) -> Step {
        match self {
            ParseOutcome::Matched(e, p) => Step::Matched(e.view(), p as int),
            ParseOutcome::Unmatched(p) => Step::Unmatched(p as int),
            ParseOutcome::Failed(err) => Step::Failed(err.position as int, err.kind),
        }
    }
}

} // verus!
