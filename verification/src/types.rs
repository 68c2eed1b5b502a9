//! The syntax tree that the evaluator consumes.
//!
//! A term owns its children; they are held behind reference counts so that a closure can keep
//! the body of its function without copying it. Every node carries the place in the source
//! text that it came from. The evaluator never looks at it.

use std::rc::Rc;
use vstd::prelude::*;
use crate::number::{Number, NumberView};

verus! {

/// A span of source text.
#[derive(Clone, Debug, PartialEq, Eq)]
pub struct Location {
    pub start: i32,
    pub end: i32,
    pub filename: String,
}

/// The operator of a binary operation.
#[derive(Clone, Copy, Debug, PartialEq, Eq)]
pub enum BinaryOp {
    Add,
    Sub,
    Mul,
    Div,
    Rem,
    Eq,
    Neq,
    Lt,
    Gt,
    Lte,
    Gte,
    And,
    Or,
}

/// A name that a let-binding or a function introduces.
#[derive(Clone, Debug, PartialEq, Eq)]
pub struct Parameter {
    pub text: String,
    pub location: Location,
}

/// A node of the syntax tree.
#[allow(inconsistent_fields)]
#[derive(Clone, Debug, PartialEq, Eq)]
pub enum Term {
    Int { value: Number, location: Location },
    Str { value: String, location: Location },
    Bool { value: bool, location: Location },
    If { condition: Rc<Term>, then: Rc<Term>, otherwise: Rc<Term>, location: Location },
    Let { name: Parameter, value: Rc<Term>, next: Rc<Term>, location: Location },
    Binary { lhs: Rc<Term>, op: BinaryOp, rhs: Rc<Term>, location: Location },
    Call { callee: Rc<Term>, arguments: Vec<Rc<Term>>, location: Location },
    Function { parameters: Vec<Parameter>, value: Rc<Term>, location: Location },
    First { value: Rc<Term>, location: Location },
    Print { value: Rc<Term>, location: Location },
    Second { value: Rc<Term>, location: Location },
    Tuple { first: Rc<Term>, second: Rc<Term>, location: Location },
    Var { text: String, location: Location },
}

/// A program: its root term and the span of the whole file.
#[derive(Clone, Debug, PartialEq, Eq)]
pub struct File {
    pub expression: Rc<Term>,
    pub location: Location,
}

/// What a [`Term`] says, without the places it came from.
pub enum TermView {
    Int(NumberView),
    Str(Seq<char>),
    Bool(bool),
    If(Box<TermView>, Box<TermView>, Box<TermView>),
    Let(Seq<char>, Box<TermView>, Box<TermView>),
    Binary(Box<TermView>, BinaryOp, Box<TermView>),
    Call(Box<TermView>, Seq<TermView>),
    Function(Seq<Seq<char>>, Box<TermView>),
    First(Box<TermView>),
    Print(Box<TermView>),
    Second(Box<TermView>),
    Tuple(Box<TermView>, Box<TermView>),
    Var(Seq<char>),
}

/// The names of a list of parameters, in order.
pub open spec fn parameter_names(parameters: Seq<Parameter>) -> Seq<Seq<char>> {
    Seq::new(parameters.len(), |i: int| parameters[i].text@)
}

impl View for Term {
    type V = TermView;

    open spec fn view(&self) -> TermView
        decreases self,
    {
        match *self {
            Term::Int { value, .. } => TermView::Int(value@),
            Term::Str { value, .. } => TermView::Str(value@),
            Term::Bool { value, .. } => TermView::Bool(value),
            Term::If { condition, then, otherwise, .. } => TermView::If(
                Box::new((*condition).view()),
                Box::new((*then).view()),
                Box::new((*otherwise).view()),
            ),
            Term::Let { name, value, next, .. } => TermView::Let(
                name.text@,
                Box::new((*value).view()),
                Box::new((*next).view()),
            ),
            Term::Binary { lhs, op, rhs, .. } => TermView::Binary(
                Box::new((*lhs).view()),
                op,
                Box::new((*rhs).view()),
            ),
            Term::Call { callee, arguments, .. } => TermView::Call(
                Box::new((*callee).view()),
                Seq::new(
                    arguments.len() as nat,
                    |i: int|
                        if 0 <= i < arguments.len() {
                            (*arguments[i]).view()
                        } else {
                            TermView::Bool(false)
                        },
                ),
            ),
            Term::Function { parameters, value, .. } => TermView::Function(
                parameter_names(parameters@),
                Box::new((*value).view()),
            ),
            Term::First { value, .. } => TermView::First(Box::new((*value).view())),
            Term::Print { value, .. } => TermView::Print(Box::new((*value).view())),
            Term::Second { value, .. } => TermView::Second(Box::new((*value).view())),
            Term::Tuple { first, second, .. } => TermView::Tuple(
                Box::new((*first).view()),
                Box::new((*second).view()),
            ),
            Term::Var { text, .. } => TermView::Var(text@),
        }
    }
}

} // verus!
