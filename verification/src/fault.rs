//! The conditions that abort an evaluation.

use vstd::prelude::*;

verus! {

/// Why an evaluation stopped without a value.
#[derive(Clone, Debug, PartialEq, Eq)]
pub enum Fault {
    /// An operand or subject was not of the required kind; the payload names that kind.
    TypeMismatch(String),
    /// A variable reference had no binding in the active environment.
    UndefinedVariable(String),
    /// A call supplied `got` arguments to a closure of `expected` parameters.
    ArityMismatch(usize, usize),
    /// The evaluation nested deeper than the limit it was given.
    DepthExceeded,
}

/// The mathematical content of a [`Fault`].
pub enum FaultView {
    TypeMismatch(Seq<char>),
    UndefinedVariable(Seq<char>),
    ArityMismatch(nat, nat),
    DepthExceeded,
}

impl View for Fault {
    type V = FaultView;

    open spec fn view(&self) -> FaultView {
        match *self {
            Fault::TypeMismatch(expected) => FaultView::TypeMismatch(expected@),
            Fault::UndefinedVariable(name) => FaultView::UndefinedVariable(name@),
            Fault::ArityMismatch(expected, got) => FaultView::ArityMismatch(expected as nat, got as nat),
            Fault::DepthExceeded => FaultView::DepthExceeded,
        }
    }
}

/// Builds the fault for a value that is not of the kind named by `type_str`.
pub fn type_mismatch(type_str: &str) -> (fault: Fault)
    ensures
        fault@ == FaultView::TypeMismatch(type_str@),
{
    Fault::TypeMismatch(type_str.to_owned())
}

} // verus!
