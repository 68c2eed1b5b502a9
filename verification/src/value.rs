//! The results of evaluation.

use std::rc::Rc;
use vstd::prelude::*;
use crate::env::Env;
use crate::fault::{type_mismatch, Fault, FaultView};
use crate::number::{number_text, Number, NumberView};
use crate::types::{Term, TermView};

verus! {

/// A function together with the environment it was defined in.
#[derive(Debug, PartialEq)]
pub struct Closure {
    pub body: Rc<Term>,
    pub parameters: Vec<String>,
    pub env: Env,
}

/// A runtime value. Values never change once they are made.
#[derive(Debug, PartialEq)]
pub enum Value {
    Boolean(bool),
    String(String),
    Number(Number),
    Closure(Closure),
    Tuple(Box<Value>, Box<Value>),
}

/// What a [`Value`] is.
pub enum ValueView {
    Boolean(bool),
    String(Seq<char>),
    Number(NumberView),
    Closure { parameters: Seq<Seq<char>>, body: TermView, env: Map<Seq<char>, ValueView> },
    Tuple(Box<ValueView>, Box<ValueView>),
}

/// The contents of a list of strings.
pub open spec fn texts(strings: Seq<String>) -> Seq<Seq<char>> {
    Seq::new(strings.len(), |i: int| strings[i]@)
}

impl View for Value {
    type V = ValueView;

    open spec fn view(&self) -> ValueView
        decreases self,
    {
        match *self {
            Value::Boolean(b) => ValueView::Boolean(b),
            Value::String(s) => ValueView::String(s@),
            Value::Number(n) => ValueView::Number(n@),
            Value::Closure(closure) => ValueView::Closure {
                parameters: texts(closure.parameters@),
                body: (*closure.body).view(),
                env: closure.env.view(),
            },
            Value::Tuple(first, second) => ValueView::Tuple(
                Box::new((*first).view()),
                Box::new((*second).view()),
            ),
        }
    }
}

/// The view of what a fallible operation on values returned.
pub open spec fn result_view(result: Result<Value, Fault>) -> Result<ValueView, FaultView> {
    match result {
        Ok(value) => Ok(value@),
        Err(fault) => Err(fault@),
    }
}

/// The text that stands for a closure wherever a value is rendered.
pub open spec fn closure_text() -> Seq<char> {
    seq!['<', '#', 'c', 'l', 'o', 's', 'u', 'r', 'e', '>']
}

/// The text of a boolean.
pub open spec fn boolean_text(b: bool) -> Seq<char> {
    if b {
        seq!['t', 'r', 'u', 'e']
    } else {
        seq!['f', 'a', 'l', 's', 'e']
    }
}

/// The human-readable text of a value: numbers and booleans in their natural form, strings
/// verbatim, a tuple as its two components in parentheses, a closure as a fixed token.
pub open spec fn show(value: ValueView) -> Seq<char>
    decreases value,
{
    match value {
        ValueView::Number(n) => number_text(n),
        ValueView::Boolean(b) => boolean_text(b),
        ValueView::String(s) => s,
        ValueView::Closure { .. } => closure_text(),
        ValueView::Tuple(first, second) => seq!['('] + show(*first) + seq![',', ' '] + show(
            *second,
        ) + seq![')'],
    }
}

/// `Rc::clone`: a second handle to the same shared value. Nothing is copied, so what the new
/// handle points to is what the old one points to.
#[verifier::external_body]
pub(crate) fn share<T>(handle: &Rc<T>) -> (other: Rc<T>)
    ensures
        other == *handle,
{
    Rc::clone(handle)
}

/// A copy of a list of strings.
pub(crate) fn clone_strings(strings: &Vec<String>) -> (copy: Vec<String>)
    ensures
        texts(copy@) == texts(strings@),
{
    let mut copy: Vec<String> = Vec::new();
    let mut i: usize = 0;
    while i < strings.len()
        invariant
            i <= strings.len(),
            copy.len() == i,
            forall|j: int| 0 <= j < i ==> copy[j]@ == strings[j]@,
        decreases strings.len() - i,
    {
        copy.push(strings[i].clone());
        i += 1;
    }
    assert(texts(copy@) =~= texts(strings@));
    copy
}

impl Closure {
    /// A copy of the closure; the body and the environment are shared, not copied.
    pub fn clone_closure(&self) -> (copy: Closure)
        ensures
            Value::Closure(copy)@ == Value::Closure(*self)@,
    {
        Closure {
            body: share(&self.body),
            parameters: clone_strings(&self.parameters),
            env: self.env.clone_env(),
        }
    }
}

impl Clone for Closure {
    fn clone(&self) -> (copy: Closure)
        ensures
            Value::Closure(copy)@ == Value::Closure(*self)@,
    {
        self.clone_closure()
    }
}

impl Clone for Value {
    fn clone(&self) -> (copy: Value)
        ensures
            copy@ == self@,
    {
        self.clone_value()
    }
}

impl Value {
    /// A copy of the value.
    pub fn clone_value(&self) -> (copy: Value)
        ensures
            copy@ == self@,
        decreases self,
    {
        match self {
            Value::Boolean(b) => Value::Boolean(*b),
            Value::String(s) => Value::String(s.clone()),
            Value::Number(n) => Value::Number(*n),
            Value::Closure(closure) => Value::Closure(closure.clone_closure()),
            Value::Tuple(first, second) => Value::Tuple(
                Box::new(first.clone_value()),
                Box::new(second.clone_value()),
            ),
        }
    }
}

/// The number that a value is.
pub fn assert_int(value: &Value) -> (number: Result<Number, Fault>)
    ensures
        match number {
            Ok(n) => value@ == ValueView::Number(n@),
            Err(fault) => !(value@ is Number) && fault@ == FaultView::TypeMismatch("number"@),
        },
{
    if let Value::Number(num) = value {
        Ok(*num)
    } else {
        Err(type_mismatch("number"))
    }
}

/// The two components of a value that is a tuple.
pub fn assert_tuple(value: &Value) -> (pair: Result<(&Value, &Value), Fault>)
    ensures
        match pair {
            Ok((first, second)) => value@ == ValueView::Tuple(Box::new(first@), Box::new(second@)),
            Err(fault) => !(value@ is Tuple) && fault@ == FaultView::TypeMismatch("tuple"@),
        },
{
    if let Value::Tuple(fst, snd) = value {
        Ok((&**fst, &**snd))
    } else {
        Err(type_mismatch("tuple"))
    }
}

/// The closure that a value is.
pub fn assert_closure(value: &Value) -> (closure: Result<&Closure, Fault>)
    ensures
        match closure {
            Ok(c) => value@ == Value::Closure(*c)@,
            Err(fault) => !(value@ is Closure) && fault@ == FaultView::TypeMismatch("closure"@),
        },
{
    if let Value::Closure(closure) = value {
        Ok(closure)
    } else {
        Err(type_mismatch("closure"))
    }
}

/// The boolean that a value is.
pub fn assert_bool(value: &Value) -> (boolean: Result<bool, Fault>)
    ensures
        match boolean {
            Ok(b) => value@ == ValueView::Boolean(b),
            Err(fault) => !(value@ is Boolean) && fault@ == FaultView::TypeMismatch("boolean"@),
        },
{
    if let Value::Boolean(b) = value {
        Ok(*b)
    } else {
        Err(type_mismatch("boolean"))
    }
}

/// The text that a value contributes to a concatenation: numbers and strings have one, the
/// other kinds have none.
pub open spec fn coerced_text(value: ValueView) -> Option<Seq<char>> {
    match value {
        ValueView::Number(n) => Some(number_text(n)),
        ValueView::String(s) => Some(s),
        _ => None,
    }
}

/// The text of a number or a string, for concatenation.
pub fn cast_to_string(value: &Value) -> (text: Result<String, Fault>)
    ensures
        match text {
            Ok(s) => coerced_text(value@) == Some(s@),
            Err(fault) => coerced_text(value@) is None && fault@ == FaultView::TypeMismatch(
                "string or number"@,
            ),
        },
{
    match value {
        Value::Number(num) => Ok(num.to_text()),
        Value::String(s) => Ok(s.clone()),
        _ => Err(type_mismatch("string or number")),
    }
}

/// The human-readable text of a value.
pub fn show_value(value: &Value) -> (text: String)
    ensures
        text@ == show(value@),
    decreases value,
{
    match value {
        Value::Number(num) => num.to_text(),
        Value::Boolean(b) => {
            proof {
                reveal_strlit("true");
                reveal_strlit("false");
            }
            assert("true"@ =~= boolean_text(true));
            assert("false"@ =~= boolean_text(false));
            if *b {
                "true".to_owned()
            } else {
                "false".to_owned()
            }
        },
        Value::String(s) => s.clone(),
        Value::Closure(_) => {
            proof {
                reveal_strlit("<#closure>");
            }
            assert("<#closure>"@ =~= closure_text());
            "<#closure>".to_owned()
        },
        Value::Tuple(fst, snd) => {
            proof {
                reveal_strlit("(");
                reveal_strlit(", ");
                reveal_strlit(")");
            }
            assert("("@ =~= seq!['(']);
            assert(", "@ =~= seq![',', ' ']);
            assert(")"@ =~= seq![')']);
            let first = show_value(fst);
            let second = show_value(snd);
            let mut text = "(".to_owned();
            text.append(first.as_str());
            text.append(", ");
            text.append(second.as_str());
            text.append(")");
            text
        },
    }
}

} // verus!
