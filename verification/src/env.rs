//! Environments: which value each name stands for at a point of the evaluation.
//!
//! An environment never changes. Extending it makes a new environment that shares the old one,
//! so a closure that holds an environment keeps seeing the bindings it was made with.

use std::rc::Rc;
use vstd::prelude::*;
use crate::fault::{Fault, FaultView};
use crate::value::{share, Value, ValueView};

verus! {

#[derive(Debug, PartialEq)]
struct Binding {
    name: String,
    value: Value,
    rest: Env,
}

/// A mapping from names to values.
#[derive(Clone, Debug, PartialEq)]
pub struct Env {
    head: Option<Rc<Binding>>,
}

impl Env {
    /// The mapping that the environment is: the latest binding of each name.
    pub closed spec fn view(&self) -> Map<Seq<char>, ValueView>
        decreases self,
    {
        match self.head {
            None => Map::empty(),
            Some(binding) => binding.rest.view().insert(binding.name@, binding.value.view()),
        }
    }

    /// How many bindings were made to reach this environment.
    closed spec fn length(&self) -> nat
        decreases self,
    {
        match self.head {
            None => 0,
            Some(binding) => 1 + binding.rest.length(),
        }
    }

    /// The environment without bindings.
    pub fn new() -> (env: Env)
        ensures
            env@ == Map::<Seq<char>, ValueView>::empty(),
    {
        Env { head: None }
    }

    /// Another handle to the same environment.
    pub fn clone_env(&self) -> (env: Env)
        ensures
            env@ == self@,
    {
        match &self.head {
            None => Env { head: None },
            Some(binding) => Env { head: Some(share(binding)) },
        }
    }

    /// The environment that binds `name` to `value` and is otherwise this one. A binding of
    /// the same name in this environment is shadowed in the new one; this one stays as it is.
    pub fn extend(&self, name: String, value: Value) -> (env: Env)
        ensures
            env@ == self@.insert(name@, value@),
    {
        Env { head: Some(Rc::new(Binding { name, value, rest: self.clone_env() })) }
    }

    /// The value that `name` stands for.
    pub fn lookup(&self, name: &String) -> (found: Result<Value, Fault>)
        ensures
            match found {
                Ok(value) => self@.contains_key(name@) && value@ == self@[name@],
                Err(fault) => !self@.contains_key(name@) && fault@ == FaultView::UndefinedVariable(
                    name@,
                ),
            },
    {
        let mut current: &Env = self;
        loop
            invariant
                self@.contains_key(name@) <==> current@.contains_key(name@),
                self@.contains_key(name@) ==> self@[name@] == current@[name@],
            decreases current.length(),
        {
            match &current.head {
                None => {
                    return Err(Fault::UndefinedVariable(name.clone()));
                },
                Some(binding) => {
                    if binding.name == *name {
                        return Ok(binding.value.clone_value());
                    }
                    assert(current@ == binding.rest@.insert(binding.name@, binding.value@));
                    current = &binding.rest;
                },
            }
        }
    }
}

} // verus!
