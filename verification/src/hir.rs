//! Evaluation-context plumbing for the step engine that later executes
//! resolved definitions: the context handed to a step's closure, and block
//! argument/flag queries.

use crate::error::Error;
use crate::strutil::str_eq;
use vstd::prelude::*;

verus! {

/// The variable environment an evaluation step threads through; its
/// contents are not consumed here.
#[derive(Debug)]
pub struct Environment {}

/// The type of a value flowing between steps.
#[derive(Debug, Clone, Copy, PartialEq, Eq, Structural)]
pub enum Type {
    Nil,
    Bool,
    Str,
}

/// A value flowing between steps.
#[derive(Debug)]
pub enum Value {
    Nil,
    Bool(bool),
    Str(String),
}

/// The outcome of one evaluation step: a value and the environment.
pub type StepR = Result<(Value, Environment), Error>;

/// The context handed to an evaluation step: the environment plus the root
/// and working directories.
#[derive(Debug)]
pub struct Context {
    pub env: Environment,
    pub root: String,
    pub wd: String,
}

impl Context {
    /// _Always_ returns `Ok`: wraps the value with the context's
    /// environment.
    pub fn done(self, value: Value) -> (r: StepR)
        ensures
            r matches Ok(p) && p.0 == value && p.1 == self.env,
    {
        Ok((value, self.env))
    }

    /// _Always_ returns `Ok`: wraps an arbitrary value with the context's
    /// environment.
    pub fn done_o<T>(self, value: T) -> (r: Result<(T, Environment), Error>)
        ensures
            r matches Ok(p) && p.0 == value && p.1 == self.env,
    {
        Ok((value, self.env))
    }
}

/// An argument held by a block; its contents are not consumed here.
#[derive(Debug)]
pub struct Argument {}

/// A block under compilation: its input type, its remaining arguments, and
/// its remaining flags.
#[derive(Debug)]
pub struct Block {
    pub in_ty: Type,
    pub args: Vec<Argument>,
    pub flags: Vec<String>,
}

impl Block {
    /// The input type of the block.
    pub fn in_ty(&self) -> (r: &Type)
        ensures
            *r == self.in_ty,
    {
        &self.in_ty
    }

    /// The number of arguments remaining.
    pub fn args_len(&self) -> (r: usize)
        ensures
            r == self.args@.len(),
    {
        self.args.len()
    }

    /// Gets the flag that matches a given name, removing it from the flag
    /// stack. If no name is given with `None`, the top of the flag stack is
    /// popped, if there is one.
    pub fn get_flag(&mut self, flag: Option<&str>) -> (r: Option<String>)
        ensures
            final (self).in_ty == old(self).in_ty,
            final (self).args@ == old(self).args@,
            match flag {
                None => {
                    if old(self).flags@.len() == 0 {
                        r is None && final (self).flags@ == old(self).flags@
                    } else {
                        (r matches Some(f) && f == old(self).flags@.last()) && final (
                        self).flags@ == old(self).flags@.drop_last()
                    }
                },
                Some(name) => {
                    if exists|i: int|
                        0 <= i < old(self).flags@.len() && (#[trigger] old(self).flags@[i])@
                            == name@ {
                        exists|i: int|
                            {
                                &&& 0 <= i < old(self).flags@.len()
                                &&& (#[trigger] old(self).flags@[i])@ == name@
                                &&& forall|j: int| 0 <= j < i ==> (#[trigger] old(self).flags@[j])@
                                    != name@
                                &&& r == Some(old(self).flags@[i])
                                &&& final (self).flags@ == old(self).flags@.remove(i)
                            }
                    } else {
                        r is None && final (self).flags@ == old(self).flags@
                    }
                },
            },
    {
        match flag {
            Some(name) => {
                let mut i: usize = 0;
                while i < self.flags.len()
                    invariant
                        flag == Some(name),
                        *self == *old(self),
                        i <= self.flags@.len(),
                        forall|j: int| 0 <= j < i ==> (#[trigger] old(self).flags@[j])@ != name@,
                    decreases self.flags@.len() - i,
                {
                    if str_eq(self.flags[i].as_str(), name) {
                        proof {
                            assert((old(self).flags@[i as int])@ == name@);
                        }
                        let f = self.flags.remove(i);
                        proof {
                            assert(self.flags@ == old(self).flags@.remove(i as int));
                            assert(f == old(self).flags@[i as int]);
                        }
                        return Some(f);
                    }
                    i += 1;
                }
                None
            },
            None => self.flags.pop(),
        }
    }
}

} // verus!
