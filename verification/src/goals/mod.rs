//! Goals: declarative assertions about the relationships between values.
use crate::kernel::constraints::Constraint;
use crate::list::{list_from_seq, list_from_vec, List};
use crate::value::Value;
use std::rc::Rc;
use vstd::prelude::*;

pub mod arith;
pub mod cmp;
pub mod not;
pub mod ops;
pub mod project;

verus! {

/// A goal. Applying it to a state updates the state, forks it or fails.
#[derive(Debug, Clone)]
pub enum Goal {
    /// Always succeeds.
    Succeed,
    /// Always fails.
    Fail,
    /// Unify two values.
    Unify(Value, Value),
    /// Both goals, the first then the second.
    Both(Rc<Goal>, Rc<Goal>),
    /// All goals, in order.
    All(Rc<List<Goal>>),
    /// One state for every goal that succeeds.
    Any(Rc<List<Goal>>),
    /// One state for each of the two goals that succeeds.
    Either(Rc<Goal>, Rc<Goal>),
    /// Negation as failure.
    Not(not::Not),
    /// A constraint.
    Constraint(Rc<Constraint>),
}

/// A goal that always succeeds.
pub fn succeed() -> (res: Goal)
    ensures
        res == Goal::Succeed,
{
    Goal::Succeed
}

/// A goal that always fails.
pub fn fail() -> (res: Goal)
    ensures
        res == Goal::Fail,
{
    Goal::Fail
}

/// A goal that unifies `a` with `b`.
pub fn unify(a: Value, b: Value) -> (res: Goal)
    ensures
        res == Goal::Unify(a, b),
{
    Goal::Unify(a, b)
}

/// A goal that succeeds if `a` and then `b` succeed.
pub fn both(a: Goal, b: Goal) -> (res: Goal)
    ensures
        res == Goal::Both(Rc::new(a), Rc::new(b)),
{
    Goal::Both(Rc::new(a), Rc::new(b))
}

/// A goal that succeeds if all of `goals` succeed, applied in order.
pub fn all(goals: Vec<Goal>) -> (res: Goal)
    ensures
        res == Goal::All(Rc::new(list_from_seq(goals@))),
{
    Goal::All(Rc::new(list_from_vec(goals)))
}

/// A goal that yields a state for every one of `goals` that succeeds.
pub fn any(goals: Vec<Goal>) -> (res: Goal)
    ensures
        res == Goal::Any(Rc::new(list_from_seq(goals@))),
{
    Goal::Any(Rc::new(list_from_vec(goals)))
}

/// A goal that yields a state for each of `a` and `b` that succeeds.
pub fn either(a: Goal, b: Goal) -> (res: Goal)
    ensures
        res == Goal::Either(Rc::new(a), Rc::new(b)),
{
    Goal::Either(Rc::new(a), Rc::new(b))
}

/// A goal that adds the constraint `c`.
pub fn constraint(c: Constraint) -> (res: Goal)
    ensures
        res == Goal::Constraint(Rc::new(c)),
{
    Goal::Constraint(Rc::new(c))
}

} // verus!
