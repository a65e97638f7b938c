//! Comparison goals on integers.
use crate::goals::project::{assert_2, Relation};
use crate::goals::{both, either, unify, Goal};
use crate::kernel::constraints::Constraint;
use crate::goals::project::Assert2;
use crate::value::Value;
use std::rc::Rc;
use vstd::prelude::*;

verus! {

/// The comparison goal `a rel b`.
pub open spec fn compare_goal(a: Value, b: Value, rel: Relation) -> Goal {
    Goal::Constraint(Rc::new(Constraint::Assert2(Assert2 { a, b, rel })))
}

/// A goal that succeeds if `a` is greater than `b`.
pub fn gt(a: Value, b: Value) -> (res: Goal)
    ensures
        res == compare_goal(a, b, Relation::Greater),
{
    assert_2(a, b, Relation::Greater)
}

/// A goal that succeeds if `a` is greater than or equal to `b`.
pub fn gte(a: Value, b: Value) -> (res: Goal)
    ensures
        res == compare_goal(a, b, Relation::GreaterEq),
{
    assert_2(a, b, Relation::GreaterEq)
}

/// A goal that succeeds if `a` is less than `b`.
pub fn lt(a: Value, b: Value) -> (res: Goal)
    ensures
        res == compare_goal(a, b, Relation::Less),
{
    assert_2(a, b, Relation::Less)
}

/// A goal that succeeds if `a` is less than or equal to `b`.
pub fn lte(a: Value, b: Value) -> (res: Goal)
    ensures
        res == compare_goal(a, b, Relation::LessEq),
{
    assert_2(a, b, Relation::LessEq)
}

/// A goal that unifies `c` with the greater of `a` and `b`: either `c` is
/// `a` and `a >= b`, or `c` is `b` and `b > a`.
pub fn max(a: Value, b: Value, c: Value) -> (res: Goal)
    ensures
        res == Goal::Either(
            Rc::new(
                Goal::Both(
                    Rc::new(Goal::Unify(a, c)),
                    Rc::new(compare_goal(a, b, Relation::GreaterEq)),
                ),
            ),
            Rc::new(
                Goal::Both(Rc::new(Goal::Unify(b, c)), Rc::new(compare_goal(b, a, Relation::Greater))),
            ),
        ),
{
    either(
        both(unify(a.share(), c.share()), gte(a.share(), b.share())),
        both(unify(b.share(), c), gt(b, a)),
    )
}

/// A goal that unifies `c` with the lesser of `a` and `b`: either `c` is
/// `a` and `a <= b`, or `c` is `b` and `b < a`.
pub fn min(a: Value, b: Value, c: Value) -> (res: Goal)
    ensures
        res == Goal::Either(
            Rc::new(
                Goal::Both(Rc::new(Goal::Unify(a, c)), Rc::new(compare_goal(a, b, Relation::LessEq))),
            ),
            Rc::new(
                Goal::Both(Rc::new(Goal::Unify(b, c)), Rc::new(compare_goal(b, a, Relation::Less))),
            ),
        ),
{
    either(
        both(unify(a.share(), c.share()), lte(a.share(), b.share())),
        both(unify(b.share(), c), lt(b, a)),
    )
}

} // verus!
