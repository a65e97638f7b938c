//! Arithmetic goals on integers: each relates three values and derives the
//! third from any two. An operation without an integer result (overflow,
//! division by zero) fails.
use crate::goals::project::{map_2, Map2, Op2};
use crate::goals::Goal;
use crate::kernel::constraints::Constraint;
use crate::value::Value;
use std::rc::Rc;
use vstd::prelude::*;

verus! {

/// The goal relating `a`, `b` and `c` through the three functions.
pub open spec fn map_2_goal(a: Value, b: Value, c: Value, ab_to_c: Op2, ac_to_b: Op2, bc_to_a: Op2) -> Goal {
    Goal::Constraint(Rc::new(Constraint::Map2(Map2 { a, b, c, ab_to_c, ac_to_b, bc_to_a })))
}

/// `a + b == c`.
pub fn add(a: Value, b: Value, c: Value) -> (res: Goal)
    ensures
        res == map_2_goal(a, b, c, Op2::Add, Op2::RevSub, Op2::RevSub),
{
    map_2(a, b, c, Op2::Add, Op2::RevSub, Op2::RevSub)
}

/// `a - b == c`.
pub fn sub(a: Value, b: Value, c: Value) -> (res: Goal)
    ensures
        res == map_2_goal(a, b, c, Op2::Sub, Op2::Sub, Op2::Add),
{
    map_2(a, b, c, Op2::Sub, Op2::Sub, Op2::Add)
}

/// `a * b == c`.
pub fn mul(a: Value, b: Value, c: Value) -> (res: Goal)
    ensures
        res == map_2_goal(a, b, c, Op2::Mul, Op2::RevDiv, Op2::RevDiv),
{
    map_2(a, b, c, Op2::Mul, Op2::RevDiv, Op2::RevDiv)
}

/// `a / b == c`, with division rounding towards zero.
pub fn div(a: Value, b: Value, c: Value) -> (res: Goal)
    ensures
        res == map_2_goal(a, b, c, Op2::Div, Op2::Div, Op2::Mul),
{
    map_2(a, b, c, Op2::Div, Op2::Div, Op2::Mul)
}

} // verus!
