//! Projection goals: constraints that wait until values are resolved.
use crate::goals::Goal;
use crate::kernel::constraints::Constraint;
use crate::value::Value;
use std::rc::Rc;
use vstd::prelude::*;

verus! {

/// A comparison between two integers.
#[derive(Debug, Clone, Copy, PartialEq, Eq, Structural)]
pub enum Relation {
    Less,
    LessEq,
    Greater,
    GreaterEq,
    Equal,
    NotEqual,
}

/// Whether `a` stands in relation `r` to `b`.
pub open spec fn holds(r: Relation, a: i64, b: i64) -> bool {
    match r {
        Relation::Less => a < b,
        Relation::LessEq => a <= b,
        Relation::Greater => a > b,
        Relation::GreaterEq => a >= b,
        Relation::Equal => a == b,
        Relation::NotEqual => a != b,
    }
}

/// Decide a comparison.
pub fn compare_ints(r: Relation, a: i64, b: i64) -> (res: bool)
    ensures
        res == holds(r, a, b),
{
    match r {
        Relation::Less => a < b,
        Relation::LessEq => a <= b,
        Relation::Greater => a > b,
        Relation::GreaterEq => a >= b,
        Relation::Equal => a == b,
        Relation::NotEqual => a != b,
    }
}

/// A function of one integer: the integer combined with a constant.
#[derive(Debug, Clone, Copy, PartialEq, Eq, Structural)]
pub enum Op1 {
    Add(i64),
    Sub(i64),
    Mul(i64),
    Div(i64),
}

/// A function of two integers `x` and `y`.
#[derive(Debug, Clone, Copy, PartialEq, Eq, Structural)]
pub enum Op2 {
    /// `x + y`
    Add,
    /// `x - y`
    Sub,
    /// `y - x`
    RevSub,
    /// `x * y`
    Mul,
    /// `x / y`
    Div,
    /// `y / x`
    RevDiv,
}

/// Integer division as Rust computes it: the quotient rounded toward zero.
pub open spec fn div_trunc(a: int, b: int) -> int
    recommends
        b != 0,
{
    let q = abs_int(a) / abs_int(b);
    if (a < 0) != (b < 0) {
        -q
    } else {
        q
    }
}

/// The absolute value.
pub open spec fn abs_int(a: int) -> int {
    if a < 0 {
        -a
    } else {
        a
    }
}

/// The integer value of an arithmetic result, if it fits in an `i64`.
pub open spec fn fit(n: int) -> Option<i64> {
    if i64::MIN <= n <= i64::MAX {
        Some(n as i64)
    } else {
        None
    }
}

/// The result of applying `f` to `x`, or `None` when it overflows or divides
/// by zero.
pub open spec fn op1_spec(f: Op1, x: i64) -> Option<i64> {
    match f {
        Op1::Add(c) => fit(x + c),
        Op1::Sub(c) => fit(x - c),
        Op1::Mul(c) => fit(x * c),
        Op1::Div(c) => if c == 0 {
            None
        } else {
            fit(div_trunc(x as int, c as int))
        },
    }
}

/// The result of applying `f` to `x` and `y`, or `None` when it overflows or
/// divides by zero.
pub open spec fn op2_spec(f: Op2, x: i64, y: i64) -> Option<i64> {
    match f {
        Op2::Add => fit(x + y),
        Op2::Sub => fit(x - y),
        Op2::RevSub => fit(y - x),
        Op2::Mul => fit(x * y),
        Op2::Div => if y == 0 {
            None
        } else {
            fit(div_trunc(x as int, y as int))
        },
        Op2::RevDiv => if x == 0 {
            None
        } else {
            fit(div_trunc(y as int, x as int))
        },
    }
}

/// The magnitude of an `i64`.
fn magnitude(a: i64) -> (res: u64)
    ensures
        res as int == abs_int(a as int),
{
    if a >= 0 {
        a as u64
    } else {
        let m = -(a + 1);
        (m as u64) + 1
    }
}

/// Checked division as Rust computes it.
fn div_checked(a: i64, b: i64) -> (res: Option<i64>)
    ensures
        res == (if b == 0 {
            None
        } else {
            fit(div_trunc(a as int, b as int))
        }),
{
    if b == 0 {
        return None;
    }
    let ua = magnitude(a);
    let ub = magnitude(b);
    let q = ua / ub;
    proof {
        assert(q as int == abs_int(a as int) / abs_int(b as int));
        assert(q as int <= abs_int(a as int)) by (nonlinear_arith)
            requires
                q as int == abs_int(a as int) / abs_int(b as int),
                abs_int(b as int) >= 1,
                abs_int(a as int) >= 0,
        ;
    }
    if (a < 0) != (b < 0) {
        if q == 0x8000_0000_0000_0000u64 {
            Some(i64::MIN)
        } else {
            let qi = q as i64;
            Some(-qi)
        }
    } else {
        if q > 0x7fff_ffff_ffff_ffffu64 {
            None
        } else {
            Some(q as i64)
        }
    }
}

/// Apply a one-argument function.
pub fn apply_op1(f: Op1, x: i64) -> (res: Option<i64>)
    ensures
        res == op1_spec(f, x),
{
    match f {
        Op1::Add(c) => x.checked_add(c),
        Op1::Sub(c) => x.checked_sub(c),
        Op1::Mul(c) => x.checked_mul(c),
        Op1::Div(c) => div_checked(x, c),
    }
}

/// Apply a two-argument function.
pub fn apply_op2(f: Op2, x: i64, y: i64) -> (res: Option<i64>)
    ensures
        res == op2_spec(f, x, y),
{
    match f {
        Op2::Add => x.checked_add(y),
        Op2::Sub => x.checked_sub(y),
        Op2::RevSub => y.checked_sub(x),
        Op2::Mul => x.checked_mul(y),
        Op2::Div => div_checked(x, y),
        Op2::RevDiv => div_checked(y, x),
    }
}

/// A projection goal that succeeds if the resolved value `a` passes the
/// test `a rel bound`. Create with `assert_1`.
#[derive(Debug, Clone)]
pub struct Assert1 {
    pub a: Value,
    pub rel: Relation,
    pub bound: i64,
}

/// A projection goal that succeeds if the resolved values pass the test
/// `a rel b`. Create with `assert_2`.
#[derive(Debug, Clone)]
pub struct Assert2 {
    pub a: Value,
    pub b: Value,
    pub rel: Relation,
}

/// A projection goal that derives one resolved value from the other. Create
/// with `map_1`.
#[derive(Debug, Clone)]
pub struct Map1 {
    pub a: Value,
    pub b: Value,
    pub a_to_b: Op1,
    pub b_to_a: Op1,
}

/// A projection goal that derives one resolved value from the other two.
/// Create with `map_2`.
#[derive(Debug, Clone)]
pub struct Map2 {
    pub a: Value,
    pub b: Value,
    pub c: Value,
    pub ab_to_c: Op2,
    pub ac_to_b: Op2,
    pub bc_to_a: Op2,
}

} // verus!

verus! {

/// A goal that succeeds once `a` resolves to an integer `n` with
/// `n rel bound`, and fails once it resolves to anything else.
pub fn assert_1(a: Value, rel: Relation, bound: i64) -> (res: Goal)
    ensures
        res == Goal::Constraint(Rc::new(Constraint::Assert1(Assert1 { a, rel, bound }))),
{
    Goal::Constraint(Rc::new(Constraint::Assert1(Assert1 { a, rel, bound })))
}

/// A goal that succeeds once `a` and `b` resolve to integers `x` and `y`
/// with `x rel y`, and fails once they resolve to anything else.
pub fn assert_2(a: Value, b: Value, rel: Relation) -> (res: Goal)
    ensures
        res == Goal::Constraint(Rc::new(Constraint::Assert2(Assert2 { a, b, rel }))),
{
    Goal::Constraint(Rc::new(Constraint::Assert2(Assert2 { a, b, rel })))
}

/// A goal that, once one of `a` and `b` is resolved, unifies the other with
/// the result of `a_to_b` or `b_to_a` on it.
pub fn map_1(a: Value, b: Value, a_to_b: Op1, b_to_a: Op1) -> (res: Goal)
    ensures
        res == Goal::Constraint(Rc::new(Constraint::Map1(Map1 { a, b, a_to_b, b_to_a }))),
{
    Goal::Constraint(Rc::new(Constraint::Map1(Map1 { a, b, a_to_b, b_to_a })))
}

/// A goal that, once two of `a`, `b` and `c` are resolved, unifies the third
/// with the result of the matching function on them.
pub fn map_2(a: Value, b: Value, c: Value, ab_to_c: Op2, ac_to_b: Op2, bc_to_a: Op2) -> (res: Goal)
    ensures
        res == Goal::Constraint(
            Rc::new(Constraint::Map2(Map2 { a, b, c, ab_to_c, ac_to_b, bc_to_a })),
        ),
{
    Goal::Constraint(Rc::new(Constraint::Map2(Map2 { a, b, c, ab_to_c, ac_to_b, bc_to_a })))
}

} // verus!
