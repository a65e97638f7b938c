//! What the arithmetic of projection goals computes: each operation gives
//! the integer its name says whenever that integer fits in an `i64`, and no
//! result otherwise; division rounds toward zero as Rust does.
use crate::goals::project::{abs_int, div_trunc, op1_spec, op2_spec, Op1, Op2};
use vstd::arithmetic::div_mod::{
    lemma_div_decreases, lemma_div_pos_is_pos, lemma_fundamental_div_mod,
    lemma_fundamental_div_mod_converse, lemma_mod_pos_bound,
};
use vstd::prelude::*;

verus! {

/// `n` fits in an `i64`.
pub open spec fn in_i64(n: int) -> bool {
    i64::MIN <= n <= i64::MAX
}

/// `q` is the quotient of `a` by `b` rounded toward zero: the remainder
/// `a - q * b` is smaller than `b` in magnitude and is zero or has the sign
/// of `a`.
pub open spec fn truncated_quotient(a: int, b: int, q: int) -> bool {
    &&& abs_int(a - q * b) < abs_int(b)
    &&& (a - q * b == 0 || (a - q * b < 0) == (a < 0))
}

proof fn lemma_div_trunc(a: int, b: int)
    requires
        b != 0,
    ensures
        truncated_quotient(a, b, div_trunc(a, b)),
        abs_int(div_trunc(a, b)) <= abs_int(a),
        abs_int(div_trunc(a, b)) == abs_int(a) ==> a == 0 || abs_int(b) == 1,
        abs_int(b) == 1 ==> abs_int(div_trunc(a, b)) == abs_int(a),
{
    let aa = abs_int(a);
    let bb = abs_int(b);
    let qq = aa / bb;
    let rr = aa % bb;
    lemma_fundamental_div_mod(aa, bb);
    lemma_mod_pos_bound(aa, bb);
    lemma_div_pos_is_pos(aa, bb);
    assert(aa == qq * bb + rr) by (nonlinear_arith)
        requires
            aa == bb * qq + rr,
    ;
    if aa > 0 && bb > 1 {
        lemma_div_decreases(aa, bb);
    }
    if bb == 1 {
        assert(qq * bb == qq) by (nonlinear_arith)
            requires
                bb == 1,
        ;
    }
    let q = div_trunc(a, b);
    if b < 0 {
        assert(bb == -b);
    } else {
        assert(bb == b);
    }
    if (a < 0) != (b < 0) {
        assert(q == -qq);
        if a < 0 {
            assert(q * b == -(qq * bb)) by (nonlinear_arith)
                requires
                    q == -qq,
                    b == bb,
            ;
        } else {
            assert(q * b == qq * bb) by (nonlinear_arith)
                requires
                    q == -qq,
                    b == -bb,
            ;
        }
    } else {
        assert(q == qq);
        if a < 0 {
            assert(q * b == -(qq * bb)) by (nonlinear_arith)
                requires
                    q == qq,
                    b == -bb,
            ;
        } else {
            assert(q * b == qq * bb) by (nonlinear_arith)
                requires
                    q == qq,
                    b == bb,
            ;
        }
    }
}

/// The one-argument operations: `Add(c)` adds `c`, `Sub(c)` subtracts `c`
/// from the integer, `Mul(c)` multiplies by `c`, and `Div(c)` divides by `c`
/// rounding toward zero. Each gives a result exactly when that result fits
/// in an `i64` (and, for division, `c` is not zero).
pub proof fn law_op1_arithmetic(x: i64, c: i64)
    ensures
        op1_spec(Op1::Add(c), x) is Some <==> in_i64(x + c),
        op1_spec(Op1::Add(c), x) matches Some(r) ==> r == x + c,
        op1_spec(Op1::Sub(c), x) is Some <==> in_i64(x - c),
        op1_spec(Op1::Sub(c), x) matches Some(r) ==> r == x - c,
        op1_spec(Op1::Mul(c), x) is Some <==> in_i64(x * c),
        op1_spec(Op1::Mul(c), x) matches Some(r) ==> r == x * c,
        op1_spec(Op1::Div(c), x) is None <==> c == 0 || (x == i64::MIN && c == -1),
        op1_spec(Op1::Div(c), x) matches Some(q) ==> truncated_quotient(x as int, c as int, q as int),
{
    if c != 0 {
        lemma_div_trunc(x as int, c as int);
    }
}

/// The two-argument operations, on `x` and `y`: `Add` is `x + y`, `Sub` is
/// `x - y`, `RevSub` is `y - x`, `Mul` is `x * y`, `Div` divides `x` by `y`
/// and `RevDiv` divides `y` by `x`, rounding toward zero. Each gives a
/// result exactly when that result fits in an `i64` and no division is by
/// zero.
pub proof fn law_op2_arithmetic(x: i64, y: i64)
    ensures
        op2_spec(Op2::Add, x, y) is Some <==> in_i64(x + y),
        op2_spec(Op2::Add, x, y) matches Some(r) ==> r == x + y,
        op2_spec(Op2::Sub, x, y) is Some <==> in_i64(x - y),
        op2_spec(Op2::Sub, x, y) matches Some(r) ==> r == x - y,
        op2_spec(Op2::RevSub, x, y) is Some <==> in_i64(y - x),
        op2_spec(Op2::RevSub, x, y) matches Some(r) ==> r == y - x,
        op2_spec(Op2::Mul, x, y) is Some <==> in_i64(x * y),
        op2_spec(Op2::Mul, x, y) matches Some(r) ==> r == x * y,
        op2_spec(Op2::Div, x, y) is None <==> y == 0 || (x == i64::MIN && y == -1),
        op2_spec(Op2::Div, x, y) matches Some(q) ==> truncated_quotient(x as int, y as int, q as int),
        op2_spec(Op2::RevDiv, x, y) is None <==> x == 0 || (y == i64::MIN && x == -1),
        op2_spec(Op2::RevDiv, x, y) matches Some(q) ==> truncated_quotient(y as int, x as int, q as int),
{
    if y != 0 {
        lemma_div_trunc(x as int, y as int);
    }
    if x != 0 {
        lemma_div_trunc(y as int, x as int);
    }
}

/// Subtracting `c` undoes adding it, and dividing by a nonzero `c` undoes
/// multiplying by it, wherever the first operation has a result.
pub proof fn law_op1_inverses(x: i64, c: i64)
    ensures
        op1_spec(Op1::Add(c), x) matches Some(y) ==> op1_spec(Op1::Sub(c), y) == Some(x),
        op1_spec(Op1::Sub(c), x) matches Some(y) ==> op1_spec(Op1::Add(c), y) == Some(x),
        c != 0 ==> (op1_spec(Op1::Mul(c), x) matches Some(y) ==> op1_spec(Op1::Div(c), y) == Some(
            x,
        )),
{
    if c != 0 {
        if let Some(y) = op1_spec(Op1::Mul(c), x) {
            lemma_div_trunc(y as int, c as int);
            let q = div_trunc(y as int, c as int);
            let r = y - q * c;
            assert(y == x * c);
            assert((x - q) * c == r) by (nonlinear_arith)
                requires
                    y == x * c,
                    r == y - q * c,
            ;
            if x != q {
                assert(abs_int((x - q) * c) >= abs_int(c as int)) by (nonlinear_arith)
                    requires
                        x - q != 0,
                ;
            }
        }
    }
}

} // verus!
