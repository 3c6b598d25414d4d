//! Operator semantics over values: coercions, structural equality, and the
//! binary operation table shared by the evaluator and the optimizer.

use vstd::prelude::*;

use crate::ast::{
    exprs_view, ht_list, ht_val, lemma_exprs_view, lemma_ht_list_elem, val_view, Expr, ExprM,
    Operator, Value, ValM,
};
use crate::error::{ErrM, Error};
use crate::num::{
    diff_n, num_le, num_lt, prod_d, prod_n, quot_d, quot_n, s_norm, s_pow, sum_d, sum_n, trem,
    NumM, Num,
};

verus! {

/// The truth value a value coerces to: a number is true when it is not
/// zero; anything but a number or a truth value does not coerce.
pub open spec fn s_truth(v: ValM) -> Result<bool, ErrM> {
    match v {
        ValM::Numeric(q) => Ok(q.n != 0),
        ValM::Logical(b) => Ok(b),
        _ => Err(ErrM::CoercionError),
    }
}

/// The number a value coerces to: only a number does.
pub open spec fn s_numeric(v: ValM) -> Result<NumM, ErrM> {
    match v {
        ValM::Numeric(q) => Ok(q),
        _ => Err(ErrM::CoercionError),
    }
}

/// Equality of two value models. Aggregates compare by length and then
/// elementwise, and only over already-evaluated elements: meeting an
/// unevaluated element is a coercion error.
pub open spec fn s_val_eq(a: ValM, b: ValM) -> Result<bool, ErrM>
    decreases ht_val(a),
{
    match (a, b) {
        (ValM::Nil, ValM::Nil) => Ok(true),
        (ValM::Numeric(x), ValM::Numeric(y)) => Ok(x.same(y)),
        (ValM::Logical(x), ValM::Logical(y)) => Ok(x == y),
        (ValM::Tuple(x), ValM::Tuple(y)) => s_vals_eq(x, y),
        (ValM::SetOf(x), ValM::SetOf(y)) => s_vals_eq(x, y),
        _ => Ok(false),
    }
}

/// Elementwise equality of two evaluated element lists, left to right,
/// stopping at the first unequal pair or unevaluated element.
pub open spec fn s_vals_eq(x: Seq<ExprM>, y: Seq<ExprM>) -> Result<bool, ErrM>
    decreases ht_list(x),
    via s_vals_eq_decreases
{
    if x.len() != y.len() {
        Ok(false)
    } else if x.len() == 0 {
        Ok(true)
    } else {
        match (x[0], y[0]) {
            (ExprM::Value(va), ExprM::Value(vb)) => match s_val_eq(va, vb) {
                Ok(true) => s_vals_eq(x.drop_first(), y.drop_first()),
                other => other,
            },
            _ => Err(ErrM::CoercionError),
        }
    }
}

#[via_fn]
proof fn s_vals_eq_decreases(x: Seq<ExprM>, y: Seq<ExprM>) {
    if x.len() == y.len() && x.len() > 0 {
        lemma_ht_list_elem(x, 0);
        crate::ast::lemma_ht_list_tail(x);
    }
}

/// The ordering comparisons, defined for numbers and for truth values
/// (false below true), and for nothing else.
pub open spec fn s_order(op: Operator, a: ValM, b: ValM) -> Result<ValM, ErrM> {
    match (a, b) {
        (ValM::Numeric(x), ValM::Numeric(y)) => Ok(
            ValM::Logical(
                match op {
                    Operator::Ge => num_le(y, x),
                    Operator::Gt => num_lt(y, x),
                    Operator::Le => num_le(x, y),
                    _ => num_lt(x, y),
                },
            ),
        ),
        (ValM::Logical(p), ValM::Logical(q)) => Ok(
            ValM::Logical(
                match op {
                    Operator::Ge => p || !q,
                    Operator::Gt => p && !q,
                    Operator::Le => !p || q,
                    _ => !p && q,
                },
            ),
        ),
        _ => Err(ErrM::CoercionError),
    }
}

/// The arithmetic operations on two numbers: exact rational results, with
/// division and remainder refusing a zero divisor.
pub open spec fn s_num_op(op: Operator, x: NumM, y: NumM) -> Result<NumM, ErrM> {
    match op {
        Operator::Add => s_norm(sum_n(x, y), sum_d(x, y)),
        Operator::Sub => s_norm(diff_n(x, y), sum_d(x, y)),
        Operator::Mul => s_norm(prod_n(x, y), prod_d(x, y)),
        Operator::Div => if y.n == 0 {
            Err(ErrM::DivisionByZero)
        } else {
            s_norm(quot_n(x, y), quot_d(x, y))
        },
        Operator::Rem => if y.n == 0 {
            Err(ErrM::DivisionByZero)
        } else {
            s_norm(trem(x.n * y.d, x.d * y.n), sum_d(x, y))
        },
        _ => s_pow(x, y),
    }
}

/// What one binary operation evaluates to on two already-evaluated values.
///
/// Arithmetic coerces both sides to numbers (left first); equality compares
/// values of any variant; the orderings compare numbers or truth values;
/// the connectives coerce both sides to truth values and are strict. The
/// assignment marker is not an operation on values.
pub open spec fn s_operation(op: Operator, a: ValM, b: ValM) -> Result<ValM, ErrM> {
    match op {
        Operator::Add | Operator::Sub | Operator::Mul | Operator::Div | Operator::Pow
            | Operator::Rem => match s_numeric(a) {
            Ok(x) => match s_numeric(b) {
                Ok(y) => match s_num_op(op, x, y) {
                    Ok(q) => Ok(ValM::Numeric(q)),
                    Err(e) => Err(e),
                },
                Err(e) => Err(e),
            },
            Err(e) => Err(e),
        },
        Operator::Eq => match s_val_eq(a, b) {
            Ok(t) => Ok(ValM::Logical(t)),
            Err(e) => Err(e),
        },
        Operator::Ne => match s_val_eq(a, b) {
            Ok(t) => Ok(ValM::Logical(!t)),
            Err(e) => Err(e),
        },
        Operator::Ge | Operator::Gt | Operator::Le | Operator::Lt => s_order(op, a, b),
        Operator::And | Operator::Or => match s_truth(a) {
            Ok(p) => match s_truth(b) {
                Ok(q) => Ok(
                    ValM::Logical(
                        if op == Operator::And {
                            p && q
                        } else {
                            p || q
                        },
                    ),
                ),
                Err(e) => Err(e),
            },
            Err(e) => Err(e),
        },
        Operator::Store => Err(ErrM::AssignmentTargetInvalid),
    }
}

/// The arithmetic law: on two well-formed numbers, addition, subtraction
/// and multiplication succeed exactly when the exact rational result fits
/// the representation in lowest terms, and then denote exactly that
/// rational; division and remainder fail with `DivisionByZero` exactly on a
/// zero divisor and are otherwise exact in the same sense.
pub proof fn lemma_arithmetic_exact(op: Operator, x: NumM, y: NumM)
    requires
        x.wf(),
        y.wf(),
    ensures
        op == Operator::Add ==> arith_exact(
            s_operation(op, ValM::Numeric(x), ValM::Numeric(y)),
            sum_n(x, y),
            sum_d(x, y),
        ),
        op == Operator::Sub ==> arith_exact(
            s_operation(op, ValM::Numeric(x), ValM::Numeric(y)),
            diff_n(x, y),
            sum_d(x, y),
        ),
        op == Operator::Mul ==> arith_exact(
            s_operation(op, ValM::Numeric(x), ValM::Numeric(y)),
            prod_n(x, y),
            prod_d(x, y),
        ),
        op == Operator::Div && y.n == 0 ==> s_operation(op, ValM::Numeric(x), ValM::Numeric(y))
            == Err::<ValM, ErrM>(ErrM::DivisionByZero),
        op == Operator::Div && y.n != 0 ==> arith_exact(
            s_operation(op, ValM::Numeric(x), ValM::Numeric(y)),
            quot_n(x, y),
            quot_d(x, y),
        ),
        op == Operator::Rem && y.n == 0 ==> s_operation(op, ValM::Numeric(x), ValM::Numeric(y))
            == Err::<ValM, ErrM>(ErrM::DivisionByZero),
        op == Operator::Rem && y.n != 0 ==> arith_exact(
            s_operation(op, ValM::Numeric(x), ValM::Numeric(y)),
            trem(x.n * y.d, x.d * y.n),
            sum_d(x, y),
        ),
{
    assert(sum_d(x, y) >= 1 && prod_d(x, y) >= 1) by (nonlinear_arith)
        requires
            x.d >= 1,
            y.d >= 1,
            sum_d(x, y) == x.d * y.d,
            prod_d(x, y) == x.d * y.d,
    {}
    crate::num::lemma_norm_ratio(sum_n(x, y), sum_d(x, y));
    crate::num::lemma_norm_ratio(diff_n(x, y), sum_d(x, y));
    crate::num::lemma_norm_ratio(prod_n(x, y), prod_d(x, y));
    crate::num::lemma_norm_ratio(trem(x.n * y.d, x.d * y.n), sum_d(x, y));
    if y.n != 0 {
        assert(quot_d(x, y) >= 1) by (nonlinear_arith)
            requires
                x.d >= 1,
                y.n != 0,
                quot_d(x, y) == if y.n < 0 {
                    -(x.d * y.n)
                } else {
                    x.d * y.n
                },
        {}
        crate::num::lemma_norm_ratio(quot_n(x, y), quot_d(x, y));
    }
}

/// The operation succeeded exactly when the canonical form of `n / d` fits,
/// and then denotes exactly the rational `n / d`.
pub open spec fn arith_exact(r: Result<ValM, ErrM>, n: int, d: int) -> bool {
    &&& (r is Ok <==> crate::num::norm_fits(n, d))
    &&& (r matches Ok(v) ==> v matches ValM::Numeric(q) && q.wf() && q.is_ratio(n, d))
    &&& (r is Err ==> r == Err::<ValM, ErrM>(ErrM::NumericOverflow))
}

/// Operations on well-formed values yield well-formed values.
pub proof fn lemma_s_operation_wf(op: Operator, a: ValM, b: ValM)
    requires
        crate::ast::val_wfm(a),
        crate::ast::val_wfm(b),
    ensures
        s_operation(op, a, b) matches Ok(v) ==> crate::ast::val_wfm(v),
{
    match op {
        Operator::Add | Operator::Sub | Operator::Mul | Operator::Div | Operator::Pow
            | Operator::Rem => {
            if let (Ok(x), Ok(y)) = (s_numeric(a), s_numeric(b)) {
                match op {
                    Operator::Add | Operator::Sub | Operator::Mul => {
                        assert(sum_d(x, y) >= 1 && prod_d(x, y) >= 1) by (nonlinear_arith)
                            requires
                                x.d >= 1,
                                y.d >= 1,
                                sum_d(x, y) == x.d * y.d,
                                prod_d(x, y) == x.d * y.d,
                        {}
                        crate::num::lemma_s_norm_wf(sum_n(x, y), sum_d(x, y));
                        crate::num::lemma_s_norm_wf(diff_n(x, y), sum_d(x, y));
                        crate::num::lemma_s_norm_wf(prod_n(x, y), prod_d(x, y));
                    },
                    Operator::Div => {
                        if y.n != 0 {
                            assert(quot_d(x, y) >= 1) by (nonlinear_arith)
                                requires
                                    x.d >= 1,
                                    y.n != 0,
                                    quot_d(x, y) == if y.n < 0 {
                                        -(x.d * y.n)
                                    } else {
                                        x.d * y.n
                                    },
                            {}
                            crate::num::lemma_s_norm_wf(quot_n(x, y), quot_d(x, y));
                        }
                    },
                    Operator::Rem => {
                        if y.n != 0 {
                            assert(sum_d(x, y) >= 1) by (nonlinear_arith)
                                requires
                                    x.d >= 1,
                                    y.d >= 1,
                                    sum_d(x, y) == x.d * y.d,
                            {}
                            crate::num::lemma_s_norm_wf(trem(x.n * y.d, x.d * y.n), sum_d(x, y));
                        }
                    },
                    _ => {
                        crate::num::lemma_s_pow_wf(x, y);
                    },
                }
            }
        },
        _ => {},
    }
}

/// The model of a value result.
pub open spec fn val_res_view(r: Result<Value, Error>) -> Result<ValM, ErrM> {
    match r {
        Ok(v) => Ok(val_view(v)),
        Err(e) => Err(e.deep_view()),
    }
}

/// The model of a truth result.
pub open spec fn bool_res_view(r: Result<bool, Error>) -> Result<bool, ErrM> {
    match r {
        Ok(b) => Ok(b),
        Err(e) => Err(e.deep_view()),
    }
}

/// Coerces a value to its truth content.
pub fn to_truth(v: &Value) -> (r: Result<bool, Error>)
    ensures
        bool_res_view(r) == s_truth(val_view(*v)),
{
    match v {
        Value::Numeric(q) => Ok(!q.is_zero()),
        Value::Logical(b) => Ok(*b),
        _ => Err(Error::CoercionError),
    }
}

/// Equality of two values, as the language defines it.
pub fn val_eq(a: &Value, b: &Value) -> (r: Result<bool, Error>)
    ensures
        bool_res_view(r) == s_val_eq(val_view(*a), val_view(*b)),
    decreases ht_val(val_view(*a)),
{
    match (a, b) {
        (Value::Nil, Value::Nil) => Ok(true),
        (Value::Numeric(x), Value::Numeric(y)) => Ok(x.eq_num(y)),
        (Value::Logical(x), Value::Logical(y)) => Ok(*x == *y),
        (Value::Tuple(x), Value::Tuple(y)) => vals_eq(x, y),
        (Value::SetOf(x), Value::SetOf(y)) => vals_eq(x, y),
        _ => Ok(false),
    }
}

/// Elementwise equality of evaluated element lists.
fn vals_eq(x: &Vec<Expr>, y: &Vec<Expr>) -> (r: Result<bool, Error>)
    ensures
        bool_res_view(r) == s_vals_eq(exprs_view(x@), exprs_view(y@)),
    decreases ht_list(exprs_view(x@)),
{
    proof {
        lemma_exprs_view(x@);
        lemma_exprs_view(y@);
    }
    if x.len() != y.len() {
        return Ok(false);
    }
    proof {
        assert(x@.skip(0) =~= x@);
        assert(y@.skip(0) =~= y@);
    }
    let n = x.len();
    let mut i: usize = 0;
    while i < n
        invariant
            0 <= i <= n,
            n == x@.len() == y@.len(),
            s_vals_eq(exprs_view(x@), exprs_view(y@)) == s_vals_eq(
                exprs_view(x@.skip(i as int)),
                exprs_view(y@.skip(i as int)),
            ),
        decreases n - i,
    {
        proof {
            lemma_exprs_view(x@);
            lemma_exprs_view(y@);
            lemma_exprs_view(x@.skip(i as int));
            lemma_exprs_view(y@.skip(i as int));
            lemma_ht_list_elem(exprs_view(x@), i as int);
        }
        let stop: Result<bool, Error> = match (&x[i], &y[i]) {
            (Expr::Value(va), Expr::Value(vb)) => {
                proof {
                    assert(x@.skip(i as int)[0] == x@[i as int]);
                    assert(y@.skip(i as int)[0] == y@[i as int]);
                }
                match val_eq(va, vb) {
                    Ok(true) => {
                        proof {
                            assert(x@.skip(i as int).drop_first() =~= x@.skip(i as int + 1));
                            assert(y@.skip(i as int).drop_first() =~= y@.skip(i as int + 1));
                            assert(exprs_view(x@.skip(i as int)).drop_first() =~= exprs_view(
                                x@.skip(i as int + 1),
                            )) by {
                                lemma_exprs_view(x@.skip(i as int + 1));
                            }
                            assert(exprs_view(y@.skip(i as int)).drop_first() =~= exprs_view(
                                y@.skip(i as int + 1),
                            )) by {
                                lemma_exprs_view(y@.skip(i as int + 1));
                            }
                        }
                        i = i + 1;
                        continue;
                    },
                    other => other,
                }
            },
            _ => {
                proof {
                    assert(x@.skip(i as int)[0] == x@[i as int]);
                    assert(y@.skip(i as int)[0] == y@[i as int]);
                }
                Err(Error::CoercionError)
            },
        };
        return stop;
    }
    proof {
        assert(x@.skip(n as int) =~= Seq::<Expr>::empty());
        assert(y@.skip(n as int) =~= Seq::<Expr>::empty());
    }
    Ok(true)
}

/// One arithmetic operation on two values coerced to numbers.
pub fn exec_num_op(op: Operator, a: &Value, b: &Value) -> (r: Result<Value, Error>)
    requires
        op == Operator::Add || op == Operator::Sub || op == Operator::Mul || op == Operator::Div
            || op == Operator::Pow || op == Operator::Rem,
    ensures
        val_res_view(r) == s_operation(op, val_view(*a), val_view(*b)),
{
    let x = match a {
        Value::Numeric(q) => q,
        _ => {
            return Err(Error::CoercionError);
        },
    };
    let y = match b {
        Value::Numeric(q) => q,
        _ => {
            return Err(Error::CoercionError);
        },
    };
    let computed = match op {
        Operator::Add => x.checked_add(y),
        Operator::Sub => x.checked_sub(y),
        Operator::Mul => x.checked_mul(y),
        Operator::Div => x.checked_div(y),
        Operator::Rem => x.checked_rem(y),
        _ => x.checked_pow(y),
    };
    match computed {
        Ok(q) => Ok(Value::Numeric(q)),
        Err(e) => Err(e),
    }
}

/// One strict logical connective on two values coerced to truth values.
pub fn exec_log_op(op: Operator, a: &Value, b: &Value) -> (r: Result<Value, Error>)
    requires
        op == Operator::And || op == Operator::Or,
    ensures
        val_res_view(r) == s_operation(op, val_view(*a), val_view(*b)),
{
    let p = match to_truth(a) {
        Ok(t) => t,
        Err(e) => {
            return Err(e);
        },
    };
    let q = match to_truth(b) {
        Ok(t) => t,
        Err(e) => {
            return Err(e);
        },
    };
    if matches!(op, Operator::And) {
        Ok(Value::Logical(p && q))
    } else {
        Ok(Value::Logical(p || q))
    }
}

/// One comparison of two values.
pub fn exec_value_op(op: Operator, a: &Value, b: &Value) -> (r: Result<Value, Error>)
    requires
        op == Operator::Eq || op == Operator::Ne || op == Operator::Ge || op == Operator::Gt
            || op == Operator::Le || op == Operator::Lt,
    ensures
        val_res_view(r) == s_operation(op, val_view(*a), val_view(*b)),
{
    match op {
        Operator::Eq => match val_eq(a, b) {
            Ok(t) => Ok(Value::Logical(t)),
            Err(e) => Err(e),
        },
        Operator::Ne => match val_eq(a, b) {
            Ok(t) => Ok(Value::Logical(!t)),
            Err(e) => Err(e),
        },
        _ => match (a, b) {
            (Value::Numeric(x), Value::Numeric(y)) => {
                let t = match op {
                    Operator::Ge => y.le_num(x),
                    Operator::Gt => y.lt_num(x),
                    Operator::Le => x.le_num(y),
                    _ => x.lt_num(y),
                };
                Ok(Value::Logical(t))
            },
            (Value::Logical(p), Value::Logical(q)) => {
                let t = match op {
                    Operator::Ge => *p || !*q,
                    Operator::Gt => *p && !*q,
                    Operator::Le => !*p || *q,
                    _ => !*p && *q,
                };
                Ok(Value::Logical(t))
            },
            _ => Err(Error::CoercionError),
        },
    }
}

/// One binary operation on two already-evaluated values: the shared
/// semantics of the evaluator, the compiled code, and the optimizer.
pub fn run_operation(op: Operator, a: &Value, b: &Value) -> (r: Result<Value, Error>)
    ensures
        val_res_view(r) == s_operation(op, val_view(*a), val_view(*b)),
{
    match op {
        Operator::Add | Operator::Sub | Operator::Mul | Operator::Div | Operator::Pow
            | Operator::Rem => exec_num_op(op, a, b),
        Operator::Eq | Operator::Ne | Operator::Ge | Operator::Gt | Operator::Le
            | Operator::Lt => exec_value_op(op, a, b),
        Operator::And | Operator::Or => exec_log_op(op, a, b),
        Operator::Store => Err(Error::AssignmentTargetInvalid),
    }
}

} // verus!
