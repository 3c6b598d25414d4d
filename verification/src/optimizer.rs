//! The constant-folding optimizer: a recursive rewrite that evaluates
//! statically known subexpressions, short-circuits the logical connectives,
//! and annihilates multiplications by zero.

use vstd::prelude::*;

use crate::ast::{
    clone_expr, expr_view, expr_wfm, exprs_view, ht, ht_list, ht_val, lemma_exprs_view,
    lemma_ht_list_elem, list_wfm, val_view, val_wfm, Expr, ExprM, Operator, Value, ValM,
};
use crate::error::ErrM;
use crate::num::{Num, NumM};
use crate::ops::{lemma_s_operation_wf, run_operation, s_operation};

verus! {

broadcast use crate::ast::group_view_axioms, crate::ast::group_ht_axioms, crate::ast::group_wfm_axioms;

/// A value with no expression content: the unit, a number, a truth value,
/// or an aggregate whose elements are all literal values.
pub open spec fn val_is_literal(v: ValM) -> bool
    decreases ht_val(v),
{
    match v {
        ValM::Nil => true,
        ValM::Numeric(_) => true,
        ValM::Logical(_) => true,
        ValM::Tuple(ls) => list_is_literal(ls),
        ValM::SetOf(ls) => list_is_literal(ls),
    }
}

pub open spec fn list_is_literal(ls: Seq<ExprM>) -> bool
    decreases ht_list(ls),
    via list_is_literal_decreases
{
    if ls.len() == 0 {
        true
    } else {
        (match ls[0] {
            ExprM::Value(v) => val_is_literal(v),
            _ => false,
        }) && list_is_literal(ls.drop_first())
    }
}

#[via_fn]
proof fn list_is_literal_decreases(ls: Seq<ExprM>) {
    if ls.len() > 0 {
        lemma_ht_list_elem(ls, 0);
        crate::ast::lemma_ht_list_tail(ls);
    }
}

/// The canonical zero used by the annihilation rewrite.
pub open spec fn zero_val() -> ValM {
    ValM::Numeric(NumM { n: 0, d: 1 })
}

/// Whether an optimized operand denotes the literal truth value `b`.
pub open spec fn opt_is_logical(e: ExprM, b: bool) -> bool {
    e == ExprM::Value(ValM::Logical(b))
}

/// Whether an optimized operand denotes a numeric zero.
pub open spec fn opt_is_zero(e: ExprM) -> bool {
    match e {
        ExprM::Value(ValM::Numeric(q)) => q.n == 0,
        _ => false,
    }
}

/// The model of the optimizer.
///
/// A binary node first optimizes its left operand; a conjunction with a
/// false left operand or a disjunction with a true one folds at once,
/// without looking at the right side. Otherwise the right operand is
/// optimized, the symmetric checks repeat, a multiplication with a zero
/// operand folds to zero, and two literal operands fold to the operation's
/// value if the operation succeeds. Calls optimize their arguments but are
/// never folded; aggregate literals optimize their elements in place.
pub open spec fn s_opt(e: ExprM) -> ExprM
    decreases ht(e),
    via s_opt_decreases
{
    match e {
        ExprM::Comp(op, l, r) => {
            let lo = s_opt(*l);
            if op == Operator::And && opt_is_logical(lo, false) {
                ExprM::Value(ValM::Logical(false))
            } else if op == Operator::Or && opt_is_logical(lo, true) {
                ExprM::Value(ValM::Logical(true))
            } else {
                let ro = s_opt(*r);
                if op == Operator::And && opt_is_logical(ro, false) {
                    ExprM::Value(ValM::Logical(false))
                } else if op == Operator::Or && opt_is_logical(ro, true) {
                    ExprM::Value(ValM::Logical(true))
                } else if op == Operator::Mul && (opt_is_zero(lo) || opt_is_zero(ro)) {
                    ExprM::Value(zero_val())
                } else {
                    match (lo, ro) {
                        (ExprM::Value(a), ExprM::Value(b)) => {
                            if val_is_literal(a) && val_is_literal(b) {
                                match s_operation(op, a, b) {
                                    Ok(v) => ExprM::Value(v),
                                    Err(_) => ExprM::Comp(op, Box::new(lo), Box::new(ro)),
                                }
                            } else {
                                ExprM::Comp(op, Box::new(lo), Box::new(ro))
                            }
                        },
                        _ => ExprM::Comp(op, Box::new(lo), Box::new(ro)),
                    }
                }
            }
        },
        ExprM::Func(name, Some(args)) => ExprM::Func(name, Some(s_opt_list(args))),
        ExprM::Value(ValM::Tuple(ls)) => ExprM::Value(ValM::Tuple(s_opt_list(ls))),
        ExprM::Value(ValM::SetOf(ls)) => ExprM::Value(ValM::SetOf(s_opt_list(ls))),
        _ => e,
    }
}

pub open spec fn s_opt_list(ls: Seq<ExprM>) -> Seq<ExprM>
    decreases ht_list(ls),
    via s_opt_list_decreases
{
    if ls.len() == 0 {
        Seq::empty()
    } else {
        seq![s_opt(ls[0])] + s_opt_list(ls.drop_first())
    }
}

#[via_fn]
proof fn s_opt_decreases(e: ExprM) {
    match e {
        ExprM::Func(name, args) => {
            assert(ht(e) == 1 + crate::ast::ht_opt(args));
        },
        ExprM::Value(v) => {
            assert(ht(e) == 1 + ht_val(v));
        },
        _ => {},
    }
}

#[via_fn]
proof fn s_opt_list_decreases(ls: Seq<ExprM>) {
    if ls.len() > 0 {
        lemma_ht_list_elem(ls, 0);
        crate::ast::lemma_ht_list_tail(ls);
    }
}

/// The elementwise characterization of `s_opt_list`.
pub broadcast proof fn lemma_s_opt_list(ls: Seq<ExprM>)
    ensures
        (#[trigger] s_opt_list(ls)).len() == ls.len(),
        forall|i: int| 0 <= i < ls.len() ==> s_opt_list(ls)[i] == s_opt(ls[i]),
    decreases ls.len(),
{
    if ls.len() > 0 {
        lemma_s_opt_list(ls.drop_first());
        assert forall|i: int| 0 <= i < ls.len() implies s_opt_list(ls)[i] == s_opt(ls[i]) by {
            if i > 0 {
                assert(ls.drop_first()[i - 1] == ls[i]);
            }
        }
    }
}

/// The unfolding of the optimizer on a binary node, clause by clause, for
/// callers that hold the optimized operands.
pub proof fn lemma_s_opt_comp(op: Operator, lm: ExprM, rm: ExprM)
    ensures
        ({
            let e = ExprM::Comp(op, Box::new(lm), Box::new(rm));
            let lo = s_opt(lm);
            let ro = s_opt(rm);
            let sc_l = (op == Operator::And && opt_is_logical(lo, false)) || (op == Operator::Or
                && opt_is_logical(lo, true));
            let sc_r = (op == Operator::And && opt_is_logical(ro, false)) || (op == Operator::Or
                && opt_is_logical(ro, true));
            let zm = op == Operator::Mul && (opt_is_zero(lo) || opt_is_zero(ro));
            &&& (op == Operator::And && opt_is_logical(lo, false) ==> s_opt(e) == ExprM::Value(
                ValM::Logical(false),
            ))
            &&& (op == Operator::Or && opt_is_logical(lo, true) ==> s_opt(e) == ExprM::Value(
                ValM::Logical(true),
            ))
            &&& (!sc_l && op == Operator::And && opt_is_logical(ro, false) ==> s_opt(e)
                == ExprM::Value(ValM::Logical(false)))
            &&& (!sc_l && op == Operator::Or && opt_is_logical(ro, true) ==> s_opt(e)
                == ExprM::Value(ValM::Logical(true)))
            &&& (!sc_l && !sc_r && zm ==> s_opt(e) == ExprM::Value(zero_val()))
            &&& (!sc_l && !sc_r && !zm ==> s_opt(e) == (match (lo, ro) {
                (ExprM::Value(a), ExprM::Value(b)) => {
                    if val_is_literal(a) && val_is_literal(b) {
                        match s_operation(op, a, b) {
                            Ok(v) => ExprM::Value(v),
                            Err(_) => ExprM::Comp(op, Box::new(lo), Box::new(ro)),
                        }
                    } else {
                        ExprM::Comp(op, Box::new(lo), Box::new(ro))
                    }
                },
                _ => ExprM::Comp(op, Box::new(lo), Box::new(ro)),
            }))
        }),
{
    let e = ExprM::Comp(op, Box::new(lm), Box::new(rm));
    assert(*Box::new(lm) == lm);
    assert(*Box::new(rm) == rm);
}

/// Rewrites an expression into its constant-folded form.
#[verifier::rlimit(100)]
pub fn optimize(expr: &Expr) -> (r: Expr)
    ensures
        expr_view(r) == s_opt(expr_view(*expr)),
    decreases ht(expr_view(*expr)),
{
    match expr {
        Expr::Comp(op, l, r) => {
            proof {
                assert(expr_view(*expr) == ExprM::Comp(
                    *op,
                    Box::new(expr_view(**l)),
                    Box::new(expr_view(**r)),
                ));
                lemma_s_opt_comp(*op, expr_view(**l), expr_view(**r));
            }
            let lo = optimize(l);
            if *op == Operator::And && expr_is_logical(&lo, false) {
                return Expr::Value(Value::Logical(false));
            }
            if *op == Operator::Or && expr_is_logical(&lo, true) {
                return Expr::Value(Value::Logical(true));
            }
            let ro = optimize(r);
            if *op == Operator::And && expr_is_logical(&ro, false) {
                return Expr::Value(Value::Logical(false));
            }
            if *op == Operator::Or && expr_is_logical(&ro, true) {
                return Expr::Value(Value::Logical(true));
            }
            if *op == Operator::Mul && (expr_is_zero(&lo) || expr_is_zero(&ro)) {
                return Expr::Value(Value::Numeric(Num::from_int(0)));
            }
            let folded: Option<Value> = match (&lo, &ro) {
                (Expr::Value(a), Expr::Value(b)) => {
                    if value_is_literal(a) && value_is_literal(b) {
                        match run_operation(*op, a, b) {
                            Ok(v) => Some(v),
                            Err(_) => None,
                        }
                    } else {
                        None
                    }
                },
                _ => None,
            };
            match folded {
                Some(v) => Expr::Value(v),
                None => Expr::Comp(*op, Box::new(lo), Box::new(ro)),
            }
        },
        Expr::Func(name, maybe_args) => match maybe_args {
            Some(args) => {
                proof {
                    assert(expr_view(*expr) == ExprM::Func(name@, Some(exprs_view(args@))));
                    assert(crate::ast::ht_opt(Some(exprs_view(args@))) == 1 + ht_list(
                        exprs_view(args@),
                    ));
                    assert(ht(expr_view(*expr)) == 2 + ht_list(exprs_view(args@)));
                }
                let oargs = optimize_list(args);
                Expr::Func(name.clone(), Some(oargs))
            },
            None => Expr::Func(name.clone(), None),
        },
        Expr::Value(v) => match v {
            Value::Tuple(ls) => {
                proof {
                    assert(expr_view(*expr) == ExprM::Value(val_view(*v)));
                    assert(val_view(*v) == ValM::Tuple(exprs_view(ls@)));
                    assert(ht_val(val_view(*v)) == 1 + ht_list(exprs_view(ls@)));
                    assert(ht(expr_view(*expr)) == 2 + ht_list(exprs_view(ls@)));
                }
                Expr::Value(Value::Tuple(optimize_list(ls)))
            },
            Value::SetOf(ls) => {
                proof {
                    assert(expr_view(*expr) == ExprM::Value(val_view(*v)));
                    assert(val_view(*v) == ValM::SetOf(exprs_view(ls@)));
                    assert(ht_val(val_view(*v)) == 1 + ht_list(exprs_view(ls@)));
                    assert(ht(expr_view(*expr)) == 2 + ht_list(exprs_view(ls@)));
                }
                Expr::Value(Value::SetOf(optimize_list(ls)))
            },
            _ => clone_expr(expr),
        },
        _ => clone_expr(expr),
    }
}

/// Optimizes each element of a list.
fn optimize_list(ls: &Vec<Expr>) -> (r: Vec<Expr>)
    ensures
        exprs_view(r@) == s_opt_list(exprs_view(ls@)),
    decreases ht_list(exprs_view(ls@)),
{
    proof {
        lemma_exprs_view(ls@);
        lemma_s_opt_list(exprs_view(ls@));
    }
    let mut out: Vec<Expr> = Vec::new();
    let n = ls.len();
    let mut i: usize = 0;
    while i < n
        invariant
            0 <= i <= n,
            n == ls@.len(),
            out@.len() == i,
            forall|j: int| 0 <= j < i ==> expr_view(out@[j]) == s_opt(expr_view(ls@[j])),
        decreases n - i,
    {
        proof {
            lemma_exprs_view(ls@);
            lemma_ht_list_elem(exprs_view(ls@), i as int);
        }
        let o = optimize(&ls[i]);
        out.push(o);
        i = i + 1;
    }
    proof {
        lemma_exprs_view(out@);
        lemma_exprs_view(ls@);
        lemma_s_opt_list(exprs_view(ls@));
        assert(exprs_view(out@) =~= s_opt_list(exprs_view(ls@)));
    }
    out
}

/// Whether an expression is the given logical literal.
fn expr_is_logical(e: &Expr, b: bool) -> (r: bool)
    ensures
        r == opt_is_logical(expr_view(*e), b),
{
    match e {
        Expr::Value(v) => match v {
            Value::Logical(x) => {
                proof {
                    assert(expr_view(*e) == ExprM::Value(val_view(*v)));
                    assert(val_view(*v) == ValM::Logical(*x));
                }
                *x == b
            },
            _ => false,
        },
        _ => false,
    }
}

/// Whether an expression is a numeric zero literal.
fn expr_is_zero(e: &Expr) -> (r: bool)
    ensures
        r == opt_is_zero(expr_view(*e)),
{
    match e {
        Expr::Value(v) => match v {
            Value::Numeric(q) => {
                proof {
                    assert(expr_view(*e) == ExprM::Value(val_view(*v)));
                    assert(val_view(*v) == ValM::Numeric(q.deep_view()));
                }
                q.is_zero()
            },
            _ => false,
        },
        _ => false,
    }
}

/// Whether a value is fully literal.
pub fn value_is_literal(v: &Value) -> (r: bool)
    ensures
        r == val_is_literal(val_view(*v)),
    decreases ht_val(val_view(*v)),
{
    match v {
        Value::Nil => true,
        Value::Numeric(_) => true,
        Value::Logical(_) => true,
        Value::Tuple(ls) => exprs_are_literal(ls),
        Value::SetOf(ls) => exprs_are_literal(ls),
    }
}

fn exprs_are_literal(ls: &Vec<Expr>) -> (r: bool)
    ensures
        r == list_is_literal(exprs_view(ls@)),
    decreases ht_list(exprs_view(ls@)),
{
    proof {
        lemma_exprs_view(ls@);
        assert(ls@.skip(0) =~= ls@);
    }
    let n = ls.len();
    let mut i: usize = 0;
    while i < n
        invariant
            0 <= i <= n,
            n == ls@.len(),
            list_is_literal(exprs_view(ls@)) == list_is_literal(exprs_view(ls@.skip(i as int))),
        decreases n - i,
    {
        proof {
            lemma_exprs_view(ls@);
            lemma_exprs_view(ls@.skip(i as int));
            lemma_ht_list_elem(exprs_view(ls@), i as int);
            assert(ls@.skip(i as int)[0] == ls@[i as int]);
            assert(ls@.skip(i as int).drop_first() =~= ls@.skip(i as int + 1));
            assert(exprs_view(ls@.skip(i as int)).drop_first() =~= exprs_view(
                ls@.skip(i as int + 1),
            )) by {
                lemma_exprs_view(ls@.skip(i as int + 1));
                lemma_exprs_view(ls@.skip(i as int));
            }
        }
        match &ls[i] {
            Expr::Value(v) => {
                if !value_is_literal(v) {
                    return false;
                }
            },
            _ => {
                return false;
            },
        }
        i = i + 1;
    }
    proof {
        assert(ls@.skip(n as int) =~= Seq::<Expr>::empty());
        assert(exprs_view(ls@.skip(n as int)) =~= Seq::<ExprM>::empty());
    }
    true
}

/// An expression with no references and no calls: its value is independent
/// of any context.
pub open spec fn is_pure(e: ExprM) -> bool
    decreases ht(e),
    via is_pure_decreases
{
    match e {
        ExprM::Value(ValM::Tuple(ls)) => list_pure(ls),
        ExprM::Value(ValM::SetOf(ls)) => list_pure(ls),
        ExprM::Value(_) => true,
        ExprM::Comp(_, l, r) => is_pure(*l) && is_pure(*r),
        ExprM::Ref(_) => false,
        ExprM::Func(_, _) => false,
    }
}

pub open spec fn list_pure(ls: Seq<ExprM>) -> bool
    decreases ht_list(ls),
    via list_pure_decreases
{
    if ls.len() == 0 {
        true
    } else {
        is_pure(ls[0]) && list_pure(ls.drop_first())
    }
}

#[via_fn]
proof fn is_pure_decreases(e: ExprM) {
}

#[via_fn]
proof fn list_pure_decreases(ls: Seq<ExprM>) {
    if ls.len() > 0 {
        lemma_ht_list_elem(ls, 0);
        crate::ast::lemma_ht_list_tail(ls);
    }
}

/// What a pure expression evaluates to, in any context: literals stand for
/// themselves, aggregates evaluate elementwise, and operations follow the
/// shared operator semantics. An assignment marker is not assignable here,
/// and the impure shapes are given a nominal error they never reach under
/// purity.
pub open spec fn eval_pure(e: ExprM) -> Result<ValM, ErrM>
    decreases ht(e),
    via eval_pure_decreases
{
    match e {
        ExprM::Value(ValM::Tuple(ls)) => match eval_pure_list(ls) {
            Ok(vs) => Ok(ValM::Tuple(vs)),
            Err(err) => Err(err),
        },
        ExprM::Value(ValM::SetOf(ls)) => match eval_pure_list(ls) {
            Ok(vs) => Ok(ValM::SetOf(vs)),
            Err(err) => Err(err),
        },
        ExprM::Value(v) => Ok(v),
        ExprM::Comp(op, l, r) => if op == Operator::Store {
            Err(ErrM::AssignmentTargetInvalid)
        } else {
            match eval_pure(*l) {
                Ok(a) => match eval_pure(*r) {
                    Ok(b) => s_operation(op, a, b),
                    Err(err) => Err(err),
                },
                Err(err) => Err(err),
            }
        },
        _ => Err(ErrM::CoercionError),
    }
}

pub open spec fn eval_pure_list(ls: Seq<ExprM>) -> Result<Seq<ExprM>, ErrM>
    decreases ht_list(ls),
    via eval_pure_list_decreases
{
    if ls.len() == 0 {
        Ok(Seq::empty())
    } else {
        match eval_pure(ls[0]) {
            Ok(v) => match eval_pure_list(ls.drop_first()) {
                Ok(rest) => Ok(seq![ExprM::Value(v)] + rest),
                Err(err) => Err(err),
            },
            Err(err) => Err(err),
        }
    }
}

#[via_fn]
proof fn eval_pure_decreases(e: ExprM) {
}

#[via_fn]
proof fn eval_pure_list_decreases(ls: Seq<ExprM>) {
    if ls.len() > 0 {
        lemma_ht_list_elem(ls, 0);
        crate::ast::lemma_ht_list_tail(ls);
    }
}

/// A fully literal value evaluates to itself.
proof fn lemma_literal_eval(v: ValM)
    requires
        val_is_literal(v),
    ensures
        eval_pure(ExprM::Value(v)) == Ok::<ValM, ErrM>(v),
    decreases ht_val(v),
{
    match v {
        ValM::Tuple(ls) => {
            lemma_literal_list_eval(ls);
        },
        ValM::SetOf(ls) => {
            lemma_literal_list_eval(ls);
        },
        _ => {},
    }
}

proof fn lemma_literal_list_eval(ls: Seq<ExprM>)
    requires
        list_is_literal(ls),
    ensures
        eval_pure_list(ls) == Ok::<Seq<ExprM>, ErrM>(ls),
    decreases ht_list(ls),
{
    if ls.len() == 0 {
        assert(ls =~= Seq::<ExprM>::empty());
    }
    if ls.len() > 0 {
        lemma_ht_list_elem(ls, 0);
        crate::ast::lemma_ht_list_tail(ls);
        let v0 = ls[0]->Value_0;
        lemma_literal_eval(v0);
        lemma_literal_list_eval(ls.drop_first());
        assert(eval_pure_list(ls) == Ok::<Seq<ExprM>, ErrM>(
            seq![ExprM::Value(v0)] + ls.drop_first(),
        ));
        assert(seq![ExprM::Value(v0)] + ls.drop_first() =~= ls);
    }
}

/// A numeric zero multiplied with any number gives the canonical zero.
proof fn lemma_zero_product(q: NumM, y: NumM, flip: bool)
    requires
        q.n == 0,
        y.d >= 1,
        q.d >= 1,
    ensures
        !flip ==> crate::num::s_norm(
            crate::num::prod_n(q, y),
            crate::num::prod_d(q, y),
        ) == Ok::<NumM, ErrM>(NumM { n: 0, d: 1 }),
        flip ==> crate::num::s_norm(
            crate::num::prod_n(y, q),
            crate::num::prod_d(y, q),
        ) == Ok::<NumM, ErrM>(NumM { n: 0, d: 1 }),
{
    let d1 = crate::num::prod_d(q, y);
    let d2 = crate::num::prod_d(y, q);
    assert(crate::num::prod_n(q, y) == 0 && crate::num::prod_n(y, q) == 0) by (nonlinear_arith)
        requires
            q.n == 0,
    {}
    assert(d1 >= 1 && d2 >= 1) by (nonlinear_arith)
        requires
            q.d >= 1,
            y.d >= 1,
            d1 == q.d * y.d,
            d2 == y.d * q.d,
    {}
    lemma_norm_zero(d1);
    lemma_norm_zero(d2);
}

/// The canonical form of a zero fraction is the canonical zero.
proof fn lemma_norm_zero(d: int)
    requires
        d >= 1,
    ensures
        crate::num::s_norm(0, d) == Ok::<NumM, ErrM>(NumM { n: 0, d: 1 }),
{
    crate::num::lemma_gcd_divides(0, d as nat);
    assert(crate::num::gcd(0, d as nat) == crate::num::gcd(d as nat, 0)) by {
        vstd::arithmetic::div_mod::lemma_mod_self_0(d);
    }
    assert(crate::num::gcd(d as nat, 0) == d as nat);
    assert(crate::num::norm_num(0, d) == 0) by {
        vstd::arithmetic::div_mod::lemma_div_of0(d);
    }
    assert(crate::num::norm_den(0, d) == d / d);
    assert(d / d == 1) by {
        vstd::arithmetic::div_mod::lemma_div_by_self(d);
    }
    assert(crate::num::norm_fits(0, d));
}

/// The optimizer preserves well-formed fractions.
pub proof fn lemma_opt_wf(e: ExprM)
    requires
        crate::ast::expr_wfm(e),
    ensures
        crate::ast::expr_wfm(s_opt(e)),
    decreases ht(e),
{
    match e {
        ExprM::Comp(op, l, r) => {
            lemma_s_opt_comp(op, *l, *r);
            lemma_opt_wf(*l);
            lemma_opt_wf(*r);
            let lo = s_opt(*l);
            let ro = s_opt(*r);
            match (lo, ro) {
                (ExprM::Value(a), ExprM::Value(b)) => {
                    lemma_s_operation_wf(op, a, b);
                },
                _ => {},
            }
        },
        ExprM::Func(name, Some(args)) => {
            lemma_opt_list_wf(args);
        },
        ExprM::Value(v) => {
            match v {
                ValM::Tuple(ls) => {
                    lemma_opt_list_wf(ls);
                },
                ValM::SetOf(ls) => {
                    lemma_opt_list_wf(ls);
                },
                _ => {},
            }
        },
        _ => {},
    }
}

proof fn lemma_opt_list_wf(ls: Seq<ExprM>)
    requires
        crate::ast::list_wfm(ls),
    ensures
        crate::ast::list_wfm(s_opt_list(ls)),
    decreases ht_list(ls),
{
    if ls.len() > 0 {
        lemma_ht_list_elem(ls, 0);
        crate::ast::lemma_ht_list_tail(ls);
        lemma_opt_wf(ls[0]);
        lemma_opt_list_wf(ls.drop_first());
        lemma_s_opt_list(ls);
        assert(s_opt_list(ls)[0] == s_opt(ls[0]));
        assert(s_opt_list(ls).drop_first() =~= s_opt_list(ls.drop_first())) by {
            lemma_s_opt_list(ls.drop_first());
        }
    }
}

/// A successful pure evaluation of a well-formed expression yields a
/// well-formed value.
pub proof fn lemma_eval_pure_wf(e: ExprM)
    requires
        crate::ast::expr_wfm(e),
    ensures
        eval_pure(e) matches Ok(v) ==> crate::ast::val_wfm(v),
    decreases ht(e),
{
    match e {
        ExprM::Comp(op, l, r) => {
            lemma_eval_pure_wf(*l);
            lemma_eval_pure_wf(*r);
            if op != Operator::Store {
                if let (Ok(a), Ok(b)) = (eval_pure(*l), eval_pure(*r)) {
                    lemma_s_operation_wf(op, a, b);
                }
            }
        },
        ExprM::Value(v) => {
            match v {
                ValM::Tuple(ls) => {
                    lemma_eval_pure_list_wf(ls);
                },
                ValM::SetOf(ls) => {
                    lemma_eval_pure_list_wf(ls);
                },
                _ => {},
            }
        },
        _ => {},
    }
}

proof fn lemma_eval_pure_list_wf(ls: Seq<ExprM>)
    requires
        crate::ast::list_wfm(ls),
    ensures
        eval_pure_list(ls) matches Ok(vs) ==> crate::ast::list_wfm(vs),
    decreases ht_list(ls),
{
    if ls.len() > 0 {
        lemma_ht_list_elem(ls, 0);
        crate::ast::lemma_ht_list_tail(ls);
        lemma_eval_pure_wf(ls[0]);
        lemma_eval_pure_list_wf(ls.drop_first());
        if let Ok(v) = eval_pure(ls[0]) {
            if let Ok(rest) = eval_pure_list(ls.drop_first()) {
                let whole = seq![ExprM::Value(v)] + rest;
                assert(whole[0] == ExprM::Value(v));
                assert(whole.drop_first() =~= rest);
                assert(expr_wfm(whole[0]));
                assert(list_wfm(whole));
            }
        }
    } else {
        assert(eval_pure_list(ls) == Ok::<Seq<ExprM>, ErrM>(Seq::empty()));
        assert(list_wfm(Seq::<ExprM>::empty()));
    }
}

/// The optimizer is sound: on a well-formed expression without references
/// or calls that evaluates successfully, the optimized expression evaluates
/// to the same value.
#[verifier::rlimit(100)]
pub proof fn lemma_opt_sound(e: ExprM)
    requires
        is_pure(e),
        crate::ast::expr_wfm(e),
        eval_pure(e) is Ok,
    ensures
        eval_pure(s_opt(e)) == eval_pure(e),
    decreases ht(e),
{
    match e {
        ExprM::Comp(op, l, r) => {
            lemma_s_opt_comp(op, *l, *r);
            let a = eval_pure(*l)->Ok_0;
            let b = eval_pure(*r)->Ok_0;
            let v = eval_pure(e)->Ok_0;
            assert(op != Operator::Store);
            assert(eval_pure(*l) is Ok && eval_pure(*r) is Ok && s_operation(op, a, b) == Ok::<
                ValM,
                ErrM,
            >(v));
            lemma_opt_sound(*l);
            lemma_opt_sound(*r);
            let lo = s_opt(*l);
            let ro = s_opt(*r);
            let sc_l = (op == Operator::And && opt_is_logical(lo, false)) || (op == Operator::Or
                && opt_is_logical(lo, true));
            let sc_r = (op == Operator::And && opt_is_logical(ro, false)) || (op == Operator::Or
                && opt_is_logical(ro, true));
            let zm = op == Operator::Mul && (opt_is_zero(lo) || opt_is_zero(ro));
            if sc_l || sc_r {
                // One operand folded to the deciding truth value; the strict
                // connective gives the same value.
                if op == Operator::And && opt_is_logical(lo, false) {
                    assert(a == ValM::Logical(false));
                } else if op == Operator::Or && opt_is_logical(lo, true) {
                    assert(a == ValM::Logical(true));
                } else if op == Operator::And && opt_is_logical(ro, false) {
                    assert(b == ValM::Logical(false));
                } else {
                    assert(b == ValM::Logical(true));
                }
            } else if zm {
                // A zero operand annihilates the product exactly.
                lemma_opt_wf(*l);
                lemma_opt_wf(*r);
                lemma_eval_pure_wf(*l);
                lemma_eval_pure_wf(*r);
                if opt_is_zero(lo) {
                    let q = lo->Value_0->Numeric_0;
                    assert(a == ValM::Numeric(q));
                    let y = b->Numeric_0;
                    lemma_zero_product(q, y, false);
                } else {
                    let q = ro->Value_0->Numeric_0;
                    assert(b == ValM::Numeric(q));
                    let y = a->Numeric_0;
                    lemma_zero_product(q, y, true);
                }
            } else {
                match (lo, ro) {
                    (ExprM::Value(av), ExprM::Value(bv)) => {
                        if val_is_literal(av) && val_is_literal(bv) {
                            lemma_literal_eval(av);
                            lemma_literal_eval(bv);
                            assert(av == a && bv == b);
                            lemma_s_operation_flat(op, av, bv);
                        }
                    },
                    _ => {},
                }
            }
        },
        ExprM::Value(v) => {
            match v {
                ValM::Tuple(ls) => {
                    lemma_opt_list_sound(ls);
                },
                ValM::SetOf(ls) => {
                    lemma_opt_list_sound(ls);
                },
                _ => {},
            }
        },
        _ => {},
    }
}

/// Elementwise soundness for lists of expressions.
proof fn lemma_opt_list_sound(ls: Seq<ExprM>)
    requires
        list_pure(ls),
        crate::ast::list_wfm(ls),
        eval_pure_list(ls) is Ok,
    ensures
        eval_pure_list(s_opt_list(ls)) == eval_pure_list(ls),
    decreases ht_list(ls),
{
    if ls.len() > 0 {
        lemma_ht_list_elem(ls, 0);
        crate::ast::lemma_ht_list_tail(ls);
        lemma_opt_sound(ls[0]);
        lemma_opt_list_sound(ls.drop_first());
        lemma_s_opt_list(ls);
        assert(s_opt_list(ls)[0] == s_opt(ls[0]));
        assert(s_opt_list(ls).drop_first() =~= s_opt_list(ls.drop_first())) by {
            lemma_s_opt_list(ls.drop_first());
        }
    }
}

/// The optimizer never introduces a reference or a call.
pub proof fn lemma_opt_preserves_pure(e: ExprM)
    requires
        is_pure(e),
    ensures
        is_pure(s_opt(e)),
    decreases ht(e),
{
    match e {
        ExprM::Comp(op, l, r) => {
            lemma_s_opt_comp(op, *l, *r);
            lemma_opt_preserves_pure(*l);
            lemma_opt_preserves_pure(*r);
            let lo = s_opt(*l);
            let ro = s_opt(*r);
            match (lo, ro) {
                (ExprM::Value(a), ExprM::Value(b)) => {
                    if val_is_literal(a) && val_is_literal(b) {
                        if let Ok(v) = s_operation(op, a, b) {
                            lemma_s_operation_flat(op, a, b);
                        }
                    }
                },
                _ => {},
            }
        },
        ExprM::Value(v) => {
            match v {
                ValM::Tuple(ls) => {
                    lemma_opt_list_preserves_pure(ls);
                },
                ValM::SetOf(ls) => {
                    lemma_opt_list_preserves_pure(ls);
                },
                _ => {},
            }
        },
        _ => {},
    }
}

proof fn lemma_opt_list_preserves_pure(ls: Seq<ExprM>)
    requires
        list_pure(ls),
    ensures
        list_pure(s_opt_list(ls)),
    decreases ht_list(ls),
{
    if ls.len() > 0 {
        lemma_ht_list_elem(ls, 0);
        crate::ast::lemma_ht_list_tail(ls);
        lemma_opt_preserves_pure(ls[0]);
        lemma_opt_list_preserves_pure(ls.drop_first());
        lemma_s_opt_list(ls);
        assert(s_opt_list(ls)[0] == s_opt(ls[0]));
        assert(s_opt_list(ls).drop_first() =~= s_opt_list(ls.drop_first())) by {
            lemma_s_opt_list(ls.drop_first());
        }
    }
}

/// A successful operation yields a number or a truth value; never an
/// aggregate or the unit.
proof fn lemma_s_operation_flat(op: Operator, a: ValM, b: ValM)
    ensures
        s_operation(op, a, b) matches Ok(v) ==> (v is Numeric || v is Logical),
{
}

/// The optimizer's result is a fixed point of the optimizer.
///
/// Law: optimizing twice is the same as optimizing once, for every
/// expression.
pub proof fn lemma_opt_idempotent(e: ExprM)
    ensures
        s_opt(s_opt(e)) == s_opt(e),
    decreases ht(e),
{
    match e {
        ExprM::Comp(op, l, r) => {
            lemma_opt_idempotent(*l);
            let lo = s_opt(*l);
            lemma_s_opt_comp(op, *l, *r);
            if op == Operator::And && opt_is_logical(lo, false) {
            } else if op == Operator::Or && opt_is_logical(lo, true) {
            } else {
                lemma_opt_idempotent(*r);
                let ro = s_opt(*r);
                if op == Operator::And && opt_is_logical(ro, false) {
                } else if op == Operator::Or && opt_is_logical(ro, true) {
                } else if op == Operator::Mul && (opt_is_zero(lo) || opt_is_zero(ro)) {
                } else {
                    match (lo, ro) {
                        (ExprM::Value(a), ExprM::Value(b)) => {
                            if val_is_literal(a) && val_is_literal(b) {
                                match s_operation(op, a, b) {
                                    Ok(v) => {
                                        lemma_s_operation_flat(op, a, b);
                                    },
                                    Err(_) => {
                                        lemma_s_opt_comp(op, lo, ro);
                                    },
                                }
                            } else {
                                lemma_s_opt_comp(op, lo, ro);
                            }
                        },
                        _ => {
                            lemma_s_opt_comp(op, lo, ro);
                        },
                    }
                }
            }
        },
        ExprM::Func(name, Some(args)) => {
            lemma_opt_list_idempotent(args);
        },
        ExprM::Value(v) => {
            match v {
                ValM::Tuple(ls) => {
                    lemma_opt_list_idempotent(ls);
                },
                ValM::SetOf(ls) => {
                    lemma_opt_list_idempotent(ls);
                },
                _ => {},
            }
        },
        _ => {},
    }
}

/// Elementwise idempotence for lists of expressions.
pub proof fn lemma_opt_list_idempotent(ls: Seq<ExprM>)
    ensures
        s_opt_list(s_opt_list(ls)) == s_opt_list(ls),
    decreases ht_list(ls),
{
    lemma_s_opt_list(ls);
    lemma_s_opt_list(s_opt_list(ls));
    assert forall|i: int| 0 <= i < ls.len() implies s_opt(s_opt_list(ls)[i]) == s_opt_list(
        ls,
    )[i] by {
        lemma_ht_list_elem(ls, i);
        lemma_opt_idempotent(ls[i]);
    }
    assert(s_opt_list(s_opt_list(ls)) =~= s_opt_list(ls));
}

/// Law: a conjunction whose left operand folds to false, and a disjunction
/// whose left operand folds to true, fold to that truth value whatever
/// stands on the right — in particular a call of a name that is not defined
/// anywhere.
pub proof fn lemma_opt_short_circuit(lhs: ExprM, rhs: ExprM)
    ensures
        opt_is_logical(s_opt(lhs), false) ==> s_opt(
            ExprM::Comp(Operator::And, Box::new(lhs), Box::new(rhs)),
        ) == ExprM::Value(ValM::Logical(false)),
        opt_is_logical(s_opt(lhs), true) ==> s_opt(
            ExprM::Comp(Operator::Or, Box::new(lhs), Box::new(rhs)),
        ) == ExprM::Value(ValM::Logical(true)),
{
    lemma_s_opt_comp(Operator::And, lhs, rhs);
    lemma_s_opt_comp(Operator::Or, lhs, rhs);
}

} // verus!
