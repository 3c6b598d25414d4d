//! The value and expression model of the calculator language.

use vstd::prelude::*;

use crate::num::{Num, NumM};

verus! {

/// A binary operator of the language. `Store` is the assignment marker; it
/// is consumed by the evaluator and the compiler before arithmetic lowering.
#[derive(Clone, Copy, Debug, PartialEq, Eq, Structural)]
pub enum Operator {
    Add,
    Sub,
    Mul,
    Div,
    Pow,
    Rem,
    Eq,
    Ne,
    Ge,
    Gt,
    Le,
    Lt,
    And,
    Or,
    Store,
}

/// A runtime value: the unit value, an exact rational, a truth value, or an
/// ordered aggregate of expressions (evaluated elementwise).
#[derive(Debug)]
pub enum Value {
    Nil,
    Numeric(Num),
    Logical(bool),
    Tuple(Vec<Expr>),
    SetOf(Vec<Expr>),
}

/// An expression: a literal, a binary operation, a bare reference, or a
/// function reference (`None` arguments) or invocation (`Some` arguments).
#[derive(Debug)]
pub enum Expr {
    Value(Value),
    Comp(Operator, Box<Expr>, Box<Expr>),
    Ref(String),
    Func(String, Option<Vec<Expr>>),
}

/// The ghost mirror of `Value`.
pub enum ValM {
    Nil,
    Numeric(NumM),
    Logical(bool),
    Tuple(Seq<ExprM>),
    SetOf(Seq<ExprM>),
}

/// The ghost mirror of `Expr`.
pub enum ExprM {
    Value(ValM),
    Comp(Operator, Box<ExprM>, Box<ExprM>),
    Ref(Seq<char>),
    Func(Seq<char>, Option<Seq<ExprM>>),
}

/// The model of a value.
pub open spec fn val_view(v: Value) -> ValM
    decreases v,
{
    match v {
        Value::Nil => ValM::Nil,
        Value::Numeric(q) => ValM::Numeric(q.deep_view()),
        Value::Logical(b) => ValM::Logical(b),
        Value::Tuple(ls) => ValM::Tuple(exprs_view(ls@)),
        Value::SetOf(ls) => ValM::SetOf(exprs_view(ls@)),
    }
}

/// The model of an expression.
pub open spec fn expr_view(e: Expr) -> ExprM
    decreases e,
{
    match e {
        Expr::Value(v) => ExprM::Value(val_view(v)),
        Expr::Comp(op, lhs, rhs) => ExprM::Comp(
            op,
            Box::new(expr_view(*lhs)),
            Box::new(expr_view(*rhs)),
        ),
        Expr::Ref(name) => ExprM::Ref(name@),
        Expr::Func(name, None) => ExprM::Func(name@, None),
        Expr::Func(name, Some(args)) => ExprM::Func(name@, Some(exprs_view(args@))),
    }
}

/// The view of a list of expressions, elementwise.
pub open spec fn exprs_view(ls: Seq<Expr>) -> Seq<ExprM>
    decreases ls,
{
    if ls.len() == 0 {
        Seq::empty()
    } else {
        seq![expr_view(ls[0])] + exprs_view(ls.drop_first())
    }
}

/// The elementwise characterization of `exprs_view`.
pub broadcast proof fn lemma_exprs_view(ls: Seq<Expr>)
    ensures
        (#[trigger] exprs_view(ls)).len() == ls.len(),
        forall|i: int| 0 <= i < ls.len() ==> exprs_view(ls)[i] == expr_view(ls[i]),
    decreases ls.len(),
{
    if ls.len() > 0 {
        lemma_exprs_view(ls.drop_first());
        assert forall|i: int| 0 <= i < ls.len() implies exprs_view(ls)[i] == expr_view(ls[i]) by {
            if i > 0 {
                assert(ls.drop_first()[i - 1] == ls[i]);
            }
        }
    }
}

/// The views of each constructor, stated one level at a time so that nested
/// views unfold without fuel.
pub broadcast proof fn lemma_view_value(v: Value)
    ensures
        #[trigger] expr_view(Expr::Value(v)) == ExprM::Value(val_view(v)),
{
}

pub broadcast proof fn lemma_view_comp(op: Operator, l: Box<Expr>, r: Box<Expr>)
    ensures
        #[trigger] expr_view(Expr::Comp(op, l, r)) == ExprM::Comp(
            op,
            Box::new(expr_view(*l)),
            Box::new(expr_view(*r)),
        ),
{
}

pub broadcast proof fn lemma_view_ref(name: String)
    ensures
        #[trigger] expr_view(Expr::Ref(name)) == ExprM::Ref(name@),
{
}

pub broadcast proof fn lemma_view_func(name: String, args: Option<Vec<Expr>>)
    ensures
        #[trigger] expr_view(Expr::Func(name, args)) == ExprM::Func(
            name@,
            match args {
                None => None,
                Some(ls) => Some(exprs_view(ls@)),
            },
        ),
{
}

pub broadcast proof fn lemma_view_nil()
    ensures
        #[trigger] val_view(Value::Nil) == ValM::Nil,
{
}

pub broadcast proof fn lemma_view_numeric(q: Num)
    ensures
        #[trigger] val_view(Value::Numeric(q)) == ValM::Numeric(q.deep_view()),
{
}

pub broadcast proof fn lemma_view_logical(b: bool)
    ensures
        #[trigger] val_view(Value::Logical(b)) == ValM::Logical(b),
{
}

pub broadcast proof fn lemma_view_tuple(ls: Vec<Expr>)
    ensures
        #[trigger] val_view(Value::Tuple(ls)) == ValM::Tuple(exprs_view(ls@)),
{
}

pub broadcast proof fn lemma_view_setof(ls: Vec<Expr>)
    ensures
        #[trigger] val_view(Value::SetOf(ls)) == ValM::SetOf(exprs_view(ls@)),
{
}

pub broadcast group group_view_axioms {
    lemma_view_value,
    lemma_view_comp,
    lemma_view_ref,
    lemma_view_func,
    lemma_view_nil,
    lemma_view_numeric,
    lemma_view_logical,
    lemma_view_tuple,
    lemma_view_setof,
}

impl DeepView for Value {
    type V = ValM;

    open spec fn deep_view(&self) -> ValM {
        val_view(*self)
    }
}

impl DeepView for Expr {
    type V = ExprM;

    open spec fn deep_view(&self) -> ExprM {
        expr_view(*self)
    }
}

/// The structural height of an expression model; at least one, and strictly
/// larger than the height of any part. Used as a termination measure.
pub open spec fn ht(e: ExprM) -> nat
    decreases e,
{
    match e {
        ExprM::Value(v) => 1 + ht_val(v),
        ExprM::Comp(_, lhs, rhs) => {
            1 + if ht(*lhs) >= ht(*rhs) {
                ht(*lhs)
            } else {
                ht(*rhs)
            }
        },
        ExprM::Ref(_) => 1,
        ExprM::Func(_, args) => 1 + ht_opt(args),
    }
}

pub open spec fn ht_val(v: ValM) -> nat
    decreases v,
{
    match v {
        ValM::Tuple(ls) => 1 + ht_list(ls),
        ValM::SetOf(ls) => 1 + ht_list(ls),
        _ => 1,
    }
}

pub open spec fn ht_list(ls: Seq<ExprM>) -> nat
    decreases ls,
{
    if ls.len() == 0 {
        1
    } else {
        let h = ht(ls[0]);
        let rest = ht_list(ls.drop_first());
        1 + if h >= rest {
            h
        } else {
            rest
        }
    }
}

pub open spec fn ht_opt(args: Option<Seq<ExprM>>) -> nat
    decreases args,
{
    match args {
        None => 1,
        Some(ls) => 1 + ht_list(ls),
    }
}

/// Well-formedness of a value model: every fraction inside has a positive
/// denominator. Every value the library constructs satisfies it.
pub open spec fn val_wfm(v: ValM) -> bool
    decreases ht_val(v),
{
    match v {
        ValM::Nil => true,
        ValM::Numeric(q) => q.wf(),
        ValM::Logical(_) => true,
        ValM::Tuple(ls) => list_wfm(ls),
        ValM::SetOf(ls) => list_wfm(ls),
    }
}

pub open spec fn expr_wfm(e: ExprM) -> bool
    decreases ht(e),
    via expr_wfm_decreases
{
    match e {
        ExprM::Value(v) => val_wfm(v),
        ExprM::Comp(_, l, r) => expr_wfm(*l) && expr_wfm(*r),
        ExprM::Ref(_) => true,
        ExprM::Func(_, None) => true,
        ExprM::Func(_, Some(args)) => list_wfm(args),
    }
}

pub open spec fn list_wfm(ls: Seq<ExprM>) -> bool
    decreases ht_list(ls),
    via list_wfm_decreases
{
    if ls.len() == 0 {
        true
    } else {
        expr_wfm(ls[0]) && list_wfm(ls.drop_first())
    }
}

#[via_fn]
proof fn expr_wfm_decreases(e: ExprM) {
    match e {
        ExprM::Func(name, args) => {
            assert(ht(e) == 1 + ht_opt(args));
        },
        ExprM::Value(v) => {
            assert(ht(e) == 1 + ht_val(v));
        },
        _ => {},
    }
}

#[via_fn]
proof fn list_wfm_decreases(ls: Seq<ExprM>) {
    if ls.len() > 0 {
        lemma_ht_list_elem(ls, 0);
        lemma_ht_list_tail(ls);
    }
}

/// The well-formedness of each constructor, one level at a time.
pub broadcast proof fn lemma_wfm_value(v: ValM)
    ensures
        #[trigger] expr_wfm(ExprM::Value(v)) == val_wfm(v),
{
}

pub broadcast proof fn lemma_wfm_comp(op: Operator, l: Box<ExprM>, r: Box<ExprM>)
    ensures
        #[trigger] expr_wfm(ExprM::Comp(op, l, r)) == (expr_wfm(*l) && expr_wfm(*r)),
{
}

pub broadcast proof fn lemma_wfm_func(name: Seq<char>, args: Option<Seq<ExprM>>)
    ensures
        #[trigger] expr_wfm(ExprM::Func(name, args)) == (match args {
            None => true,
            Some(ls) => list_wfm(ls),
        }),
{
}

pub broadcast proof fn lemma_wfm_tuple(ls: Seq<ExprM>)
    ensures
        #[trigger] val_wfm(ValM::Tuple(ls)) == list_wfm(ls),
{
}

pub broadcast proof fn lemma_wfm_setof(ls: Seq<ExprM>)
    ensures
        #[trigger] val_wfm(ValM::SetOf(ls)) == list_wfm(ls),
{
}

pub broadcast proof fn lemma_wfm_numeric(q: NumM)
    ensures
        #[trigger] val_wfm(ValM::Numeric(q)) == q.wf(),
{
}

pub broadcast group group_wfm_axioms {
    lemma_wfm_value,
    lemma_wfm_comp,
    lemma_wfm_func,
    lemma_wfm_tuple,
    lemma_wfm_setof,
    lemma_wfm_numeric,
}

/// Every element of a well-formed list is well-formed.
pub proof fn lemma_list_wfm_elem(ls: Seq<ExprM>, i: int)
    requires
        list_wfm(ls),
        0 <= i < ls.len(),
    ensures
        expr_wfm(ls[i]),
    decreases ls.len(),
{
    if i > 0 {
        lemma_list_wfm_elem(ls.drop_first(), i - 1);
        assert(ls.drop_first()[i - 1] == ls[i]);
    }
}

/// A deep copy of a value, equal to the original in the model.
pub fn clone_value(v: &Value) -> (r: Value)
    ensures
        r.deep_view() == v.deep_view(),
    decreases ht_val(val_view(*v)),
{
    match v {
        Value::Nil => Value::Nil,
        Value::Numeric(q) => Value::Numeric(*q),
        Value::Logical(b) => Value::Logical(*b),
        Value::Tuple(ls) => Value::Tuple(clone_exprs(ls)),
        Value::SetOf(ls) => Value::SetOf(clone_exprs(ls)),
    }
}

/// A deep copy of an expression, equal to the original in the model.
pub fn clone_expr(e: &Expr) -> (r: Expr)
    ensures
        r.deep_view() == e.deep_view(),
    decreases ht(expr_view(*e)),
{
    match e {
        Expr::Value(v) => Expr::Value(clone_value(v)),
        Expr::Comp(op, lhs, rhs) => Expr::Comp(
            *op,
            Box::new(clone_expr(lhs)),
            Box::new(clone_expr(rhs)),
        ),
        Expr::Ref(name) => Expr::Ref(name.clone()),
        Expr::Func(name, None) => Expr::Func(name.clone(), None),
        Expr::Func(name, Some(args)) => {
            proof {
                assert(ht(expr_view(*e)) == 1 + ht_opt(Some(exprs_view(args@))));
            }
            Expr::Func(name.clone(), Some(clone_exprs(args)))
        },
    }
}

/// A deep copy of a list of expressions, elementwise equal in the model.
pub fn clone_exprs(ls: &Vec<Expr>) -> (r: Vec<Expr>)
    ensures
        exprs_view(r@) == exprs_view(ls@),
        r@.len() == ls@.len(),
    decreases ht_list(exprs_view(ls@)),
{
    broadcast use lemma_exprs_view;

    let mut out: Vec<Expr> = Vec::new();
    let n = ls.len();
    let mut i: usize = 0;
    while i < n
        invariant
            i <= n,
            n == ls@.len(),
            out@.len() == i,
            forall|j: int| 0 <= j < i ==> expr_view(out@[j]) == expr_view(ls@[j]),
        decreases n - i,
    {
        proof {
            lemma_exprs_view(ls@);
            lemma_ht_list_elem(exprs_view(ls@), i as int);
        }
        let c = clone_expr(&ls[i]);
        out.push(c);
        i += 1;
    }
    proof {
        assert(exprs_view(out@) =~= exprs_view(ls@));
    }
    out
}

impl Clone for Value {
    /// A deep copy; the copy has the same model as the original.
    fn clone(&self) -> (r: Self)
        ensures
            r.deep_view() == self.deep_view(),
    {
        clone_value(self)
    }
}

impl Clone for Expr {
    /// A deep copy; the copy has the same model as the original.
    fn clone(&self) -> (r: Self)
        ensures
            r.deep_view() == self.deep_view(),
    {
        clone_expr(self)
    }
}

/// The heights of each constructor, one level at a time, so that nested
/// measures unfold without fuel.
pub broadcast proof fn lemma_ht_value(v: ValM)
    ensures
        #[trigger] ht(ExprM::Value(v)) == 1 + ht_val(v),
{
}

pub broadcast proof fn lemma_ht_comp(op: Operator, l: Box<ExprM>, r: Box<ExprM>)
    ensures
        #[trigger] ht(ExprM::Comp(op, l, r)) == 1 + if ht(*l) >= ht(*r) {
            ht(*l)
        } else {
            ht(*r)
        },
{
}

pub broadcast proof fn lemma_ht_func(name: Seq<char>, args: Option<Seq<ExprM>>)
    ensures
        #[trigger] ht(ExprM::Func(name, args)) == 1 + ht_opt(args),
{
}

pub broadcast proof fn lemma_ht_opt_some(ls: Seq<ExprM>)
    ensures
        #[trigger] ht_opt(Some(ls)) == 1 + ht_list(ls),
{
}

pub broadcast proof fn lemma_ht_val_tuple(ls: Seq<ExprM>)
    ensures
        #[trigger] ht_val(ValM::Tuple(ls)) == 1 + ht_list(ls),
{
}

pub broadcast proof fn lemma_ht_val_setof(ls: Seq<ExprM>)
    ensures
        #[trigger] ht_val(ValM::SetOf(ls)) == 1 + ht_list(ls),
{
}

pub broadcast group group_ht_axioms {
    lemma_ht_value,
    lemma_ht_comp,
    lemma_ht_func,
    lemma_ht_opt_some,
    lemma_ht_val_tuple,
    lemma_ht_val_setof,
}

/// Every element of a list sits strictly below the list's height.
pub proof fn lemma_ht_list_elem(ls: Seq<ExprM>, i: int)
    requires
        0 <= i < ls.len(),
    ensures
        ht(ls[i]) < ht_list(ls),
    decreases ls.len(),
{
    if i > 0 {
        lemma_ht_list_elem(ls.drop_first(), i - 1);
        assert(ls.drop_first()[i - 1] == ls[i]);
        lemma_ht_list_tail(ls);
    }
}

/// The tail of a list sits no higher than the list.
pub proof fn lemma_ht_list_tail(ls: Seq<ExprM>)
    requires
        ls.len() > 0,
    ensures
        ht_list(ls.drop_first()) < ht_list(ls),
{
}

} // verus!
