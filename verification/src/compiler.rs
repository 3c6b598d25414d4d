//! Lowering expressions to the flat compiled form, and the proof that the
//! compiled form evaluates exactly as the tree does.

use vstd::prelude::*;

use crate::ast::{
    clone_expr, expr_view, exprs_view, ht, lemma_exprs_view, Expr, ExprM, Operator, Value, ValM,
};
use crate::code::{code_view, lemma_code_view, CodeObject, InstrM, Instruction};
use crate::context::CtxM;
use crate::error::{ErrM, Error};
use crate::vm::{s_eval, s_eval_list, s_exec_code, s_lookup, s_call};

verus! {

broadcast use crate::ast::group_view_axioms, crate::ast::group_ht_axioms;

/// The compiled form of an expression: one flat sequence that leaves the
/// expression's value on the machine stack. An assignment is compilable
/// only at the top level; below an operator it is refused.
pub open spec fn s_compile(e: ExprM) -> Result<Seq<InstrM>, ErrM>
    decreases ht(e), 0nat,
{
    match e {
        ExprM::Value(ValM::Tuple(ls)) => Ok(seq![InstrM::MkTuple(ls)]),
        ExprM::Value(ValM::SetOf(ls)) => Ok(seq![InstrM::MkSet(ls)]),
        ExprM::Value(v) => Ok(seq![InstrM::Push(v)]),
        ExprM::Ref(name) => Ok(seq![InstrM::Load(name)]),
        ExprM::Func(name, params) => Ok(seq![InstrM::Call(name, params)]),
        ExprM::Comp(op, l, r) => {
            if op == Operator::Store {
                match *l {
                    ExprM::Func(name, ps) => Ok(seq![InstrM::Move(name, ps, *r)]),
                    ExprM::Ref(name) => Ok(seq![InstrM::Move(name, None, *r)]),
                    _ => Err(ErrM::CompileError("assignment target invalid"@)),
                }
            } else {
                match s_compile_operand(*l) {
                    Err(err) => Err(err),
                    Ok(cl) => match s_compile_operand(*r) {
                        Err(err) => Err(err),
                        Ok(cr) => Ok(cl + cr + seq![InstrM::BinOp(op)]),
                    },
                }
            }
        },
    }
}

/// An operand below an operator: anything but an assignment.
pub open spec fn s_compile_operand(e: ExprM) -> Result<Seq<InstrM>, ErrM>
    decreases ht(e), 1nat,
{
    match e {
        ExprM::Comp(op, _, _) => if op == Operator::Store {
            Err(ErrM::CompileError("assignment below the top level"@))
        } else {
            s_compile(e)
        },
        _ => s_compile(e),
    }
}

/// Lowers one expression to its compiled form; fails exactly on an
/// assignment below the top level or an invalid assignment target.
pub fn compile(expr: &Expr) -> (r: Result<CodeObject, Error>)
    ensures
        (match r {
            Ok(co) => Ok(co@),
            Err(e) => Err::<Seq<InstrM>, ErrM>(e.deep_view()),
        }) == s_compile(expr_view(*expr)),
    decreases ht(expr_view(*expr)), 0nat,
{
    match expr {
        Expr::Value(v) => match v {
            Value::Tuple(ls) => {
                let code = CodeObject { code: vec![Instruction::MkTuple(crate::ast::clone_exprs(ls))] };
                proof {
                    lemma_code_view(code.code@);
                    assert(code@ =~= seq![InstrM::MkTuple(exprs_view(ls@))]);
                }
                Ok(code)
            },
            Value::SetOf(ls) => {
                let code = CodeObject { code: vec![Instruction::MkSet(crate::ast::clone_exprs(ls))] };
                proof {
                    lemma_code_view(code.code@);
                    assert(code@ =~= seq![InstrM::MkSet(exprs_view(ls@))]);
                }
                Ok(code)
            },
            _ => {
                let code = CodeObject { code: vec![Instruction::Push(crate::ast::clone_value(v))] };
                proof {
                    lemma_code_view(code.code@);
                    assert(code@ =~= seq![InstrM::Push(crate::ast::val_view(*v))]);
                }
                Ok(code)
            },
        },
        Expr::Ref(name) => {
            let code = CodeObject { code: vec![Instruction::Load(name.clone())] };
            proof {
                lemma_code_view(code.code@);
                assert(code@ =~= seq![InstrM::Load(name@)]);
            }
            Ok(code)
        },
        Expr::Func(name, params) => {
            let code = CodeObject {
                code: vec![Instruction::Call(name.clone(), crate::code::clone_params(params))],
            };
            proof {
                lemma_code_view(code.code@);
                assert(code@ =~= seq![
                    InstrM::Call(name@, crate::code::params_view(*params)),
                ]);
                assert(expr_view(*expr) == ExprM::Func(
                    name@,
                    crate::code::params_view(*params),
                ));
            }
            Ok(code)
        },
        Expr::Comp(op, l, r) => {
            proof {
                assert(expr_view(*expr) == ExprM::Comp(
                    *op,
                    Box::new(expr_view(**l)),
                    Box::new(expr_view(**r)),
                ));
            }
            if *op == Operator::Store {
                match &**l {
                    Expr::Func(name, ps) => {
                        let code = CodeObject {
                            code: vec![
                                Instruction::Move(
                                    name.clone(),
                                    crate::code::clone_params(ps),
                                    clone_expr(r),
                                ),
                            ],
                        };
                        proof {
                            lemma_code_view(code.code@);
                            assert(code@ =~= seq![
                                InstrM::Move(
                                    name@,
                                    crate::code::params_view(*ps),
                                    expr_view(**r),
                                ),
                            ]);
                        }
                        Ok(code)
                    },
                    Expr::Ref(name) => {
                        let code = CodeObject {
                            code: vec![
                                Instruction::Move(name.clone(), None, clone_expr(r)),
                            ],
                        };
                        proof {
                            lemma_code_view(code.code@);
                            assert(code@ =~= seq![
                                InstrM::Move(
                                    name@,
                                    None::<Seq<ExprM>>,
                                    expr_view(**r),
                                ),
                            ]);
                        }
                        Ok(code)
                    },
                    _ => Err(Error::CompileError(String::from_str(
                        "assignment target invalid",
                    ))),
                }
            } else {
                let cl = match compile_operand(l) {
                    Ok(c) => c,
                    Err(err) => {
                        return Err(err);
                    },
                };
                let cr = match compile_operand(r) {
                    Ok(c) => c,
                    Err(err) => {
                        return Err(err);
                    },
                };
                let mut code = cl.code;
                let rest = cr.code;
                let ghost clv = code_view(code@);
                let ghost crv = code_view(rest@);
                append_code(&mut code, rest);
                let ghost cpre = code@;
                code.push(Instruction::BinOp(*op));
                proof {
                    lemma_code_view(code@);
                    lemma_code_view(cpre);
                    assert(code@.drop_last() =~= cpre);
                    assert(code_view(code@) =~= (clv + crv).push(InstrM::BinOp(*op)));
                    assert((clv + crv).push(InstrM::BinOp(*op)) =~= clv + crv + seq![
                        InstrM::BinOp(*op),
                    ]);
                }
                Ok(CodeObject { code })
            }
        },
    }
}

/// Compiles an operand, refusing an assignment below the top level.
fn compile_operand(expr: &Expr) -> (r: Result<CodeObject, Error>)
    ensures
        (match r {
            Ok(co) => Ok(co@),
            Err(e) => Err::<Seq<InstrM>, ErrM>(e.deep_view()),
        }) == s_compile_operand(expr_view(*expr)),
    decreases ht(expr_view(*expr)), 1nat,
{
    match expr {
        Expr::Comp(op, _, _) => {
            if *op == Operator::Store {
                proof {
                    assert(expr_view(*expr) is Comp);
                }
                Err(Error::CompileError(String::from_str("assignment below the top level")))
            } else {
                compile(expr)
            }
        },
        _ => compile(expr),
    }
}

/// The machine state an instruction sequence reaches from position `i`:
/// the final value stack, or the first fault, with the context either way.
pub open spec fn s_steps(
    code: Seq<InstrM>,
    i: nat,
    stack: Seq<ValM>,
    c: CtxM,
    fuel: nat,
) -> (Result<Seq<ValM>, ErrM>, CtxM)
    decreases fuel, crate::code::ht_code(code) + 2, 3nat, code.len() - i,
    via s_steps_decreases
{
    if i >= code.len() {
        (Ok(stack), c)
    } else {
        match code[i as int] {
            InstrM::Push(v) => s_steps(code, i + 1, stack.push(v), c, fuel),
            InstrM::Load(name) => {
                let (r, c1) = s_lookup(name, c, fuel);
                match r {
                    Err(err) => (Err(err), c1),
                    Ok(v) => s_steps(code, i + 1, stack.push(v), c1, fuel),
                }
            },
            InstrM::Call(name, params) => {
                let (r, c1) = s_call(name, params, c, fuel);
                match r {
                    Err(err) => (Err(err), c1),
                    Ok(v) => s_steps(code, i + 1, stack.push(v), c1, fuel),
                }
            },
            InstrM::Move(name, params, body) => {
                let (r, c1) = crate::context::s_set_virtual(c, name, params, body);
                match r {
                    Err(err) => (Err(err), c1),
                    Ok(_) => s_steps(code, i + 1, stack.push(ValM::Nil), c1, fuel),
                }
            },
            InstrM::BinOp(op) => {
                if stack.len() < 2 {
                    (Err(ErrM::InvalidBytecode), c)
                } else {
                    let b = stack.last();
                    let a = stack[stack.len() - 2];
                    match crate::ops::s_operation(op, a, b) {
                        Err(err) => (Err(err), c),
                        Ok(v) => s_steps(
                            code,
                            i + 1,
                            stack.drop_last().drop_last().push(v),
                            c,
                            fuel,
                        ),
                    }
                }
            },
            InstrM::MkTuple(ls) => {
                let (r, c1) = s_eval_list(ls, c, fuel);
                match r {
                    Err(err) => (Err(err), c1),
                    Ok(vs) => s_steps(code, i + 1, stack.push(ValM::Tuple(vs)), c1, fuel),
                }
            },
            InstrM::MkSet(ls) => {
                let (r, c1) = s_eval_list(ls, c, fuel);
                match r {
                    Err(err) => (Err(err), c1),
                    Ok(vs) => s_steps(code, i + 1, stack.push(ValM::SetOf(vs)), c1, fuel),
                }
            },
        }
    }
}

#[via_fn]
proof fn s_steps_decreases(code: Seq<InstrM>, i: nat, stack: Seq<ValM>, c: CtxM, fuel: nat) {
    if i < code.len() {
        crate::code::lemma_ht_code_elem(code, i as int);
    }
}

/// Running to completion and reading the top of the stack is exactly the
/// machine's result.
pub proof fn lemma_steps_extract(code: Seq<InstrM>, i: nat, stack: Seq<ValM>, c: CtxM, fuel: nat)
    ensures
        s_exec_code(code, i, stack, c, fuel) == (match s_steps(code, i, stack, c, fuel) {
            (Ok(st), c1) => (
                if st.len() == 0 {
                    Err(ErrM::InvalidBytecode)
                } else {
                    Ok::<ValM, ErrM>(st.last())
                },
                c1,
            ),
            (Err(err), c1) => (Err(err), c1),
        }),
    decreases code.len() - i,
{
    if i < code.len() {
        match code[i as int] {
            InstrM::Push(v) => {
                lemma_steps_extract(code, i + 1, stack.push(v), c, fuel);
            },
            InstrM::Load(name) => {
                let (r, c1) = s_lookup(name, c, fuel);
                if let Ok(v) = r {
                    lemma_steps_extract(code, i + 1, stack.push(v), c1, fuel);
                }
            },
            InstrM::Call(name, params) => {
                let (r, c1) = s_call(name, params, c, fuel);
                if let Ok(v) = r {
                    lemma_steps_extract(code, i + 1, stack.push(v), c1, fuel);
                }
            },
            InstrM::Move(name, params, body) => {
                let (r, c1) = crate::context::s_set_virtual(c, name, params, body);
                if r is Ok {
                    lemma_steps_extract(code, i + 1, stack.push(ValM::Nil), c1, fuel);
                }
            },
            InstrM::BinOp(op) => {
                if stack.len() >= 2 {
                    let b = stack.last();
                    let a = stack[stack.len() - 2];
                    if let Ok(v) = crate::ops::s_operation(op, a, b) {
                        lemma_steps_extract(
                            code,
                            i + 1,
                            stack.drop_last().drop_last().push(v),
                            c,
                            fuel,
                        );
                    }
                }
            },
            InstrM::MkTuple(ls) => {
                let (r, c1) = s_eval_list(ls, c, fuel);
                if let Ok(vs) = r {
                    lemma_steps_extract(code, i + 1, stack.push(ValM::Tuple(vs)), c1, fuel);
                }
            },
            InstrM::MkSet(ls) => {
                let (r, c1) = s_eval_list(ls, c, fuel);
                if let Ok(vs) = r {
                    lemma_steps_extract(code, i + 1, stack.push(ValM::SetOf(vs)), c1, fuel);
                }
            },
        }
    }
}

/// Positions past a prefix behave as positions of the suffix.
pub proof fn lemma_steps_shift(
    a: Seq<InstrM>,
    b: Seq<InstrM>,
    j: nat,
    stack: Seq<ValM>,
    c: CtxM,
    fuel: nat,
)
    requires
        j <= b.len(),
    ensures
        s_steps(a + b, a.len() + j, stack, c, fuel) == s_steps(b, j, stack, c, fuel),
    decreases b.len() - j,
{
    if j < b.len() {
        assert((a + b)[a.len() + j as int] == b[j as int]);
        match b[j as int] {
            InstrM::Push(v) => {
                lemma_steps_shift(a, b, j + 1, stack.push(v), c, fuel);
            },
            InstrM::Load(name) => {
                let (r, c1) = s_lookup(name, c, fuel);
                if let Ok(v) = r {
                    lemma_steps_shift(a, b, j + 1, stack.push(v), c1, fuel);
                }
            },
            InstrM::Call(name, params) => {
                let (r, c1) = s_call(name, params, c, fuel);
                if let Ok(v) = r {
                    lemma_steps_shift(a, b, j + 1, stack.push(v), c1, fuel);
                }
            },
            InstrM::Move(name, params, body) => {
                let (r, c1) = crate::context::s_set_virtual(c, name, params, body);
                if r is Ok {
                    lemma_steps_shift(a, b, j + 1, stack.push(ValM::Nil), c1, fuel);
                }
            },
            InstrM::BinOp(op) => {
                if stack.len() >= 2 {
                    let bb = stack.last();
                    let aa = stack[stack.len() - 2];
                    if let Ok(v) = crate::ops::s_operation(op, aa, bb) {
                        lemma_steps_shift(
                            a,
                            b,
                            j + 1,
                            stack.drop_last().drop_last().push(v),
                            c,
                            fuel,
                        );
                    }
                }
            },
            InstrM::MkTuple(ls) => {
                let (r, c1) = s_eval_list(ls, c, fuel);
                if let Ok(vs) = r {
                    lemma_steps_shift(a, b, j + 1, stack.push(ValM::Tuple(vs)), c1, fuel);
                }
            },
            InstrM::MkSet(ls) => {
                let (r, c1) = s_eval_list(ls, c, fuel);
                if let Ok(vs) = r {
                    lemma_steps_shift(a, b, j + 1, stack.push(ValM::SetOf(vs)), c1, fuel);
                }
            },
        }
    } else {
        assert(a.len() + j >= (a + b).len());
    }
}

/// Running a concatenation is running the first part and then the second.
pub proof fn lemma_steps_append(
    a: Seq<InstrM>,
    b: Seq<InstrM>,
    i: nat,
    stack: Seq<ValM>,
    c: CtxM,
    fuel: nat,
)
    requires
        i <= a.len(),
    ensures
        s_steps(a + b, i, stack, c, fuel) == (match s_steps(a, i, stack, c, fuel) {
            (Ok(st), c1) => s_steps(b, 0, st, c1, fuel),
            (Err(err), c1) => (Err(err), c1),
        }),
    decreases a.len() - i,
{
    if i >= a.len() {
        lemma_steps_shift(a, b, 0, stack, c, fuel);
        assert(a.len() + 0 == i);
    } else {
        assert((a + b)[i as int] == a[i as int]);
        match a[i as int] {
            InstrM::Push(v) => {
                lemma_steps_append(a, b, i + 1, stack.push(v), c, fuel);
            },
            InstrM::Load(name) => {
                let (r, c1) = s_lookup(name, c, fuel);
                if let Ok(v) = r {
                    lemma_steps_append(a, b, i + 1, stack.push(v), c1, fuel);
                }
            },
            InstrM::Call(name, params) => {
                let (r, c1) = s_call(name, params, c, fuel);
                if let Ok(v) = r {
                    lemma_steps_append(a, b, i + 1, stack.push(v), c1, fuel);
                }
            },
            InstrM::Move(name, params, body) => {
                let (r, c1) = crate::context::s_set_virtual(c, name, params, body);
                if r is Ok {
                    lemma_steps_append(a, b, i + 1, stack.push(ValM::Nil), c1, fuel);
                }
            },
            InstrM::BinOp(op) => {
                if stack.len() >= 2 {
                    let bb = stack.last();
                    let aa = stack[stack.len() - 2];
                    if let Ok(v) = crate::ops::s_operation(op, aa, bb) {
                        lemma_steps_append(
                            a,
                            b,
                            i + 1,
                            stack.drop_last().drop_last().push(v),
                            c,
                            fuel,
                        );
                    }
                }
            },
            InstrM::MkTuple(ls) => {
                let (r, c1) = s_eval_list(ls, c, fuel);
                if let Ok(vs) = r {
                    lemma_steps_append(a, b, i + 1, stack.push(ValM::Tuple(vs)), c1, fuel);
                }
            },
            InstrM::MkSet(ls) => {
                let (r, c1) = s_eval_list(ls, c, fuel);
                if let Ok(vs) = r {
                    lemma_steps_append(a, b, i + 1, stack.push(ValM::SetOf(vs)), c1, fuel);
                }
            },
        }
    }
}

/// The compiled form computes exactly what the tree does: from any starting
/// stack, it pushes the expression's value, or stops with the same fault and
/// the same context.
#[verifier::rlimit(100)]
pub proof fn lemma_compile_correct(e: ExprM, stack: Seq<ValM>, c: CtxM, fuel: nat)
    requires
        s_compile(e) is Ok,
    ensures
        s_steps(s_compile(e)->Ok_0, 0, stack, c, fuel) == (match s_eval(e, c, fuel) {
            (Ok(v), c1) => (Ok::<Seq<ValM>, ErrM>(stack.push(v)), c1),
            (Err(err), c1) => (Err::<Seq<ValM>, ErrM>(err), c1),
        }),
    decreases ht(e),
{
    reveal_with_fuel(s_steps, 3);
    let code = s_compile(e)->Ok_0;
    match e {
        ExprM::Value(v) => match v {
            ValM::Tuple(ls) => {
                assert(code == seq![InstrM::MkTuple(ls)]);
                assert(code.drop_first() =~= Seq::<InstrM>::empty());
            },
            ValM::SetOf(ls) => {
                assert(code == seq![InstrM::MkSet(ls)]);
                assert(code.drop_first() =~= Seq::<InstrM>::empty());
            },
            _ => {
                assert(code == seq![InstrM::Push(v)]);
                assert(code.drop_first() =~= Seq::<InstrM>::empty());
            },
        },
        ExprM::Ref(name) => {
            assert(code == seq![InstrM::Load(name)]);
            assert(code.drop_first() =~= Seq::<InstrM>::empty());
        },
        ExprM::Func(name, params) => {
            assert(code == seq![InstrM::Call(name, params)]);
            assert(code.drop_first() =~= Seq::<InstrM>::empty());
        },
        ExprM::Comp(op, l, r) => {
            if op == Operator::Store {
                match *l {
                    ExprM::Func(name, ps) => {
                        assert(code == seq![InstrM::Move(name, ps, *r)]);
                        assert(code.drop_first() =~= Seq::<InstrM>::empty());
                    },
                    ExprM::Ref(name) => {
                        assert(code == seq![InstrM::Move(name, None, *r)]);
                        assert(code.drop_first() =~= Seq::<InstrM>::empty());
                    },
                    _ => {},
                }
            } else {
                let cl = s_compile_operand(*l)->Ok_0;
                let cr = s_compile_operand(*r)->Ok_0;
                assert(cl == s_compile(*l)->Ok_0);
                assert(cr == s_compile(*r)->Ok_0);
                assert(code == cl + cr + seq![InstrM::BinOp(op)]);
                lemma_compile_correct(*l, stack, c, fuel);
                let (rl, c1) = s_eval(*l, c, fuel);
                lemma_steps_append(cl, cr + seq![InstrM::BinOp(op)], 0, stack, c, fuel);
                assert(cl + (cr + seq![InstrM::BinOp(op)]) =~= code);
                match rl {
                    Err(_) => {},
                    Ok(a) => {
                        lemma_compile_correct(*r, stack.push(a), c1, fuel);
                        let (rr, c2) = s_eval(*r, c1, fuel);
                        lemma_steps_append(
                            cr,
                            seq![InstrM::BinOp(op)],
                            0,
                            stack.push(a),
                            c1,
                            fuel,
                        );
                        match rr {
                            Err(_) => {},
                            Ok(b) => {
                                let st2 = stack.push(a).push(b);
                                assert(st2.len() >= 2);
                                assert(st2.last() == b);
                                assert(st2[st2.len() - 2] == a);
                                assert(st2.drop_last().drop_last() =~= stack);
                                let bcode = seq![InstrM::BinOp(op)];
                                match crate::ops::s_operation(op, a, b) {
                                    Err(_) => {},
                                    Ok(v) => {
                                        assert(bcode.drop_first() =~= Seq::<InstrM>::empty());
                                    },
                                }
                            },
                        }
                    },
                }
            }
        },
    }
}

/// The round-trip law: for every expression the compiler accepts,
/// executing the compiled unit gives exactly the tree-walking result — the
/// same value or fault, and the same final context.
pub proof fn lemma_round_trip(e: ExprM, c: CtxM, fuel: nat)
    requires
        s_compile(e) is Ok,
    ensures
        s_exec_code(s_compile(e)->Ok_0, 0, Seq::empty(), c, fuel) == s_eval(e, c, fuel),
{
    let code = s_compile(e)->Ok_0;
    lemma_compile_correct(e, Seq::empty(), c, fuel);
    lemma_steps_extract(code, 0, Seq::empty(), c, fuel);
    let (rv, c1) = s_eval(e, c, fuel);
    if let Ok(v) = rv {
        let st = Seq::<ValM>::empty().push(v);
        assert(st.len() == 1 && st.last() == v);
    }
}

/// Appends all instructions of `more` to `code`.
fn append_code(code: &mut Vec<Instruction>, more: Vec<Instruction>)
    ensures
        code_view(final(code)@) == code_view(old(code)@) + code_view(more@),
{
    let ghost whole = code_view(more@);
    proof {
        lemma_code_view(more@);
        lemma_code_view(code@);
        assert(code_view(code@) + whole.take(0) =~= code_view(code@));
    }
    let m = more.len();
    let mut k: usize = 0;
    let mut src = more;
    while k < m
        invariant
            0 <= k <= m,
            m == src@.len(),
            whole == code_view(src@),
            code_view(code@) == code_view(old(code)@) + whole.take(k as int),
        decreases m - k,
    {
        proof {
            lemma_code_view(src@);
        }
        let ins = crate::code::clone_instruction(&src[k]);
        let ghost cpre = code@;
        code.push(ins);
        proof {
            lemma_code_view(code@);
            lemma_code_view(cpre);
            assert(code@.drop_last() =~= cpre);
            assert(code_view(code@) =~= code_view(cpre).push(whole[k as int]));
            assert(whole.take(k as int + 1) =~= whole.take(k as int).push(whole[k as int]));
            assert(code_view(code@) =~= code_view(old(code)@) + whole.take(k as int + 1));
        }
        k = k + 1;
    }
    proof {
        assert(whole.take(m as int) =~= whole);
    }
}

} // verus!
