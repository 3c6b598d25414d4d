//! The evaluator: one mathematical interpreter, and two executable
//! strategies proved against it — walking the tree, and running compiled
//! instruction sequences.

use vstd::prelude::*;

use crate::ast::{
    clone_expr, clone_value, expr_view, exprs_view, ht, ht_list, ht_opt, lemma_exprs_view,
    lemma_ht_list_elem, val_view, Expr, ExprM, Operator, Value, ValM,
};
use crate::code::{code_view, ht_code, ht_instr, lemma_code_view, lemma_ht_code_elem, CodeObject, InstrM, Instruction};
use crate::context::{
    ctx_get, params_opt_view, s_find_overload, s_set_virtual, CtxM, FunM, Native, TableM,
    VmContext, VmFunction, VmFunctionTable, MAX_STACK,
};
use crate::error::{ErrM, Error};
use crate::num::{Num, NumM};
use crate::ops::{run_operation, s_numeric, s_operation, s_truth, to_truth, val_res_view};

verus! {

broadcast use crate::ast::group_view_axioms, crate::ast::group_ht_axioms;

/// How many calls the context can still hold before the stack reaches its
/// bound: the interpreter's recursion budget.
pub open spec fn ctx_fuel(c: CtxM) -> nat {
    if c.stack.len() + 1 <= MAX_STACK as int {
        (MAX_STACK - 1 - c.stack.len()) as nat
    } else {
        0
    }
}

/// The context with one frame pushed.
pub open spec fn push_ctx(c: CtxM, frame: Seq<(Seq<char>, TableM)>) -> CtxM {
    CtxM { map: c.map, stack: c.stack.push(frame), deps: c.deps }
}

/// The context with its innermost frame removed.
pub open spec fn pop_ctx(c: CtxM) -> CtxM {
    if c.stack.len() > 0 {
        CtxM { map: c.map, stack: c.stack.drop_last(), deps: c.deps }
    } else {
        c
    }
}

/// The frame a matched overload binds: each binder slot names the matching
/// evaluated argument; literal slots bind nothing.
pub open spec fn s_bind(def: Seq<ExprM>, vals: Seq<ExprM>) -> Seq<(Seq<char>, TableM)>
    decreases def,
{
    if def.len() == 0 || vals.len() == 0 {
        Seq::empty()
    } else {
        match def[0] {
            ExprM::Ref(n) => seq![
                (
                    n,
                    TableM { read: Some(FunM::Virtual(vals[0])), overloads: Seq::empty() },
                ),
            ] + s_bind(def.drop_first(), vals.drop_first()),
            _ => s_bind(def.drop_first(), vals.drop_first()),
        }
    }
}

/// What reading a built-in without arguments yields: the two constants, or
/// an arity fault for the built-ins that need arguments.
pub open spec fn s_native_read(name: Seq<char>, n: Native) -> Result<ValM, ErrM> {
    match n {
        Native::Pi => Ok(ValM::Numeric(NumM { n: 3141592653589793, d: 1000000000000000 })),
        Native::Euler => Ok(ValM::Numeric(NumM { n: 2718281828459045, d: 1000000000000000 })),
        Native::If => Err(ErrM::ArityMismatch(name, 3, 0)),
        _ => Err(ErrM::ArityMismatch(name, 1, 0)),
    }
}

/// The number carried by one evaluated element, or a coercion fault.
pub open spec fn s_elem_num(vals: Seq<ExprM>, i: int) -> Result<NumM, ErrM> {
    match vals[i] {
        ExprM::Value(v) => s_numeric(v),
        _ => Err(ErrM::CoercionError),
    }
}

/// What one expression evaluates to, and the context it leaves behind.
///
/// This is the reference semantics of the language: literals stand for
/// themselves with aggregates evaluated elementwise; a bare reference runs
/// the name's read entry in a fresh empty frame; a call evaluates its
/// arguments left to right, selects the first stored overload accepting
/// them, binds the binder slots in a new frame, and runs the body; an
/// assignment stores a definition and yields the unit value; every other
/// binary node evaluates both sides and applies the shared operator
/// semantics. The recursion budget `fuel` mirrors the free call-stack
/// depth, and running out of it is the `StackDepthExceeded` fault.
pub open spec fn s_eval(e: ExprM, c: CtxM, fuel: nat) -> (Result<ValM, ErrM>, CtxM)
    decreases fuel, ht(e) + 2, 3nat, 0nat,
    via s_eval_decreases
{
    match e {
        ExprM::Value(v) => match v {
            ValM::Tuple(ls) => {
                let (r, c1) = s_eval_list(ls, c, fuel);
                match r {
                    Ok(vs) => (Ok(ValM::Tuple(vs)), c1),
                    Err(err) => (Err(err), c1),
                }
            },
            ValM::SetOf(ls) => {
                let (r, c1) = s_eval_list(ls, c, fuel);
                match r {
                    Ok(vs) => (Ok(ValM::SetOf(vs)), c1),
                    Err(err) => (Err(err), c1),
                }
            },
            _ => (Ok(v), c),
        },
        ExprM::Ref(name) => s_lookup(name, c, fuel),
        ExprM::Func(name, None) => s_call(name, None, c, fuel),
        ExprM::Func(name, Some(args)) => s_call(name, Some(args), c, fuel),
        ExprM::Comp(op, l, r) => {
            if op == Operator::Store {
                match *l {
                    ExprM::Func(name, ps) => {
                        let (rs, c1) = s_set_virtual(c, name, ps, *r);
                        match rs {
                            Ok(_) => (Ok(ValM::Nil), c1),
                            Err(err) => (Err(err), c1),
                        }
                    },
                    ExprM::Ref(name) => {
                        let (rs, c1) = s_set_virtual(c, name, None, *r);
                        match rs {
                            Ok(_) => (Ok(ValM::Nil), c1),
                            Err(err) => (Err(err), c1),
                        }
                    },
                    _ => (Err(ErrM::AssignmentTargetInvalid), c),
                }
            } else {
                let (rl, c1) = s_eval(*l, c, fuel);
                match rl {
                    Err(err) => (Err(err), c1),
                    Ok(a) => {
                        let (rr, c2) = s_eval(*r, c1, fuel);
                        match rr {
                            Err(err) => (Err(err), c2),
                            Ok(b) => (s_operation(op, a, b), c2),
                        }
                    },
                }
            }
        },
    }
}

/// Evaluates each element left to right, wrapping the results back into
/// literal expressions; the first fault stops the walk.
pub open spec fn s_eval_list(es: Seq<ExprM>, c: CtxM, fuel: nat) -> (
    Result<Seq<ExprM>, ErrM>,
    CtxM,
)
    decreases fuel, ht_list(es) + 2, 1nat, 0nat,
    via s_eval_list_decreases
{
    if es.len() == 0 {
        (Ok(Seq::empty()), c)
    } else {
        let (r0, c1) = s_eval(es[0], c, fuel);
        match r0 {
            Err(err) => (Err(err), c1),
            Ok(v) => {
                let (rr, c2) = s_eval_list(es.drop_first(), c1, fuel);
                match rr {
                    Err(err) => (Err(err), c2),
                    Ok(rest) => (Ok(seq![ExprM::Value(v)] + rest), c2),
                }
            },
        }
    }
}

/// Resolves a bare reference: the innermost frame shadows the globals; the
/// stored read entry (or, failing that, the first zero-arity overload) runs
/// in a fresh empty frame.
pub open spec fn s_lookup(name: Seq<char>, c: CtxM, fuel: nat) -> (Result<ValM, ErrM>, CtxM)
    decreases fuel, 2nat, 0nat, 0nat,
{
    match ctx_get(c, name) {
        None => (Err(ErrM::VariableUnknown(name)), c),
        Some(t) => match t.read {
            Some(f) => s_run_fun(name, f, Seq::empty(), c, fuel),
            None => match s_find_overload(t.overloads, Seq::empty()) {
                Some(ovl) => s_run_fun(name, ovl.implementation, Seq::empty(), c, fuel),
                None => (Err(ErrM::VariableUnknown(name)), c),
            },
        },
    }
}

/// Runs one stored body in a new frame: the frame is pushed (consuming one
/// unit of recursion budget), the body evaluated, and the frame popped
/// whether the body succeeded or not.
pub open spec fn s_run_fun(
    name: Seq<char>,
    f: FunM,
    frame: Seq<(Seq<char>, TableM)>,
    c: CtxM,
    fuel: nat,
) -> (Result<ValM, ErrM>, CtxM)
    decreases fuel, 0nat, 0nat, 0nat,
{
    match f {
        FunM::Native(n) => (s_native_read(name, n), c),
        FunM::Virtual(body) => {
            if fuel == 0 {
                (Err(ErrM::StackDepthExceeded), c)
            } else {
                let (r, c2) = s_eval(body, push_ctx(c, frame), (fuel - 1) as nat);
                (r, pop_ctx(c2))
            }
        },
        FunM::ByteCode(co) => {
            if fuel == 0 {
                (Err(ErrM::StackDepthExceeded), c)
            } else {
                let (r, c2) = s_exec_code(
                    co,
                    0,
                    Seq::empty(),
                    push_ctx(c, frame),
                    (fuel - 1) as nat,
                );
                (r, pop_ctx(c2))
            }
        },
    }
}

/// Calls a name. Arguments are evaluated left to right and the first
/// accepting overload in declaration order wins; a built-in matched on the
/// raw arguments receives them unevaluated, so that `if` evaluates only the
/// branch it selects.
pub open spec fn s_call(
    name: Seq<char>,
    params: Option<Seq<ExprM>>,
    c: CtxM,
    fuel: nat,
) -> (Result<ValM, ErrM>, CtxM)
    decreases fuel, ht_opt(params) + 2, 2nat, 0nat,
    via s_call_decreases
{
    match ctx_get(c, name) {
        None => (Err(ErrM::FunctionUnknown(name)), c),
        Some(t) => match params {
            None => match t.read {
                Some(f) => s_run_fun(name, f, Seq::empty(), c, fuel),
                None => (Err(ErrM::FunctionUnknown(name)), c),
            },
            Some(args) => {
                let raw_native: Option<Native> = match s_find_overload(t.overloads, args) {
                    Some(ovl) => match ovl.implementation {
                        FunM::Native(n) => Some(n),
                        _ => None,
                    },
                    None => None,
                };
                match raw_native {
                    Some(n) => s_native(name, n, args, c, fuel),
                    None => {
                        let (rl, c1) = s_eval_list(args, c, fuel);
                        match rl {
                            Err(err) => (Err(err), c1),
                            Ok(vals) => match s_find_overload(t.overloads, vals) {
                                None => (
                                    (Err(ErrM::NoMatchingOverload(name, args.len()))),
                                    c1,
                                ),
                                Some(ovl) => match ovl.implementation {
                                    FunM::Native(n) => s_native(name, n, args, c1, fuel),
                                    f => s_run_fun(
                                        name,
                                        f,
                                        s_bind(ovl.definition, vals),
                                        c1,
                                        fuel,
                                    ),
                                },
                            },
                        }
                    },
                }
            },
        },
    }
}

/// Runs one built-in on its raw arguments. `if` evaluates its condition and
/// then only the selected branch; the others evaluate all their arguments
/// first. A violated `assert` is the fatal fault, whatever went wrong.
pub open spec fn s_native(
    name: Seq<char>,
    n: Native,
    args: Seq<ExprM>,
    c: CtxM,
    fuel: nat,
) -> (Result<ValM, ErrM>, CtxM)
    decreases fuel, ht_list(args) + 2, 2nat, 0nat,
    via s_native_decreases
{
    match n {
        Native::Pi => (s_native_read(name, n), c),
        Native::Euler => (s_native_read(name, n), c),
        Native::If => {
            if args.len() != 3 {
                (Err(ErrM::ArityMismatch(name, 3, args.len())), c)
            } else {
                let (rc, c1) = s_eval(args[0], c, fuel);
                match rc {
                    Err(err) => (Err(err), c1),
                    Ok(cv) => match s_truth(cv) {
                        Err(err) => (Err(err), c1),
                        Ok(b) => s_eval(
                            if b {
                                args[1]
                            } else {
                                args[2]
                            },
                            c1,
                            fuel,
                        ),
                    },
                }
            }
        },
        Native::Sqrt => {
            if args.len() != 1 && args.len() != 2 {
                (Err(ErrM::ArityMismatch(name, 1, args.len())), c)
            } else {
                let (rl, c1) = s_eval_list(args, c, fuel);
                match rl {
                    Err(err) => (Err(err), c1),
                    Ok(vals) => match s_elem_num(vals, 0) {
                        Err(err) => (Err(err), c1),
                        Ok(x) => {
                            if args.len() == 1 {
                                (num_to_val(crate::num::s_pow(x, NumM { n: 1, d: 2 })), c1)
                            } else {
                                match s_elem_num(vals, 1) {
                                    Err(err) => (Err(err), c1),
                                    Ok(nn) => match crate::ops::s_num_op(
                                        Operator::Div,
                                        NumM { n: 1, d: 1 },
                                        nn,
                                    ) {
                                        Err(err) => (Err(err), c1),
                                        Ok(exp) => (num_to_val(crate::num::s_pow(x, exp)), c1),
                                    },
                                }
                            }
                        },
                    },
                }
            }
        },
        Native::Log => {
            if args.len() != 1 && args.len() != 2 {
                (Err(ErrM::ArityMismatch(name, 1, args.len())), c)
            } else {
                let (rl, c1) = s_eval_list(args, c, fuel);
                match rl {
                    Err(err) => (Err(err), c1),
                    Ok(vals) => match s_elem_num(vals, 0) {
                        Err(err) => (Err(err), c1),
                        Ok(x) => {
                            if args.len() == 1 {
                                (num_to_val(crate::num::s_log(x, NumM { n: 10, d: 1 })), c1)
                            } else {
                                match s_elem_num(vals, 1) {
                                    Err(err) => (Err(err), c1),
                                    Ok(b) => (num_to_val(crate::num::s_log(x, b)), c1),
                                }
                            }
                        },
                    },
                }
            }
        },
        Native::Assert => {
            if args.len() != 1 {
                (Err(ErrM::ArityMismatch(name, 1, args.len())), c)
            } else {
                let (rc, c1) = s_eval(args[0], c, fuel);
                if rc == Ok::<ValM, ErrM>(ValM::Logical(true)) {
                    (Ok(ValM::Nil), c1)
                } else {
                    (Err(ErrM::AssertionFailed), c1)
                }
            }
        },
    }
}

/// Wraps a numeric result into a value result.
pub open spec fn num_to_val(r: Result<NumM, ErrM>) -> Result<ValM, ErrM> {
    match r {
        Ok(q) => Ok(ValM::Numeric(q)),
        Err(err) => Err(err),
    }
}

/// Executes a compiled sequence from instruction `i` with the given value
/// stack. Instructions carry their argument tuples unevaluated; a call
/// evaluates them as a tree-walk call would.
pub open spec fn s_exec_code(
    code: Seq<InstrM>,
    i: nat,
    stack: Seq<ValM>,
    c: CtxM,
    fuel: nat,
) -> (Result<ValM, ErrM>, CtxM)
    decreases fuel, ht_code(code) + 2, 3nat, code.len() - i,
    via s_exec_code_decreases
{
    if i >= code.len() {
        if stack.len() == 0 {
            (Err(ErrM::InvalidBytecode), c)
        } else {
            (Ok(stack.last()), c)
        }
    } else {
        match code[i as int] {
            InstrM::Push(v) => s_exec_code(code, i + 1, stack.push(v), c, fuel),
            InstrM::Load(name) => {
                let (r, c1) = s_lookup(name, c, fuel);
                match r {
                    Err(err) => (Err(err), c1),
                    Ok(v) => s_exec_code(code, i + 1, stack.push(v), c1, fuel),
                }
            },
            InstrM::Call(name, params) => {
                let (r, c1) = s_call(name, params, c, fuel);
                match r {
                    Err(err) => (Err(err), c1),
                    Ok(v) => s_exec_code(code, i + 1, stack.push(v), c1, fuel),
                }
            },
            InstrM::Move(name, params, body) => {
                let (r, c1) = s_set_virtual(c, name, params, body);
                match r {
                    Err(err) => (Err(err), c1),
                    Ok(_) => s_exec_code(code, i + 1, stack.push(ValM::Nil), c1, fuel),
                }
            },
            InstrM::BinOp(op) => {
                if stack.len() < 2 {
                    (Err(ErrM::InvalidBytecode), c)
                } else {
                    let b = stack.last();
                    let a = stack[stack.len() - 2];
                    match s_operation(op, a, b) {
                        Err(err) => (Err(err), c),
                        Ok(v) => s_exec_code(
                            code,
                            i + 1,
                            stack.drop_last().drop_last().push(v),
                            c,
                            fuel,
                        ),
                    }
                }
            },
            InstrM::MkTuple(ls) => {
                let (r, c1) = s_eval_list(ls, c, fuel);
                match r {
                    Err(err) => (Err(err), c1),
                    Ok(vs) => s_exec_code(code, i + 1, stack.push(ValM::Tuple(vs)), c1, fuel),
                }
            },
            InstrM::MkSet(ls) => {
                let (r, c1) = s_eval_list(ls, c, fuel);
                match r {
                    Err(err) => (Err(err), c1),
                    Ok(vs) => s_exec_code(code, i + 1, stack.push(ValM::SetOf(vs)), c1, fuel),
                }
            },
        }
    }
}

/// The stack-balance law: every evaluation, successful or failing, leaves
/// the call stack exactly as it found it — each pushed frame is popped
/// again, and nothing else touches the stack.
pub proof fn lemma_eval_stack_balance(e: ExprM, c: CtxM, fuel: nat)
    ensures
        s_eval(e, c, fuel).1.stack == c.stack,
    decreases fuel, ht(e) + 2, 3nat, 0nat,
{
    match e {
        ExprM::Value(v) => match v {
            ValM::Tuple(ls) => {
                lemma_eval_list_stack_balance(ls, c, fuel);
            },
            ValM::SetOf(ls) => {
                lemma_eval_list_stack_balance(ls, c, fuel);
            },
            _ => {},
        },
        ExprM::Ref(name) => {
            lemma_lookup_stack_balance(name, c, fuel);
        },
        ExprM::Func(name, None) => {
            assert(ht(e) == 1 + ht_opt(None::<Seq<ExprM>>));
            lemma_call_stack_balance(name, None, c, fuel);
        },
        ExprM::Func(name, Some(args)) => {
            assert(ht(e) == 1 + ht_opt(Some(args)));
            lemma_call_stack_balance(name, Some(args), c, fuel);
        },
        ExprM::Comp(op, l, r) => {
            if op != Operator::Store {
                lemma_eval_stack_balance(*l, c, fuel);
                let (rl, c1) = s_eval(*l, c, fuel);
                if rl is Ok {
                    lemma_eval_stack_balance(*r, c1, fuel);
                }
            }
        },
    }
}

pub proof fn lemma_eval_list_stack_balance(es: Seq<ExprM>, c: CtxM, fuel: nat)
    ensures
        s_eval_list(es, c, fuel).1.stack == c.stack,
    decreases fuel, ht_list(es) + 2, 1nat, 0nat,
{
    if es.len() > 0 {
        lemma_ht_list_elem(es, 0);
        crate::ast::lemma_ht_list_tail(es);
        lemma_eval_stack_balance(es[0], c, fuel);
        let (r0, c1) = s_eval(es[0], c, fuel);
        if r0 is Ok {
            lemma_eval_list_stack_balance(es.drop_first(), c1, fuel);
        }
    }
}

pub proof fn lemma_lookup_stack_balance(name: Seq<char>, c: CtxM, fuel: nat)
    ensures
        s_lookup(name, c, fuel).1.stack == c.stack,
    decreases fuel, 2nat, 0nat, 0nat,
{
    match ctx_get(c, name) {
        None => {},
        Some(t) => match t.read {
            Some(f) => {
                lemma_run_fun_stack_balance(name, f, Seq::empty(), c, fuel);
            },
            None => match s_find_overload(t.overloads, Seq::empty()) {
                Some(ovl) => {
                    lemma_run_fun_stack_balance(name, ovl.implementation, Seq::empty(), c, fuel);
                },
                None => {},
            },
        },
    }
}

pub proof fn lemma_run_fun_stack_balance(
    name: Seq<char>,
    f: FunM,
    frame: Seq<(Seq<char>, TableM)>,
    c: CtxM,
    fuel: nat,
)
    ensures
        s_run_fun(name, f, frame, c, fuel).1.stack == c.stack,
    decreases fuel, 0nat, 0nat, 0nat,
{
    match f {
        FunM::Native(_) => {},
        FunM::Virtual(body) => {
            if fuel > 0 {
                lemma_eval_stack_balance(body, push_ctx(c, frame), (fuel - 1) as nat);
                let (r, c2) = s_eval(body, push_ctx(c, frame), (fuel - 1) as nat);
                assert(c2.stack == c.stack.push(frame));
                assert(pop_ctx(c2).stack =~= c.stack);
            }
        },
        FunM::ByteCode(co) => {
            if fuel > 0 {
                lemma_exec_code_stack_balance(
                    co,
                    0,
                    Seq::empty(),
                    push_ctx(c, frame),
                    (fuel - 1) as nat,
                );
                let (r, c2) = s_exec_code(
                    co,
                    0,
                    Seq::empty(),
                    push_ctx(c, frame),
                    (fuel - 1) as nat,
                );
                assert(c2.stack == c.stack.push(frame));
                assert(pop_ctx(c2).stack =~= c.stack);
            }
        },
    }
}

pub proof fn lemma_call_stack_balance(
    name: Seq<char>,
    params: Option<Seq<ExprM>>,
    c: CtxM,
    fuel: nat,
)
    ensures
        s_call(name, params, c, fuel).1.stack == c.stack,
    decreases fuel, ht_opt(params) + 2, 2nat, 0nat,
{
    match ctx_get(c, name) {
        None => {},
        Some(t) => match params {
            None => match t.read {
                Some(f) => {
                    lemma_run_fun_stack_balance(name, f, Seq::empty(), c, fuel);
                },
                None => {},
            },
            Some(args) => {
                let raw_native: Option<Native> = match s_find_overload(t.overloads, args) {
                    Some(ovl) => match ovl.implementation {
                        FunM::Native(n) => Some(n),
                        _ => None,
                    },
                    None => None,
                };
                match raw_native {
                    Some(n) => {
                        lemma_native_stack_balance(name, n, args, c, fuel);
                    },
                    None => {
                        lemma_eval_list_stack_balance(args, c, fuel);
                        let (rl, c1) = s_eval_list(args, c, fuel);
                        match rl {
                            Err(_) => {},
                            Ok(vals) => match s_find_overload(t.overloads, vals) {
                                None => {},
                                Some(ovl) => match ovl.implementation {
                                    FunM::Native(n) => {
                                        lemma_native_stack_balance(name, n, args, c1, fuel);
                                    },
                                    f => {
                                        lemma_run_fun_stack_balance(
                                            name,
                                            f,
                                            s_bind(ovl.definition, vals),
                                            c1,
                                            fuel,
                                        );
                                    },
                                },
                            },
                        }
                    },
                }
            },
        },
    }
}

pub proof fn lemma_native_stack_balance(
    name: Seq<char>,
    n: Native,
    args: Seq<ExprM>,
    c: CtxM,
    fuel: nat,
)
    ensures
        s_native(name, n, args, c, fuel).1.stack == c.stack,
    decreases fuel, ht_list(args) + 2, 2nat, 0nat,
{
    match n {
        Native::If => {
            if args.len() == 3 {
                lemma_ht_list_elem(args, 0);
                lemma_ht_list_elem(args, 1);
                lemma_ht_list_elem(args, 2);
                lemma_eval_stack_balance(args[0], c, fuel);
                let (rc, c1) = s_eval(args[0], c, fuel);
                match rc {
                    Err(_) => {},
                    Ok(cv) => match s_truth(cv) {
                        Err(_) => {},
                        Ok(b) => {
                            lemma_eval_stack_balance(
                                if b {
                                    args[1]
                                } else {
                                    args[2]
                                },
                                c1,
                                fuel,
                            );
                        },
                    },
                }
            }
        },
        Native::Sqrt | Native::Log => {
            if args.len() == 1 || args.len() == 2 {
                lemma_eval_list_stack_balance(args, c, fuel);
            }
        },
        Native::Assert => {
            if args.len() == 1 {
                lemma_ht_list_elem(args, 0);
                lemma_eval_stack_balance(args[0], c, fuel);
            }
        },
        _ => {},
    }
}

pub proof fn lemma_exec_code_stack_balance(
    code: Seq<InstrM>,
    i: nat,
    stack: Seq<ValM>,
    c: CtxM,
    fuel: nat,
)
    ensures
        s_exec_code(code, i, stack, c, fuel).1.stack == c.stack,
    decreases fuel, ht_code(code) + 2, 3nat, code.len() - i,
{
    if i < code.len() {
        lemma_ht_code_elem(code, i as int);
        match code[i as int] {
            InstrM::Push(v) => {
                lemma_exec_code_stack_balance(code, i + 1, stack.push(v), c, fuel);
            },
            InstrM::Load(name) => {
                lemma_lookup_stack_balance(name, c, fuel);
                let (r, c1) = s_lookup(name, c, fuel);
                match r {
                    Err(_) => {},
                    Ok(v) => {
                        lemma_exec_code_stack_balance(code, i + 1, stack.push(v), c1, fuel);
                    },
                }
            },
            InstrM::Call(name, params) => {
                lemma_call_stack_balance(name, params, c, fuel);
                let (r, c1) = s_call(name, params, c, fuel);
                match r {
                    Err(_) => {},
                    Ok(v) => {
                        lemma_exec_code_stack_balance(code, i + 1, stack.push(v), c1, fuel);
                    },
                }
            },
            InstrM::Move(name, params, body) => {
                let (r, c1) = s_set_virtual(c, name, params, body);
                match r {
                    Err(_) => {},
                    Ok(_) => {
                        lemma_exec_code_stack_balance(
                            code,
                            i + 1,
                            stack.push(ValM::Nil),
                            c1,
                            fuel,
                        );
                    },
                }
            },
            InstrM::BinOp(op) => {
                if stack.len() >= 2 {
                    let b = stack.last();
                    let a = stack[stack.len() - 2];
                    match s_operation(op, a, b) {
                        Err(_) => {},
                        Ok(v) => {
                            lemma_exec_code_stack_balance(
                                code,
                                i + 1,
                                stack.drop_last().drop_last().push(v),
                                c,
                                fuel,
                            );
                        },
                    }
                }
            },
            InstrM::MkTuple(ls) => {
                lemma_eval_list_stack_balance(ls, c, fuel);
                let (r, c1) = s_eval_list(ls, c, fuel);
                match r {
                    Err(_) => {},
                    Ok(vs) => {
                        lemma_exec_code_stack_balance(
                            code,
                            i + 1,
                            stack.push(ValM::Tuple(vs)),
                            c1,
                            fuel,
                        );
                    },
                }
            },
            InstrM::MkSet(ls) => {
                lemma_eval_list_stack_balance(ls, c, fuel);
                let (r, c1) = s_eval_list(ls, c, fuel);
                match r {
                    Err(_) => {},
                    Ok(vs) => {
                        lemma_exec_code_stack_balance(
                            code,
                            i + 1,
                            stack.push(ValM::SetOf(vs)),
                            c1,
                            fuel,
                        );
                    },
                }
            },
        }
    }
}

/// Evaluates one expression against the context, by walking the tree.
pub fn run_with_ctx(expr: &Expr, ctx: &mut VmContext) -> (r: Result<Value, Error>)
    ensures
        ({
            let (rm, cm) = s_eval(expr_view(*expr), old(ctx)@, ctx_fuel(old(ctx)@));
            val_res_view(r) == rm && final(ctx)@ == cm
        }),
    decreases ctx_fuel(ctx@), ht(expr_view(*expr)) + 2, 3nat, 0nat,
{
    let ghost fuel = ctx_fuel(ctx@);
    match expr {
        Expr::Value(v) => match v {
            Value::Tuple(ls) => {
                proof {
                    assert(ht(expr_view(*expr)) == 2 + ht_list(exprs_view(ls@)));
                }
                match run_tuple_exprs(ls, ctx) {
                    Ok(vs) => Ok(Value::Tuple(vs)),
                    Err(err) => Err(err),
                }
            },
            Value::SetOf(ls) => {
                proof {
                    assert(ht(expr_view(*expr)) == 2 + ht_list(exprs_view(ls@)));
                }
                match run_tuple_exprs(ls, ctx) {
                    Ok(vs) => Ok(Value::SetOf(vs)),
                    Err(err) => Err(err),
                }
            },
            _ => Ok(clone_value(v)),
        },
        Expr::Ref(name) => run_lookup(name, ctx),
        Expr::Func(name, params) => {
            proof {
                assert(ht(expr_view(*expr)) == 1 + ht_opt(params_opt_view(*params)));
            }
            run_function(name, params, ctx)
        },
        Expr::Comp(op, l, r) => {
            proof {
                assert(expr_view(*expr) == ExprM::Comp(
                    *op,
                    Box::new(expr_view(**l)),
                    Box::new(expr_view(**r)),
                ));
            }
            if *op == Operator::Store {
                match &**l {
                    Expr::Func(name, ps) => {
                        let body = clone_expr(r);
                        match ctx.set_virtual(name, ps, body) {
                            Ok(()) => Ok(Value::Nil),
                            Err(err) => Err(err),
                        }
                    },
                    Expr::Ref(name) => {
                        let body = clone_expr(r);
                        match ctx.set_virtual(name, &None, body) {
                            Ok(()) => Ok(Value::Nil),
                            Err(err) => Err(err),
                        }
                    },
                    _ => Err(Error::AssignmentTargetInvalid),
                }
            } else {
                let a = match run_with_ctx(l, ctx) {
                    Ok(v) => v,
                    Err(err) => {
                        return Err(err);
                    },
                };
                proof {
                    lemma_eval_stack_balance(expr_view(**l), old(ctx)@, fuel);
                }
                let b = match run_with_ctx(r, ctx) {
                    Ok(v) => v,
                    Err(err) => {
                        return Err(err);
                    },
                };
                run_operation(*op, &a, &b)
            }
        },
    }
}

/// Evaluates each element of a tuple or argument list, left to right,
/// wrapping each result back into a literal expression.
pub fn run_tuple_exprs(params: &Vec<Expr>, ctx: &mut VmContext) -> (r: Result<Vec<Expr>, Error>)
    ensures
        ({
            let (rm, cm) = s_eval_list(exprs_view(params@), old(ctx)@, ctx_fuel(old(ctx)@));
            (match r {
                Ok(vs) => rm == Ok::<Seq<ExprM>, ErrM>(exprs_view(vs@)),
                Err(e) => rm == Err::<Seq<ExprM>, ErrM>(e.deep_view()),
            }) && final(ctx)@ == cm
        }),
    decreases ctx_fuel(ctx@), ht_list(exprs_view(params@)) + 2, 1nat, 0nat,
{
    let ghost fuel = ctx_fuel(ctx@);
    let ghost c0 = ctx@;
    let ghost whole = exprs_view(params@);
    proof {
        lemma_exprs_view(params@);
        assert(params@.skip(0) =~= params@);
    }
    let mut out: Vec<Expr> = Vec::new();
    let n = params.len();
    let mut i: usize = 0;
    while i < n
        invariant
            0 <= i <= n,
            n == params@.len(),
            whole == exprs_view(params@),
            c0 == old(ctx)@,
            fuel == ctx_fuel(c0),
            fuel == ctx_fuel(ctx@),
            ctx@.stack == c0.stack,
            ({
                let (rm, cm) = s_eval_list(whole, c0, fuel);
                let (rs, cs) = s_eval_list(exprs_view(params@.skip(i as int)), ctx@, fuel);
                rm == (match rs {
                    Ok(rest) => Ok::<Seq<ExprM>, ErrM>(exprs_view(out@) + rest),
                    Err(e) => Err::<Seq<ExprM>, ErrM>(e),
                }) && cm == cs
            }),
        decreases n - i,
    {
        proof {
            lemma_exprs_view(params@);
            lemma_exprs_view(params@.skip(i as int));
            lemma_exprs_view(params@.skip(i as int + 1));
            lemma_ht_list_elem(exprs_view(params@), i as int);
            assert(params@.skip(i as int)[0] == params@[i as int]);
            assert(params@.skip(i as int).drop_first() =~= params@.skip(i as int + 1));
            assert(exprs_view(params@.skip(i as int)).drop_first() =~= exprs_view(
                params@.skip(i as int + 1),
            ));
        }
        let ghost cpre = ctx@;
        let v = match run_with_ctx(&params[i], ctx) {
            Ok(v) => v,
            Err(err) => {
                return Err(err);
            },
        };
        proof {
            lemma_eval_stack_balance(expr_view(params@[i as int]), cpre, fuel);
        }
        let ghost opre = out@;
        let ghost outpre = exprs_view(out@);
        let ghost vv = val_view(v);
        out.push(Expr::Value(v));
        proof {
            lemma_exprs_view(out@);
            lemma_exprs_view(opre);
            assert(out@.drop_last() =~= opre);
            assert(exprs_view(out@) =~= outpre + seq![ExprM::Value(vv)]);
            let (rs2, cs2) = s_eval_list(exprs_view(params@.skip(i as int + 1)), ctx@, fuel);
            if let Ok(rest2) = rs2 {
                assert((outpre + seq![ExprM::Value(vv)]) + rest2 =~= outpre + (seq![
                    ExprM::Value(vv),
                ] + rest2));
            }
        }
        i = i + 1;
    }
    proof {
        assert(params@.skip(n as int) =~= Seq::<Expr>::empty());
        assert(exprs_view(params@.skip(n as int)) =~= Seq::<ExprM>::empty());
        assert(exprs_view(out@) + Seq::<ExprM>::empty() =~= exprs_view(out@));
    }
    Ok(out)
}

/// Resolves a bare reference against the context.
pub fn run_lookup(name: &String, ctx: &mut VmContext) -> (r: Result<Value, Error>)
    ensures
        ({
            let (rm, cm) = s_lookup(name@, old(ctx)@, ctx_fuel(old(ctx)@));
            val_res_view(r) == rm && final(ctx)@ == cm
        }),
    decreases ctx_fuel(ctx@), 2nat, 0nat, 0nat,
{
    let table = match ctx.get(name) {
        Some(t) => t,
        None => {
            return Err(Error::VariableUnknown(name.clone()));
        },
    };
    match table.read() {
        Some(f) => {
            let fc = f.clone();
            run_fun_body(name, fc, Vec::new(), ctx)
        },
        None => {
            let zero_args: Vec<Expr> = Vec::new();
            proof {
                lemma_exprs_view(zero_args@);
                assert(exprs_view(zero_args@) =~= Seq::<ExprM>::empty());
            }
            match table.lookup(&Some(zero_args)) {
                Some((_, f)) => {
                    let fc = f.clone();
                    run_fun_body(name, fc, Vec::new(), ctx)
                },
                None => Err(Error::VariableUnknown(name.clone())),
            }
        },
    }
}

/// Runs one stored implementation in a fresh frame: push, run, pop.
fn run_fun_body(
    name: &String,
    f: VmFunction,
    frame: Vec<(String, VmFunctionTable)>,
    ctx: &mut VmContext,
) -> (r: Result<Value, Error>)
    ensures
        ({
            let (rm, cm) = s_run_fun(
                name@,
                crate::context::fun_view(f),
                crate::context::tables_view(frame@),
                old(ctx)@,
                ctx_fuel(old(ctx)@),
            );
            val_res_view(r) == rm && final(ctx)@ == cm
        }),
    decreases ctx_fuel(ctx@), 0nat, 0nat, 0nat,
{
    let ghost fuel = ctx_fuel(ctx@);
    match f {
        VmFunction::Native(n) => native_read(name, n),
        VmFunction::Virtual(body) => {
            match ctx.push_frame(frame) {
                Err(err) => {
                    proof {
                        assert(fuel == 0);
                    }
                    Err(err)
                },
                Ok(()) => {
                    proof {
                        assert(ctx_fuel(ctx@) == fuel - 1);
                    }
                    let r = run_with_ctx(&body, ctx);
                    proof {
                        lemma_eval_stack_balance(
                            expr_view(body),
                            push_ctx(old(ctx)@, crate::context::tables_view(frame@)),
                            (fuel - 1) as nat,
                        );
                    }
                    let popped = ctx.pop_frame();
                    proof {
                        assert(popped);
                    }
                    r
                },
            }
        },
        VmFunction::ByteCode(co) => {
            match ctx.push_frame(frame) {
                Err(err) => {
                    proof {
                        assert(fuel == 0);
                    }
                    Err(err)
                },
                Ok(()) => {
                    proof {
                        assert(ctx_fuel(ctx@) == fuel - 1);
                    }
                    let r = run_bytecode_with_ctx(&co, ctx);
                    proof {
                        lemma_exec_code_stack_balance(
                            code_view(co.code@),
                            0,
                            Seq::empty(),
                            push_ctx(old(ctx)@, crate::context::tables_view(frame@)),
                            (fuel - 1) as nat,
                        );
                    }
                    let popped = ctx.pop_frame();
                    proof {
                        assert(popped);
                    }
                    r
                },
            }
        },
    }
}

/// The value a built-in yields when read without arguments.
fn native_read(name: &String, n: Native) -> (r: Result<Value, Error>)
    ensures
        val_res_view(r) == s_native_read(name@, n),
{
    match n {
        Native::Pi => Ok(Value::Numeric(Num::pi())),
        Native::Euler => Ok(Value::Numeric(Num::e())),
        Native::If => Err(Error::ArityMismatch(name.clone(), 3, 0)),
        _ => Err(Error::ArityMismatch(name.clone(), 1, 0)),
    }
}

/// The frame a matched overload binds: binder slots name the evaluated
/// arguments, literal slots bind nothing.
fn bind_frame(def: &Vec<Expr>, vals: &Vec<Expr>) -> (r: Vec<(String, VmFunctionTable)>)
    ensures
        crate::context::tables_view(r@) == s_bind(exprs_view(def@), exprs_view(vals@)),
{
    proof {
        lemma_exprs_view(def@);
        lemma_exprs_view(vals@);
        assert(def@.skip(0) =~= def@);
        assert(vals@.skip(0) =~= vals@);
    }
    let mut out: Vec<(String, VmFunctionTable)> = Vec::new();
    let n = if def.len() <= vals.len() {
        def.len()
    } else {
        vals.len()
    };
    let mut i: usize = 0;
    proof {
        crate::context::lemma_tables_view(out@);
        assert(crate::context::tables_view(out@) =~= Seq::<(Seq<char>, TableM)>::empty());
    }
    while i < n
        invariant
            0 <= i <= n,
            n == if def@.len() <= vals@.len() {
                def@.len()
            } else {
                vals@.len()
            },
            s_bind(exprs_view(def@), exprs_view(vals@)) == crate::context::tables_view(out@)
                + s_bind(
                exprs_view(def@.skip(i as int)),
                exprs_view(vals@.skip(i as int)),
            ),
        decreases n - i,
    {
        proof {
            lemma_exprs_view(def@);
            lemma_exprs_view(vals@);
            lemma_exprs_view(def@.skip(i as int));
            lemma_exprs_view(vals@.skip(i as int));
            lemma_exprs_view(def@.skip(i as int + 1));
            lemma_exprs_view(vals@.skip(i as int + 1));
            assert(def@.skip(i as int)[0] == def@[i as int]);
            assert(vals@.skip(i as int)[0] == vals@[i as int]);
            assert(def@.skip(i as int).drop_first() =~= def@.skip(i as int + 1));
            assert(vals@.skip(i as int).drop_first() =~= vals@.skip(i as int + 1));
            assert(exprs_view(def@.skip(i as int)).drop_first() =~= exprs_view(
                def@.skip(i as int + 1),
            ));
            assert(exprs_view(vals@.skip(i as int)).drop_first() =~= exprs_view(
                vals@.skip(i as int + 1),
            ));
        }
        let ghost opre = out@;
        let ghost outpre = crate::context::tables_view(out@);
        match &def[i] {
            Expr::Ref(bname) => {
                let mut t = VmFunctionTable::new();
                t.set_read(VmFunction::Virtual(clone_expr(&vals[i])));
                out.push((bname.clone(), t));
                proof {
                    crate::context::lemma_tables_view(out@);
                    crate::context::lemma_tables_view(opre);
                    assert(out@.drop_last() =~= opre);
                    assert(crate::context::tables_view(out@) =~= outpre.push(
                        (out@.last().0@, out@.last().1@),
                    ));
                    let rest = s_bind(
                        exprs_view(def@.skip(i as int + 1)),
                        exprs_view(vals@.skip(i as int + 1)),
                    );
                    assert(outpre.push((out@.last().0@, out@.last().1@)) + rest =~= outpre + (
                    seq![(out@.last().0@, out@.last().1@)] + rest));
                }
            },
            _ => {},
        }
        i = i + 1;
    }
    proof {
        assert(exprs_view(def@.skip(n as int)).len() == 0 || exprs_view(
            vals@.skip(n as int),
        ).len() == 0) by {
            lemma_exprs_view(def@.skip(n as int));
            lemma_exprs_view(vals@.skip(n as int));
        }
        assert(s_bind(exprs_view(def@.skip(n as int)), exprs_view(vals@.skip(n as int)))
            =~= Seq::<(Seq<char>, TableM)>::empty());
        assert(crate::context::tables_view(out@) + Seq::<(Seq<char>, TableM)>::empty()
            =~= crate::context::tables_view(out@));
    }
    out
}

/// Calls a name with optional arguments against the context.
pub fn run_function(name: &String, params: &Option<Vec<Expr>>, ctx: &mut VmContext) -> (r: Result<
    Value,
    Error,
>)
    ensures
        ({
            let (rm, cm) = s_call(
                name@,
                params_opt_view(*params),
                old(ctx)@,
                ctx_fuel(old(ctx)@),
            );
            val_res_view(r) == rm && final(ctx)@ == cm
        }),
    decreases ctx_fuel(ctx@), ht_opt(params_opt_view(*params)) + 2, 2nat, 0nat,
{
    let ghost fuel = ctx_fuel(ctx@);
    let ghost c0 = ctx@;
    let table = match ctx.get(name) {
        Some(t) => t,
        None => {
            return Err(Error::FunctionUnknown(name.clone()));
        },
    };
    match params {
        None => {
            match table.read() {
                Some(f) => {
                    let fc = f.clone();
                    run_fun_body(name, fc, Vec::new(), ctx)
                },
                None => Err(Error::FunctionUnknown(name.clone())),
            }
        },
        Some(args) => {
            proof {
                lemma_exprs_view(args@);
                assert(ht_opt(params_opt_view(*params)) == 1 + ht_list(exprs_view(args@)));
            }
            let raw_native: Option<Native> = match table.lookup(params) {
                Some((_, f)) => match f {
                    VmFunction::Native(n) => Some(*n),
                    _ => None,
                },
                None => None,
            };
            if let Some(n) = raw_native {
                return run_native(name, n, args, ctx);
            }
            let vals = match run_tuple_exprs(args, ctx) {
                Ok(vs) => vs,
                Err(err) => {
                    return Err(err);
                },
            };
            proof {
                lemma_eval_list_stack_balance(exprs_view(args@), c0, fuel);
            }
            let valsopt = Some(vals);
            match table.lookup(&valsopt) {
                None => Err(Error::NoMatchingOverload(name.clone(), args.len())),
                Some((d, f)) => match f {
                    VmFunction::Native(n) => {
                        let n2 = *n;
                        run_native(name, n2, args, ctx)
                    },
                    _ => {
                        let fc = f.clone();
                        let frame = match (d, &valsopt) {
                            (Some(dd), Some(vs)) => bind_frame(dd, vs),
                            _ => Vec::new(),
                        };
                        run_fun_body(name, fc, frame, ctx)
                    },
                },
            }
        },
    }
}

/// Runs one built-in on its raw arguments.
fn run_native(name: &String, n: Native, args: &Vec<Expr>, ctx: &mut VmContext) -> (r: Result<
    Value,
    Error,
>)
    ensures
        ({
            let (rm, cm) = s_native(
                name@,
                n,
                exprs_view(args@),
                old(ctx)@,
                ctx_fuel(old(ctx)@),
            );
            val_res_view(r) == rm && final(ctx)@ == cm
        }),
    decreases ctx_fuel(ctx@), ht_list(exprs_view(args@)) + 2, 2nat, 0nat,
{
    let ghost fuel = ctx_fuel(ctx@);
    let ghost c0 = ctx@;
    proof {
        lemma_exprs_view(args@);
    }
    match n {
        Native::Pi => native_read(name, n),
        Native::Euler => native_read(name, n),
        Native::If => {
            if args.len() != 3 {
                return Err(Error::ArityMismatch(name.clone(), 3, args.len()));
            }
            proof {
                lemma_ht_list_elem(exprs_view(args@), 0);
                lemma_ht_list_elem(exprs_view(args@), 1);
                lemma_ht_list_elem(exprs_view(args@), 2);
            }
            let cond = match run_with_ctx(&args[0], ctx) {
                Ok(v) => v,
                Err(err) => {
                    return Err(err);
                },
            };
            proof {
                lemma_eval_stack_balance(expr_view(args@[0]), c0, fuel);
            }
            let b = match to_truth(&cond) {
                Ok(t) => t,
                Err(err) => {
                    return Err(err);
                },
            };
            if b {
                run_with_ctx(&args[1], ctx)
            } else {
                run_with_ctx(&args[2], ctx)
            }
        },
        Native::Sqrt => {
            if args.len() != 1 && args.len() != 2 {
                return Err(Error::ArityMismatch(name.clone(), 1, args.len()));
            }
            let vals = match run_tuple_exprs(args, ctx) {
                Ok(vs) => vs,
                Err(err) => {
                    return Err(err);
                },
            };
            proof {
                lemma_exprs_view(vals@);
            }
            let x = match elem_num(&vals, 0) {
                Ok(q) => q,
                Err(err) => {
                    return Err(err);
                },
            };
            if args.len() == 1 {
                let h = Num::half();
                match x.checked_pow(&h) {
                    Ok(q) => Ok(Value::Numeric(q)),
                    Err(err) => Err(err),
                }
            } else {
                let nn = match elem_num(&vals, 1) {
                    Ok(q) => q,
                    Err(err) => {
                        return Err(err);
                    },
                };
                let one = Num::one();
                match one.checked_div(&nn) {
                    Err(err) => Err(err),
                    Ok(exp) => match x.checked_pow(&exp) {
                        Ok(q) => Ok(Value::Numeric(q)),
                        Err(err) => Err(err),
                    },
                }
            }
        },
        Native::Log => {
            if args.len() != 1 && args.len() != 2 {
                return Err(Error::ArityMismatch(name.clone(), 1, args.len()));
            }
            let vals = match run_tuple_exprs(args, ctx) {
                Ok(vs) => vs,
                Err(err) => {
                    return Err(err);
                },
            };
            proof {
                lemma_exprs_view(vals@);
            }
            let x = match elem_num(&vals, 0) {
                Ok(q) => q,
                Err(err) => {
                    return Err(err);
                },
            };
            if args.len() == 1 {
                let ten = Num::ten();
                match x.checked_log(&ten) {
                    Ok(q) => Ok(Value::Numeric(q)),
                    Err(err) => Err(err),
                }
            } else {
                let base = match elem_num(&vals, 1) {
                    Ok(q) => q,
                    Err(err) => {
                        return Err(err);
                    },
                };
                match x.checked_log(&base) {
                    Ok(q) => Ok(Value::Numeric(q)),
                    Err(err) => Err(err),
                }
            }
        },
        Native::Assert => {
            if args.len() != 1 {
                return Err(Error::ArityMismatch(name.clone(), 1, args.len()));
            }
            proof {
                lemma_ht_list_elem(exprs_view(args@), 0);
            }
            match run_with_ctx(&args[0], ctx) {
                Ok(Value::Logical(t)) => {
                    if t {
                        Ok(Value::Nil)
                    } else {
                        Err(Error::AssertionFailed)
                    }
                },
                _ => Err(Error::AssertionFailed),
            }
        },
    }
}

/// The number carried by an evaluated element.
fn elem_num(vals: &Vec<Expr>, i: usize) -> (r: Result<Num, Error>)
    requires
        i < vals@.len(),
    ensures
        (match r {
            Ok(q) => Ok(q.deep_view()),
            Err(e) => Err::<NumM, ErrM>(e.deep_view()),
        }) == s_elem_num(exprs_view(vals@), i as int),
{
    proof {
        lemma_exprs_view(vals@);
    }
    match &vals[i] {
        Expr::Value(v) => match v {
            Value::Numeric(q) => Ok(*q),
            _ => Err(Error::CoercionError),
        },
        _ => Err(Error::CoercionError),
    }
}

/// Executes one compiled sequence against the context.
pub fn run_bytecode_with_ctx(co: &CodeObject, ctx: &mut VmContext) -> (r: Result<Value, Error>)
    ensures
        ({
            let (rm, cm) = s_exec_code(
                code_view(co.code@),
                0,
                Seq::empty(),
                old(ctx)@,
                ctx_fuel(old(ctx)@),
            );
            val_res_view(r) == rm && final(ctx)@ == cm
        }),
    decreases ctx_fuel(ctx@), ht_code(code_view(co.code@)) + 2, 3nat, 0nat,
{
    let ghost fuel = ctx_fuel(ctx@);
    let ghost c0 = ctx@;
    let ghost codem = code_view(co.code@);
    proof {
        lemma_code_view(co.code@);
    }
    let mut stack: Vec<Value> = Vec::new();
    let n = co.code.len();
    let mut i: usize = 0;
    proof {
        assert(vals_view(stack@) =~= Seq::<ValM>::empty());
    }
    while i < n
        invariant
            0 <= i <= n,
            n == co.code@.len(),
            codem == code_view(co.code@),
            c0 == old(ctx)@,
            fuel == ctx_fuel(c0),
            fuel == ctx_fuel(ctx@),
            ctx@.stack == c0.stack,
            s_exec_code(codem, 0, Seq::empty(), c0, fuel) == s_exec_code(
                codem,
                i as nat,
                vals_view(stack@),
                ctx@,
                fuel,
            ),
        decreases n - i,
    {
        proof {
            lemma_code_view(co.code@);
            lemma_ht_code_elem(codem, i as int);
            lemma_vals_view(stack@);
        }
        let ghost cpre = ctx@;
        let ghost stackpre = vals_view(stack@);
        match &co.code[i] {
            Instruction::Push(v) => {
                let c = clone_value(v);
                let ghost spre = stack@;
                stack.push(c);
                proof {
                    lemma_vals_view(stack@);
                    lemma_vals_view(spre);
                    assert(stack@.drop_last() =~= spre);
                    assert(vals_view(stack@) =~= stackpre.push(val_view(*v)));
                }
            },
            Instruction::Load(name) => {
                let v = match run_lookup(name, ctx) {
                    Ok(v) => v,
                    Err(err) => {
                        return Err(err);
                    },
                };
                proof {
                    lemma_lookup_stack_balance(name@, cpre, fuel);
                }
                let ghost vv = val_view(v);
                let ghost spre = stack@;
                stack.push(v);
                proof {
                    lemma_vals_view(stack@);
                    lemma_vals_view(spre);
                    assert(stack@.drop_last() =~= spre);
                    assert(vals_view(stack@) =~= stackpre.push(vv));
                }
            },
            Instruction::Call(name, params) => {
                proof {
                    assert(ht_instr(codem[i as int]) == 1 + ht_opt(params_opt_view(*params)));
                }
                let v = match run_function(name, params, ctx) {
                    Ok(v) => v,
                    Err(err) => {
                        return Err(err);
                    },
                };
                proof {
                    lemma_call_stack_balance(name@, params_opt_view(*params), cpre, fuel);
                }
                let ghost vv = val_view(v);
                let ghost spre = stack@;
                stack.push(v);
                proof {
                    lemma_vals_view(stack@);
                    lemma_vals_view(spre);
                    assert(stack@.drop_last() =~= spre);
                    assert(vals_view(stack@) =~= stackpre.push(vv));
                }
            },
            Instruction::Move(name, params, body) => {
                let bodyc = clone_expr(body);
                match ctx.set_virtual(name, params, bodyc) {
                    Ok(()) => {
                        let ghost spre = stack@;
                        stack.push(Value::Nil);
                        proof {
                            lemma_vals_view(stack@);
                            lemma_vals_view(spre);
                            assert(stack@.drop_last() =~= spre);
                            assert(vals_view(stack@) =~= stackpre.push(ValM::Nil));
                        }
                    },
                    Err(err) => {
                        return Err(err);
                    },
                }
            },
            Instruction::BinOp(op) => {
                if stack.len() < 2 {
                    return Err(Error::InvalidBytecode);
                }
                let ghost pre1 = stack@;
                let b = stack.pop().unwrap();
                let ghost pre2 = stack@;
                let a = stack.pop().unwrap();
                proof {
                    lemma_vals_view(pre1);
                    lemma_vals_view(pre2);
                    lemma_vals_view(stack@);
                    assert(pre2 =~= pre1.drop_last());
                    assert(stack@ =~= pre2.drop_last());
                    assert(vals_view(stack@) =~= stackpre.drop_last().drop_last());
                    assert(val_view(b) == stackpre.last());
                    assert(val_view(a) == stackpre[stackpre.len() - 2]);
                }
                match run_operation(*op, &a, &b) {
                    Ok(v) => {
                        let ghost vv = val_view(v);
                        let ghost spre = stack@;
                        stack.push(v);
                        proof {
                            lemma_vals_view(stack@);
                            lemma_vals_view(spre);
                            assert(stack@.drop_last() =~= spre);
                            assert(vals_view(stack@) =~= stackpre.drop_last().drop_last().push(
                                vv,
                            ));
                        }
                    },
                    Err(err) => {
                        return Err(err);
                    },
                }
            },
            Instruction::MkTuple(ls) => {
                proof {
                    assert(ht_instr(codem[i as int]) == 1 + ht_list(exprs_view(ls@)));
                }
                let vs = match run_tuple_exprs(ls, ctx) {
                    Ok(vs) => vs,
                    Err(err) => {
                        return Err(err);
                    },
                };
                proof {
                    lemma_eval_list_stack_balance(exprs_view(ls@), cpre, fuel);
                }
                let v = Value::Tuple(vs);
                let ghost vv = val_view(v);
                let ghost spre = stack@;
                stack.push(v);
                proof {
                    lemma_vals_view(stack@);
                    lemma_vals_view(spre);
                    assert(stack@.drop_last() =~= spre);
                    assert(vals_view(stack@) =~= stackpre.push(vv));
                }
            },
            Instruction::MkSet(ls) => {
                proof {
                    assert(ht_instr(codem[i as int]) == 1 + ht_list(exprs_view(ls@)));
                }
                let vs = match run_tuple_exprs(ls, ctx) {
                    Ok(vs) => vs,
                    Err(err) => {
                        return Err(err);
                    },
                };
                proof {
                    lemma_eval_list_stack_balance(exprs_view(ls@), cpre, fuel);
                }
                let v = Value::SetOf(vs);
                let ghost vv = val_view(v);
                let ghost spre = stack@;
                stack.push(v);
                proof {
                    lemma_vals_view(stack@);
                    lemma_vals_view(spre);
                    assert(stack@.drop_last() =~= spre);
                    assert(vals_view(stack@) =~= stackpre.push(vv));
                }
            },
        }
        i = i + 1;
    }
    let ghost prefinal = stack@;
    match stack.pop() {
        Some(v) => {
            proof {
                lemma_vals_view(prefinal);
            }
            Ok(v)
        },
        None => Err(Error::InvalidBytecode),
    }
}

/// A pure expression evaluates the same in every context, to its pure
/// value, and leaves the context untouched.
pub proof fn lemma_pure_eval(e: ExprM, c: CtxM, fuel: nat)
    requires
        crate::optimizer::is_pure(e),
    ensures
        s_eval(e, c, fuel) == (crate::optimizer::eval_pure(e), c),
    decreases fuel, ht(e) + 2, 3nat, 0nat,
{
    match e {
        ExprM::Value(v) => match v {
            ValM::Tuple(ls) => {
                lemma_pure_eval_list(ls, c, fuel);
            },
            ValM::SetOf(ls) => {
                lemma_pure_eval_list(ls, c, fuel);
            },
            _ => {},
        },
        ExprM::Comp(op, l, r) => {
            if op != Operator::Store {
                lemma_pure_eval(*l, c, fuel);
                if crate::optimizer::eval_pure(*l) is Ok {
                    lemma_pure_eval(*r, c, fuel);
                }
            }
        },
        _ => {},
    }
}

proof fn lemma_pure_eval_list(es: Seq<ExprM>, c: CtxM, fuel: nat)
    requires
        crate::optimizer::list_pure(es),
    ensures
        s_eval_list(es, c, fuel) == (crate::optimizer::eval_pure_list(es), c),
    decreases fuel, ht_list(es) + 2, 1nat, 0nat,
{
    if es.len() > 0 {
        lemma_ht_list_elem(es, 0);
        crate::ast::lemma_ht_list_tail(es);
        lemma_pure_eval(es[0], c, fuel);
        if crate::optimizer::eval_pure(es[0]) is Ok {
            lemma_pure_eval_list(es.drop_first(), c, fuel);
        }
    }
}

/// The optimizer is sound under the interpreter: for a well-formed
/// expression without references or calls that evaluates successfully,
/// evaluating the optimized expression gives exactly the same result, in
/// every context and at every recursion budget.
pub proof fn lemma_optimize_preserves_evaluation(e: ExprM, c: CtxM, fuel: nat)
    requires
        crate::optimizer::is_pure(e),
        crate::ast::expr_wfm(e),
        crate::optimizer::eval_pure(e) is Ok,
    ensures
        s_eval(crate::optimizer::s_opt(e), c, fuel) == s_eval(e, c, fuel),
{
    lemma_pure_eval(e, c, fuel);
    crate::optimizer::lemma_opt_preserves_pure(e);
    lemma_pure_eval(crate::optimizer::s_opt(e), c, fuel);
    crate::optimizer::lemma_opt_sound(e);
}

/// A binder slot binds its name to the matching evaluated argument: the
/// frame a matched overload builds resolves the name of its first binder
/// occurrence to a read slot holding exactly that argument.
pub proof fn lemma_bind_frame_get(def: Seq<ExprM>, vals: Seq<ExprM>, i: int, name: Seq<char>)
    requires
        0 <= i < def.len(),
        i < vals.len(),
        def[i] == ExprM::Ref(name),
        forall|j: int| 0 <= j < i ==> #[trigger] def[j] != ExprM::Ref(name),
    ensures
        crate::context::tbl_get(s_bind(def, vals), name) == Some(
            TableM { read: Some(FunM::Virtual(vals[i])), overloads: Seq::<
                crate::context::OvlM,
            >::empty() },
        ),
    decreases i,
{
    let frame = s_bind(def, vals);
    let binding = TableM {
        read: Some(FunM::Virtual(vals[i])),
        overloads: Seq::<crate::context::OvlM>::empty(),
    };
    if i == 0 {
        assert(frame == seq![(name, binding)] + s_bind(def.drop_first(), vals.drop_first()));
        assert(frame[0] == (name, binding));
        assert(crate::context::tbl_get(frame, name) == Some(binding));
    } else {
        let dtail = def.drop_first();
        let vtail = vals.drop_first();
        assert(dtail[i - 1] == def[i]);
        assert(vtail[i - 1] == vals[i]);
        assert forall|j: int| 0 <= j < i - 1 implies #[trigger] dtail[j] != ExprM::Ref(name) by {
            assert(dtail[j] == def[j + 1]);
        }
        lemma_bind_frame_get(dtail, vtail, i - 1, name);
        match def[0] {
            ExprM::Ref(n0) => {
                assert(n0 != name) by {
                    assert(def[0] != ExprM::Ref(name));
                }
                let t0 = TableM {
                    read: Some(FunM::Virtual(vals[0])),
                    overloads: Seq::<crate::context::OvlM>::empty(),
                };
                assert(frame == seq![(n0, t0)] + s_bind(dtail, vtail));
                assert(frame.len() >= 1 && frame[0] == (n0, t0));
                assert(frame.drop_first() =~= s_bind(dtail, vtail));
                assert(crate::context::tbl_get(frame, name) == crate::context::tbl_get(
                    s_bind(dtail, vtail),
                    name,
                ));
            },
            _ => {
                assert(frame == s_bind(dtail, vtail));
            },
        }
    }
}

/// The shadowing law at a call: while the frame a matched overload binds is
/// innermost, the name of a binder slot resolves to the evaluated argument
/// it binds, and popping the frame restores the context exactly — the
/// globals as they were.
pub proof fn lemma_call_shadowing(
    c: CtxM,
    def: Seq<ExprM>,
    vals: Seq<ExprM>,
    i: int,
    name: Seq<char>,
)
    requires
        0 <= i < def.len(),
        i < vals.len(),
        def[i] == ExprM::Ref(name),
        forall|j: int| 0 <= j < i ==> #[trigger] def[j] != ExprM::Ref(name),
    ensures
        ctx_get(push_ctx(c, s_bind(def, vals)), name) == Some(
            TableM { read: Some(FunM::Virtual(vals[i])), overloads: Seq::<
                crate::context::OvlM,
            >::empty() },
        ),
        pop_ctx(push_ctx(c, s_bind(def, vals))) == c,
{
    lemma_bind_frame_get(def, vals, i, name);
    lemma_shadowing(c, s_bind(def, vals), name);
}

/// The shadowing law: a frame binding hides any global binding of the same
/// name for exactly the span of the frame — the binding wins every lookup
/// while the frame is innermost, an unbound name falls through to the
/// globals, and popping the frame restores the context exactly.
pub proof fn lemma_shadowing(c: CtxM, frame: Seq<(Seq<char>, TableM)>, name: Seq<char>)
    ensures
        crate::context::tbl_get(frame, name) matches Some(t) ==> ctx_get(
            push_ctx(c, frame),
            name,
        ) == Some(t),
        crate::context::tbl_get(frame, name) is None ==> ctx_get(push_ctx(c, frame), name)
            == crate::context::tbl_get(c.map, name),
        pop_ctx(push_ctx(c, frame)) == c,
{
    let pushed = push_ctx(c, frame);
    assert(pushed.stack.last() == frame);
    assert(pushed.stack.drop_last() =~= c.stack);
    assert(pop_ctx(pushed) == c);
}

/// The runtime configuration: whether definitions pass through the
/// optimizer before they are stored.
#[derive(Debug, Clone, Copy)]
pub struct VmConfig {
    optimize: bool,
}

impl VmConfig {
    /// The model: whether optimization is on.
    pub closed spec fn view(&self) -> bool {
        self.optimize
    }

    /// The default configuration, with optimization on.
    pub fn new() -> (r: VmConfig)
        ensures
            r@ == true,
    {
        VmConfig { optimize: true }
    }

    /// Whether definitions are optimized before storage.
    pub fn is_optimizing(&self) -> (r: bool)
        ensures
            r == self@,
    {
        self.optimize
    }
}

/// A complete session: the configuration and the mutable environment.
#[derive(Debug)]
pub struct Vm {
    config: VmConfig,
    ctx: VmContext,
}

impl Vm {
    /// The model of the session's environment.
    pub closed spec fn view(&self) -> CtxM {
        self.ctx@
    }

    /// A fresh session over an empty environment.
    pub fn new() -> (r: Vm)
        ensures
            r@ == (CtxM {
                map: Seq::<(Seq<char>, TableM)>::empty(),
                stack: Seq::<Seq<(Seq<char>, TableM)>>::empty(),
                deps: Seq::<(Seq<char>, Seq<Seq<char>>)>::empty(),
            }),
    {
        Vm { config: VmConfig::new(), ctx: VmContext::new() }
    }

    /// The same session under another configuration.
    pub fn with_config(self, config: VmConfig) -> (r: Vm)
        ensures
            r@ == self@,
    {
        Vm { config, ctx: self.ctx }
    }

    /// A fresh session over the standard context.
    pub fn with_stdlib() -> (r: Vm)
        ensures
            r@ == crate::context::s_stdlib(),
    {
        Vm { config: VmConfig::new(), ctx: VmContext::stdlib() }
    }

    /// The session's configuration.
    pub fn config(&self) -> (r: &VmConfig) {
        &self.config
    }

    /// Parses and evaluates one line of source text: a parse fault or a
    /// compile fault is returned with the context untouched; otherwise the
    /// parsed expression's evaluation decides the result, the fault and the
    /// new context.
    pub fn run(&mut self, raw: &str) -> (r: Result<Value, Error>)
        ensures
            (match crate::parser::s_parse(raw@) {
                Err(e) => (match r {
                    Err(re) => re.deep_view() == e,
                    Ok(_) => false,
                }) && final(self)@ == old(self)@,
                Ok(em) => match crate::compiler::s_compile(em) {
                    Err(e) => (match r {
                        Err(re) => re.deep_view() == e,
                        Ok(_) => false,
                    }) && final(self)@ == old(self)@,
                    Ok(_) => ({
                        let (rm, cm) = s_eval(em, old(self)@, ctx_fuel(old(self)@));
                        val_res_view(r) == rm && final(self)@ == cm
                    }),
                },
            }),
            final(self)@.stack == old(self)@.stack,
    {
        let expr = match crate::parser::parse(raw) {
            Ok(e) => e,
            Err(err) => {
                return Err(err);
            },
        };
        self.run_expr(&expr)
    }

    /// Compiles and executes one expression; by the round-trip law this is
    /// the tree-walking result whenever the expression compiles.
    pub fn run_expr(&mut self, expr: &Expr) -> (r: Result<Value, Error>)
        ensures
            ({
                let cm = crate::compiler::s_compile(expr_view(*expr));
                match cm {
                    Ok(_) => {
                        let (rm, cm2) = s_eval(
                            expr_view(*expr),
                            old(self)@,
                            ctx_fuel(old(self)@),
                        );
                        val_res_view(r) == rm && final(self)@ == cm2
                    },
                    Err(err) => val_res_view(r) == Err::<ValM, ErrM>(err) && final(self)@ == old(
                        self,
                    )@,
                }
            }),
            final(self)@.stack == old(self)@.stack,
    {
        let co = match crate::compiler::compile(expr) {
            Ok(co) => co,
            Err(err) => {
                proof {
                    assert(final(self)@ == old(self)@);
                }
                return Err(err);
            },
        };
        let r = run_bytecode_with_ctx(&co, &mut self.ctx);
        proof {
            crate::compiler::lemma_round_trip(
                expr_view(*expr),
                old(self)@,
                ctx_fuel(old(self)@),
            );
            lemma_eval_stack_balance(expr_view(*expr), old(self)@, ctx_fuel(old(self)@));
        }
        r
    }

    /// Executes one compiled unit.
    pub fn run_bytecode(&mut self, co: &CodeObject) -> (r: Result<Value, Error>)
        ensures
            ({
                let (rm, cm) = s_exec_code(
                    co@,
                    0,
                    Seq::empty(),
                    old(self)@,
                    ctx_fuel(old(self)@),
                );
                val_res_view(r) == rm && final(self)@ == cm
            }),
    {
        run_bytecode_with_ctx(co, &mut self.ctx)
    }

    /// Rewrites an expression into its constant-folded form, in place.
    pub fn optimize(&self, expr: &mut Expr) -> (r: Result<(), Error>)
        ensures
            r is Ok,
            expr_view(*final(expr)) == crate::optimizer::s_opt(expr_view(*old(expr))),
    {
        let folded = crate::optimizer::optimize(expr);
        *expr = folded;
        Ok(())
    }
}

/// A candidate generator: counts whole numbers upward until every stored
/// constraint evaluates to truth, within a fixed search bound.
#[derive(Debug)]
pub struct GenType {
    constraints: Vec<Expr>,
    current: Num,
}

impl GenType {
    /// A generator with no constraints, starting from zero.
    pub fn new() -> (r: GenType)
        ensures
            r.current_view() == (NumM { n: 0, d: 1 }),
    {
        GenType { constraints: Vec::new(), current: Num::from_int(0) }
    }

    /// The model of the counter.
    pub closed spec fn current_view(&self) -> NumM {
        self.current.deep_view()
    }

    /// Membership testing is not realized; the call leaves the generator
    /// unchanged, as the design left it.
    pub fn contains(&mut self)
        ensures
            *final(self) == *old(self),
    {
    }

    /// The next candidate satisfying every constraint, searching at most a
    /// fixed number of steps from the current counter.
    pub fn next(&mut self, vm: &mut Vm) -> (r: Option<Value>) {
        let mut attempts: u32 = 0;
        while attempts < 100000
            invariant
                true,
            decreases 100000 - attempts,
        {
            let mut all_true = true;
            let nc = self.constraints.len();
            let mut k: usize = 0;
            while k < nc
                invariant
                    0 <= k <= nc,
                    nc == self.constraints@.len(),
                decreases nc - k,
            {
                let ok = match vm.run_expr(&self.constraints[k]) {
                    Ok(Value::Logical(t)) => t,
                    _ => false,
                };
                if !ok {
                    all_true = false;
                    break;
                }
                k = k + 1;
            }
            if all_true {
                return Some(Value::Numeric(self.current));
            }
            let one = Num::one();
            match self.current.checked_add(&one) {
                Ok(nx) => {
                    self.current = nx;
                },
                Err(_) => {
                    return None;
                },
            }
            attempts = attempts + 1;
        }
        None
    }
}

/// The view of a machine value stack.
pub open spec fn vals_view(s: Seq<Value>) -> Seq<ValM>
    decreases s,
{
    if s.len() == 0 {
        Seq::empty()
    } else {
        seq![val_view(s[0])] + vals_view(s.drop_first())
    }
}

pub broadcast proof fn lemma_vals_view(s: Seq<Value>)
    ensures
        (#[trigger] vals_view(s)).len() == s.len(),
        forall|i: int| 0 <= i < s.len() ==> vals_view(s)[i] == val_view(s[i]),
    decreases s.len(),
{
    if s.len() > 0 {
        lemma_vals_view(s.drop_first());
        assert forall|i: int| 0 <= i < s.len() implies vals_view(s)[i] == val_view(s[i]) by {
            if i > 0 {
                assert(s.drop_first()[i - 1] == s[i]);
            }
        }
    }
}

#[via_fn]
proof fn s_eval_decreases(e: ExprM, c: CtxM, fuel: nat) {
    match e {
        ExprM::Value(v) => {
            assert(ht(e) == 1 + crate::ast::ht_val(v));
        },
        ExprM::Func(name, args) => {
            assert(ht(e) == 1 + ht_opt(args));
        },
        _ => {},
    }
}

#[via_fn]
proof fn s_eval_list_decreases(es: Seq<ExprM>, c: CtxM, fuel: nat) {
    if es.len() > 0 {
        lemma_ht_list_elem(es, 0);
        crate::ast::lemma_ht_list_tail(es);
    }
}

#[via_fn]
proof fn s_call_decreases(name: Seq<char>, params: Option<Seq<ExprM>>, c: CtxM, fuel: nat) {
}

#[via_fn]
proof fn s_native_decreases(name: Seq<char>, n: Native, args: Seq<ExprM>, c: CtxM, fuel: nat) {
    if args.len() == 3 {
        lemma_ht_list_elem(args, 0);
        lemma_ht_list_elem(args, 1);
        lemma_ht_list_elem(args, 2);
    }
    if args.len() >= 1 {
        lemma_ht_list_elem(args, 0);
    }
}

#[via_fn]
proof fn s_exec_code_decreases(code: Seq<InstrM>, i: nat, stack: Seq<ValM>, c: CtxM, fuel: nat) {
    if i < code.len() {
        lemma_ht_code_elem(code, i as int);
    }
}

} // verus!
